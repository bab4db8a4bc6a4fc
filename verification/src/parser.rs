//! The extractor: from the text of a file to the definitions found in it.
//!
//! A line is read after the white space at its ends is taken off; blank
//! lines and lines that start with `#` are passed over. Three rules are
//! tried in turn on what is left:
//!
//! 1. `alias NAME=...` gives an alias;
//! 2. `function NAME ...` gives a function;
//! 3. `NAME()`, with or without white space before the brackets, gives a
//!    function, unless the line starts with `alias `.
//!
//! A name is a run of ASCII letters, digits, `_` and `-`. Anything else is
//! ignored: this is a matcher of patterns, not a shell grammar.

use crate::command::{fragments_of, Command, CommandType, Fragment};
use crate::security::{quoted_content, quoted_span};
use crate::text::{
    chars_of, find_first, first_in, lemma_first_in, slice_of, text_of, trim, trimmed, CharClass,
};
use vstd::prelude::*;

verus! {

/// The word that opens an alias.
pub open spec fn alias_keyword() -> Seq<char> {
    seq!['a', 'l', 'i', 'a', 's']
}

/// The word that opens a function in its keyword form.
pub open spec fn function_keyword() -> Seq<char> {
    seq!['f', 'u', 'n', 'c', 't', 'i', 'o', 'n']
}

/// The start of a line that the third rule never reads as a function.
pub open spec fn alias_guard() -> Seq<char> {
    seq!['a', 'l', 'i', 'a', 's', ' ']
}

/// Whether `line` begins with `word`.
pub open spec fn starts_with(line: Seq<char>, word: Seq<char>) -> bool {
    word.len() <= line.len() && line.take(word.len() as int) == word
}

/// Where the name stands in a line that begins with `keyword`, some white
/// space and a name.
pub open spec fn name_after(line: Seq<char>, keyword: Seq<char>) -> Option<(int, int)> {
    let from = first_in(line, keyword.len() as int, CharClass::NotSpace);
    let to = first_in(line, from, CharClass::NotName);
    if starts_with(line, keyword) && keyword.len() < from && from < to {
        Some((from, to))
    } else {
        None
    }
}

/// The first rule: where the name stands in `alias NAME=...`.
pub open spec fn alias_name(line: Seq<char>) -> Option<(int, int)> {
    match name_after(line, alias_keyword()) {
        Some((from, to)) => if to < line.len() && line[to] == '=' {
            Some((from, to))
        } else {
            None
        },
        None => None,
    }
}

/// The second rule: where the name stands in `function NAME ...`.
pub open spec fn function_name(line: Seq<char>) -> Option<(int, int)> {
    name_after(line, function_keyword())
}

/// The third rule, without its guard: where the name stands in `NAME()`.
pub open spec fn bare_name(line: Seq<char>) -> Option<(int, int)> {
    let to = first_in(line, 0, CharClass::NotName);
    let bracket = first_in(line, to, CharClass::NotSpace);
    if 0 < to && bracket + 1 < line.len() && line[bracket] == '(' && line[bracket + 1] == ')' {
        Some((0, to))
    } else {
        None
    }
}

/// The value of an alias whose `=` stands just before `value`, and whether
/// it is unterminated. Where the line holds a closed pair of quotes, the
/// value is what they enclose. Where it does not, the value is the rest of
/// the line from `value` on, less a quote that opens it; it counts as
/// unterminated if the line holds a quote at all.
pub open spec fn alias_body(line: Seq<char>, value: int) -> (Seq<char>, bool) {
    match quoted_content(line) {
        Some(text) => (text, false),
        None => {
            let from = if value < line.len() && CharClass::Quote.holds(line[value]) {
                value + 1
            } else {
                value
            };
            (line.subrange(from, line.len() as int), first_in(line, 0, CharClass::Quote) < line.len())
        },
    }
}

/// What a line, trimmed, defines.
pub open spec fn fragment_of(line: Seq<char>) -> Option<Fragment> {
    if let Some((from, to)) = alias_name(line) {
        let (body, unterminated) = alias_body(line, to + 1);
        Some(
            Fragment {
                name: line.subrange(from, to),
                command_type: CommandType::Alias,
                body,
                unterminated,
            },
        )
    } else if let Some((from, to)) = function_name(line) {
        Some(
            Fragment {
                name: line.subrange(from, to),
                command_type: CommandType::Function,
                body: line,
                unterminated: false,
            },
        )
    } else if let Some((from, to)) = bare_name(line) {
        if starts_with(line, alias_guard()) {
            None
        } else {
            Some(
                Fragment {
                    name: line.subrange(from, to),
                    command_type: CommandType::Function,
                    body: line,
                    unterminated: false,
                },
            )
        }
    } else {
        None
    }
}

/// What a line of a file defines: nothing if it is blank or a comment.
pub open spec fn line_fragment(raw: Seq<char>) -> Option<Fragment> {
    let line = trim(raw);
    if line.len() == 0 || line[0] == '#' {
        None
    } else {
        fragment_of(line)
    }
}

/// What the lines of `content` define from index `from` on, which is the
/// start of a line.
pub open spec fn fragments_from(content: Seq<char>, from: int) -> Seq<Fragment>
    decreases content.len() - from,
    via fragments_from_decreases
{
    if 0 <= from <= content.len() {
        let end = first_in(content, from, CharClass::Exactly('\n'));
        let rest = if end < content.len() {
            fragments_from(content, end + 1)
        } else {
            Seq::empty()
        };
        match line_fragment(content.subrange(from, end)) {
            Some(found) => seq![found] + rest,
            None => rest,
        }
    } else {
        Seq::empty()
    }
}

#[via_fn]
proof fn fragments_from_decreases(content: Seq<char>, from: int) {
    if 0 <= from <= content.len() {
        lemma_first_in(content, from, CharClass::Exactly('\n'));
    }
}

/// What a file defines: what each of its lines defines, in order.
pub open spec fn fragments(content: Seq<char>) -> Seq<Fragment> {
    fragments_from(content, 0)
}

/// Whether `line` begins with `word`.
pub fn begins_with(line: &Vec<char>, word: &Vec<char>) -> (b: bool)
    ensures
        b == starts_with(line@, word@),
{
    if word.len() > line.len() {
        return false;
    }
    let mut i: usize = 0;
    while i < word.len()
        invariant
            i <= word@.len() <= line@.len(),
            line@.take(i as int) == word@.take(i as int),
        decreases word@.len() - i,
    {
        if line[i] != word[i] {
            assert(line@.take(word@.len() as int)[i as int] != word@[i as int]);
            return false;
        }
        assert(line@.take(i + 1) == line@.take(i as int).push(line@[i as int]));
        assert(word@.take(i + 1) == word@.take(i as int).push(word@[i as int]));
        i += 1;
    }
    assert(word@.take(i as int) == word@);
    true
}

/// Where the name stands in a line that begins with `keyword`, some white
/// space and a name.
fn find_name_after(line: &Vec<char>, keyword: &Vec<char>) -> (r: Option<(usize, usize)>)
    ensures
        match r {
            Some((from, to)) => from < to <= line@.len() && name_after(line@, keyword@) == Some(
                (from as int, to as int),
            ),
            None => name_after(line@, keyword@) is None,
        },
{
    if !begins_with(line, keyword) {
        return None;
    }
    let from = find_first(line, keyword.len(), CharClass::NotSpace);
    let to = find_first(line, from, CharClass::NotName);
    if keyword.len() < from && from < to {
        Some((from, to))
    } else {
        None
    }
}

/// The definition that a line holds, if it holds one. The line is taken as
/// it stands: the caller has trimmed it and has passed over blank lines and
/// comments.
pub fn parse_line(line: &Vec<char>) -> (r: Option<Command>)
    ensures
        match r {
            Some(command) => fragment_of(line@) == Some(command@),
            None => fragment_of(line@) is None,
        },
{
    let size = line.len();
    let alias: Vec<char> = vec!['a', 'l', 'i', 'a', 's'];
    let function: Vec<char> = vec!['f', 'u', 'n', 'c', 't', 'i', 'o', 'n'];
    let guard: Vec<char> = vec!['a', 'l', 'i', 'a', 's', ' '];
    assert(alias@ =~= alias_keyword());
    assert(function@ =~= function_keyword());
    assert(guard@ =~= alias_guard());
    if let Some((from, to)) = find_name_after(line, &alias) {
        if to < size && line[to] == '=' {
            let value = to + 1;
            let (body, unterminated) = match quoted_span(line) {
                Some((open, close)) => (text_of(line, open, close), false),
                None => {
                    let quote = find_first(line, 0, CharClass::Quote);
                    let start = if value < size && CharClass::Quote.test(line[value]) {
                        value + 1
                    } else {
                        value
                    };
                    (text_of(line, start, size), quote < size)
                },
            };
            return Some(
                Command {
                    name: text_of(line, from, to),
                    command_type: CommandType::Alias,
                    body,
                    unterminated,
                },
            );
        }
    }
    if let Some((from, to)) = find_name_after(line, &function) {
        assert(line@.subrange(0, size as int) =~= line@);
        return Some(
            Command {
                name: text_of(line, from, to),
                command_type: CommandType::Function,
                body: text_of(line, 0, size),
                unterminated: false,
            },
        );
    }
    let to = find_first(line, 0, CharClass::NotName);
    let bracket = find_first(line, to, CharClass::NotSpace);
    if 0 < to && bracket < size && size - bracket > 1 && line[bracket] == '(' && line[bracket + 1]
        == ')' {
        if begins_with(line, &guard) {
            return None;
        }
        assert(line@.subrange(0, size as int) =~= line@);
        return Some(
            Command {
                name: text_of(line, 0, to),
                command_type: CommandType::Function,
                body: text_of(line, 0, size),
                unterminated: false,
            },
        );
    }
    None
}

/// The definitions found in the text of one file, in the order of their
/// lines. Never fails: a line that no rule reads is passed over.
pub fn parse_shell_commands(content: &str) -> (commands: Vec<Command>)
    ensures
        fragments_of(commands@) == fragments(content@),
{
    let chars = chars_of(content);
    let mut commands: Vec<Command> = Vec::new();
    let mut from: usize = 0;
    assert(fragments_of(commands@) =~= Seq::<Fragment>::empty());
    loop
        invariant
            from <= chars@.len(),
            chars@ == content@,
            fragments_of(commands@) + fragments_from(chars@, from as int) == fragments(chars@),
        decreases chars@.len() - from,
    {
        let end = find_first(&chars, from, CharClass::Exactly('\n'));
        let raw = slice_of(&chars, from, end);
        let line = trimmed(&raw);
        let ghost before = commands@;
        let ghost here = line_fragment(raw@);
        if line.len() > 0 && line[0] != '#' {
            if let Some(command) = parse_line(&line) {
                commands.push(command);
                assert(fragments_of(commands@) =~= fragments_of(before).push(command@));
            }
        }
        proof {
            let rest = if end < chars@.len() {
                fragments_from(chars@, end + 1)
            } else {
                Seq::<Fragment>::empty()
            };
            match here {
                Some(found) => {
                    assert(fragments_of(commands@) + rest =~= fragments_of(before) + (seq![found]
                        + rest));
                },
                None => {},
            }
        }
        if end >= chars.len() {
            assert(fragments_of(commands@) + Seq::<Fragment>::empty() =~= fragments_of(commands@));
            return commands;
        }
        from = end + 1;
    }
}

/// The third rule never reads an alias line as a function: whatever a line
/// that starts with `alias ` defines, it defines as an alias.
pub proof fn law_alias_line_defines_no_function(line: Seq<char>)
    requires
        starts_with(line, alias_guard()),
    ensures
        fragment_of(line) matches Some(found) ==> found.command_type == CommandType::Alias,
{
    assert(line[0] == alias_guard()[0]) by {
        assert(line.take(6)[0] == line[0]);
    }
    if starts_with(line, function_keyword()) {
        assert(line.take(8)[0] == line[0]);
        assert(function_keyword()[0] == 'f');
    }
}

} // verus!
