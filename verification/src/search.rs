//! Queries over a snapshot of the catalog, by words or by a regular
//! expression, letter case set aside.

use crate::database::{records, Command, Record};
use crate::error::{LscmdError, Result};
use crate::pattern::{pattern_compiles, pattern_matches, regex_matches};
use crate::text::{
    chars_of, find_first, first_in, is_space, lemma_first_in, lemma_first_in_is,
    lemma_first_in_prefix, lemma_first_in_shift, lowercase, slice_of, text_of, CharClass,
};
use regex::Regex;
use vstd::prelude::*;
use vstd::string::StringExecFns;

verus! {

/// The texts that a sequence of character vectors holds.
pub open spec fn texts(words: Seq<Vec<char>>) -> Seq<Seq<char>> {
    words.map_values(|w: Vec<char>| w@)
}

/// The commands that a sequence of borrowed commands points to.
pub open spec fn borrowed(found: Seq<&Command>) -> Seq<Command> {
    found.map_values(|c: &Command| *c)
}

/// A condition on records, as a condition on the commands that hold them.
pub open spec fn on_commands(keep: spec_fn(Record) -> bool) -> spec_fn(Command) -> bool {
    |c: Command| keep(c@)
}

/// The records that a sequence of borrowed commands holds.
pub open spec fn borrowed_records(found: Seq<&Command>) -> Seq<Record> {
    found.map_values(|c: &Command| c@)
}

/// Whether `needle` stands in `hay` at index `at`.
pub open spec fn occurs_at(needle: Seq<char>, hay: Seq<char>, at: int) -> bool {
    0 <= at && at + needle.len() <= hay.len() && hay.subrange(at, at + needle.len()) == needle
}

/// Whether `needle` stands somewhere in `hay`.
pub open spec fn occurs_in(needle: Seq<char>, hay: Seq<char>) -> bool {
    exists|at: int| occurs_at(needle, hay, at)
}

/// The words of `s` from index `from` on: its maximal runs of characters
/// that are not white space, in order.
pub open spec fn words_from(s: Seq<char>, from: int) -> Seq<Seq<char>>
    decreases s.len() - from,
    via words_from_decreases
{
    let start = first_in(s, from, CharClass::NotSpace);
    if 0 <= from && start < s.len() {
        let end = first_in(s, start, CharClass::Space);
        seq![s.subrange(start, end)] + words_from(s, end)
    } else {
        Seq::empty()
    }
}

#[via_fn]
proof fn words_from_decreases(s: Seq<char>, from: int) {
    if 0 <= from && from <= s.len() {
        lemma_word_bounds(s, from);
    }
}

/// A word that starts at or after `from` ends after it starts.
pub proof fn lemma_word_bounds(s: Seq<char>, from: int)
    requires
        0 <= from <= s.len(),
    ensures
        ({
            let start = first_in(s, from, CharClass::NotSpace);
            let end = first_in(s, start, CharClass::Space);
            from <= start <= s.len() && (start < s.len() ==> start < end <= s.len())
        }),
{
    lemma_first_in(s, from, CharClass::NotSpace);
    let start = first_in(s, from, CharClass::NotSpace);
    if start < s.len() {
        lemma_first_in(s, start, CharClass::Space);
    }
}

/// The words of a query: what is left when it is split at white space.
pub open spec fn words(s: Seq<char>) -> Seq<Seq<char>> {
    words_from(s, 0)
}

/// Each text in lower case.
pub open spec fn lowered(words: Seq<Seq<char>>) -> Seq<Seq<char>> {
    words.map_values(|w: Seq<char>| lowercase(w))
}

/// Whether one of `needles` stands in `name` or in `code`.
pub open spec fn word_hit(needles: Seq<Seq<char>>, name: Seq<char>, code: Seq<char>) -> bool {
    exists|i: int|
        0 <= i < needles.len() && (occurs_in(#[trigger] needles[i], name) || occurs_in(
            needles[i],
            code,
        ))
}

/// Whether a query, read as words, selects a record: it has no word, or one
/// of its words, in lower case, stands in the lower-case name or code.
pub open spec fn word_selects(query: Seq<char>, r: Record) -> bool {
    let needles = lowered(words(query));
    needles.len() == 0 || word_hit(needles, lowercase(r.name), lowercase(r.code))
}

/// The pattern that a query stands for: the query with letter case switched
/// off in front.
pub open spec fn case_blind(query: Seq<char>) -> Seq<char> {
    "(?i)"@ + query
}

/// Whether a query, read as a pattern, selects a record: the pattern
/// matches in the name or in the code.
pub open spec fn regex_selects(query: Seq<char>, r: Record) -> bool {
    pattern_matches(case_blind(query), r.name) || pattern_matches(case_blind(query), r.code)
}

/// The commands whose flag is set, in order. A command without a flag
/// counts as not flagged.
pub open spec fn flagged(commands: Seq<Command>, flags: Seq<bool>) -> Seq<Command>
    decreases commands.len(),
{
    if commands.len() == 0 {
        Seq::empty()
    } else {
        let rest = flagged(commands.drop_last(), flags);
        let at = commands.len() - 1;
        if at < flags.len() && flags[at] {
            rest.push(commands.last())
        } else {
            rest
        }
    }
}

/// With a flag per command that says whether `keep` holds of its record,
/// the flagged commands are the commands whose record `keep` holds of, and
/// their records are those that `keep` filters out of the records.
pub proof fn lemma_flagged_is_filter(
    commands: Seq<Command>,
    flags: Seq<bool>,
    keep: spec_fn(Record) -> bool,
)
    requires
        flags.len() >= commands.len(),
        forall|i: int| 0 <= i < commands.len() ==> flags[i] == keep(#[trigger] commands[i]@),
    ensures
        flagged(commands, flags) == commands.filter(on_commands(keep)),
        records(flagged(commands, flags)) == records(commands).filter(keep),
    decreases commands.len(),
{
    if commands.len() == 0 {
        assert(records(commands) =~= Seq::<Record>::empty());
        assert(records(flagged(commands, flags)) =~= Seq::<Record>::empty());
        assert(Seq::<Record>::empty().filter(keep) =~= Seq::<Record>::empty()) by {
            Seq::<Record>::empty().lemma_filter_len(keep);
        }
        assert(commands.filter(on_commands(keep)) =~= Seq::<Command>::empty()) by {
            commands.lemma_filter_len(on_commands(keep));
        }
    } else {
        let head = commands.drop_last();
        assert forall|i: int| 0 <= i < head.len() implies flags[i] == keep(#[trigger] head[i]@) by {
            assert(head[i] == commands[i]);
        }
        lemma_flagged_is_filter(head, flags, keep);
        assert(commands =~= head.push(commands.last()));
        head.lemma_filter_push(commands.last(), on_commands(keep));
        assert(records(commands) =~= records(head).push(commands.last()@));
        records(head).lemma_filter_push(commands.last()@, keep);
        let rest = flagged(head, flags);
        assert(flags[commands.len() - 1] == keep(commands[commands.len() - 1]@));
        if flags[commands.len() - 1] {
            assert(records(rest.push(commands.last())) =~= records(rest).push(commands.last()@));
        }
    }
}

/// Splits a query at white space.
pub fn split_words(query: &Vec<char>) -> (found: Vec<Vec<char>>)
    ensures
        texts(found@) == words(query@),
{
    let mut found: Vec<Vec<char>> = Vec::new();
    let mut at: usize = 0;
    assert(texts(found@) =~= Seq::<Seq<char>>::empty());
    loop
        invariant
            at <= query@.len(),
            texts(found@) + words_from(query@, at as int) == words(query@),
        decreases query@.len() - at,
    {
        let start = find_first(query, at, CharClass::NotSpace);
        if start >= query.len() {
            assert(words_from(query@, at as int) =~= Seq::<Seq<char>>::empty());
            assert(texts(found@) + Seq::<Seq<char>>::empty() =~= texts(found@));
            return found;
        }
        let end = find_first(query, start, CharClass::Space);
        proof {
            lemma_word_bounds(query@, at as int);
        }
        let word = slice_of(query, start, end);
        let ghost before = found@;
        found.push(word);
        proof {
            assert(texts(found@) =~= texts(before).push(word@));
            assert(words_from(query@, at as int) == seq![word@] + words_from(query@, end as int));
            assert(texts(found@) + words_from(query@, end as int) =~= texts(before) + words_from(
                query@,
                at as int,
            ));
        }
        at = end;
    }
}

/// Whether `needle` stands in `hay` at index `at`.
pub fn stands_at(hay: &Vec<char>, needle: &Vec<char>, at: usize) -> (b: bool)
    requires
        at + needle@.len() <= hay@.len(),
    ensures
        b == occurs_at(needle@, hay@, at as int),
{
    let size: usize = hay.len();
    let mut i: usize = 0;
    while i < needle.len()
        invariant
            at + needle@.len() <= hay@.len() == size,
            i <= needle@.len(),
            hay@.subrange(at as int, at + i) == needle@.take(i as int),
        decreases needle@.len() - i,
    {
        if hay[at + i] != needle[i] {
            assert(!occurs_at(needle@, hay@, at as int)) by {
                if occurs_at(needle@, hay@, at as int) {
                    assert(hay@.subrange(at as int, at + needle@.len())[i as int]
                        == needle@[i as int]);
                }
            }
            return false;
        }
        assert(hay@.subrange(at as int, at + i + 1) == hay@.subrange(at as int, at + i).push(
            hay@[at + i],
        ));
        assert(needle@.take(i + 1) == needle@.take(i as int).push(needle@[i as int]));
        i += 1;
    }
    assert(needle@.take(i as int) == needle@);
    true
}

/// Whether `needle` stands in `hay`.
pub fn contains_text(hay: &Vec<char>, needle: &Vec<char>) -> (b: bool)
    ensures
        b == occurs_in(needle@, hay@),
{
    if needle.len() > hay.len() {
        return false;
    }
    let last: usize = hay.len() - needle.len();
    let mut at: usize = 0;
    loop
        invariant
            needle@.len() <= hay@.len(),
            last == hay@.len() - needle@.len(),
            at <= last,
            forall|k: int| 0 <= k < at ==> !occurs_at(needle@, hay@, k),
        decreases last - at,
    {
        if stands_at(hay, needle, at) {
            return true;
        }
        if at == last {
            return false;
        }
        at += 1;
    }
}

/// Whether one of `needles` stands in `name` or in `code`.
pub fn any_word_within(needles: &Vec<Vec<char>>, name: &Vec<char>, code: &Vec<char>) -> (b: bool)
    ensures
        b == word_hit(texts(needles@), name@, code@),
{
    let mut i: usize = 0;
    while i < needles.len()
        invariant
            i <= needles@.len(),
            forall|k: int|
                0 <= k < i ==> !occurs_in(#[trigger] texts(needles@)[k], name@) && !occurs_in(
                    texts(needles@)[k],
                    code@,
                ),
        decreases needles@.len() - i,
    {
        assert(texts(needles@)[i as int] == needles@[i as int]@);
        if contains_text(name, &needles[i]) || contains_text(code, &needles[i]) {
            return true;
        }
        i += 1;
    }
    false
}

/// The commands whose flag is set, in the order of `commands`. A command
/// without a flag is left out.
pub fn select<'a>(commands: &'a [Command], flags: &Vec<bool>) -> (found: Vec<&'a Command>)
    ensures
        borrowed(found@) == flagged(commands@, flags@),
{
    let mut found: Vec<&'a Command> = Vec::new();
    let mut i: usize = 0;
    assert(commands@.take(0) =~= Seq::<Command>::empty());
    while i < commands.len()
        invariant
            i <= commands@.len(),
            borrowed(found@) == flagged(commands@.take(i as int), flags@),
        decreases commands@.len() - i,
    {
        let ghost before = found@;
        assert(commands@.take(i + 1).drop_last() =~= commands@.take(i as int));
        if i < flags.len() && flags[i] {
            found.push(&commands[i]);
            assert(borrowed(found@) =~= borrowed(before).push(commands@[i as int]));
        }
        i += 1;
    }
    assert(commands@.take(i as int) =~= commands@);
    found
}

/// A search over a snapshot of the catalog, in one of two modes that is
/// fixed when the engine is made.
#[derive(Debug)]
pub struct SearchEngine {
    regex_mode: bool,
}

impl SearchEngine {
    /// Whether the engine reads a query as a regular expression rather than
    /// as words.
    pub closed spec fn is_regex(self) -> bool {
        self.regex_mode
    }

    /// Whether the engine selects a record for a query. The empty query
    /// selects every record.
    pub open spec fn selects(self, query: Seq<char>, r: Record) -> bool {
        query.len() == 0 || if self.is_regex() {
            regex_selects(query, r)
        } else {
            word_selects(query, r)
        }
    }

    /// `selects` for a fixed query, as a predicate on records.
    pub open spec fn selector(self, query: Seq<char>) -> spec_fn(Record) -> bool {
        |r: Record| self.selects(query, r)
    }

    /// Whether the engine refuses a query: in regex mode, one that is not
    /// empty and is not accepted as a pattern.
    pub open spec fn refuses(self, query: Seq<char>) -> bool {
        self.is_regex() && query.len() > 0 && !pattern_compiles(case_blind(query))
    }

    /// An engine for regular expressions if `regex_mode` is set, for words
    /// if not.
    pub fn new(regex_mode: bool) -> (r: Self)
        ensures
            r.is_regex() == regex_mode,
    {
        Self { regex_mode }
    }

    /// The commands of the snapshot that the query selects, in the order of
    /// the snapshot, which is not changed: what is returned points into
    /// it. Fails, with `SearchPattern`, exactly when the engine refuses the
    /// query.
    pub fn search<'a>(&self, query: &str, commands: &'a [Command]) -> (r: Result<Vec<&'a Command>>)
        ensures
            r is Err <==> self.refuses(query@),
            r matches Err(e) ==> e matches LscmdError::SearchPattern(m) && m@.len() >= 15
                && m@.take(15) == "Invalid regex: "@,
            r matches Ok(found) ==> borrowed(found@) == commands@.filter(
                on_commands(self.selector(query@)),
            ) && borrowed_records(found@) == records(commands@).filter(self.selector(query@)),
    {
        if query.is_empty() {
            let mut flags: Vec<bool> = Vec::new();
            let mut i: usize = 0;
            while i < commands.len()
                invariant
                    i <= commands@.len(),
                    flags@.len() == i,
                    forall|k: int| 0 <= k < i ==> #[trigger] flags@[k],
                decreases commands@.len() - i,
            {
                flags.push(true);
                i += 1;
            }
            let found = select(commands, &flags);
            proof {
                lemma_flagged_is_filter(commands@, flags@, self.selector(query@));
                lemma_borrowed(found@);
            }
            return Ok(found);
        }
        if self.regex_mode {
            self.regex_search(query, commands)
        } else {
            self.word_search(query, commands)
        }
    }

    /// The commands whose name or code the query matches, as a regular
    /// expression that ignores letter case.
    fn regex_search<'a>(&self, query: &str, commands: &'a [Command]) -> (r: Result<
        Vec<&'a Command>,
    >)
        requires
            self.is_regex(),
            query@.len() > 0,
        ensures
            r is Err <==> self.refuses(query@),
            r matches Err(e) ==> e matches LscmdError::SearchPattern(m) && m@.len() >= 15
                && m@.take(15) == "Invalid regex: "@,
            r matches Ok(found) ==> borrowed(found@) == commands@.filter(
                on_commands(self.selector(query@)),
            ) && borrowed_records(found@) == records(commands@).filter(self.selector(query@)),
    {
        let pattern = String::from_str("(?i)").concat(query);
        match Regex::new(pattern.as_str()) {
            Err(e) => {
                let detail = e.to_string();
                let message = String::from_str("Invalid regex: ").concat(detail.as_str());
                proof {
                    reveal_strlit("Invalid regex: ");
                    assert(message@.take(15) =~= "Invalid regex: "@);
                }
                Err(LscmdError::SearchPattern(message))
            },
            Ok(re) => {
                let mut flags: Vec<bool> = Vec::new();
                let mut i: usize = 0;
                while i < commands.len()
                    invariant
                        i <= commands@.len(),
                        flags@.len() == i,
                        forall|text: Seq<char>|
                            #[trigger] regex_matches(re, text) == pattern_matches(
                                case_blind(query@),
                                text,
                            ),
                        forall|k: int|
                            0 <= k < i ==> #[trigger] flags@[k] == regex_selects(
                                query@,
                                commands@[k]@,
                            ),
                    decreases commands@.len() - i,
                {
                    let hit = re.is_match(commands[i].name.as_str()) || re.is_match(
                        commands[i].code.as_str(),
                    );
                    flags.push(hit);
                    i += 1;
                }
                let found = select(commands, &flags);
                proof {
                    lemma_flagged_is_filter(commands@, flags@, self.selector(query@));
                    lemma_borrowed(found@);
                }
                Ok(found)
            },
        }
    }

    /// The commands whose name or code holds one of the words of the query,
    /// letter case set aside; every command where the query has no word.
    fn word_search<'a>(&self, query: &str, commands: &'a [Command]) -> (r: Result<
        Vec<&'a Command>,
    >)
        requires
            !self.is_regex(),
        ensures
            r matches Ok(found) && borrowed(found@) == commands@.filter(
                on_commands(self.selector(query@)),
            ) && borrowed_records(found@) == records(commands@).filter(self.selector(query@)),
    {
        let raw = split_words(&chars_of(query));
        let mut needles: Vec<Vec<char>> = Vec::new();
        let mut w: usize = 0;
        assert(texts(needles@) =~= lowered(texts(raw@).take(0)));
        while w < raw.len()
            invariant
                w <= raw@.len(),
                texts(needles@) == lowered(texts(raw@).take(w as int)),
            decreases raw@.len() - w,
        {
            let word = text_of(&raw[w], 0, raw[w].len());
            let lower = chars_of(word.as_str().to_lowercase().as_str());
            let ghost before = needles@;
            needles.push(lower);
            proof {
                assert(word@ =~= raw@[w as int]@);
                assert(texts(needles@) =~= texts(before).push(lower@));
                assert(texts(raw@).take(w + 1) =~= texts(raw@).take(w as int).push(
                    raw@[w as int]@,
                ));
                assert(lowered(texts(raw@).take(w + 1)) =~= lowered(
                    texts(raw@).take(w as int),
                ).push(lowercase(raw@[w as int]@)));
            }
            w += 1;
        }
        assert(texts(raw@).take(w as int) =~= texts(raw@));
        let mut flags: Vec<bool> = Vec::new();
        let mut i: usize = 0;
        while i < commands.len()
            invariant
                i <= commands@.len(),
                flags@.len() == i,
                texts(needles@) == lowered(words(query@)),
                forall|k: int|
                    0 <= k < i ==> #[trigger] flags@[k] == word_selects(query@, commands@[k]@),
            decreases commands@.len() - i,
        {
            let hit = if needles.len() == 0 {
                true
            } else {
                let name = chars_of(commands[i].name.as_str().to_lowercase().as_str());
                let code = chars_of(commands[i].code.as_str().to_lowercase().as_str());
                any_word_within(&needles, &name, &code)
            };
            flags.push(hit);
            i += 1;
        }
        let found = select(commands, &flags);
        proof {
            lemma_flagged_is_filter(commands@, flags@, self.selector(query@));
            lemma_borrowed(found@);
        }
        Ok(found)
    }
}

/// The words of `prefix + rest` that start in `rest` are the words of
/// `rest`.
pub proof fn lemma_words_shift(prefix: Seq<char>, rest: Seq<char>, from: int)
    requires
        0 <= from <= rest.len(),
    ensures
        words_from(prefix + rest, prefix.len() + from) == words_from(rest, from),
    decreases rest.len() - from,
{
    let s = prefix + rest;
    let n = prefix.len() as int;
    lemma_first_in_shift(prefix, rest, from, CharClass::NotSpace);
    lemma_word_bounds(rest, from);
    let start = first_in(rest, from, CharClass::NotSpace);
    if start < rest.len() {
        lemma_first_in_shift(prefix, rest, start, CharClass::Space);
        let end = first_in(rest, start, CharClass::Space);
        assert(s.subrange(n + start, n + end) =~= rest.subrange(start, end));
        lemma_words_shift(prefix, rest, end);
    }
}

/// The words of `a`, a white space and `b` from an index of `a` on are the
/// words of `a` from there on, then the words of `b`.
pub proof fn lemma_words_joined(a: Seq<char>, gap: char, b: Seq<char>, from: int)
    requires
        is_space(gap),
        0 <= from <= a.len(),
    ensures
        words_from(a + seq![gap] + b, from) == words_from(a, from) + words(b),
    decreases a.len() - from,
{
    let s = a + seq![gap] + b;
    let n = a.len() as int;
    assert(s.take(n) =~= a);
    assert(s[n] == gap);
    lemma_word_bounds(a, from);
    lemma_first_in(a, from, CharClass::NotSpace);
    let start = first_in(a, from, CharClass::NotSpace);
    if start < n {
        lemma_first_in_prefix(s, a, from, CharClass::NotSpace);
        lemma_first_in(a, start, CharClass::Space);
        let end = first_in(a, start, CharClass::Space);
        if end < n {
            lemma_first_in_prefix(s, a, start, CharClass::Space);
        } else {
            assert forall|j: int| start <= j < n implies !CharClass::Space.holds(
                #[trigger] s[j],
            ) by {
                assert(s[j] == a[j]);
            }
            lemma_first_in_is(s, start, CharClass::Space, n);
        }
        assert(s.subrange(start, end) =~= a.subrange(start, end));
        lemma_words_joined(a, gap, b, end);
        assert(words_from(s, from) =~= words_from(a, from) + words(b));
    } else {
        lemma_first_in(b, 0, CharClass::NotSpace);
        let head = a + seq![gap];
        assert(s =~= head + b);
        let first = first_in(b, 0, CharClass::NotSpace);
        assert forall|j: int| from <= j < n + 1 + first implies !CharClass::NotSpace.holds(
            #[trigger] s[j],
        ) by {
            if j < n {
                assert(s[j] == a[j]);
            } else if j > n {
                assert(s[j] == b[j - n - 1]);
            }
        }
        if first < b.len() {
            assert(s[n + 1 + first] == b[first]);
        }
        lemma_first_in_is(s, from, CharClass::NotSpace, n + 1 + first);
        lemma_first_in_shift(head, b, 0, CharClass::NotSpace);
        lemma_words_shift(head, b, 0);
        assert(words_from(s, from) == words_from(s, n + 1));
        assert(words_from(a, from) =~= Seq::<Seq<char>>::empty());
        assert(words_from(s, from) =~= words_from(a, from) + words(b));
    }
}

/// A query made of two queries and a white space between them has the
/// words of the first, then those of the second; so, read as words, it
/// selects a record exactly when one of the two does, where each holds a
/// word.
pub proof fn lemma_joined_selects(a: Seq<char>, gap: char, b: Seq<char>, r: Record)
    requires
        is_space(gap),
        words(a).len() > 0,
        words(b).len() > 0,
    ensures
        word_selects(a + seq![gap] + b, r) == (word_selects(a, r) || word_selects(b, r)),
{
    let joined = a + seq![gap] + b;
    lemma_words_joined(a, gap, b, 0);
    let na = lowered(words(a));
    let nb = lowered(words(b));
    let nj = lowered(words(joined));
    assert(nj =~= na + nb);
    let name = lowercase(r.name);
    let code = lowercase(r.code);
    if word_hit(na, name, code) {
        let i = choose|i: int|
            0 <= i < na.len() && (occurs_in(#[trigger] na[i], name) || occurs_in(na[i], code));
        assert(nj[i] == na[i]);
    }
    if word_hit(nb, name, code) {
        let i = choose|i: int|
            0 <= i < nb.len() && (occurs_in(#[trigger] nb[i], name) || occurs_in(nb[i], code));
        assert(nj[na.len() + i] == nb[i]);
    }
    if word_hit(nj, name, code) {
        let i = choose|i: int|
            0 <= i < nj.len() && (occurs_in(#[trigger] nj[i], name) || occurs_in(nj[i], code));
        if i < na.len() {
            assert(nj[i] == na[i]);
        } else {
            assert(nj[i] == nb[i - na.len()]);
        }
    }
}

/// Word mode selects by any word. Of two queries that each hold a word,
/// joined by a white space, the joined query selects exactly the records
/// that one of the two selects: over a snapshot a word engine finds the
/// union of what it finds for the two, each record once, in the order of the
/// snapshot. (A query without a word selects everything, so it is left out.)
pub proof fn law_word_search_is_union(
    engine: SearchEngine,
    a: Seq<char>,
    gap: char,
    b: Seq<char>,
    snapshot: Seq<Record>,
)
    requires
        !engine.is_regex(),
        is_space(gap),
        words(a).len() > 0,
        words(b).len() > 0,
    ensures
        forall|r: Record|
            engine.selects(a + seq![gap] + b, r) == (engine.selects(a, r) || engine.selects(b, r)),
        snapshot.filter(engine.selector(a + seq![gap] + b)) == snapshot.filter(
            |r: Record| engine.selects(a, r) || engine.selects(b, r),
        ),
{
    let joined = a + seq![gap] + b;
    assert forall|r: Record|
        engine.selects(joined, r) == (engine.selects(a, r) || engine.selects(b, r)) by {
        lemma_joined_selects(a, gap, b, r);
    }
    let other = |r: Record| engine.selects(a, r) || engine.selects(b, r);
    assert(engine.selector(joined) =~= other);
}

/// The records of borrowed commands are the records of the commands.
pub proof fn lemma_borrowed(found: Seq<&Command>)
    ensures
        borrowed_records(found) == records(borrowed(found)),
{
    assert(borrowed_records(found) =~= records(borrowed(found)));
}

} // verus!
