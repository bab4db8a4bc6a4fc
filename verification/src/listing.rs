//! The definitions of a set of files, file by file, for display.

use crate::command::{fragments_of, Command, Fragment};
use crate::parser::{fragments, parse_shell_commands};
use crate::sorting::{arranged, arranges, indices, key_texts, sorted_order};
use crate::text::chars_of;
use vstd::prelude::*;

verus! {

/// A source file that has been read: the stem of its name and its text.
#[derive(Debug)]
pub struct SourceText {
    pub file_name: String,
    pub content: String,
}

/// What a [`SourceText`] holds, as mathematical values.
pub struct Text {
    pub file_name: Seq<char>,
    pub content: Seq<char>,
}

impl View for SourceText {
    type V = Text;

    open spec fn view(&self) -> Text {
        Text { file_name: self.file_name@, content: self.content@ }
    }
}

/// The definitions found in one file.
#[derive(Debug)]
pub struct FileCommands {
    pub file_name: String,
    pub commands: Vec<Command>,
}

/// What a [`FileCommands`] holds, as mathematical values.
pub struct Listing {
    pub file_name: Seq<char>,
    pub commands: Seq<Fragment>,
}

impl View for FileCommands {
    type V = Listing;

    open spec fn view(&self) -> Listing {
        Listing { file_name: self.file_name@, commands: fragments_of(self.commands@) }
    }
}

/// What a sequence of read files holds.
pub open spec fn texts_of(sources: Seq<SourceText>) -> Seq<Text> {
    sources.map_values(|s: SourceText| s@)
}

/// What a sequence of listings holds.
pub open spec fn listings_of(groups: Seq<FileCommands>) -> Seq<Listing> {
    groups.map_values(|g: FileCommands| g@)
}

/// The names of a sequence of definitions.
pub open spec fn names_of(found: Seq<Fragment>) -> Seq<Seq<char>> {
    found.map_values(|f: Fragment| f.name)
}

/// The file names of a sequence of listings.
pub open spec fn file_names(groups: Seq<Listing>) -> Seq<Seq<char>> {
    groups.map_values(|g: Listing| g.file_name)
}

/// Whether `sorted` holds the definitions of `found` in the order of their
/// names, those of one name in the order in which they were found.
pub open spec fn sorted_by_name(sorted: Seq<Fragment>, found: Seq<Fragment>) -> bool {
    exists|order: Seq<int>| arranges(order, names_of(found)) && sorted == arranged(found, order)
}

/// Whether a file defines anything.
pub open spec fn defines_something(source: Text) -> bool {
    fragments(source.content).len() > 0
}

/// The files that define something, each with what it defines, in the
/// order of the files and of their lines.
pub open spec fn as_found(sources: Seq<Text>) -> Seq<Listing> {
    sources.filter(|s: Text| defines_something(s)).map_values(
        |s: Text| Listing { file_name: s.file_name, commands: fragments(s.content) },
    )
}

/// Whether `listed` is the listing of `sources`: the files that define
/// something, in the order of their names, each with its definitions in the
/// order of theirs; equal names keep the order in which they came.
pub open spec fn lists(listed: Seq<Listing>, sources: Seq<Text>) -> bool {
    exists|order: Seq<int>|
        arranges(order, file_names(as_found(sources))) && listed.len() == order.len() && forall|
            k: int,
        |
            0 <= k < listed.len() ==> (#[trigger] listed[k]).file_name == as_found(
                sources,
            )[order[k]].file_name && sorted_by_name(
                listed[k].commands,
                as_found(sources)[order[k]].commands,
            )
}

/// Copies of the commands, in order.
pub fn copy_commands(commands: &Vec<Command>) -> (all: Vec<Command>)
    ensures
        all@ == commands@,
{
    let mut all: Vec<Command> = Vec::new();
    let mut i: usize = 0;
    while i < commands.len()
        invariant
            i <= commands@.len(),
            all@ == commands@.take(i as int),
        decreases commands@.len() - i,
    {
        all.push(commands[i].clone());
        assert(commands@.take(i + 1) =~= commands@.take(i as int).push(commands@[i as int]));
        i += 1;
    }
    assert(commands@.take(i as int) =~= commands@);
    all
}

/// The definitions in the order of their names, those of one name in the
/// order in which they stand.
pub fn sort_commands(found: &Vec<Command>) -> (sorted: Vec<Command>)
    ensures
        sorted_by_name(fragments_of(sorted@), fragments_of(found@)),
{
    let mut keys: Vec<Vec<char>> = Vec::new();
    let mut i: usize = 0;
    assert(key_texts(keys@) =~= names_of(fragments_of(found@)).take(0));
    while i < found.len()
        invariant
            i <= found@.len(),
            key_texts(keys@) == names_of(fragments_of(found@)).take(i as int),
        decreases found@.len() - i,
    {
        let ghost before = keys@;
        keys.push(chars_of(found[i].name.as_str()));
        proof {
            assert(key_texts(keys@) =~= key_texts(before).push(found@[i as int].name@));
            assert(names_of(fragments_of(found@)).take(i + 1) =~= names_of(
                fragments_of(found@),
            ).take(i as int).push(found@[i as int].name@));
        }
        i += 1;
    }
    assert(names_of(fragments_of(found@)).take(i as int) =~= names_of(fragments_of(found@)));
    let order = sorted_order(&keys);
    let mut sorted: Vec<Command> = Vec::new();
    let mut k: usize = 0;
    assert(fragments_of(sorted@) =~= arranged(fragments_of(found@), indices(order@).take(0)));
    while k < order.len()
        invariant
            k <= order@.len(),
            arranges(indices(order@), names_of(fragments_of(found@))),
            fragments_of(sorted@) == arranged(
                fragments_of(found@),
                indices(order@).take(k as int),
            ),
        decreases order@.len() - k,
    {
        assert(0 <= indices(order@)[k as int] < names_of(fragments_of(found@)).len());
        let ghost before = sorted@;
        sorted.push(found[order[k]].clone());
        proof {
            let picked = found@[order@[k as int] as int]@;
            assert(fragments_of(sorted@) =~= fragments_of(before).push(picked));
            assert(indices(order@).take(k + 1) =~= indices(order@).take(k as int).push(
                order@[k as int] as int,
            ));
            assert(arranged(fragments_of(found@), indices(order@).take(k + 1)) =~= arranged(
                fragments_of(found@),
                indices(order@).take(k as int),
            ).push(picked));
        }
        k += 1;
    }
    assert(indices(order@).take(k as int) =~= indices(order@));
    sorted
}

/// The definitions of the files, file by file: the files that define
/// nothing are left out, the others come in the order of their names, each
/// with its definitions in the order of theirs.
pub fn list_commands(sources: &Vec<SourceText>) -> (listed: Vec<FileCommands>)
    ensures
        lists(listings_of(listed@), texts_of(sources@)),
{
    let mut groups: Vec<FileCommands> = Vec::new();
    let mut keys: Vec<Vec<char>> = Vec::new();
    let mut i: usize = 0;
    proof {
        assert(texts_of(sources@).take(0) =~= Seq::<Text>::empty());
        Seq::<Text>::empty().lemma_filter_len(|s: Text| defines_something(s));
        assert(as_found(texts_of(sources@).take(0)) =~= Seq::<Listing>::empty());
        assert(key_texts(keys@) =~= file_names(as_found(texts_of(sources@).take(0))));
    }
    while i < sources.len()
        invariant
            i <= sources@.len(),
            groups@.len() == keys@.len(),
            key_texts(keys@) == file_names(as_found(texts_of(sources@).take(i as int))),
            forall|k: int|
                0 <= k < groups@.len() ==> (#[trigger] groups@[k])@.file_name == as_found(
                    texts_of(sources@).take(i as int),
                )[k].file_name && sorted_by_name(
                    groups@[k]@.commands,
                    as_found(texts_of(sources@).take(i as int))[k].commands,
                ),
        decreases sources@.len() - i,
    {
        let found = parse_shell_commands(sources[i].content.as_str());
        let ghost seen = texts_of(sources@).take(i as int);
        let ghost source = sources@[i as int]@;
        let ghost before = as_found(seen);
        proof {
            assert(texts_of(sources@).take(i + 1) =~= seen.push(source));
            seen.lemma_filter_push(source, |s: Text| defines_something(s));
        }
        if found.len() > 0 {
            let ghost old_keys = keys@;
            let ghost old_groups = groups@;
            let group = FileCommands {
                file_name: sources[i].file_name.clone(),
                commands: sort_commands(&found),
            };
            keys.push(chars_of(sources[i].file_name.as_str()));
            groups.push(group);
            proof {
                let added = Listing { file_name: source.file_name, commands: fragments(source.content) };
                let after = as_found(seen.push(source));
                assert(after =~= before.push(added));
                assert(key_texts(keys@) =~= key_texts(old_keys).push(source.file_name));
                assert(file_names(after) =~= file_names(before).push(source.file_name));
                assert forall|k: int| 0 <= k < groups@.len() implies (
                #[trigger] groups@[k])@.file_name == after[k].file_name && sorted_by_name(
                    groups@[k]@.commands,
                    after[k].commands,
                ) by {
                    if k < old_groups.len() {
                        assert(groups@[k] == old_groups[k]);
                        assert(after[k] == before[k]);
                    }
                }
            }
        }
        i += 1;
    }
    assert(texts_of(sources@).take(i as int) =~= texts_of(sources@));
    let ghost found_all = as_found(texts_of(sources@));
    proof {
        assert(key_texts(keys@).len() == keys@.len());
        assert(file_names(found_all).len() == found_all.len());
    }
    let order = sorted_order(&keys);
    let mut listed: Vec<FileCommands> = Vec::new();
    let mut k: usize = 0;
    while k < order.len()
        invariant
            k <= order@.len(),
            groups@.len() == keys@.len(),
            found_all == as_found(texts_of(sources@)),
            found_all.len() == keys@.len(),
            key_texts(keys@) == file_names(found_all),
            arranges(indices(order@), file_names(found_all)),
            listed@.len() == k,
            forall|j: int|
                0 <= j < groups@.len() ==> (#[trigger] groups@[j])@.file_name
                    == found_all[j].file_name && sorted_by_name(
                    groups@[j]@.commands,
                    found_all[j].commands,
                ),
            forall|j: int|
                0 <= j < k ==> (#[trigger] listings_of(listed@)[j]).file_name
                    == found_all[indices(order@)[j]].file_name && sorted_by_name(
                    listings_of(listed@)[j].commands,
                    found_all[indices(order@)[j]].commands,
                ),
        decreases order@.len() - k,
    {
        assert(0 <= indices(order@)[k as int] < file_names(found_all).len());
        let at = order[k];
        let ghost before = listed@;
        let group = FileCommands {
            file_name: groups[at].file_name.clone(),
            commands: copy_commands(&groups[at].commands),
        };
        listed.push(group);
        proof {
            assert(group@ == groups@[at as int]@);
            assert forall|j: int| 0 <= j < k + 1 implies (#[trigger] listings_of(
                listed@,
            )[j]).file_name == found_all[indices(order@)[j]].file_name && sorted_by_name(
                listings_of(listed@)[j].commands,
                found_all[indices(order@)[j]].commands,
            ) by {
                if j < k {
                    assert(listings_of(listed@)[j] == listings_of(before)[j]);
                } else {
                    assert(listings_of(listed@)[j] == group@);
                }
            }
        }
        k += 1;
    }
    listed
}

} // verus!
