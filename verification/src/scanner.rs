//! The scanner: which of the entries found under a root are shell source
//! files, in a fixed order.
//!
//! Walking the directory tree is left to the caller, which passes over what
//! it cannot read and hands in what it found.

use crate::error::{LscmdError, Result};
use crate::sorting::{arranged, arranges, indices, key_texts, sorted_order};
use crate::text::{chars_of, text_of};
use vstd::prelude::*;
use vstd::string::StringExecFns;

verus! {

/// One entry found under the root.
#[derive(Debug)]
pub struct ScanEntry {
    /// The path of the entry.
    pub path: String,
    /// Whether the entry is a regular file.
    pub is_file: bool,
    /// The extension of its file name, without the dot, if it has one.
    pub extension: Option<String>,
}

/// What a [`ScanEntry`] holds, as mathematical values.
pub struct Entry {
    pub path: Seq<char>,
    pub is_file: bool,
    pub extension: Option<Seq<char>>,
}

impl View for ScanEntry {
    type V = Entry;

    open spec fn view(&self) -> Entry {
        Entry {
            path: self.path@,
            is_file: self.is_file,
            extension: match self.extension {
                Some(text) => Some(text@),
                None => None,
            },
        }
    }
}

/// What a sequence of entries holds.
pub open spec fn entries_of(entries: Seq<ScanEntry>) -> Seq<Entry> {
    entries.map_values(|e: ScanEntry| e@)
}

/// The texts of a sequence of strings.
pub open spec fn texts_of(paths: Seq<String>) -> Seq<Seq<char>> {
    paths.map_values(|p: String| p@)
}

/// The extension of a shell source file.
pub open spec fn shell_suffix() -> Seq<char> {
    "sh"@
}

/// Whether an entry is a shell source file: a regular file whose extension
/// is `sh`.
pub open spec fn is_shell_source(entry: Entry) -> bool {
    entry.is_file && entry.extension == Some(shell_suffix())
}

/// The paths of the shell source files among `entries`, in the order of
/// the entries.
pub open spec fn shell_paths(entries: Seq<Entry>) -> Seq<Seq<char>> {
    entries.filter(|e: Entry| is_shell_source(e)).map_values(|e: Entry| e.path)
}

/// Whether `sorted` holds the texts of `texts` in lexicographic order, each
/// as often as `texts` does.
pub open spec fn sorted_copy(sorted: Seq<Seq<char>>, texts: Seq<Seq<char>>) -> bool {
    exists|order: Seq<int>| arranges(order, texts) && sorted == arranged(texts, order)
}

/// The shell source files under a root, in lexicographic order of their
/// paths. `root_exists` says whether the root was there, and `entries` is
/// what was found under it. Fails with `NotFound` where the root was not
/// there, and with `Empty` where no entry is a shell source file; both name
/// the root.
pub fn scan_directory(root: &str, root_exists: bool, entries: &Vec<ScanEntry>) -> (r: Result<
    Vec<String>,
>)
    ensures
        match r {
            Ok(paths) => root_exists && paths@.len() > 0 && sorted_copy(
                texts_of(paths@),
                shell_paths(entries_of(entries@)),
            ),
            Err(e) => if !root_exists {
                e matches LscmdError::NotFound(named) && named@ == root@
            } else {
                shell_paths(entries_of(entries@)).len() == 0 && (e matches LscmdError::Empty(
                    named,
                ) && named@ == root@)
            },
        },
{
    if !root_exists {
        return Err(LscmdError::NotFound(String::from_str(root)));
    }
    let suffix = String::from_str("sh");
    let mut keys: Vec<Vec<char>> = Vec::new();
    let mut i: usize = 0;
    proof {
        assert(entries_of(entries@).take(0) =~= Seq::<Entry>::empty());
        Seq::<Entry>::empty().lemma_filter_len(|e: Entry| is_shell_source(e));
        assert(key_texts(keys@) =~= shell_paths(entries_of(entries@).take(0)));
    }
    while i < entries.len()
        invariant
            i <= entries@.len(),
            suffix@ == shell_suffix(),
            key_texts(keys@) == shell_paths(entries_of(entries@).take(i as int)),
        decreases entries@.len() - i,
    {
        let is_source = entries[i].is_file && match &entries[i].extension {
            Some(text) => *text == suffix,
            None => false,
        };
        let ghost before = keys@;
        let ghost seen = entries_of(entries@).take(i as int);
        let ghost entry = entries@[i as int]@;
        proof {
            assert(entries_of(entries@).take(i + 1) =~= seen.push(entry));
            seen.lemma_filter_push(entry, |e: Entry| is_shell_source(e));
            assert(is_source == is_shell_source(entry));
        }
        if is_source {
            keys.push(chars_of(entries[i].path.as_str()));
            proof {
                assert(key_texts(keys@) =~= key_texts(before).push(entry.path));
                assert(seen.filter(|e: Entry| is_shell_source(e)).push(entry).map_values(
                    |e: Entry| e.path,
                ) =~= seen.filter(|e: Entry| is_shell_source(e)).map_values(
                    |e: Entry| e.path,
                ).push(entry.path));
            }
        }
        i += 1;
    }
    assert(entries_of(entries@).take(i as int) =~= entries_of(entries@));
    if keys.len() == 0 {
        return Err(LscmdError::Empty(String::from_str(root)));
    }
    let order = sorted_order(&keys);
    let mut paths: Vec<String> = Vec::new();
    let mut k: usize = 0;
    assert(texts_of(paths@) =~= arranged(key_texts(keys@), indices(order@).take(0)));
    while k < order.len()
        invariant
            k <= order@.len(),
            arranges(indices(order@), key_texts(keys@)),
            texts_of(paths@) == arranged(key_texts(keys@), indices(order@).take(k as int)),
        decreases order@.len() - k,
    {
        assert(0 <= indices(order@)[k as int] < key_texts(keys@).len());
        let key = &keys[order[k]];
        let path = text_of(key, 0, key.len());
        let ghost before = paths@;
        paths.push(path);
        proof {
            assert(path@ =~= key@);
            assert(texts_of(paths@) =~= texts_of(before).push(path@));
            assert(indices(order@).take(k + 1) =~= indices(order@).take(k as int).push(
                order@[k as int] as int,
            ));
            assert(arranged(key_texts(keys@), indices(order@).take(k + 1)) =~= arranged(
                key_texts(keys@),
                indices(order@).take(k as int),
            ).push(key@));
        }
        k += 1;
    }
    assert(indices(order@).take(k as int) =~= indices(order@));
    Ok(paths)
}

} // verus!
