//! The synchronisation engine: it brings the catalog in line with the source
//! files found under a root, file by file, and reads a file only where its
//! modification time says that the catalog is behind.
//!
//! Reading files is left to the caller. A pass is begun with the outcome of
//! a scan, by [`full_rebuild`] or [`incremental_update`]; the caller then
//! asks [`SyncPass::next_file`] for the next file that has to be read, reads
//! it, and hands what came of it to [`index_file`], until no file is left.
//! A caller that has read every file beforehand hands them to
//! [`index_files`] instead.

use crate::command::{fragments_of, Command as Definition, CommandType, Fragment};
use crate::database::model::{
    elsewhere, latest_mtime, lemma_filter_agree, lemma_filter_all, lemma_filter_twice,
    lemma_index_from, lemma_latest_mtime, lemma_upsert_all_unique, lemma_without_path,
    lemma_without_path_unique, names_unique, upsert, upsert_all, without_path,
};
use crate::database::operations::CommandRepository;
use crate::database::{records, Command, Record};
use crate::error::{LscmdError, Result};
use crate::parser::{fragments, parse_shell_commands};
use vstd::prelude::*;
use vstd::string::StringExecFns;

verus! {

/// A source file as the scan found it.
#[derive(Debug)]
pub struct SourceFile {
    /// The path of the file.
    pub path: String,
    /// Its modification time on disk.
    pub mtime: i64,
}

/// What a [`SourceFile`] holds, as mathematical values.
pub struct Source {
    pub path: Seq<char>,
    pub mtime: i64,
}

impl View for SourceFile {
    type V = Source;

    open spec fn view(&self) -> Source {
        Source { path: self.path@, mtime: self.mtime }
    }
}

impl Clone for SourceFile {
    fn clone(&self) -> (r: Self)
        ensures
            r == *self,
    {
        SourceFile { path: self.path.clone(), mtime: self.mtime }
    }
}

/// The sources of a sequence of files.
pub open spec fn sources(files: Seq<SourceFile>) -> Seq<Source> {
    files.map_values(|f: SourceFile| f@)
}

/// What became of one file in a pass.
#[derive(Debug)]
pub enum FileOutcome {
    /// The catalog was up to date for the file: it was not parsed.
    Unchanged,
    /// The file was parsed: `removed` commands of the file left the catalog
    /// and `written` commands were written.
    Indexed { removed: u64, written: usize },
    /// The file could not be read: its commands stay as they were. The text
    /// is the warning to show.
    Unreadable(String),
}

/// The kind of a definition, as the catalog writes it.
pub open spec fn kind_text(kind: CommandType) -> Seq<char> {
    match kind {
        CommandType::Alias => "alias"@,
        CommandType::Function => "function"@,
    }
}

/// The record that a definition found in `file` becomes when it is written
/// at the time `now`.
pub open spec fn record_of(file: Source, found: Fragment, now: i64) -> Record {
    Record {
        name: found.name,
        cmd_type: kind_text(found.command_type),
        path: file.path,
        code: found.body,
        file_mtime: file.mtime,
        created_at: Some(now),
    }
}

/// The records that the definitions found in `file` become, in order.
pub open spec fn records_of(file: Source, found: Seq<Fragment>, now: i64) -> Seq<Record> {
    found.map_values(|f: Fragment| record_of(file, f, now))
}

/// Whether the catalog is behind the file: it holds nothing from the file,
/// or the file is newer than what it holds.
pub open spec fn is_stale(catalog: Seq<Record>, file: Source) -> bool {
    match latest_mtime(catalog, file.path) {
        None => true,
        Some(stored) => file.mtime > stored,
    }
}

/// The catalog after a file is parsed again at the time `now`: what it held
/// from the file is removed, then what the text defines is written.
pub open spec fn reindexed(catalog: Seq<Record>, file: Source, text: Seq<char>, now: i64) -> Seq<
    Record,
> {
    upsert_all(without_path(catalog, file.path), records_of(file, fragments(text), now))
}

/// The catalog after one file of a pass, where `read` is the text of the
/// file, or nothing if it could not be read. Only a stale file that could be
/// read changes anything.
pub open spec fn after_file(
    catalog: Seq<Record>,
    file: Source,
    read: Option<Seq<char>>,
    now: i64,
) -> Seq<Record> {
    match read {
        Some(text) if is_stale(catalog, file) => reindexed(catalog, file, text, now),
        _ => catalog,
    }
}

/// How many records one file of a pass takes out of the catalog or writes
/// to it.
pub open spec fn changes_of(catalog: Seq<Record>, file: Source, read: Option<Seq<char>>) -> nat {
    match read {
        Some(text) if is_stale(catalog, file) => (catalog.len() - without_path(
            catalog,
            file.path,
        ).len() + fragments(text).len()) as nat,
        _ => 0,
    }
}

/// The catalog after the files of a pass, in order.
pub open spec fn after_files(
    catalog: Seq<Record>,
    files: Seq<Source>,
    reads: Seq<Option<Seq<char>>>,
    now: i64,
) -> Seq<Record>
    decreases files.len(),
{
    if files.len() == 0 || reads.len() == 0 {
        catalog
    } else {
        after_file(
            after_files(catalog, files.drop_last(), reads.drop_last(), now),
            files.last(),
            reads.last(),
            now,
        )
    }
}

/// How many records the files of a pass take out or write, all told.
pub open spec fn changes_of_files(
    catalog: Seq<Record>,
    files: Seq<Source>,
    reads: Seq<Option<Seq<char>>>,
    now: i64,
) -> nat
    decreases files.len(),
{
    if files.len() == 0 || reads.len() == 0 {
        0
    } else {
        changes_of_files(catalog, files.drop_last(), reads.drop_last(), now) + changes_of(
            after_files(catalog, files.drop_last(), reads.drop_last(), now),
            files.last(),
            reads.last(),
        )
    }
}

/// Whether the scan found a file at `path`.
pub open spec fn discovered(files: Seq<Source>, path: Seq<char>) -> bool {
    exists|i: int| 0 <= i < files.len() && (#[trigger] files[i]).path == path
}

/// The records that come from a file that the scan found.
pub open spec fn from_discovered(files: Seq<Source>) -> spec_fn(Record) -> bool {
    |r: Record| discovered(files, r.path)
}

/// The catalog without the records of files that the scan no longer finds.
pub open spec fn reconciled(catalog: Seq<Record>, files: Seq<Source>) -> Seq<Record> {
    catalog.filter(from_discovered(files))
}

/// The catalog after an incremental update made at the time `now`: the
/// records of vanished files go, then each file found is taken in turn.
pub open spec fn incremental(
    catalog: Seq<Record>,
    files: Seq<Source>,
    reads: Seq<Option<Seq<char>>>,
    now: i64,
) -> Seq<Record> {
    after_files(reconciled(catalog, files), files, reads, now)
}

/// How many records an incremental update takes out or writes.
pub open spec fn incremental_changes(
    catalog: Seq<Record>,
    files: Seq<Source>,
    reads: Seq<Option<Seq<char>>>,
    now: i64,
) -> nat {
    (catalog.len() - reconciled(catalog, files).len()) as nat + changes_of_files(
        reconciled(catalog, files),
        files,
        reads,
        now,
    )
}

/// The catalog after a full rebuild made at the time `now`: everything
/// goes, then each file found is taken in turn.
pub open spec fn rebuilt(files: Seq<Source>, reads: Seq<Option<Seq<char>>>, now: i64) -> Seq<
    Record,
> {
    after_files(Seq::empty(), files, reads, now)
}

/// What reading a file gave: its text, or nothing where it failed.
pub open spec fn text_read(read: Result<String>) -> Option<Seq<char>> {
    match read {
        Ok(text) => Some(text@),
        Err(_) => None,
    }
}

/// The warning for a file that could not be read.
pub open spec fn warning(file: Source, failure: LscmdError) -> Seq<char> {
    file.path + ": "@ + failure.text()
}

/// What [`index_file`] reports for a file, given the catalog it found.
pub open spec fn reported(
    outcome: FileOutcome,
    catalog: Seq<Record>,
    file: Source,
    read: Result<String>,
) -> bool {
    match read {
        Err(failure) => outcome matches FileOutcome::Unreadable(text) && text@ == warning(
            file,
            failure,
        ),
        Ok(text) => if is_stale(catalog, file) {
            outcome matches FileOutcome::Indexed { removed, written } && removed == catalog.len()
                - without_path(catalog, file.path).len() && written == fragments(text@).len()
        } else {
            outcome is Unchanged
        },
    }
}

/// The commands that the definitions found in `file` become when they are
/// written at the time `now`.
pub fn to_commands(file: &SourceFile, found: &Vec<Definition>, now: i64) -> (commands: Vec<Command>)
    ensures
        records(commands@) == records_of(file@, fragments_of(found@), now),
{
    let mut commands: Vec<Command> = Vec::new();
    let mut i: usize = 0;
    assert(records(commands@) =~= records_of(file@, fragments_of(found@).take(0), now));
    while i < found.len()
        invariant
            i <= found@.len(),
            records(commands@) == records_of(file@, fragments_of(found@).take(i as int), now),
        decreases found@.len() - i,
    {
        let kind = match found[i].command_type {
            CommandType::Alias => String::from_str("alias"),
            CommandType::Function => String::from_str("function"),
        };
        let command = Command {
            name: found[i].name.clone(),
            cmd_type: kind,
            path: file.path.clone(),
            code: found[i].body.clone(),
            file_mtime: file.mtime,
            created_at: Some(now),
        };
        let ghost before = commands@;
        commands.push(command);
        proof {
            assert(command@ == record_of(file@, found@[i as int]@, now));
            assert(records(commands@) =~= records(before).push(command@));
            assert(fragments_of(found@).take(i + 1) =~= fragments_of(found@).take(i as int).push(
                found@[i as int]@,
            ));
            assert(records_of(file@, fragments_of(found@).take(i + 1), now) =~= records_of(
                file@,
                fragments_of(found@).take(i as int),
                now,
            ).push(record_of(file@, found@[i as int]@, now)));
        }
        i += 1;
    }
    assert(fragments_of(found@).take(i as int) =~= fragments_of(found@));
    commands
}

/// Whether the catalog is behind the file.
pub fn file_is_stale<R: CommandRepository>(repo: &R, file: &SourceFile) -> (r: Result<bool>)
    ensures
        repo.reliable() ==> r is Ok,
        r matches Ok(stale) ==> stale == is_stale(repo.catalog(), file@),
        r matches Err(e) ==> e is Database,
{
    match repo.get_file_mtime(file.path.as_str()) {
        Ok(None) => Ok(true),
        Ok(Some(stored)) => Ok(file.mtime > stored),
        Err(e) => Err(e),
    }
}

/// Takes one file of a pass, given what reading it gave and the time `now`.
/// A file that could not be read leaves the catalog as it was and is
/// reported as a warning. A file that the catalog is up to date with is not
/// parsed. Otherwise what the catalog held from the file is removed, and
/// what the text defines is written as one batch, with the modification
/// time of the file; a name that is new to the catalog is created at `now`.
///
/// Only the store makes this fail: then either nothing has changed, or the
/// commands of the file are gone and nothing was written.
pub fn index_file<R: CommandRepository>(
    repo: &mut R,
    file: &SourceFile,
    read: &Result<String>,
    now: i64,
) -> (r: Result<FileOutcome>)
    ensures
        final(repo).reliable() == old(repo).reliable(),
        old(repo).reliable() ==> r is Ok,
        r matches Ok(outcome) ==> final(repo).catalog() == after_file(
            old(repo).catalog(),
            file@,
            text_read(*read),
            now,
        ) && reported(outcome, old(repo).catalog(), file@, *read),
        r matches Err(e) ==> e is Database && (final(repo).catalog() == old(repo).catalog()
            || final(repo).catalog() == without_path(old(repo).catalog(), file@.path)),
{
    let text = match read {
        Ok(text) => text,
        Err(failure) => {
            let text = file.path.clone().concat(": ").concat(failure.message().as_str());
            return Ok(FileOutcome::Unreadable(text));
        },
    };
    let stale = match file_is_stale(repo, file) {
        Ok(stale) => stale,
        Err(e) => {
            return Err(e);
        },
    };
    if !stale {
        return Ok(FileOutcome::Unchanged);
    }
    let removed = match repo.delete_by_path(file.path.as_str()) {
        Ok(removed) => removed,
        Err(e) => {
            return Err(e);
        },
    };
    let found = parse_shell_commands(text.as_str());
    let commands = to_commands(file, &found, now);
    match repo.batch_insert(commands.as_slice()) {
        Ok(()) => Ok(FileOutcome::Indexed { removed, written: found.len() }),
        Err(e) => Err(e),
    }
}

/// A source file together with what reading it gave.
#[derive(Debug)]
pub struct LoadedFile {
    /// The file as the scan found it.
    pub file: SourceFile,
    /// Its text, or why it could not be read.
    pub read: Result<String>,
}

/// The files of a sequence of loaded files.
pub open spec fn files_of(loaded: Seq<LoadedFile>) -> Seq<Source> {
    loaded.map_values(|l: LoadedFile| l.file@)
}

/// What reading gave for each of a sequence of loaded files.
pub open spec fn reads_of(loaded: Seq<LoadedFile>) -> Seq<Option<Seq<char>>> {
    loaded.map_values(|l: LoadedFile| text_read(l.read))
}

/// The catalog after the first `count` files of a pass.
pub open spec fn after_first(
    catalog: Seq<Record>,
    files: Seq<Source>,
    reads: Seq<Option<Seq<char>>>,
    now: i64,
    count: int,
) -> Seq<Record> {
    after_files(catalog, files.take(count), reads.take(count), now)
}

/// Whether `catalog` is what a store that failed on `file` leaves of
/// `before`: `before` itself, or `before` without what it held from the
/// file.
pub open spec fn interrupted(catalog: Seq<Record>, before: Seq<Record>, file: Source) -> bool {
    catalog == before || catalog == without_path(before, file.path)
}

/// Takes the files of a pass one after the other, for a caller that has
/// read them all beforehand, and reports what became of each. Only the
/// store makes this fail. The files taken before it failed then stay as
/// they were written; of the file on which it failed, the catalog holds
/// what it held before, or nothing.
pub fn index_files<R: CommandRepository>(repo: &mut R, loaded: &Vec<LoadedFile>, now: i64) -> (r:
    Result<Vec<FileOutcome>>)
    ensures
        final(repo).reliable() == old(repo).reliable(),
        old(repo).reliable() ==> r is Ok,
        r matches Ok(outcomes) ==> final(repo).catalog() == after_files(
            old(repo).catalog(),
            files_of(loaded@),
            reads_of(loaded@),
            now,
        ) && outcomes@.len() == loaded@.len() && forall|i: int|
            0 <= i < loaded@.len() ==> reported(
                #[trigger] outcomes@[i],
                after_first(old(repo).catalog(), files_of(loaded@), reads_of(loaded@), now, i),
                loaded@[i].file@,
                loaded@[i].read,
            ),
        r matches Err(e) ==> e is Database && exists|at: int|
            0 <= at < loaded@.len() && interrupted(
                final(repo).catalog(),
                #[trigger] after_first(
                    old(repo).catalog(),
                    files_of(loaded@),
                    reads_of(loaded@),
                    now,
                    at,
                ),
                loaded@[at].file@,
            ),
{
    let ghost start = repo.catalog();
    let ghost files = files_of(loaded@);
    let ghost reads = reads_of(loaded@);
    let mut outcomes: Vec<FileOutcome> = Vec::new();
    let mut i: usize = 0;
    while i < loaded.len()
        invariant
            i <= loaded@.len(),
            start == old(repo).catalog(),
            files == files_of(loaded@),
            reads == reads_of(loaded@),
            repo.reliable() == old(repo).reliable(),
            repo.catalog() == after_files(start, files.take(i as int), reads.take(i as int), now),
            outcomes@.len() == i,
            forall|k: int|
                0 <= k < i ==> reported(
                    #[trigger] outcomes@[k],
                    after_first(start, files, reads, now, k),
                    loaded@[k].file@,
                    loaded@[k].read,
                ),
        decreases loaded@.len() - i,
    {
        proof {
            assert(files.take(i + 1).drop_last() =~= files.take(i as int));
            assert(reads.take(i + 1).drop_last() =~= reads.take(i as int));
            assert(files.take(i + 1).last() == loaded@[i as int].file@);
            assert(reads.take(i + 1).last() == text_read(loaded@[i as int].read));
        }
        match index_file(repo, &loaded[i].file, &loaded[i].read, now) {
            Ok(outcome) => {
                outcomes.push(outcome);
            },
            Err(e) => {
                proof {
                    assert(interrupted(
                        repo.catalog(),
                        after_first(start, files, reads, now, i as int),
                        loaded@[i as int].file@,
                    ));
                }
                return Err(e);
            },
        }
        i += 1;
    }
    proof {
        assert(files.take(i as int) =~= files);
        assert(reads.take(i as int) =~= reads);
    }
    Ok(outcomes)
}

/// Whether one of `seen` comes from `path`.
pub open spec fn names_path(seen: Seq<Record>, path: Seq<char>) -> bool {
    exists|k: int| 0 <= k < seen.len() && (#[trigger] seen[k]).path == path
}

/// The records that are still there while vanished files are removed, once
/// the paths of `seen` have been dealt with: those of files found, and those
/// of paths not yet dealt with.
pub open spec fn still_there(files: Seq<Source>, seen: Seq<Record>) -> spec_fn(Record) -> bool {
    |r: Record| discovered(files, r.path) || !names_path(seen, r.path)
}

/// Whether the scan found a file at `path`.
pub fn is_discovered(files: &Vec<SourceFile>, path: &String) -> (b: bool)
    ensures
        b == discovered(sources(files@), path@),
{
    let mut i: usize = 0;
    while i < files.len()
        invariant
            i <= files@.len(),
            forall|k: int| 0 <= k < i ==> (#[trigger] sources(files@)[k]).path != path@,
        decreases files@.len() - i,
    {
        if files[i].path == *path {
            assert(sources(files@)[i as int].path == path@);
            return true;
        }
        i += 1;
    }
    false
}

/// Whether `paths` holds `path`.
pub fn holds_path(paths: &Vec<String>, path: &String) -> (b: bool)
    ensures
        b == exists|k: int| 0 <= k < paths@.len() && (#[trigger] paths@[k])@ == path@,
{
    let mut i: usize = 0;
    while i < paths.len()
        invariant
            i <= paths@.len(),
            forall|k: int| 0 <= k < i ==> (#[trigger] paths@[k])@ != path@,
        decreases paths@.len() - i,
    {
        if paths[i] == *path {
            return true;
        }
        i += 1;
    }
    false
}

/// Removes from the catalog the commands of every file that the scan no
/// longer finds, and says how many they were. The commands of the files
/// found are left alone, also where the store fails on the way.
pub fn remove_vanished<R: CommandRepository>(repo: &mut R, files: &Vec<SourceFile>) -> (r: Result<
    u64,
>)
    ensures
        final(repo).reliable() == old(repo).reliable(),
        old(repo).reliable() ==> r is Ok,
        reconciled(final(repo).catalog(), sources(files@)) == reconciled(
            old(repo).catalog(),
            sources(files@),
        ),
        r matches Ok(removed) ==> final(repo).catalog() == reconciled(
            old(repo).catalog(),
            sources(files@),
        ) && removed == old(repo).catalog().len() - final(repo).catalog().len(),
        r matches Err(e) ==> e is Database,
{
    let ghost start = repo.catalog();
    let ghost found = sources(files@);
    let all = match repo.snapshot() {
        Ok(all) => all,
        Err(e) => {
            return Err(e);
        },
    };
    let mut handled: Vec<String> = Vec::new();
    let mut removed: u64 = 0;
    let mut i: usize = 0;
    proof {
        assert(records(all@).take(0) =~= Seq::<Record>::empty());
        assert forall|k: int| 0 <= k < start.len() implies still_there(
            found,
            records(all@).take(0),
        )(#[trigger] start[k]) by {}
        lemma_filter_all(start, still_there(found, records(all@).take(0)));
    }
    while i < all.len()
        invariant
            i <= all@.len(),
            found == sources(files@),
            start == old(repo).catalog(),
            records(all@) == start,
            repo.reliable() == old(repo).reliable(),
            repo.catalog() == start.filter(still_there(found, start.take(i as int))),
            removed == start.len() - repo.catalog().len(),
            forall|k: int|
                0 <= k < handled@.len() ==> names_path(start.take(i as int), (#[trigger] handled@[k])@),
        decreases all@.len() - i,
    {
        let ghost seen = start.take(i as int);
        let ghost next = start.take(i + 1);
        let ghost gone = all@[i as int]@.path;
        proof {
            assert(next =~= seen.push(start[i as int]));
            assert(start[i as int] == all@[i as int]@);
            assert forall|q: Seq<char>| names_path(next, q) == (names_path(seen, q) || q
                == gone) by {
                if names_path(seen, q) {
                    let k = choose|k: int| 0 <= k < seen.len() && (#[trigger] seen[k]).path == q;
                    assert(next[k].path == q);
                }
                if q == gone {
                    assert(next[i as int].path == q);
                }
                if names_path(next, q) {
                    let k = choose|k: int| 0 <= k < next.len() && (#[trigger] next[k]).path == q;
                    if k < i {
                        assert(seen[k].path == q);
                    }
                }
            }
            assert forall|k: int| 0 <= k < handled@.len() implies names_path(
                next,
                (#[trigger] handled@[k])@,
            ) by {
                assert(names_path(seen, handled@[k]@));
            }
        }
        if is_discovered(files, &all[i].path) || holds_path(&handled, &all[i].path) {
            proof {
                if !discovered(found, gone) {
                    let k = choose|k: int|
                        0 <= k < handled@.len() && (#[trigger] handled@[k])@ == gone;
                    assert(names_path(seen, handled@[k]@));
                }
                assert(still_there(found, next) =~= still_there(found, seen));
            }
        } else {
            let ghost before = repo.catalog();
            match repo.delete_by_path(all[i].path.as_str()) {
                Ok(count) => {
                    proof {
                        let both = |r: Record|
                            still_there(found, seen)(r) && elsewhere(gone)(r);
                        lemma_filter_twice(start, still_there(found, seen), elsewhere(gone));
                        assert(both =~= still_there(found, next));
                        lemma_without_path(before, gone);
                        start.lemma_filter_len(still_there(found, seen));
                    }
                    removed = removed + count;
                    handled.push(all[i].path.clone());
                    proof {
                        assert(names_path(next, gone));
                    }
                },
                Err(e) => {
                    proof {
                        lemma_kept_through(start, found, seen);
                    }
                    return Err(e);
                },
            }
        }
        i += 1;
    }
    proof {
        assert(start.take(i as int) =~= start);
        assert forall|k: int| 0 <= k < start.len() implies still_there(found, start)(
            #[trigger] start[k],
        ) == from_discovered(found)(start[k]) by {
            assert(names_path(start, start[k].path));
        }
        lemma_filter_agree(start, still_there(found, start), from_discovered(found));
        lemma_kept_through(start, found, start);
    }
    Ok(removed)
}

/// While vanished files are removed, the records of the files found stay.
pub proof fn lemma_kept_through(catalog: Seq<Record>, files: Seq<Source>, seen: Seq<Record>)
    ensures
        reconciled(catalog.filter(still_there(files, seen)), files) == reconciled(catalog, files),
{
    let both = |r: Record| still_there(files, seen)(r) && from_discovered(files)(r);
    lemma_filter_twice(catalog, still_there(files, seen), from_discovered(files));
    assert(both =~= from_discovered(files));
}

/// Whether the catalog is up to date with each of `files[from..to]`.
pub open spec fn up_to_date_between(
    catalog: Seq<Record>,
    files: Seq<Source>,
    from: int,
    to: int,
) -> bool {
    forall|j: int| from <= j < to && 0 <= j < files.len() ==> !is_stale(catalog, #[trigger] files[j])
}

/// A pass over the files that a scan found: which of them are still to be
/// looked at.
#[derive(Debug)]
pub struct SyncPass {
    files: Vec<SourceFile>,
    cursor: usize,
    removed: u64,
}

impl SyncPass {
    /// The files of the pass, in the order of the scan.
    pub closed spec fn files(&self) -> Seq<Source> {
        sources(self.files@)
    }

    /// How many of the files have been looked at.
    pub closed spec fn looked_at(&self) -> int {
        self.cursor as int
    }

    /// How many records left the catalog when the pass was begun.
    pub closed spec fn removed_at_start(&self) -> int {
        self.removed as int
    }

    /// How many records left the catalog when the pass was begun: all that
    /// it held for a full rebuild, those of vanished files for an
    /// incremental update.
    pub fn removed(&self) -> (n: u64)
        ensures
            n == self.removed_at_start(),
    {
        self.removed
    }

    /// The next file that has to be read: the first file not yet looked at
    /// that the catalog is behind. The files before it, which the catalog is
    /// up to date with, are passed over unread. Returns nothing when no
    /// file is left. If the store fails, the pass stays at the file whose
    /// state could not be asked.
    pub fn next_file<R: CommandRepository>(&mut self, repo: &R) -> (r: Result<Option<SourceFile>>)
        ensures
            final(self).files() == old(self).files(),
            final(self).removed_at_start() == old(self).removed_at_start(),
            repo.reliable() ==> r is Ok,
            match r {
                Ok(Some(file)) => {
                    let at = final(self).looked_at() - 1;
                    old(self).looked_at() <= at < old(self).files().len() && file@ == old(
                        self,
                    ).files()[at] && is_stale(repo.catalog(), file@) && up_to_date_between(
                        repo.catalog(),
                        old(self).files(),
                        old(self).looked_at(),
                        at,
                    )
                },
                Ok(None) => final(self).looked_at() >= old(self).files().len()
                    && up_to_date_between(
                    repo.catalog(),
                    old(self).files(),
                    old(self).looked_at(),
                    old(self).files().len() as int,
                ),
                Err(e) => e is Database && old(self).looked_at() <= final(self).looked_at() < old(
                    self,
                ).files().len() && up_to_date_between(
                    repo.catalog(),
                    old(self).files(),
                    old(self).looked_at(),
                    final(self).looked_at(),
                ),
            },
    {
        while self.cursor < self.files.len()
            invariant
                self.files == old(self).files,
                self.removed == old(self).removed,
                old(self).cursor <= self.cursor,
                forall|j: int|
                    old(self).cursor <= j < self.cursor ==> !is_stale(
                        repo.catalog(),
                        #[trigger] sources(self.files@)[j],
                    ),
            decreases self.files@.len() - self.cursor,
        {
            let at = self.cursor;
            match file_is_stale(repo, &self.files[at]) {
                Ok(true) => {
                    self.cursor = at + 1;
                    return Ok(Some(self.files[at].clone()));
                },
                Ok(false) => {
                    self.cursor = at + 1;
                },
                Err(e) => {
                    return Err(e);
                },
            }
        }
        Ok(None)
    }
}

/// Begins a full rebuild: the catalog is cleared, and every file that the
/// scan found is then to be read. Where the scan failed, the catalog is
/// cleared all the same and the failure of the scan is returned. Where the
/// store fails to clear the catalog, nothing changes and the failure of the
/// store is returned.
pub fn full_rebuild<R: CommandRepository>(repo: &mut R, scanned: Result<Vec<SourceFile>>) -> (r:
    Result<SyncPass>)
    ensures
        final(repo).reliable() == old(repo).reliable(),
        match scanned {
            Ok(files) => match r {
                Ok(pass) => pass.files() == sources(files@) && pass.looked_at() == 0
                    && pass.removed_at_start() == old(repo).catalog().len()
                    && final(repo).catalog() == Seq::<Record>::empty(),
                Err(e) => e is Database && final(repo).catalog() == old(repo).catalog(),
            },
            Err(cause) => match r {
                Ok(_) => false,
                Err(e) => (e == cause && final(repo).catalog() == Seq::<Record>::empty()) || (
                e is Database && final(repo).catalog() == old(repo).catalog()),
            },
        },
        old(repo).reliable() ==> match scanned {
            Ok(_) => r is Ok,
            Err(cause) => r matches Err(e) && e == cause && final(repo).catalog() == Seq::<
                Record,
            >::empty(),
        },
{
    let removed = match repo.clear_all() {
        Ok(removed) => removed,
        Err(e) => {
            return Err(e);
        },
    };
    match scanned {
        Ok(files) => Ok(SyncPass { files, cursor: 0, removed }),
        Err(cause) => Err(cause),
    }
}

/// Begins an incremental update: the commands of files that the scan no
/// longer finds are removed, and the files found are then to be looked at
/// in turn. Where the scan failed, nothing changes and its failure is
/// returned.
pub fn incremental_update<R: CommandRepository>(
    repo: &mut R,
    scanned: Result<Vec<SourceFile>>,
) -> (r: Result<SyncPass>)
    ensures
        final(repo).reliable() == old(repo).reliable(),
        old(repo).reliable() ==> (r is Ok <==> scanned is Ok),
        r matches Ok(pass) ==> scanned matches Ok(files) && pass.files() == sources(files@)
            && pass.looked_at() == 0 && final(repo).catalog() == reconciled(
            old(repo).catalog(),
            sources(files@),
        ) && pass.removed_at_start() == old(repo).catalog().len() - final(repo).catalog().len(),
        r matches Err(e) ==> match scanned {
            Err(cause) => e == cause && final(repo).catalog() == old(repo).catalog(),
            Ok(files) => e is Database && reconciled(final(repo).catalog(), sources(files@))
                == reconciled(old(repo).catalog(), sources(files@)),
        },
{
    match scanned {
        Err(cause) => Err(cause),
        Ok(files) => match remove_vanished(repo, &files) {
            Ok(removed) => Ok(SyncPass { files, cursor: 0, removed }),
            Err(e) => Err(e),
        },
    }
}

/// Every record of a catalog after a write was there before, but for its
/// time of creation, or is the record written.
pub proof fn lemma_upsert_paths(catalog: Seq<Record>, record: Record, files: Seq<Source>)
    requires
        forall|i: int| 0 <= i < catalog.len() ==> discovered(files, (#[trigger] catalog[i]).path),
        discovered(files, record.path),
    ensures
        forall|i: int|
            0 <= i < upsert(catalog, record).len() ==> discovered(
                files,
                (#[trigger] upsert(catalog, record)[i]).path,
            ),
{
    lemma_index_from(catalog, record.name, 0);
    let after = upsert(catalog, record);
    assert forall|i: int| 0 <= i < after.len() implies discovered(
        files,
        (#[trigger] after[i]).path,
    ) by {
        if i < catalog.len() && after[i] == catalog[i] {
            assert(discovered(files, catalog[i].path));
        }
    }
}

/// A batch of records from files found, written to a catalog that holds
/// only records from files found, leaves such a catalog.
pub proof fn lemma_upsert_all_paths(catalog: Seq<Record>, batch: Seq<Record>, files: Seq<Source>)
    requires
        forall|i: int| 0 <= i < catalog.len() ==> discovered(files, (#[trigger] catalog[i]).path),
        forall|i: int| 0 <= i < batch.len() ==> discovered(files, (#[trigger] batch[i]).path),
    ensures
        forall|i: int|
            0 <= i < upsert_all(catalog, batch).len() ==> discovered(
                files,
                (#[trigger] upsert_all(catalog, batch)[i]).path,
            ),
    decreases batch.len(),
{
    if batch.len() > 0 {
        let head = batch.drop_last();
        assert forall|i: int| 0 <= i < head.len() implies discovered(
            files,
            (#[trigger] head[i]).path,
        ) by {
            assert(head[i] == batch[i]);
        }
        lemma_upsert_all_paths(catalog, head, files);
        assert(discovered(files, batch[batch.len() - 1].path));
        lemma_upsert_paths(upsert_all(catalog, head), batch.last(), files);
    }
}

/// The files of a pass leave a catalog that holds only records from files
/// found such a catalog.
pub proof fn lemma_after_files_paths(
    catalog: Seq<Record>,
    files: Seq<Source>,
    reads: Seq<Option<Seq<char>>>,
    now: i64,
    all: Seq<Source>,
)
    requires
        forall|i: int| 0 <= i < catalog.len() ==> discovered(all, (#[trigger] catalog[i]).path),
        forall|i: int| 0 <= i < files.len() ==> discovered(all, (#[trigger] files[i]).path),
    ensures
        forall|i: int|
            0 <= i < after_files(catalog, files, reads, now).len() ==> discovered(
                all,
                (#[trigger] after_files(catalog, files, reads, now)[i]).path,
            ),
    decreases files.len(),
{
    if files.len() > 0 && reads.len() > 0 {
        let head = files.drop_last();
        assert forall|i: int| 0 <= i < head.len() implies discovered(
            all,
            (#[trigger] head[i]).path,
        ) by {
            assert(head[i] == files[i]);
        }
        lemma_after_files_paths(catalog, head, reads.drop_last(), now, all);
        let before = after_files(catalog, head, reads.drop_last(), now);
        let file = files.last();
        assert(discovered(all, files[files.len() - 1].path));
        match reads.last() {
            Some(text) => {
                if is_stale(before, file) {
                    lemma_without_path(before, file.path);
                    let left = without_path(before, file.path);
                    assert forall|i: int| 0 <= i < left.len() implies discovered(
                        all,
                        (#[trigger] left[i]).path,
                    ) by {
                        assert(before.contains(left[i]));
                        let k = choose|k: int| 0 <= k < before.len() && before[k] == left[i];
                        assert(discovered(all, before[k].path));
                    }
                    let batch = records_of(file, fragments(text), now);
                    assert forall|i: int| 0 <= i < batch.len() implies discovered(
                        all,
                        (#[trigger] batch[i]).path,
                    ) by {
                        assert(batch[i].path == file.path);
                    }
                    lemma_upsert_all_paths(left, batch, all);
                }
            },
            None => {},
        }
    }
}

/// The files of a pass leave at most one record per name in a catalog that
/// held at most one.
pub proof fn lemma_after_files_unique(
    catalog: Seq<Record>,
    files: Seq<Source>,
    reads: Seq<Option<Seq<char>>>,
    now: i64,
)
    requires
        names_unique(catalog),
    ensures
        names_unique(after_files(catalog, files, reads, now)),
    decreases files.len(),
{
    if files.len() > 0 && reads.len() > 0 {
        lemma_after_files_unique(catalog, files.drop_last(), reads.drop_last(), now);
        let before = after_files(catalog, files.drop_last(), reads.drop_last(), now);
        let file = files.last();
        match reads.last() {
            Some(text) => {
                if is_stale(before, file) {
                    lemma_without_path_unique(before, file.path);
                    lemma_upsert_all_unique(
                        without_path(before, file.path),
                        records_of(file, fragments(text), now),
                    );
                }
            },
            None => {},
        }
    }
}

/// What a full rebuild yields. Whatever the catalog held before, after a
/// full rebuild and its pass it holds at most one record per name, and
/// every record comes from a file that the scan found. It is what an
/// incremental update of an empty catalog yields.
pub proof fn law_full_rebuild_holds_what_was_found(
    files: Seq<Source>,
    reads: Seq<Option<Seq<char>>>,
    now: i64,
)
    ensures
        names_unique(rebuilt(files, reads, now)),
        forall|i: int|
            0 <= i < rebuilt(files, reads, now).len() ==> discovered(
                files,
                (#[trigger] rebuilt(files, reads, now)[i]).path,
            ),
        rebuilt(files, reads, now) == incremental(Seq::empty(), files, reads, now),
{
    let nothing = Seq::<Record>::empty();
    lemma_after_files_unique(nothing, files, reads, now);
    assert forall|i: int| 0 <= i < files.len() implies discovered(
        files,
        (#[trigger] files[i]).path,
    ) by {}
    lemma_after_files_paths(nothing, files, reads, now, files);
    nothing.lemma_filter_len(from_discovered(files));
    assert(reconciled(nothing, files) =~= nothing);
}

/// Whether a second pass over the same files, read with the same outcome,
/// has nothing to do in `catalog`: each file that the catalog is behind and
/// that can be read defines nothing, and the catalog holds nothing from it.
pub open spec fn settled(
    catalog: Seq<Record>,
    files: Seq<Source>,
    reads: Seq<Option<Seq<char>>>,
) -> bool {
    forall|i: int|
        0 <= i < files.len() && is_stale(catalog, #[trigger] files[i]) ==> match reads[i] {
            None => true,
            Some(text) => fragments(text).len() == 0 && latest_mtime(catalog, files[i].path)
                is None,
        }
}

/// In a settled catalog the first files of a pass change nothing.
pub proof fn lemma_settled_prefix(
    catalog: Seq<Record>,
    files: Seq<Source>,
    reads: Seq<Option<Seq<char>>>,
    now: i64,
    upto: int,
)
    requires
        reads.len() == files.len(),
        settled(catalog, files, reads),
        0 <= upto <= files.len(),
    ensures
        after_files(catalog, files.take(upto), reads.take(upto), now) == catalog,
        changes_of_files(catalog, files.take(upto), reads.take(upto), now) == 0,
    decreases upto,
{
    if upto > 0 {
        lemma_settled_prefix(catalog, files, reads, now, upto - 1);
        let some = files.take(upto);
        assert(some.drop_last() =~= files.take(upto - 1));
        assert(reads.take(upto).drop_last() =~= reads.take(upto - 1));
        let file = some.last();
        assert(file == files[upto - 1]);
        assert(reads.take(upto).last() == reads[upto - 1]);
        match reads[upto - 1] {
            Some(text) => {
                if is_stale(catalog, file) {
                    lemma_latest_mtime(catalog, file.path);
                    lemma_filter_all(catalog, elsewhere(file.path));
                    assert(records_of(file, fragments(text), now) =~= Seq::<Record>::empty());
                }
            },
            None => {},
        }
    }
}

/// Incremental idempotence. When an incremental update has run, and what is
/// on disk has not changed since, a second update, whenever it is made,
/// changes nothing: it takes no record out of the catalog and writes none,
/// the catalog is what it was, and so is what any search finds in it. This
/// holds where the first update has settled the catalog; it does not where
/// the catalog is left behind a file that can be read and defines
/// something, as it is where a later file of the pass has taken over every
/// name of the file.
pub proof fn law_incremental_update_is_idempotent(
    catalog: Seq<Record>,
    files: Seq<Source>,
    reads: Seq<Option<Seq<char>>>,
    first: i64,
    second: i64,
)
    requires
        reads.len() == files.len(),
        settled(incremental(catalog, files, reads, first), files, reads),
    ensures
        incremental(incremental(catalog, files, reads, first), files, reads, second)
            == incremental(catalog, files, reads, first),
        incremental_changes(incremental(catalog, files, reads, first), files, reads, second) == 0,
        forall|keep: spec_fn(Record) -> bool|
            incremental(incremental(catalog, files, reads, first), files, reads, second).filter(
                keep,
            ) == #[trigger] incremental(catalog, files, reads, first).filter(keep),
{
    let once = incremental(catalog, files, reads, first);
    let start = reconciled(catalog, files);
    broadcast use vstd::seq_lib::group_filter_ensures;

    assert forall|i: int| 0 <= i < start.len() implies discovered(
        files,
        (#[trigger] start[i]).path,
    ) by {
        assert(from_discovered(files)(start[i]));
    }
    assert forall|i: int| 0 <= i < files.len() implies discovered(
        files,
        (#[trigger] files[i]).path,
    ) by {}
    lemma_after_files_paths(start, files, reads, first, files);
    assert forall|i: int| 0 <= i < once.len() implies from_discovered(files)(
        #[trigger] once[i],
    ) by {
        assert(discovered(files, once[i].path));
    }
    lemma_filter_all(once, from_discovered(files));
    lemma_settled_prefix(once, files, reads, second, files.len() as int);
    assert(files.take(files.len() as int) =~= files);
    assert(reads.take(files.len() as int) =~= reads);
}

} // verus!
