//! The repository interface and the repository that lives in memory.

use crate::database::model::{
    elsewhere, index_of, latest_mtime, lemma_index_from_is, lemma_upsert_all_push,
    lemma_upsert_all_unique, lemma_upsert_unique, lemma_without_path, lemma_without_path_push,
    lemma_without_path_unique, lookup, lookup_from, names_unique, upsert, upsert_all,
    without_path,
};
use crate::database::{records, Command, Record};
use crate::error::Result;
use crate::search::{borrowed_records, SearchEngine};
use crate::text::{chars_of, same_folded};
use vstd::prelude::*;
use vstd::string::StringExecFns;

verus! {

/// A keyed store of commands. One operation runs at a time: each takes the
/// repository as a whole, so a reader sees a batch entirely or not at all.
pub trait CommandRepository {
    /// The catalog that the repository holds. An implementation says what
    /// that is; where it does not, nothing is known of it.
    open spec fn catalog(&self) -> Seq<Record> {
        arbitrary()
    }

    /// Whether the repository is one whose operations never fail. Unless an
    /// implementation says so, it is not.
    open spec fn reliable(&self) -> bool {
        false
    }

    /// Writes a command: it replaces the command of the same name, or is
    /// added where the name is new. On failure nothing changes.
    fn insert_command(&mut self, command: &Command) -> (r: Result<()>)
        ensures
            final(self).reliable() == old(self).reliable(),
            old(self).reliable() ==> r is Ok,
            r is Ok ==> final(self).catalog() == upsert(old(self).catalog(), command@),
            r matches Err(e) ==> e is Database && final(self).catalog() == old(self).catalog(),
    ;

    /// Writes the commands in order, all of them or none: on failure nothing
    /// changes.
    fn batch_insert(&mut self, commands: &[Command]) -> (r: Result<()>)
        ensures
            final(self).reliable() == old(self).reliable(),
            old(self).reliable() ==> r is Ok,
            r is Ok ==> final(self).catalog() == upsert_all(
                old(self).catalog(),
                records(commands@),
            ),
            r matches Err(e) ==> e is Database && final(self).catalog() == old(self).catalog(),
    ;

    /// The commands that the engine selects for the query, in the order of
    /// the catalog, which is not changed. Fails where the engine refuses the
    /// query: with `SearchPattern`, unless the store itself failed first.
    fn search_commands(&self, engine: &SearchEngine, query: &str) -> (r: Result<Vec<Command>>)
        ensures
            engine.refuses(query@) ==> r is Err,
            self.reliable() && !engine.refuses(query@) ==> r is Ok,
            self.reliable() && engine.refuses(query@) ==> (r matches Err(e) && e is SearchPattern),
            r matches Ok(found) ==> records(found@) == self.catalog().filter(
                engine.selector(query@),
            ),
            r matches Err(e) ==> e is Database || (e is SearchPattern && engine.refuses(query@)),
    ;

    /// The command of that name, letter case set aside; none where the
    /// catalog has no such name.
    fn get_command_by_name(&self, name: &str) -> (r: Result<Option<Command>>)
        ensures
            self.reliable() ==> r is Ok,
            r matches Ok(found) ==> match found {
                Some(command) => lookup(self.catalog(), name@) == Some(command@),
                None => lookup(self.catalog(), name@) is None,
            },
            r matches Err(e) ==> e is Database,
    ;

    /// Removes every command that comes from `path` and says how many they
    /// were. On failure nothing changes.
    fn delete_by_path(&mut self, path: &str) -> (r: Result<u64>)
        ensures
            final(self).reliable() == old(self).reliable(),
            old(self).reliable() ==> r is Ok,
            r matches Ok(removed) ==> final(self).catalog() == without_path(
                old(self).catalog(),
                path@,
            ) && removed == old(self).catalog().len() - final(self).catalog().len(),
            r matches Err(e) ==> e is Database && final(self).catalog() == old(self).catalog(),
    ;

    /// Removes every command and says how many they were. On failure
    /// nothing changes.
    fn clear_all(&mut self) -> (r: Result<u64>)
        ensures
            final(self).reliable() == old(self).reliable(),
            old(self).reliable() ==> r is Ok,
            r matches Ok(removed) ==> final(self).catalog() == Seq::<Record>::empty() && removed
                == old(self).catalog().len(),
            r matches Err(e) ==> e is Database && final(self).catalog() == old(self).catalog(),
    ;

    /// The latest modification time stored for `path`; none where the
    /// catalog holds nothing from it.
    fn get_file_mtime(&self, path: &str) -> (r: Result<Option<i64>>)
        ensures
            self.reliable() ==> r is Ok,
            r matches Ok(found) ==> found == latest_mtime(self.catalog(), path@),
            r matches Err(e) ==> e is Database,
    ;

    /// A copy of the whole catalog, in its order.
    fn snapshot(&self) -> (r: Result<Vec<Command>>)
        ensures
            self.reliable() ==> r is Ok,
            r matches Ok(all) ==> records(all@) == self.catalog(),
            r matches Err(e) ==> e is Database,
    ;

    /// Whether the store answers.
    fn health_check(&self) -> (r: Result<()>)
        ensures
            self.reliable() ==> r is Ok,
            r matches Err(e) ==> e is Database,
    ;
}

/// Where the command named `name` stands in `entries`, or their number
/// where none has that name.
pub fn position_of(entries: &Vec<Command>, name: &String) -> (at: usize)
    ensures
        at == index_of(records(entries@), name@),
        at <= entries@.len(),
{
    let mut at: usize = 0;
    while at < entries.len() && entries[at].name != *name
        invariant
            at <= entries@.len(),
            forall|j: int| 0 <= j < at ==> (#[trigger] records(entries@)[j]).name != name@,
        decreases entries@.len() - at,
    {
        at += 1;
    }
    proof {
        lemma_index_from_is(records(entries@), name@, 0, at as int);
    }
    at
}

/// Writes `command` into `entries`: in the place of the command of the same
/// name, whose time of creation it keeps, or at the end.
pub fn upsert_into(entries: &mut Vec<Command>, command: &Command)
    ensures
        records(final(entries)@) == upsert(records(old(entries)@), command@),
{
    let at = position_of(entries, &command.name);
    let mut fresh = command.clone();
    if at < entries.len() {
        fresh.created_at = entries[at].created_at;
        entries.set(at, fresh);
        assert(records(entries@) =~= records(old(entries)@).update(at as int, fresh@));
    } else {
        entries.push(fresh);
        assert(records(entries@) =~= records(old(entries)@).push(fresh@));
    }
}

/// Writes each of `commands` into `entries`, in order.
pub fn upsert_all_into(entries: &mut Vec<Command>, commands: &[Command])
    ensures
        records(final(entries)@) == upsert_all(records(old(entries)@), records(commands@)),
{
    let mut i: usize = 0;
    assert(records(commands@).take(0) =~= Seq::<Record>::empty());
    while i < commands.len()
        invariant
            i <= commands@.len(),
            records(entries@) == upsert_all(
                records(old(entries)@),
                records(commands@).take(i as int),
            ),
        decreases commands@.len() - i,
    {
        proof {
            lemma_upsert_all_push(
                records(old(entries)@),
                records(commands@).take(i as int),
                commands@[i as int]@,
            );
            assert(records(commands@).take(i + 1) =~= records(commands@).take(i as int).push(
                commands@[i as int]@,
            ));
        }
        upsert_into(entries, &commands[i]);
        i += 1;
    }
    assert(records(commands@).take(i as int) =~= records(commands@));
}

/// Copies of the commands of `entries` that do not come from `path`.
pub fn kept_without(entries: &Vec<Command>, path: &str) -> (kept: Vec<Command>)
    ensures
        records(kept@) == without_path(records(entries@), path@),
{
    let wanted = String::from_str(path);
    let mut kept: Vec<Command> = Vec::new();
    let mut i: usize = 0;
    assert(records(entries@.take(0)) =~= Seq::<Record>::empty());
    assert(records(kept@) =~= Seq::<Record>::empty());
    proof {
        Seq::<Record>::empty().lemma_filter_len(elsewhere(path@));
    }
    while i < entries.len()
        invariant
            i <= entries@.len(),
            wanted@ == path@,
            records(kept@) == without_path(records(entries@.take(i as int)), path@),
        decreases entries@.len() - i,
    {
        let ghost before = kept@;
        proof {
            lemma_without_path_push(records(entries@.take(i as int)), entries@[i as int]@, path@);
            assert(records(entries@.take(i + 1)) =~= records(entries@.take(i as int)).push(
                entries@[i as int]@,
            ));
        }
        if entries[i].path != wanted {
            kept.push(entries[i].clone());
            assert(records(kept@) =~= records(before).push(entries@[i as int]@));
        }
        i += 1;
    }
    assert(entries@.take(i as int) =~= entries@);
    kept
}

/// The first command of `entries` whose name is `name` once the case of
/// ASCII letters is set aside.
pub fn find_folded<'a>(entries: &'a Vec<Command>, name: &str) -> (r: Option<&'a Command>)
    ensures
        match r {
            Some(command) => lookup(records(entries@), name@) == Some(command@),
            None => lookup(records(entries@), name@) is None,
        },
{
    let wanted = chars_of(name);
    let mut i: usize = 0;
    while i < entries.len()
        invariant
            i <= entries@.len(),
            wanted@ == name@,
            lookup(records(entries@), name@) == lookup_from(records(entries@), name@, i as int),
        decreases entries@.len() - i,
    {
        let candidate = chars_of(entries[i].name.as_str());
        assert(records(entries@)[i as int] == entries@[i as int]@);
        if same_folded(&candidate, &wanted) {
            return Some(&entries[i]);
        }
        i += 1;
    }
    None
}

/// The greatest modification time among the commands of `entries` that come
/// from `path`.
pub fn latest_among(entries: &Vec<Command>, path: &str) -> (r: Option<i64>)
    ensures
        r == latest_mtime(records(entries@), path@),
{
    let wanted = String::from_str(path);
    let mut latest: Option<i64> = None;
    let mut i: usize = 0;
    assert(records(entries@.take(0)) =~= Seq::<Record>::empty());
    while i < entries.len()
        invariant
            i <= entries@.len(),
            wanted@ == path@,
            latest == latest_mtime(records(entries@.take(i as int)), path@),
        decreases entries@.len() - i,
    {
        proof {
            let next = records(entries@.take(i + 1));
            assert(next.drop_last() =~= records(entries@.take(i as int)));
            assert(next.last() == entries@[i as int]@);
        }
        if entries[i].path == wanted {
            let mtime = entries[i].file_mtime;
            latest = match latest {
                Some(m) if m >= mtime => Some(m),
                _ => Some(mtime),
            };
        }
        i += 1;
    }
    assert(entries@.take(i as int) =~= entries@);
    latest
}

/// Copies of the commands, in order.
pub fn copy_all(entries: &Vec<Command>) -> (all: Vec<Command>)
    ensures
        all@ == entries@,
{
    let mut all: Vec<Command> = Vec::new();
    let mut i: usize = 0;
    while i < entries.len()
        invariant
            i <= entries@.len(),
            all@ == entries@.take(i as int),
        decreases entries@.len() - i,
    {
        all.push(entries[i].clone());
        assert(entries@.take(i + 1) =~= entries@.take(i as int).push(entries@[i as int]));
        i += 1;
    }
    assert(entries@.take(i as int) =~= entries@);
    all
}

/// Copies of borrowed commands, in order.
pub fn copy_found(found: &Vec<&Command>) -> (all: Vec<Command>)
    ensures
        records(all@) == borrowed_records(found@),
{
    let mut all: Vec<Command> = Vec::new();
    let mut i: usize = 0;
    assert(records(all@) =~= borrowed_records(found@.take(0)));
    while i < found.len()
        invariant
            i <= found@.len(),
            records(all@) == borrowed_records(found@.take(i as int)),
        decreases found@.len() - i,
    {
        let ghost before = all@;
        all.push(found[i].clone());
        proof {
            assert(records(all@) =~= records(before).push(found@[i as int]@));
            assert(borrowed_records(found@.take(i + 1)) =~= borrowed_records(
                found@.take(i as int),
            ).push(found@[i as int]@));
        }
        i += 1;
    }
    assert(found@.take(i as int) =~= found@);
    all
}

/// A repository that keeps its catalog in memory and never fails.
#[derive(Debug)]
pub struct MemoryCommandRepository {
    entries: Vec<Command>,
}

impl MemoryCommandRepository {
    #[verifier::type_invariant]
    spec fn one_record_per_name(self) -> bool {
        names_unique(records(self.entries@))
    }

    /// A repository with an empty catalog.
    pub fn new() -> (r: Self)
        ensures
            r.catalog() == Seq::<Record>::empty(),
            r.reliable(),
    {
        let entries: Vec<Command> = Vec::new();
        assert(records(entries@) =~= Seq::<Record>::empty());
        MemoryCommandRepository { entries }
    }
}

impl CommandRepository for MemoryCommandRepository {
    closed spec fn catalog(&self) -> Seq<Record> {
        records(self.entries@)
    }

    open spec fn reliable(&self) -> bool {
        true
    }

    fn insert_command(&mut self, command: &Command) -> (r: Result<()>)
        ensures
            names_unique(final(self).catalog()),
    {
        proof {
            use_type_invariant(&*self);
            lemma_upsert_unique(records(self.entries@), command@);
        }
        let mut entries: Vec<Command> = Vec::new();
        assert(records(entries@) =~= Seq::<Record>::empty());
        std::mem::swap(&mut self.entries, &mut entries);
        upsert_into(&mut entries, command);
        self.entries = entries;
        Ok(())
    }

    fn batch_insert(&mut self, commands: &[Command]) -> (r: Result<()>)
        ensures
            names_unique(final(self).catalog()),
    {
        proof {
            use_type_invariant(&*self);
            lemma_upsert_all_unique(
                records(self.entries@),
                records(commands@),
            );
        }
        let mut entries: Vec<Command> = Vec::new();
        assert(records(entries@) =~= Seq::<Record>::empty());
        std::mem::swap(&mut self.entries, &mut entries);
        upsert_all_into(&mut entries, commands);
        self.entries = entries;
        Ok(())
    }

    fn search_commands(&self, engine: &SearchEngine, query: &str) -> (r: Result<Vec<Command>>) {
        match engine.search(query, self.entries.as_slice()) {
            Ok(found) => Ok(copy_found(&found)),
            Err(e) => Err(e),
        }
    }

    fn get_command_by_name(&self, name: &str) -> (r: Result<Option<Command>>) {
        match find_folded(&self.entries, name) {
            Some(command) => Ok(Some(command.clone())),
            None => Ok(None),
        }
    }

    fn delete_by_path(&mut self, path: &str) -> (r: Result<u64>)
        ensures
            names_unique(final(self).catalog()),
    {
        proof {
            use_type_invariant(&*self);
            lemma_without_path_unique(records(self.entries@), path@);
            lemma_without_path(records(self.entries@), path@);
        }
        let kept = kept_without(&self.entries, path);
        let removed = self.entries.len() - kept.len();
        self.entries = kept;
        Ok(removed as u64)
    }

    fn clear_all(&mut self) -> (r: Result<u64>)
        ensures
            names_unique(final(self).catalog()),
    {
        let removed = self.entries.len();
        let empty: Vec<Command> = Vec::new();
        assert(records(empty@) =~= Seq::<Record>::empty());
        self.entries = empty;
        Ok(removed as u64)
    }

    fn get_file_mtime(&self, path: &str) -> (r: Result<Option<i64>>) {
        Ok(latest_among(&self.entries, path))
    }

    fn snapshot(&self) -> (r: Result<Vec<Command>>) {
        Ok(copy_all(&self.entries))
    }

    fn health_check(&self) -> (r: Result<()>) {
        Ok(())
    }
}

} // verus!
