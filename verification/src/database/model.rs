//! The catalog as a mathematical value: a sequence of records with at most
//! one record per name, and what each operation makes of it.

use crate::database::Record;
use crate::text::fold;
use vstd::prelude::*;

verus! {

/// Whether no two records carry the same name.
pub open spec fn names_unique(catalog: Seq<Record>) -> bool {
    forall|i: int, j: int|
        0 <= i < j < catalog.len() ==> (#[trigger] catalog[i]).name != (#[trigger] catalog[j]).name
}

/// The least index at or after `from` of a record named `name`, or the
/// length of the catalog where there is none.
pub open spec fn index_from(catalog: Seq<Record>, name: Seq<char>, from: int) -> int
    decreases catalog.len() - from,
{
    if from < 0 || from >= catalog.len() {
        catalog.len() as int
    } else if catalog[from].name == name {
        from
    } else {
        index_from(catalog, name, from + 1)
    }
}

/// Where the record named `name` stands, or the length of the catalog where
/// no record has that name.
pub open spec fn index_of(catalog: Seq<Record>, name: Seq<char>) -> int {
    index_from(catalog, name, 0)
}

/// The record named exactly `name`, if there is one.
pub open spec fn entry(catalog: Seq<Record>, name: Seq<char>) -> Option<Record> {
    let at = index_of(catalog, name);
    if at < catalog.len() {
        Some(catalog[at])
    } else {
        None
    }
}

impl Record {
    /// The record with another time of creation.
    pub open spec fn created(self, at: Option<i64>) -> Record {
        Record { created_at: at, ..self }
    }

    /// Whether two records agree in all but the time of creation.
    pub open spec fn same_definition(self, other: Record) -> bool {
        self.created(None) == other.created(None)
    }
}

/// The catalog after `record` is written: it takes the place of the record
/// of the same name, whose time of creation it keeps, or goes to the end
/// where the name is new.
pub open spec fn upsert(catalog: Seq<Record>, record: Record) -> Seq<Record> {
    let at = index_of(catalog, record.name);
    if at < catalog.len() {
        catalog.update(at, record.created(catalog[at].created_at))
    } else {
        catalog.push(record)
    }
}

/// The catalog after each of `batch` is written, in order.
pub open spec fn upsert_all(catalog: Seq<Record>, batch: Seq<Record>) -> Seq<Record>
    decreases batch.len(),
{
    if batch.len() == 0 {
        catalog
    } else {
        upsert(upsert_all(catalog, batch.drop_last()), batch.last())
    }
}

/// The records that do not come from `path`.
pub open spec fn elsewhere(path: Seq<char>) -> spec_fn(Record) -> bool {
    |r: Record| r.path != path
}

/// The catalog without the records that come from `path`.
pub open spec fn without_path(catalog: Seq<Record>, path: Seq<char>) -> Seq<Record> {
    catalog.filter(elsewhere(path))
}

/// The first record, from `from` on, whose name is `name` once letter case
/// is set aside.
pub open spec fn lookup_from(catalog: Seq<Record>, name: Seq<char>, from: int) -> Option<Record>
    decreases catalog.len() - from,
{
    if from < 0 || from >= catalog.len() {
        None
    } else if fold(catalog[from].name) == fold(name) {
        Some(catalog[from])
    } else {
        lookup_from(catalog, name, from + 1)
    }
}

/// The first record whose name is `name` once the case of ASCII letters is
/// set aside.
pub open spec fn lookup(catalog: Seq<Record>, name: Seq<char>) -> Option<Record> {
    lookup_from(catalog, name, 0)
}

/// The greatest modification time among the records that come from `path`,
/// if any does.
pub open spec fn latest_mtime(catalog: Seq<Record>, path: Seq<char>) -> Option<i64>
    decreases catalog.len(),
{
    if catalog.len() == 0 {
        None
    } else {
        let before = latest_mtime(catalog.drop_last(), path);
        let last = catalog.last();
        if last.path != path {
            before
        } else {
            match before {
                Some(m) if m >= last.file_mtime => Some(m),
                _ => Some(last.file_mtime),
            }
        }
    }
}

/// `index_from` is the first index from `from` on with the name: no record
/// before it has the name, and the record at it does unless it is the
/// length.
pub proof fn lemma_index_from(catalog: Seq<Record>, name: Seq<char>, from: int)
    requires
        0 <= from <= catalog.len(),
    ensures
        from <= index_from(catalog, name, from) <= catalog.len(),
        forall|j: int|
            from <= j < index_from(catalog, name, from) ==> (#[trigger] catalog[j]).name != name,
        index_from(catalog, name, from) < catalog.len() ==> catalog[index_from(
            catalog,
            name,
            from,
        )].name == name,
    decreases catalog.len() - from,
{
    if from < catalog.len() && catalog[from].name != name {
        lemma_index_from(catalog, name, from + 1);
    }
}

/// An index with the name and none before it from `from` on is what
/// `index_from` gives.
pub proof fn lemma_index_from_is(catalog: Seq<Record>, name: Seq<char>, from: int, at: int)
    requires
        0 <= from <= at <= catalog.len(),
        forall|j: int| from <= j < at ==> (#[trigger] catalog[j]).name != name,
        at < catalog.len() ==> catalog[at].name == name,
    ensures
        index_from(catalog, name, from) == at,
    decreases at - from,
{
    if from < at {
        lemma_index_from_is(catalog, name, from + 1, at);
    }
}

/// What `lookup_from` finds is the first record from `from` on with the
/// folded name; it finds nothing only where no record has it.
pub proof fn lemma_lookup_from(catalog: Seq<Record>, name: Seq<char>, from: int)
    requires
        0 <= from <= catalog.len(),
    ensures
        match lookup_from(catalog, name, from) {
            Some(found) => exists|at: int|
                from <= at < catalog.len() && #[trigger] catalog[at] == found && fold(found.name)
                    == fold(name) && forall|j: int|
                    from <= j < at ==> fold((#[trigger] catalog[j]).name) != fold(name),
            None => forall|j: int|
                from <= j < catalog.len() ==> fold((#[trigger] catalog[j]).name) != fold(name),
        },
    decreases catalog.len() - from,
{
    if from < catalog.len() {
        if fold(catalog[from].name) == fold(name) {
            assert(catalog[from] == catalog[from]);
        } else {
            lemma_lookup_from(catalog, name, from + 1);
            match lookup_from(catalog, name, from + 1) {
                Some(found) => {
                    let at = choose|at: int|
                        from + 1 <= at < catalog.len() && #[trigger] catalog[at] == found && fold(
                            found.name,
                        ) == fold(name) && forall|j: int|
                            from + 1 <= j < at ==> fold((#[trigger] catalog[j]).name) != fold(name);
                    assert(from <= at < catalog.len() && catalog[at] == found);
                },
                None => {},
            }
        }
    }
}

/// `latest_mtime` is the modification time of a record from the path that
/// none from the path exceeds; it is nothing only where no record comes from
/// the path.
pub proof fn lemma_latest_mtime(catalog: Seq<Record>, path: Seq<char>)
    ensures
        match latest_mtime(catalog, path) {
            Some(m) => (exists|at: int|
                0 <= at < catalog.len() && (#[trigger] catalog[at]).path == path
                    && catalog[at].file_mtime == m) && forall|j: int|
                0 <= j < catalog.len() && (#[trigger] catalog[j]).path == path
                    ==> catalog[j].file_mtime <= m,
            None => forall|j: int| 0 <= j < catalog.len() ==> (#[trigger] catalog[j]).path != path,
        },
    decreases catalog.len(),
{
    if catalog.len() > 0 {
        let head = catalog.drop_last();
        let last = catalog.last();
        lemma_latest_mtime(head, path);
        let before = latest_mtime(head, path);
        assert forall|j: int| 0 <= j < head.len() implies head[j] == catalog[j] by {}
        match latest_mtime(catalog, path) {
            Some(m) => {
                if last.path == path && m == last.file_mtime {
                    assert(catalog[catalog.len() - 1].path == path);
                } else {
                    let at = choose|at: int|
                        0 <= at < head.len() && (#[trigger] head[at]).path == path
                            && head[at].file_mtime == m;
                    assert(catalog[at].path == path && catalog[at].file_mtime == m);
                }
                assert forall|j: int|
                    0 <= j < catalog.len() && (#[trigger] catalog[j]).path == path implies catalog[j].file_mtime
                    <= m by {
                    if j < head.len() {
                        assert(head[j].path == path);
                    }
                }
            },
            None => {
                assert forall|j: int| 0 <= j < catalog.len() implies (#[trigger] catalog[j]).path
                    != path by {
                    if j < head.len() {
                        assert(head[j].path != path);
                    }
                }
            },
        }
    }
}

/// Writing a record keeps at most one record per name.
pub proof fn lemma_upsert_unique(catalog: Seq<Record>, record: Record)
    requires
        names_unique(catalog),
    ensures
        names_unique(upsert(catalog, record)),
{
    lemma_index_from(catalog, record.name, 0);
    let at = index_of(catalog, record.name);
    let after = upsert(catalog, record);
    assert forall|i: int, j: int| 0 <= i < j < after.len() implies (#[trigger] after[i]).name != (
    #[trigger] after[j]).name by {
        if at < catalog.len() {
            assert(after[i].name == catalog[i].name);
            assert(after[j].name == catalog[j].name);
        } else if j < catalog.len() {
            assert(after[i] == catalog[i] && after[j] == catalog[j]);
        } else {
            assert(after[i] == catalog[i]);
        }
    }
}

/// Writing a batch keeps at most one record per name.
pub proof fn lemma_upsert_all_unique(catalog: Seq<Record>, batch: Seq<Record>)
    requires
        names_unique(catalog),
    ensures
        names_unique(upsert_all(catalog, batch)),
    decreases batch.len(),
{
    if batch.len() > 0 {
        lemma_upsert_all_unique(catalog, batch.drop_last());
        lemma_upsert_unique(upsert_all(catalog, batch.drop_last()), batch.last());
    }
}

/// Writing a batch and then one more record is writing the batch with the
/// record at its end.
pub proof fn lemma_upsert_all_push(catalog: Seq<Record>, batch: Seq<Record>, record: Record)
    ensures
        upsert_all(catalog, batch.push(record)) == upsert(upsert_all(catalog, batch), record),
{
    assert(batch.push(record).drop_last() =~= batch);
}

/// Taking a path out of a catalog with one more record at its end.
pub proof fn lemma_without_path_push(catalog: Seq<Record>, record: Record, path: Seq<char>)
    ensures
        without_path(catalog.push(record), path) == if record.path != path {
            without_path(catalog, path).push(record)
        } else {
            without_path(catalog, path)
        },
{
    catalog.lemma_filter_push(record, elsewhere(path));
}

/// What is left when a path is taken out: every record left was there
/// before and comes from elsewhere, and every record from elsewhere is
/// left.
pub proof fn lemma_without_path(catalog: Seq<Record>, path: Seq<char>)
    ensures
        without_path(catalog, path).len() <= catalog.len(),
        forall|i: int|
            0 <= i < without_path(catalog, path).len() ==> (#[trigger] without_path(
                catalog,
                path,
            )[i]).path != path && catalog.contains(without_path(catalog, path)[i]),
        forall|i: int|
            0 <= i < catalog.len() && (#[trigger] catalog[i]).path != path ==> without_path(
                catalog,
                path,
            ).contains(catalog[i]),
{
    let keep = elsewhere(path);
    broadcast use vstd::seq_lib::group_filter_ensures;

    let left = catalog.filter(keep);
    assert forall|i: int| 0 <= i < left.len() implies (#[trigger] left[i]).path != path
        && catalog.contains(left[i]) by {
        assert(keep(left[i]));
        assert(left.contains(left[i]));
        catalog.lemma_filter_contains_rev(keep, left[i]);
    }
    assert forall|i: int| 0 <= i < catalog.len() && (#[trigger] catalog[i]).path
        != path implies left.contains(catalog[i]) by {
        assert(keep(catalog[i]));
    }
}

/// Taking a path out keeps at most one record per name.
pub proof fn lemma_without_path_unique(catalog: Seq<Record>, path: Seq<char>)
    requires
        names_unique(catalog),
    ensures
        names_unique(without_path(catalog, path)),
    decreases catalog.len(),
{
    if catalog.len() == 0 {
        lemma_without_path(catalog, path);
    } else {
        let head = catalog.drop_last();
        let last = catalog.last();
        assert(catalog =~= head.push(last));
        assert forall|i: int, j: int| 0 <= i < j < head.len() implies (#[trigger] head[i]).name != (
        #[trigger] head[j]).name by {
            assert(head[i] == catalog[i] && head[j] == catalog[j]);
        }
        lemma_without_path_unique(head, path);
        lemma_without_path_push(head, last, path);
        lemma_without_path(head, path);
        let left = without_path(head, path);
        if last.path != path {
            let after = left.push(last);
            assert forall|i: int, j: int| 0 <= i < j < after.len() implies (
            #[trigger] after[i]).name != (#[trigger] after[j]).name by {
                if j < left.len() {
                    assert(after[i] == left[i] && after[j] == left[j]);
                } else {
                    assert(after[i] == left[i]);
                    assert(head.contains(left[i]));
                    let k = choose|k: int| 0 <= k < head.len() && head[k] == left[i];
                    assert(catalog[k] == left[i]);
                    assert(catalog[catalog.len() - 1] == last);
                }
            }
        }
    }
}

/// After a record is written, the record of its name is that record, with
/// the time of creation that the name had before, if it had one.
pub proof fn lemma_upsert_sets(catalog: Seq<Record>, record: Record)
    ensures
        entry(upsert(catalog, record), record.name) matches Some(found) && found.same_definition(
            record,
        ),
        entry(catalog, record.name) matches Some(before) ==> entry(
            upsert(catalog, record),
            record.name,
        ) == Some(record.created(before.created_at)),
        entry(catalog, record.name) is None ==> entry(upsert(catalog, record), record.name)
            == Some(record),
{
    lemma_index_from(catalog, record.name, 0);
    let at = index_of(catalog, record.name);
    let after = upsert(catalog, record);
    assert forall|j: int| 0 <= j < at implies (#[trigger] after[j]).name != record.name by {
        assert(after[j] == catalog[j]);
    }
    lemma_index_from_is(after, record.name, 0, at);
}

/// Writing a record leaves the records of other names as they were.
pub proof fn lemma_upsert_keeps(catalog: Seq<Record>, record: Record, name: Seq<char>)
    requires
        name != record.name,
    ensures
        entry(upsert(catalog, record), name) == entry(catalog, name),
{
    lemma_index_from(catalog, record.name, 0);
    lemma_index_from(catalog, name, 0);
    let at = index_of(catalog, name);
    let after = upsert(catalog, record);
    assert forall|j: int| 0 <= j < at implies (#[trigger] after[j]).name != name by {
        assert(after[j].name == catalog[j].name);
    }
    if at < catalog.len() {
        assert(after[at] == catalog[at]);
        lemma_index_from_is(after, name, 0, at);
    } else {
        assert forall|j: int| 0 <= j < after.len() implies (#[trigger] after[j]).name != name by {
            if j < catalog.len() {
                assert(after[j].name == catalog[j].name);
            }
        }
        lemma_index_from_is(after, name, 0, after.len() as int);
    }
}

/// Batches are their writes: two batches written one after the other leave
/// what one batch leaves that holds the records of the first, then those of
/// the second.
pub proof fn law_batches_are_their_writes(catalog: Seq<Record>, first: Seq<Record>, second: Seq<Record>)
    ensures
        upsert_all(upsert_all(catalog, first), second) == upsert_all(catalog, first + second),
    decreases second.len(),
{
    if second.len() == 0 {
        assert(first + second =~= first);
    } else {
        law_batches_are_their_writes(catalog, first, second.drop_last());
        assert((first + second).drop_last() =~= first + second.drop_last());
        assert((first + second).last() == second.last());
    }
}

/// One record per name, and the last write wins. Take the records written
/// by any sequence of calls, one by one or in batches, in the order in which
/// they were written. Afterwards the catalog still holds at most one record
/// per name, and for each write that is the last of its name, the record of
/// that name is the one written: its kind, path, code and modification
/// time.
pub proof fn law_last_write_wins(catalog: Seq<Record>, writes: Seq<Record>, last: int)
    requires
        names_unique(catalog),
        0 <= last < writes.len(),
        forall|j: int| last < j < writes.len() ==> (#[trigger] writes[j]).name != writes[last].name,
    ensures
        names_unique(upsert_all(catalog, writes)),
        entry(upsert_all(catalog, writes), writes[last].name) matches Some(found)
            && found.same_definition(writes[last]),
    decreases writes.len(),
{
    lemma_upsert_all_unique(catalog, writes);
    let head = writes.drop_last();
    let before = upsert_all(catalog, head);
    if last == writes.len() - 1 {
        lemma_upsert_sets(before, writes.last());
    } else {
        assert(head[last] == writes[last]);
        assert forall|j: int| last < j < head.len() implies (#[trigger] head[j]).name
            != head[last].name by {
            assert(head[j] == writes[j]);
        }
        law_last_write_wins(catalog, head, last);
        assert(writes[writes.len() - 1].name != writes[last].name);
        lemma_upsert_keeps(before, writes.last(), writes[last].name);
    }
}

/// Deleting by path removes what came from the path and nothing else. After
/// it, a name that only records from the path carried, letter case set
/// aside, is looked up in vain; the catalog holds exactly the records that
/// came from other paths; and each of those is still the record of its
/// name.
pub proof fn law_delete_by_path(catalog: Seq<Record>, path: Seq<char>, name: Seq<char>)
    requires
        names_unique(catalog),
    ensures
        (forall|i: int|
            0 <= i < catalog.len() && fold((#[trigger] catalog[i]).name) == fold(name)
                ==> catalog[i].path == path) ==> lookup(without_path(catalog, path), name) is None,
        forall|r: Record|
            without_path(catalog, path).contains(r) <==> catalog.contains(r) && r.path != path,
        entry(catalog, name) matches Some(kept) ==> (kept.path != path ==> entry(
            without_path(catalog, path),
            name,
        ) == Some(kept)),
{
    let left = without_path(catalog, path);
    lemma_without_path(catalog, path);
    assert forall|r: Record| left.contains(r) <==> catalog.contains(r) && r.path != path by {
        if left.contains(r) {
            let k = choose|k: int| 0 <= k < left.len() && left[k] == r;
            assert(left[k].path != path && catalog.contains(left[k]));
        }
        if catalog.contains(r) && r.path != path {
            let k = choose|k: int| 0 <= k < catalog.len() && catalog[k] == r;
            assert(left.contains(catalog[k]));
        }
    }
    if forall|i: int|
        0 <= i < catalog.len() && fold((#[trigger] catalog[i]).name) == fold(name)
            ==> catalog[i].path == path {
        lemma_lookup_from(left, name, 0);
        if lookup(left, name) is Some {
            let found = lookup(left, name)->0;
            let at = choose|at: int|
                0 <= at < left.len() && #[trigger] left[at] == found && fold(found.name) == fold(
                    name,
                ) && forall|j: int| 0 <= j < at ==> fold((#[trigger] left[j]).name) != fold(name);
            assert(left[at].path != path && catalog.contains(left[at]));
            let k = choose|k: int| 0 <= k < catalog.len() && catalog[k] == left[at];
            assert(fold(catalog[k].name) == fold(name));
            assert(false);
        }
    }
    lemma_index_from(catalog, name, 0);
    let at = index_of(catalog, name);
    if at < catalog.len() && catalog[at].path != path {
        let kept = catalog[at];
        assert(left.contains(catalog[at]));
        lemma_index_from(left, name, 0);
        let now = index_of(left, name);
        let k = choose|k: int| 0 <= k < left.len() && left[k] == kept;
        if now >= left.len() {
            assert(left[k].name != name);
        }
        assert(left[now].path != path && catalog.contains(left[now]));
        let back = choose|back: int| 0 <= back < catalog.len() && catalog[back] == left[now];
        if back < at {
            assert(catalog[back].name != catalog[at].name);
        } else if at < back {
            assert(catalog[at].name != catalog[back].name);
        }
    }
}

/// Filtering twice is filtering once by both conditions.
pub proof fn lemma_filter_twice(
    catalog: Seq<Record>,
    first: spec_fn(Record) -> bool,
    second: spec_fn(Record) -> bool,
)
    ensures
        catalog.filter(first).filter(second) == catalog.filter(|r: Record| first(r) && second(r)),
    decreases catalog.len(),
{
    let both = |r: Record| first(r) && second(r);
    if catalog.len() == 0 {
        Seq::<Record>::empty().lemma_filter_len(first);
        Seq::<Record>::empty().lemma_filter_len(second);
        Seq::<Record>::empty().lemma_filter_len(both);
        assert(catalog =~= Seq::<Record>::empty());
        assert(catalog.filter(first) =~= Seq::<Record>::empty());
        assert(catalog.filter(both) =~= Seq::<Record>::empty());
        assert(Seq::<Record>::empty().filter(second) =~= Seq::<Record>::empty());
    } else {
        let head = catalog.drop_last();
        let last = catalog.last();
        assert(catalog =~= head.push(last));
        lemma_filter_twice(head, first, second);
        head.lemma_filter_push(last, first);
        head.lemma_filter_push(last, both);
        if first(last) {
            head.filter(first).lemma_filter_push(last, second);
        }
    }
}

/// Two conditions that agree on every record of a catalog filter it alike.
pub proof fn lemma_filter_agree(
    catalog: Seq<Record>,
    first: spec_fn(Record) -> bool,
    second: spec_fn(Record) -> bool,
)
    requires
        forall|i: int| 0 <= i < catalog.len() ==> first(#[trigger] catalog[i]) == second(catalog[i]),
    ensures
        catalog.filter(first) == catalog.filter(second),
    decreases catalog.len(),
{
    if catalog.len() == 0 {
        Seq::<Record>::empty().lemma_filter_len(first);
        Seq::<Record>::empty().lemma_filter_len(second);
        assert(catalog =~= Seq::<Record>::empty());
        assert(catalog.filter(first) =~= Seq::<Record>::empty());
        assert(catalog.filter(second) =~= Seq::<Record>::empty());
    } else {
        let head = catalog.drop_last();
        let last = catalog.last();
        assert(catalog =~= head.push(last));
        assert forall|i: int| 0 <= i < head.len() implies first(#[trigger] head[i]) == second(
            head[i],
        ) by {
            assert(head[i] == catalog[i]);
        }
        lemma_filter_agree(head, first, second);
        head.lemma_filter_push(last, first);
        head.lemma_filter_push(last, second);
        assert(first(catalog[catalog.len() - 1]) == second(catalog[catalog.len() - 1]));
    }
}

/// A condition that holds of every record of a catalog filters nothing out.
pub proof fn lemma_filter_all(catalog: Seq<Record>, keep: spec_fn(Record) -> bool)
    requires
        forall|i: int| 0 <= i < catalog.len() ==> keep(#[trigger] catalog[i]),
    ensures
        catalog.filter(keep) == catalog,
    decreases catalog.len(),
{
    if catalog.len() == 0 {
        Seq::<Record>::empty().lemma_filter_len(keep);
        assert(catalog =~= Seq::<Record>::empty());
        assert(catalog.filter(keep) =~= Seq::<Record>::empty());
    } else {
        let head = catalog.drop_last();
        let last = catalog.last();
        assert(catalog =~= head.push(last));
        assert forall|i: int| 0 <= i < head.len() implies keep(#[trigger] head[i]) by {
            assert(head[i] == catalog[i]);
        }
        lemma_filter_all(head, keep);
        head.lemma_filter_push(last, keep);
        assert(keep(catalog[catalog.len() - 1]));
    }
}

} // verus!
