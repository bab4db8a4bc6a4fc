//! The order of texts, character by character, and a stable sort by it.

use vstd::prelude::*;

verus! {

/// Whether `a`, from index `from` on, comes no later than `b` from that
/// index on: at the first index where they differ `a` has the smaller
/// character, or `a` ends first.
pub open spec fn text_le_from(a: Seq<char>, b: Seq<char>, from: int) -> bool
    decreases a.len() - from,
{
    if from < 0 || from >= a.len() {
        true
    } else if from >= b.len() {
        false
    } else if a[from] != b[from] {
        a[from] < b[from]
    } else {
        text_le_from(a, b, from + 1)
    }
}

/// Whether `a` comes no later than `b` in lexicographic order.
pub open spec fn text_le(a: Seq<char>, b: Seq<char>) -> bool {
    text_le_from(a, b, 0)
}

/// Of two texts one comes no later than the other.
pub proof fn lemma_text_le_total(a: Seq<char>, b: Seq<char>, from: int)
    requires
        0 <= from,
    ensures
        text_le_from(a, b, from) || text_le_from(b, a, from),
    decreases a.len() - from,
{
    if from < a.len() && from < b.len() && a[from] == b[from] {
        lemma_text_le_total(a, b, from + 1);
    }
}

/// The order of texts is transitive.
pub proof fn lemma_text_le_transitive(a: Seq<char>, b: Seq<char>, c: Seq<char>, from: int)
    requires
        0 <= from,
        text_le_from(a, b, from),
        text_le_from(b, c, from),
    ensures
        text_le_from(a, c, from),
    decreases a.len() - from,
{
    if from < a.len() && a[from] == b[from] && b[from] == c[from] {
        lemma_text_le_transitive(a, b, c, from + 1);
    }
}

/// Whether `order` lists the indices of `keys`, each once, so that the keys
/// come in order, equal keys in the order in which they stand in `keys`.
pub open spec fn arranges(order: Seq<int>, keys: Seq<Seq<char>>) -> bool {
    &&& order.len() == keys.len()
    &&& forall|k: int| 0 <= k < order.len() ==> 0 <= #[trigger] order[k] < keys.len()
    &&& forall|j: int| 0 <= j < keys.len() ==> order.contains(j)
    &&& forall|a: int, b: int|
        0 <= a < b < order.len() ==> text_le(keys[#[trigger] order[a]], keys[#[trigger] order[b]])
            && (text_le(keys[order[b]], keys[order[a]]) ==> order[a] < order[b])
}

/// The items at the indices that `order` lists.
pub open spec fn arranged<T>(items: Seq<T>, order: Seq<int>) -> Seq<T> {
    order.map_values(|k: int| items[k])
}

/// The texts that a sequence of character vectors holds.
pub open spec fn key_texts(keys: Seq<Vec<char>>) -> Seq<Seq<char>> {
    keys.map_values(|k: Vec<char>| k@)
}

/// The indices that a vector lists.
pub open spec fn indices(order: Seq<usize>) -> Seq<int> {
    order.map_values(|k: usize| k as int)
}

/// Whether `a` comes no later than `b` in lexicographic order.
pub fn comes_first(a: &Vec<char>, b: &Vec<char>) -> (r: bool)
    ensures
        r == text_le(a@, b@),
{
    let mut i: usize = 0;
    while i < a.len() && i < b.len() && a[i] == b[i]
        invariant
            i <= a@.len(),
            i <= b@.len(),
            text_le(a@, b@) == text_le_from(a@, b@, i as int),
        decreases a@.len() - i,
    {
        i += 1;
    }
    if i >= a.len() {
        true
    } else if i >= b.len() {
        false
    } else {
        a[i] < b[i]
    }
}

/// The indices of `keys` in the order of the keys, equal keys in the order
/// in which they stand.
pub fn sorted_order(keys: &Vec<Vec<char>>) -> (order: Vec<usize>)
    ensures
        arranges(indices(order@), key_texts(keys@)),
{
    let ghost texts = key_texts(keys@);
    let mut order: Vec<usize> = Vec::new();
    let mut next: usize = 0;
    while next < keys.len()
        invariant
            next <= keys@.len(),
            texts == key_texts(keys@),
            order@.len() == next,
            forall|k: int| 0 <= k < order@.len() ==> 0 <= #[trigger] order@[k] < next,
            forall|j: usize| j < next ==> #[trigger] order@.contains(j),
            forall|a: int, b: int|
                0 <= a < b < order@.len() ==> text_le(
                    texts[#[trigger] order@[a] as int],
                    texts[#[trigger] order@[b] as int],
                ) && (text_le(texts[order@[b] as int], texts[order@[a] as int]) ==> order@[a]
                    < order@[b]),
        decreases keys@.len() - next,
    {
        let mut slot: usize = 0;
        while slot < order.len() && comes_first(&keys[order[slot]], &keys[next])
            invariant
                next < keys@.len(),
                texts == key_texts(keys@),
                slot <= order@.len(),
                forall|k: int| 0 <= k < order@.len() ==> 0 <= #[trigger] order@[k] < next,
                forall|k: int|
                    0 <= k < slot ==> text_le(texts[#[trigger] order@[k] as int], texts[next as int]),
            decreases order@.len() - slot,
        {
            slot += 1;
        }
        let ghost before = order@;
        order.insert(slot, next);
        proof {
            let after = order@;
            assert forall|j: usize| j < next + 1 implies #[trigger] after.contains(j) by {
                if j < next {
                    assert(before.contains(j));
                    let k = choose|k: int| 0 <= k < before.len() && before[k] == j;
                    if k < slot {
                        assert(after[k] == j);
                    } else {
                        assert(after[k + 1] == j);
                    }
                } else {
                    assert(after[slot as int] == j);
                }
            }
            assert forall|a: int, b: int| 0 <= a < b < after.len() implies text_le(
                texts[#[trigger] after[a] as int],
                texts[#[trigger] after[b] as int],
            ) && (text_le(texts[after[b] as int], texts[after[a] as int]) ==> after[a]
                < after[b]) by {
                let fresh = texts[next as int];
                if b < slot {
                    assert(after[a] == before[a] && after[b] == before[b]);
                } else if b == slot {
                    assert(after[a] == before[a]);
                } else if a == slot {
                    let late = texts[before[b - 1] as int];
                    let first = texts[before[slot as int] as int];
                    assert(!text_le(first, fresh));
                    if b - 1 > slot {
                        assert(text_le(first, late));
                    }
                    if text_le(late, fresh) {
                        lemma_text_le_transitive(first, late, fresh, 0);
                    }
                    lemma_text_le_total(fresh, late, 0);
                } else if a < slot {
                    assert(after[a] == before[a] && after[b] == before[b - 1]);
                } else {
                    assert(after[a] == before[a - 1] && after[b] == before[b - 1]);
                }
            }
        }
        next += 1;
    }
    proof {
        let listed = indices(order@);
        assert forall|j: int| 0 <= j < texts.len() implies listed.contains(j) by {
            let wanted = j as usize;
            assert(order@.contains(wanted));
            let k = choose|k: int| 0 <= k < order@.len() && order@[k] == wanted;
            assert(listed[k] == j);
        }
    }
    order
}

} // verus!
