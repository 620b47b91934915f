//! Putting records in order. Every reader has to put the same records in
//! the same order, so the order is fixed: by a first number, then by a text
//! in lexicographic order, then by a second number. Records whose keys are
//! the same keep the order in which they came.

use vstd::prelude::*;
use crate::lease::{lemma_text_order_strict, text_before, text_lt};
use crate::records::same_text;

verus! {

/// What a record is ordered by.
pub struct SortKey {
    pub major: u64,
    pub text: String,
    pub minor: u64,
}

/// Whether a record with key `a` comes before one with key `b`.
pub open spec fn key_precedes(a: SortKey, b: SortKey) -> bool {
    a.major < b.major || (a.major == b.major && (text_lt(a.text@, b.text@) || (a.text@ == b.text@
        && a.minor < b.minor)))
}

/// Whether `order` names each of the places below `n` once.
pub open spec fn is_permutation(order: Seq<usize>, n: nat) -> bool {
    &&& order.len() == n
    &&& forall|k: int| 0 <= k < order.len() ==> (#[trigger] order[k]) < n
    &&& forall|a: int, b: int|
        0 <= a < b < order.len() ==> (#[trigger] order[a]) != (#[trigger] order[b])
}

/// Whether the keys, taken in the order `order`, never step back.
pub open spec fn ascending(keys: Seq<SortKey>, order: Seq<usize>) -> bool {
    forall|a: int, b: int|
        0 <= a < b < order.len() ==> !key_precedes(
            keys[(#[trigger] order[b]) as int],
            keys[(#[trigger] order[a]) as int],
        )
}

/// Whether records with the same key stand, along `order`, as they came:
/// of two records the later one along `order` has the greater key or came
/// later.
pub open spec fn stable(keys: Seq<SortKey>, order: Seq<usize>) -> bool {
    forall|a: int, b: int|
        0 <= a < b < order.len() ==> key_precedes(
            keys[(#[trigger] order[a]) as int],
            keys[(#[trigger] order[b]) as int],
        ) || order[a] < order[b]
}

/// Keys of which neither comes before the other stand in the same place
/// towards every third key.
pub proof fn lemma_tied_keys(x: SortKey, y: SortKey, z: SortKey)
    requires
        !key_precedes(x, y),
        !key_precedes(y, x),
    ensures
        key_precedes(z, x) == key_precedes(z, y),
        key_precedes(x, z) == key_precedes(y, z),
{
    crate::lease::lemma_text_order_total(x.text@, y.text@);
}

/// The lexicographic order is transitive.
pub proof fn lemma_text_order_transitive(a: Seq<char>, b: Seq<char>, c: Seq<char>)
    requires
        text_lt(a, b),
        text_lt(b, c),
    ensures
        text_lt(a, c),
    decreases a.len(),
{
    if a.len() > 0 && a[0] == b[0] && b[0] == c[0] {
        lemma_text_order_transitive(a.skip(1), b.skip(1), c.skip(1));
    }
}

/// The order of keys is transitive.
pub proof fn lemma_key_order_transitive(a: SortKey, b: SortKey, c: SortKey)
    requires
        key_precedes(a, b),
        key_precedes(b, c),
    ensures
        key_precedes(a, c),
{
    if a.major == b.major && b.major == c.major {
        if text_lt(a.text@, b.text@) && text_lt(b.text@, c.text@) {
            lemma_text_order_transitive(a.text@, b.text@, c.text@);
        }
    }
}

/// No key comes before a key that comes before it.
pub proof fn lemma_key_order_strict(a: SortKey, b: SortKey)
    ensures
        !(key_precedes(a, b) && key_precedes(b, a)),
{
    lemma_text_order_strict(a.text@, b.text@);
}

/// Whether a record with key `a` comes before one with key `b`.
pub fn key_before(a: &SortKey, b: &SortKey) -> (before: bool)
    ensures
        before == key_precedes(*a, *b),
{
    if a.major != b.major {
        a.major < b.major
    } else if text_before(a.text.as_str(), b.text.as_str()) {
        true
    } else {
        same_text(&a.text, &b.text) && a.minor < b.minor
    }
}

proof fn insert_keeps_order(keys: Seq<SortKey>, old_order: Seq<usize>, pos: int, i: usize)
    requires
        i < keys.len(),
        is_permutation(old_order, i as nat),
        ascending(keys, old_order),
        stable(keys, old_order),
        0 <= pos <= old_order.len(),
        forall|k: int|
            0 <= k < pos ==> !key_precedes(keys[i as int], keys[(#[trigger] old_order[k]) as int]),
        pos < old_order.len() ==> key_precedes(keys[i as int], keys[old_order[pos] as int]),
    ensures
        is_permutation(old_order.insert(pos, i), (i + 1) as nat),
        ascending(keys, old_order.insert(pos, i)),
        stable(keys, old_order.insert(pos, i)),
{
    let new_order = old_order.insert(pos, i);
    assert forall|k: int| 0 <= k < new_order.len() implies (#[trigger] new_order[k]) < i + 1 by {
        if k < pos {
            assert(new_order[k] == old_order[k]);
        } else if k > pos {
            assert(new_order[k] == old_order[k - 1]);
        }
    }
    assert forall|a: int, b: int| 0 <= a < b < new_order.len() implies key_precedes(
        keys[(#[trigger] new_order[a]) as int],
        keys[(#[trigger] new_order[b]) as int],
    ) || new_order[a] < new_order[b] by {
        if b < pos {
            assert(new_order[a] == old_order[a] && new_order[b] == old_order[b]);
        } else if b == pos {
            assert(new_order[a] == old_order[a]);
        } else if a < pos {
            assert(new_order[a] == old_order[a] && new_order[b] == old_order[b - 1]);
        } else if a == pos {
            assert(new_order[b] == old_order[b - 1]);
            let later = keys[old_order[b - 1] as int];
            let here = keys[old_order[pos] as int];
            if b - 1 > pos {
                assert(key_precedes(here, later) || old_order[pos] < old_order[b - 1]);
                assert(!key_precedes(later, here));
                if key_precedes(here, later) {
                    lemma_key_order_transitive(keys[i as int], here, later);
                } else {
                    lemma_tied_keys(here, later, keys[i as int]);
                }
            }
        } else {
            assert(new_order[a] == old_order[a - 1] && new_order[b] == old_order[b - 1]);
        }
    }
    assert forall|a: int, b: int| 0 <= a < b < new_order.len() implies (#[trigger] new_order[a]) != (
    #[trigger] new_order[b]) && !key_precedes(
        keys[new_order[b] as int],
        keys[new_order[a] as int],
    ) by {
        if b < pos {
            assert(new_order[a] == old_order[a] && new_order[b] == old_order[b]);
        } else if b == pos {
            assert(new_order[a] == old_order[a]);
        } else if a < pos {
            assert(new_order[a] == old_order[a] && new_order[b] == old_order[b - 1]);
        } else if a == pos {
            assert(new_order[b] == old_order[b - 1]);
            let later = keys[old_order[b - 1] as int];
            let here = keys[old_order[pos] as int];
            if key_precedes(later, keys[i as int]) {
                lemma_key_order_transitive(later, keys[i as int], here);
                if b - 1 > pos {
                    assert(!key_precedes(keys[old_order[b - 1] as int], keys[old_order[pos] as int]));
                } else {
                    lemma_key_order_strict(later, keys[i as int]);
                }
            }
        } else {
            assert(new_order[a] == old_order[a - 1] && new_order[b] == old_order[b - 1]);
        }
    }
}

/// The order in which the records with the keys `keys` are taken: it names
/// every place once, along it the keys never step back, and records with
/// the same key keep the order in which they came.
pub fn sorted_order(keys: &Vec<SortKey>) -> (order: Vec<usize>)
    ensures
        is_permutation(order@, keys@.len()),
        ascending(keys@, order@),
        stable(keys@, order@),
{
    let mut order: Vec<usize> = Vec::new();
    let mut i: usize = 0;
    while i < keys.len()
        invariant
            i <= keys@.len(),
            is_permutation(order@, i as nat),
            ascending(keys@, order@),
            stable(keys@, order@),
        decreases keys@.len() - i,
    {
        let mut pos: usize = 0;
        let mut found = false;
        while pos < order.len() && !found
            invariant
                i < keys@.len(),
                is_permutation(order@, i as nat),
                pos <= order@.len(),
                forall|k: int|
                    0 <= k < pos ==> !key_precedes(
                        keys@[i as int],
                        keys@[(#[trigger] order@[k]) as int],
                    ),
                found ==> pos < order@.len() && key_precedes(
                    keys@[i as int],
                    keys@[order@[pos as int] as int],
                ),
            decreases order@.len() - pos + if found { 0int } else { 1int },
        {
            if key_before(&keys[i], &keys[order[pos]]) {
                found = true;
            } else {
                pos += 1;
            }
        }
        proof {
            insert_keeps_order(keys@, order@, pos as int, i);
        }
        order.insert(pos, i);
        i += 1;
    }
    order
}

} // verus!
