//! The commitment to an ordered set of digests: a binary tree in which a
//! node is the digest of its two children, one after the other. A node
//! without a sibling moves up unchanged. The root of a single leaf is the
//! leaf; the root of no leaves is the digest of the empty input.

use vstd::prelude::*;
use crate::digest::{keccak256, keccak256_digest};

verus! {

/// The byte strings that `nodes` hold.
pub open spec fn views(nodes: Seq<Vec<u8>>) -> Seq<Seq<u8>> {
    Seq::new(nodes.len(), |i: int| nodes[i]@)
}

/// The level above `nodes`.
pub open spec fn paired(nodes: Seq<Seq<u8>>) -> Seq<Seq<u8>> {
    Seq::new(
        ((nodes.len() + 1) / 2) as nat,
        |i: int|
            if 2 * i + 1 < nodes.len() {
                keccak256_digest(nodes[2 * i] + nodes[2 * i + 1])
            } else {
                nodes[2 * i]
            },
    )
}

/// The root of the tree over `nodes`.
pub open spec fn root_of(nodes: Seq<Seq<u8>>) -> Seq<u8>
    decreases nodes.len(),
{
    if nodes.len() == 0 {
        keccak256_digest(Seq::empty())
    } else if nodes.len() == 1 {
        nodes[0]
    } else {
        root_of(paired(nodes))
    }
}

/// A copy of `bytes`.
pub fn copy_bytes(bytes: &Vec<u8>) -> (copy: Vec<u8>)
    ensures
        copy@ == bytes@,
{
    let mut copy: Vec<u8> = Vec::new();
    let mut i: usize = 0;
    while i < bytes.len()
        invariant
            i <= bytes@.len(),
            copy@ == bytes@.take(i as int),
        decreases bytes@.len() - i,
    {
        copy.push(bytes[i]);
        proof {
            assert(bytes@.take(i + 1) =~= bytes@.take(i as int).push(bytes@[i as int]));
        }
        i += 1;
    }
    proof {
        assert(bytes@.take(i as int) =~= bytes@);
    }
    copy
}

/// The digest of `left` followed by `right`.
pub fn node_digest(left: &Vec<u8>, right: &Vec<u8>) -> (digest: Vec<u8>)
    ensures
        digest@ == keccak256_digest(left@ + right@),
{
    let mut joined = copy_bytes(left);
    let mut i: usize = 0;
    while i < right.len()
        invariant
            i <= right@.len(),
            joined@ == left@ + right@.take(i as int),
        decreases right@.len() - i,
    {
        joined.push(right[i]);
        proof {
            assert(right@.take(i + 1) =~= right@.take(i as int).push(right@[i as int]));
            assert(joined@ =~= left@ + right@.take(i + 1));
        }
        i += 1;
    }
    proof {
        assert(right@.take(i as int) =~= right@);
    }
    keccak256(joined.as_slice())
}

/// The level above `nodes`.
fn pair_up(nodes: &Vec<Vec<u8>>) -> (next: Vec<Vec<u8>>)
    ensures
        views(next@) == paired(views(nodes@)),
        next@.len() == (nodes@.len() + 1) / 2,
{
    let mut next: Vec<Vec<u8>> = Vec::new();
    let mut i: usize = 0;
    let n = nodes.len();
    while i < n
        invariant
            n == nodes@.len(),
            i <= n,
            i % 2 == 0 || i == n,
            next@.len() == (i + 1) / 2,
            forall|k: int| 0 <= k < next@.len() ==> (#[trigger] next@[k])@ == paired(views(nodes@))[k],
        decreases n - i,
    {
        if n - i >= 2 {
            let d = node_digest(&nodes[i], &nodes[i + 1]);
            next.push(d);
            i += 2;
        } else {
            let c = copy_bytes(&nodes[i]);
            next.push(c);
            i += 1;
        }
    }
    proof {
        assert(next@.len() == (n + 1) / 2);
        assert(views(next@) =~= paired(views(nodes@)));
    }
    next
}

/// The root of the tree over `leaves`, in their order.
pub fn merkle_root(leaves: &Vec<Vec<u8>>) -> (root: Vec<u8>)
    ensures
        root@ == root_of(views(leaves@)),
{
    if leaves.len() == 0 {
        let nothing: Vec<u8> = Vec::new();
        proof {
            assert(nothing@ =~= Seq::<u8>::empty());
        }
        return keccak256(nothing.as_slice());
    }
    if leaves.len() == 1 {
        return copy_bytes(&leaves[0]);
    }
    let mut level = pair_up(leaves);
    while level.len() > 1
        invariant
            level@.len() >= 1,
            root_of(views(level@)) == root_of(views(leaves@)),
        decreases level@.len(),
    {
        level = pair_up(&level);
    }
    copy_bytes(&level[0])
}

/// Sealing is repeatable: leaves that hold the same digests in the same
/// order have the same root.
pub proof fn lemma_same_leaves_same_root(first: Seq<Vec<u8>>, second: Seq<Vec<u8>>)
    requires
        first.len() == second.len(),
        forall|i: int| 0 <= i < first.len() ==> first[i]@ == second[i]@,
    ensures
        root_of(views(first)) == root_of(views(second)),
{
    assert(views(first) =~= views(second));
}

/// The root over two leaves is the digest of the first followed by the second.
pub proof fn lemma_root_of_two(left: Seq<u8>, right: Seq<u8>)
    ensures
        root_of(seq![left, right]) == keccak256_digest(left + right),
{
    let nodes = seq![left, right];
    assert(paired(nodes) =~= seq![keccak256_digest(left + right)]);
    reveal_with_fuel(root_of, 3);
}

} // verus!
