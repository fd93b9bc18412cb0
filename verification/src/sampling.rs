//! What sampling by rank gives: that it wraps around, and that compression
//! does not change it.

use vstd::prelude::*;
use crate::tree::{
    Tree, compress_edge, holds_rank, lemma_compress_edge_count, lemma_sample_step,
    lemma_weight_before_prefix, redundant, sample_at, tree_compress, tree_sample, weight_before,
};

verus! {

/// The words at all the ranks of `t`, in order of rank.
pub open spec fn sampled(t: Tree) -> Seq<Seq<char>> {
    Seq::new(t.count, |rank: int| tree_sample(t, rank as nat))
}

/// How many of the ranks below `n` give the word `w` in `t`.
pub open spec fn hits(t: Tree, w: Seq<char>, n: nat) -> nat
    decreases n,
{
    if n == 0 {
        0
    } else {
        hits(t, w, (n - 1) as nat) + if tree_sample(t, (n - 1) as nat) == w {
            1nat
        } else {
            0nat
        }
    }
}

/// Sampling wraps around: an id and the id that is larger by the number of
/// word occurrences give the same word.
pub proof fn lemma_sample_wraps(t: Tree, id: nat)
    requires
        t.count > 0,
    ensures
        sample_at(t, id + t.count) == sample_at(t, id),
{
    let n = t.count as int;
    let i = id as int;
    assert((i + n) % n == i % n) by (nonlinear_arith)
        requires
            n > 0,
            i >= 0,
    ;
}

/// A compressed edge leads every rank of the node behind it to the same
/// word as the edge did before.
pub proof fn lemma_compress_edge_sample(key: Seq<char>, t: Tree, rank: nat)
    requires
        rank < t.count,
    ensures
        compress_edge(key, t).key + tree_sample(compress_edge(key, t).sub, rank) == key
            + tree_sample(t, rank),
    decreases t, 1int,
{
    if redundant(t) {
        let k0 = t.branches[0].key;
        let c0 = t.branches[0].sub;
        lemma_compress_edge_sample(key + k0, c0, rank);
        assert(holds_rank(t.branches, 0, rank));
        lemma_sample_step(t, 0, rank);
        assert((key + k0) + tree_sample(c0, rank) =~= key + (k0 + tree_sample(c0, rank)));
    } else {
        lemma_compress_sample(t, rank);
    }
}

/// Compression preserves sampling: every rank gives the same word in the
/// compressed tree as in the tree itself.
pub proof fn lemma_compress_sample(t: Tree, rank: nat)
    ensures
        tree_sample(tree_compress(t), rank) == tree_sample(t, rank),
        tree_compress(t).count == t.count,
    decreases t, 0int,
{
    let r = tree_compress(t);
    assert forall|k: int| 0 <= k < t.branches.len() implies (#[trigger] r.branches[k]).sub.count
        == t.branches[k].sub.count by {
        lemma_compress_edge_count(t.branches[k].key, t.branches[k].sub);
    }
    assert forall|k: int| 0 <= k <= t.branches.len() implies #[trigger] weight_before(
        r.branches,
        k,
    ) == weight_before(t.branches, k) by {
        lemma_weight_before_prefix(r.branches, t.branches, k);
    }
    if exists|k: int| holds_rank(t.branches, k, rank) {
        let k = choose|k: int| holds_rank(t.branches, k, rank);
        let below = (rank - weight_before(t.branches, k)) as nat;
        assert(holds_rank(r.branches, k, rank));
        lemma_sample_step(t, k, rank);
        lemma_sample_step(r, k, rank);
        lemma_compress_edge_sample(t.branches[k].key, t.branches[k].sub, below);
    } else {
        assert forall|k: int| !holds_rank(r.branches, k, rank) by {
            assert(!holds_rank(t.branches, k, rank));
        }
    }
}

/// Compression preserves the sampling distribution: the words at all the
/// ranks are the same, rank by rank, and so as a multiset.
pub proof fn lemma_compress_sampled(t: Tree)
    ensures
        forall|id: nat|
            t.count > 0 ==> #[trigger] sample_at(tree_compress(t), id) == sample_at(t, id),
        sampled(tree_compress(t)) == sampled(t),
        sampled(tree_compress(t)).to_multiset() == sampled(t).to_multiset(),
{
    lemma_compress_sample(t, 0);
    assert forall|id: nat| t.count > 0 implies #[trigger] sample_at(tree_compress(t), id)
        == sample_at(t, id) by {
        lemma_compress_sample(t, id % t.count);
    }
    assert forall|rank: int| 0 <= rank < t.count implies sampled(tree_compress(t))[rank]
        == sampled(t)[rank] by {
        lemma_compress_sample(t, rank as nat);
    }
    assert(sampled(tree_compress(t)) =~= sampled(t));
}

} // verus!
