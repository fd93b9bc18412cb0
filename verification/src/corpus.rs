//! The words that a tree holds: how often each word occurs in it, that
//! these are the words that were inserted, that sampling hands out each of
//! them as often as it occurs, and that the counts of every node are
//! conserved.

use vstd::prelude::*;
use crate::sampling::{hits, lemma_compress_sampled, sampled};
use crate::tree::{
    Branch, Tree, child_weight, compress_edge, conserved, distinct, first_keyed, holds_rank, leaf,
    lemma_compress_distinct, lemma_compress_edge_count, lemma_first_keyed_range,
    lemma_insert_conserved, lemma_insert_distinct, lemma_sample_step, lemma_sample_stop,
    lemma_tree_of_conserved, lemma_weight_before_prefix, lemma_weight_before_update, redundant,
    single_chars, terminal, tree_compress, tree_insert, tree_of, tree_sample, weight_before,
};

verus! {

/// How many words end exactly at the root of `t`, as a natural number.
pub open spec fn ending_here(t: Tree) -> nat {
    if terminal(t) > 0 {
        terminal(t) as nat
    } else {
        0
    }
}

/// How many of the words of `t` are the word `w`: the words that end at a
/// node of `t` whose path from the root spells `w`.
pub open spec fn occurrences(t: Tree, w: Seq<char>) -> nat
    decreases t, 1int, 0int,
{
    (if w.len() == 0 {
        ending_here(t)
    } else {
        0
    }) + occurrences_in(t, w, t.branches.len() as int)
}

/// How many of the words below the first `k` branches of `t` are `w`.
pub open spec fn occurrences_in(t: Tree, w: Seq<char>, k: int) -> nat
    decreases t, 0int, k,
{
    if k <= 0 || k > t.branches.len() {
        0
    } else {
        occurrences_in(t, w, k - 1) + through(t.branches[k - 1], w)
    }
}

/// How many of the words below the branch `b` are `w`, seen from the near
/// end of the branch.
pub open spec fn through(b: Branch, w: Seq<char>) -> nat
    decreases b.sub, 2int, 0int,
{
    if b.key.is_prefix_of(w) {
        occurrences(b.sub, w.skip(b.key.len() as int))
    } else {
        0
    }
}

/// The number of `w` below the first `k` branches changes by what the branch
/// at `at` contributes, if the two trees differ in that branch alone.
proof fn lemma_occurrences_in_update(t: Tree, r: Tree, w: Seq<char>, k: int, at: int)
    requires
        0 <= k <= t.branches.len(),
        k <= r.branches.len(),
        forall|j: int| 0 <= j < k && j != at ==> t.branches[j] == r.branches[j],
    ensures
        occurrences_in(r, w, k) == if 0 <= at < k {
            occurrences_in(t, w, k) - through(t.branches[at], w) + through(r.branches[at], w)
        } else {
            occurrences_in(t, w, k) as int
        },
    decreases k,
{
    if k > 0 {
        lemma_occurrences_in_update(t, r, w, k - 1, at);
    }
}

/// What a branch contributes is part of what the branches up to `k`
/// contribute.
proof fn lemma_occurrences_in_part(t: Tree, w: Seq<char>, k: int, at: int)
    requires
        0 <= at < k <= t.branches.len(),
    ensures
        through(t.branches[at], w) <= occurrences_in(t, w, k),
    decreases k,
{
    if at < k - 1 {
        lemma_occurrences_in_part(t, w, k - 1, at);
    }
}

/// Two trees whose branches lead to as many occurrences of `w` each hold as
/// many below their first `k` branches.
proof fn lemma_occurrences_in_through(t: Tree, r: Tree, w: Seq<char>, k: int)
    requires
        0 <= k <= t.branches.len(),
        t.branches.len() == r.branches.len(),
        forall|j: int|
            0 <= j < k ==> through(#[trigger] r.branches[j], w) == through(t.branches[j], w),
    ensures
        occurrences_in(r, w, k) == occurrences_in(t, w, k),
    decreases k,
{
    if k > 0 {
        lemma_occurrences_in_through(t, r, w, k - 1);
    }
}

/// Where all the branches but the one at `at` lead to no occurrence of `w`,
/// the occurrences below the first `k` branches are those behind `at`.
proof fn lemma_occurrences_in_only(t: Tree, w: Seq<char>, k: int, at: int)
    requires
        0 <= k <= t.branches.len(),
        forall|j: int| 0 <= j < k && j != at ==> through(#[trigger] t.branches[j], w) == 0,
    ensures
        occurrences_in(t, w, k) == if 0 <= at < k {
            through(t.branches[at], w)
        } else {
            0nat
        },
    decreases k,
{
    if k > 0 {
        lemma_occurrences_in_only(t, w, k - 1, at);
    }
}

/// Inserting a word adds one occurrence of that word, and none of any other.
pub proof fn lemma_insert_occurrences(t: Tree, word: Seq<char>, w: Seq<char>)
    requires
        conserved(t),
    ensures
        occurrences(tree_insert(t, word), w) == occurrences(t, w) + if w == word {
            1nat
        } else {
            0nat
        },
    decreases word.len(),
{
    let r = tree_insert(t, word);
    let n = t.branches.len() as int;
    if word.len() == 0 {
        lemma_occurrences_in_update(t, r, w, n, -1);
        if w.len() == 0 {
            assert(w =~= word);
        }
    } else {
        let key = seq![word[0]];
        let rest = word.subrange(1, word.len() as int);
        let k = first_keyed(t.branches, key, 0);
        lemma_first_keyed_range(t.branches, key, 0);
        let same = key.is_prefix_of(w) && w.skip(1) == rest;
        assert(same <==> w == word) by {
            if same {
                assert(w.len() == word.len()) by {
                    assert(w.skip(1).len() == rest.len());
                }
                assert forall|i: int| 0 <= i < w.len() implies w[i] == word[i] by {
                    if i == 0 {
                        assert(w.subrange(0, 1)[0] == key[0]);
                    } else {
                        assert(w.skip(1)[i - 1] == rest[i - 1]);
                    }
                }
                assert(w =~= word);
            }
            if w == word {
                assert(key =~= w.subrange(0, 1));
                assert(w.skip(1) =~= rest);
            }
        }
        if k < n {
            let sub = t.branches[k].sub;
            lemma_insert_conserved(sub, rest);
            lemma_weight_before_update(t.branches, k, r.branches[k], n);
            lemma_insert_occurrences(sub, rest, w.skip(1));
            lemma_occurrences_in_update(t, r, w, n, k);
            lemma_occurrences_in_part(t, w, n, k);
            assert(terminal(r) == terminal(t));
        } else {
            lemma_insert_conserved(leaf(), rest);
            lemma_weight_before_prefix(r.branches, t.branches, n);
            lemma_insert_occurrences(leaf(), rest, w.skip(1));
            lemma_occurrences_in_update(t, r, w, n, -1);
            assert(occurrences_in(r, w, n + 1) == occurrences_in(r, w, n) + through(
                r.branches[n],
                w,
            ));
            assert(occurrences(leaf(), w.skip(1)) == 0) by {
                assert(occurrences_in(leaf(), w.skip(1), 0) == 0);
            }
            assert(terminal(r) == terminal(t));
        }
    }
}

/// A tree built by insertions holds each word as often as it was inserted.
pub proof fn lemma_tree_of_occurrences(words: Seq<Seq<char>>, w: Seq<char>)
    ensures
        occurrences(tree_of(words), w) == words.to_multiset().count(w),
        occurrences(tree_compress(tree_of(words)), w) == words.to_multiset().count(w),
    decreases words.len(),
{
    if words.len() == 0 {
        assert(occurrences_in(leaf(), w, 0) == 0);
        words.to_multiset_ensures();
        assert(words.to_multiset().len() == 0);
        if words.to_multiset().count(w) > 0 {
            assert(words.to_multiset().contains(w));
            assert(words.contains(w));
        }
    } else {
        let before = words.drop_last();
        lemma_tree_of_occurrences(before, w);
        lemma_tree_of_conserved(before);
        lemma_insert_occurrences(tree_of(before), words.last(), w);
        vstd::seq_lib::to_multiset_build(before, words.last());
        assert(before.push(words.last()) =~= words);
    }
    lemma_compress_occurrences(tree_of(words), w);
}

/// A compressed edge leads to as many occurrences of each word as the edge
/// did before.
pub proof fn lemma_compress_edge_occurrences(key: Seq<char>, t: Tree, w: Seq<char>)
    ensures
        through(compress_edge(key, t), w) == through(Branch { key, sub: t }, w),
    decreases t, 1int,
{
    if redundant(t) {
        let k0 = t.branches[0].key;
        let c0 = t.branches[0].sub;
        lemma_compress_edge_occurrences(key + k0, c0, w);
        let both = key + k0;
        let u = w.skip(key.len() as int);
        assert(weight_before(t.branches, 1) == weight_before(t.branches, 0) + c0.count);
        assert(terminal(t) == 0);
        assert(occurrences_in(t, u, 1) == occurrences_in(t, u, 0) + through(t.branches[0], u));
        if key.is_prefix_of(w) && k0.is_prefix_of(u) {
            assert(both.is_prefix_of(w)) by {
                assert(both =~= w.subrange(0, both.len() as int));
            }
            assert(w.skip(both.len() as int) =~= u.skip(k0.len() as int));
        }
        if both.is_prefix_of(w) {
            assert(key.is_prefix_of(w)) by {
                assert forall|i: int| 0 <= i < key.len() implies key[i] == w[i] by {
                    assert(both[i] == w.subrange(0, both.len() as int)[i]);
                }
                assert(key =~= w.subrange(0, key.len() as int));
            }
            assert(k0.is_prefix_of(u)) by {
                assert forall|i: int| 0 <= i < k0.len() implies k0[i] == u[i] by {
                    assert(both[key.len() + i] == w.subrange(0, both.len() as int)[key.len() + i]);
                }
                assert(k0 =~= u.subrange(0, k0.len() as int));
            }
            assert(w.skip(both.len() as int) =~= u.skip(k0.len() as int));
        }
    } else {
        lemma_compress_occurrences(t, w.skip(key.len() as int));
    }
}

/// Compression keeps the words: each word occurs as often in the compressed
/// tree as in the tree itself.
pub proof fn lemma_compress_occurrences(t: Tree, w: Seq<char>)
    ensures
        occurrences(tree_compress(t), w) == occurrences(t, w),
    decreases t, 0int,
{
    let r = tree_compress(t);
    let n = t.branches.len() as int;
    assert forall|k: int| 0 <= k < n implies (#[trigger] r.branches[k]).sub.count
        == t.branches[k].sub.count && through(r.branches[k], w) == through(t.branches[k], w) by {
        lemma_compress_edge_count(t.branches[k].key, t.branches[k].sub);
        lemma_compress_edge_occurrences(t.branches[k].key, t.branches[k].sub, w);
    }
    lemma_weight_before_prefix(r.branches, t.branches, n);
    lemma_occurrences_in_through(t, r, w, n);
}

/// A word behind a key is `w` exactly if the key begins `w` and the word is
/// the rest of `w`.
proof fn lemma_key_then_word(key: Seq<char>, word: Seq<char>, w: Seq<char>)
    ensures
        key + word == w <==> key.is_prefix_of(w) && word == w.skip(key.len() as int),
{
    if key + word == w {
        assert(key =~= w.subrange(0, key.len() as int));
        assert(word =~= w.skip(key.len() as int));
    }
    if key.is_prefix_of(w) && word == w.skip(key.len() as int) {
        assert(key + word =~= w);
    }
}

/// Of the first `j` ranks in the share of branch `k`, as many give `w` as
/// ranks below `j` give the rest of `w` in the subtree, if the key of the
/// branch begins `w`, and none if it does not.
proof fn lemma_hits_in_share(t: Tree, w: Seq<char>, k: int, j: nat)
    requires
        0 <= k < t.branches.len(),
        j <= t.branches[k].sub.count,
    ensures
        hits(t, w, weight_before(t.branches, k) + j) == hits(t, w, weight_before(t.branches, k))
            + if t.branches[k].key.is_prefix_of(w) {
            hits(t.branches[k].sub, w.skip(t.branches[k].key.len() as int), j)
        } else {
            0nat
        },
    decreases j,
{
    if j > 0 {
        let base = weight_before(t.branches, k);
        let key = t.branches[k].key;
        let sub = t.branches[k].sub;
        let below = (j - 1) as nat;
        lemma_hits_in_share(t, w, k, below);
        let rank = base + below;
        assert(holds_rank(t.branches, k, rank));
        lemma_sample_step(t, k, rank);
        lemma_key_then_word(key, tree_sample(sub, below), w);
        assert(hits(t, w, base + j) == hits(t, w, rank) + if tree_sample(t, rank) == w {
            1nat
        } else {
            0nat
        });
    }
}

/// Of the first `j` ranks behind the shares of all the branches, all give the
/// empty word.
proof fn lemma_hits_at_end(t: Tree, w: Seq<char>, j: nat)
    ensures
        hits(t, w, child_weight(t) + j) == hits(t, w, child_weight(t)) + if w.len() == 0 {
            j
        } else {
            0nat
        },
    decreases j,
{
    if j > 0 {
        let below = (j - 1) as nat;
        lemma_hits_at_end(t, w, below);
        let rank = child_weight(t) + below;
        lemma_sample_stop(t, rank);
        assert(hits(t, w, child_weight(t) + j) == hits(t, w, rank) + if tree_sample(t, rank)
            == w {
            1nat
        } else {
            0nat
        });
        assert(w.len() == 0 <==> Seq::<char>::empty() == w) by {
            if w.len() == 0 {
                assert(w =~= Seq::<char>::empty());
            }
        }
    }
}

/// The ranks in the shares of the first `k` branches give a word as often as
/// it occurs below those branches.
proof fn lemma_hits_below_branches(t: Tree, w: Seq<char>, k: int)
    requires
        conserved(t),
        0 <= k <= t.branches.len(),
    ensures
        hits(t, w, weight_before(t.branches, k)) == occurrences_in(t, w, k),
    decreases t, 0int, k,
{
    if k > 0 {
        let b = t.branches[k - 1];
        lemma_hits_below_branches(t, w, k - 1);
        lemma_hits_in_share(t, w, k - 1, b.sub.count);
        lemma_hits_are_occurrences(b.sub, w.skip(b.key.len() as int));
        assert(weight_before(t.branches, k) == weight_before(t.branches, k - 1) + b.sub.count);
        assert(occurrences_in(t, w, k) == occurrences_in(t, w, k - 1) + through(b, w));
        assert(through(b, w) == if b.key.is_prefix_of(w) {
            occurrences(b.sub, w.skip(b.key.len() as int))
        } else {
            0nat
        });
    } else {
        assert(occurrences_in(t, w, 0) == 0);
    }
}

/// Sampling is weighted by frequency: in a conserved tree, as many ranks
/// give a word as the word occurs in the tree.
pub proof fn lemma_hits_are_occurrences(t: Tree, w: Seq<char>)
    requires
        conserved(t),
    ensures
        hits(t, w, t.count) == occurrences(t, w),
    decreases t, 1int,
{
    lemma_hits_below_branches(t, w, t.branches.len() as int);
    lemma_hits_at_end(t, w, terminal(t) as nat);
}

/// The ranks below `n` give a word as often as it is among the words at
/// those ranks.
proof fn lemma_hits_count(t: Tree, w: Seq<char>, n: nat)
    requires
        n <= t.count,
    ensures
        hits(t, w, n) == sampled(t).take(n as int).to_multiset().count(w),
    decreases n,
{
    let words = sampled(t).take(n as int);
    if n == 0 {
        words.to_multiset_ensures();
        if words.to_multiset().count(w) > 0 {
            assert(words.to_multiset().contains(w));
            assert(words.contains(w));
        }
    } else {
        let below = (n - 1) as nat;
        lemma_hits_count(t, w, below);
        let before = sampled(t).take(below as int);
        assert(before.push(tree_sample(t, below)) =~= words);
        vstd::seq_lib::to_multiset_build(before, tree_sample(t, below));
    }
}

/// Sampling every rank of a conserved tree once gives each word as often as
/// it occurs in the tree.
pub proof fn lemma_sampled_occurrences(t: Tree, w: Seq<char>)
    requires
        conserved(t),
    ensures
        sampled(t).to_multiset().count(w) == occurrences(t, w),
{
    lemma_hits_are_occurrences(t, w);
    lemma_hits_count(t, w, t.count);
    assert(sampled(t).take(t.count as int) =~= sampled(t));
}

/// Sampling every rank once gives the corpus back: the words at all the
/// ranks of a tree built by insertions, compressed or not, are the inserted
/// words, each as often as it was inserted.
pub proof fn lemma_sampled_is_corpus(words: Seq<Seq<char>>)
    ensures
        sampled(tree_of(words)).to_multiset() == words.to_multiset(),
        sampled(tree_compress(tree_of(words))).to_multiset() == words.to_multiset(),
{
    let t = tree_of(words);
    lemma_tree_of_conserved(words);
    lemma_compress_sampled(t);
    assert forall|w: Seq<char>| sampled(t).to_multiset().count(w) == words.to_multiset().count(
        w,
    ) by {
        lemma_sampled_occurrences(t, w);
        lemma_tree_of_occurrences(words, w);
    }
    assert(sampled(t).to_multiset() =~= words.to_multiset());
}

/// Whether `path` leads from the root of `t` to a node: it names, node by
/// node, the place of the branch to take.
pub open spec fn is_path(t: Tree, path: Seq<int>) -> bool
    decreases path.len(),
{
    path.len() == 0 || (0 <= path[0] < t.branches.len() && is_path(
        t.branches[path[0]].sub,
        path.skip(1),
    ))
}

/// The node of `t` that `path` leads to, with everything below it.
pub open spec fn node_at(t: Tree, path: Seq<int>) -> Tree
    decreases path.len(),
{
    if path.len() == 0 {
        t
    } else {
        node_at(t.branches[path[0]].sub, path.skip(1))
    }
}

/// What the keys along `path` spell, from the root of `t` on.
pub open spec fn spelled(t: Tree, path: Seq<int>) -> Seq<char>
    decreases path.len(),
{
    if path.len() == 0 {
        Seq::empty()
    } else {
        t.branches[path[0]].key + spelled(t.branches[path[0]].sub, path.skip(1))
    }
}

/// A tree built by insertions alone has one-character keys that tell the
/// branches of every node apart.
pub proof fn lemma_tree_of_distinct(words: Seq<Seq<char>>)
    ensures
        single_chars(tree_of(words)),
        distinct(tree_of(words)),
        distinct(tree_compress(tree_of(words))),
    decreases words.len(),
{
    if words.len() > 0 {
        lemma_tree_of_distinct(words.drop_last());
        lemma_insert_distinct(tree_of(words.drop_last()), words.last());
    }
    lemma_compress_distinct(tree_of(words));
}

/// A node at the end of a path of a conserved tree is conserved.
pub proof fn lemma_node_conserved(t: Tree, path: Seq<int>)
    requires
        conserved(t),
        is_path(t, path),
    ensures
        conserved(node_at(t, path)),
    decreases path.len(),
{
    if path.len() > 0 {
        lemma_node_conserved(t.branches[path[0]].sub, path.skip(1));
    }
}

/// In a conserved tree whose branches are told apart by first characters,
/// the words that end at a node are the occurrences of what the path to the
/// node spells.
pub proof fn lemma_node_occurrences(t: Tree, path: Seq<int>)
    requires
        conserved(t),
        distinct(t),
        is_path(t, path),
    ensures
        occurrences(t, spelled(t, path)) == terminal(node_at(t, path)),
    decreases path.len(),
{
    let w = spelled(t, path);
    let n = t.branches.len() as int;
    if path.len() == 0 {
        assert forall|j: int| 0 <= j < n implies through(#[trigger] t.branches[j], w) == 0 by {}
        lemma_occurrences_in_only(t, w, n, -1);
    } else {
        let k = path[0];
        let b = t.branches[k];
        lemma_node_occurrences(b.sub, path.skip(1));
        let rest = spelled(b.sub, path.skip(1));
        assert(w == b.key + rest);
        assert(w[0] == b.key[0]);
        assert forall|j: int| 0 <= j < n && j != k implies through(#[trigger] t.branches[j], w)
            == 0 by {
            let other = t.branches[j];
            if j < k {
                assert(other.key[0] != b.key[0]);
            } else {
                assert(b.key[0] != other.key[0]);
            }
            if other.key.is_prefix_of(w) {
                assert(other.key[0] == w.subrange(0, other.key.len() as int)[0]);
            }
        }
        lemma_occurrences_in_only(t, w, n, k);
        assert(b.key.is_prefix_of(w)) by {
            assert(b.key =~= w.subrange(0, b.key.len() as int));
        }
        assert(w.skip(b.key.len() as int) =~= rest);
    }
}

/// Weight conservation: at every node of a tree built by insertions,
/// compressed or not, the count is the sum of the counts of the children and
/// of the number of inserted words that are what the path to the node spells.
pub proof fn lemma_weight_conservation(words: Seq<Seq<char>>, path: Seq<int>)
    ensures
        is_path(tree_of(words), path) ==> node_at(tree_of(words), path).count == child_weight(
            node_at(tree_of(words), path),
        ) + words.to_multiset().count(spelled(tree_of(words), path)),
        is_path(tree_compress(tree_of(words)), path) ==> node_at(
            tree_compress(tree_of(words)),
            path,
        ).count == child_weight(node_at(tree_compress(tree_of(words)), path))
            + words.to_multiset().count(spelled(tree_compress(tree_of(words)), path)),
{
    let t = tree_of(words);
    let c = tree_compress(t);
    lemma_tree_of_conserved(words);
    lemma_tree_of_distinct(words);
    if is_path(t, path) {
        lemma_node_occurrences(t, path);
        lemma_tree_of_occurrences(words, spelled(t, path));
    }
    if is_path(c, path) {
        lemma_node_occurrences(c, path);
        lemma_tree_of_occurrences(words, spelled(c, path));
    }
}

} // verus!
