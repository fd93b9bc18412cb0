//! The weighted prefix tree as a mathematical value: what insertion,
//! compression and sampling by rank mean, independent of how a trie is stored.

use vstd::prelude::*;

verus! {

/// A node of a weighted prefix tree together with everything below it.
pub struct Tree {
    /// How many corpus words pass through or end at this node.
    pub count: nat,
    /// The edges to the children, in the order in which they were first made.
    pub branches: Seq<Branch>,
}

/// An edge of a weighted prefix tree and the subtree that it leads to.
pub struct Branch {
    /// The characters that the edge spells.
    pub key: Seq<char>,
    /// The subtree below the edge.
    pub sub: Tree,
}

/// The tree of the empty corpus.
pub open spec fn leaf() -> Tree {
    Tree { count: 0, branches: Seq::empty() }
}

/// The sum of the counts of the branches before position `k`.
pub open spec fn weight_before(branches: Seq<Branch>, k: int) -> nat
    decreases k,
{
    if k <= 0 {
        0
    } else {
        weight_before(branches, k - 1) + branches[k - 1].sub.count
    }
}

/// The sum of the counts of all the children of `t`.
pub open spec fn child_weight(t: Tree) -> nat {
    weight_before(t.branches, t.branches.len() as int)
}

/// How many words end exactly at the root of `t`: what is left of its count
/// once the children have taken theirs.
pub open spec fn terminal(t: Tree) -> int {
    t.count - child_weight(t)
}

/// Weight conservation: at every node the count is the sum of the children's
/// counts plus a number of words, possibly zero, that end at the node.
pub open spec fn conserved(t: Tree) -> bool
    decreases t,
{
    &&& terminal(t) >= 0
    &&& forall|k: int| 0 <= k < t.branches.len() ==> conserved(#[trigger] t.branches[k].sub)
}

/// The position of the first branch at or after `from` whose key is `key`,
/// or the number of branches if there is none.
pub open spec fn first_keyed(branches: Seq<Branch>, key: Seq<char>, from: int) -> int
    decreases branches.len() - from,
{
    if from >= branches.len() {
        branches.len() as int
    } else if branches[from].key == key {
        from
    } else {
        first_keyed(branches, key, from + 1)
    }
}

/// The tree after one more occurrence of `word` has been inserted: every node
/// on the path of the word, one character per edge, counts one more, and the
/// path is extended by new nodes where it did not exist.
pub open spec fn tree_insert(t: Tree, word: Seq<char>) -> Tree
    decreases word.len(),
{
    if word.len() == 0 {
        Tree { count: t.count + 1, branches: t.branches }
    } else {
        let key = seq![word[0]];
        let rest = word.subrange(1, word.len() as int);
        let k = first_keyed(t.branches, key, 0);
        if k < t.branches.len() {
            Tree {
                count: t.count + 1,
                branches: t.branches.update(
                    k,
                    Branch { key: t.branches[k].key, sub: tree_insert(t.branches[k].sub, rest) },
                ),
            }
        } else {
            Tree {
                count: t.count + 1,
                branches: t.branches.push(Branch { key, sub: tree_insert(leaf(), rest) }),
            }
        }
    }
}

/// The tree that holds the words of `words`, inserted in order.
pub open spec fn tree_of(words: Seq<Seq<char>>) -> Tree
    decreases words.len(),
{
    if words.len() == 0 {
        leaf()
    } else {
        tree_insert(tree_of(words.drop_last()), words.last())
    }
}

/// Whether a node below the root is a mere pass-through: it has one child,
/// and no word ends at it.
pub open spec fn redundant(t: Tree) -> bool {
    t.branches.len() == 1 && t.branches[0].sub.count == t.count
}

/// The edge that the edge `key` into `t` becomes under compression: chains of
/// pass-through nodes are merged into the edge, and the first node that is
/// kept has its own edges compressed in turn.
pub open spec fn compress_edge(key: Seq<char>, t: Tree) -> Branch
    decreases t, 1int,
{
    if redundant(t) {
        compress_edge(key + t.branches[0].key, t.branches[0].sub)
    } else {
        Branch { key, sub: tree_compress(t) }
    }
}

/// The compressed form of the tree `t`: its root is kept, whatever it holds,
/// and every edge below it is compressed.
pub open spec fn tree_compress(t: Tree) -> Tree
    decreases t, 0int,
{
    Tree {
        count: t.count,
        branches: Seq::new(
            t.branches.len(),
            |k: int|
                if 0 <= k < t.branches.len() {
                    compress_edge(t.branches[k].key, t.branches[k].sub)
                } else {
                    Branch { key: Seq::empty(), sub: leaf() }
                },
        ),
    }
}

/// Whether `rank` falls into the share of branch `k`: the ranks are dealt out
/// to the branches in order, to each as many as its count.
pub open spec fn holds_rank(branches: Seq<Branch>, k: int, rank: nat) -> bool {
    &&& 0 <= k < branches.len()
    &&& weight_before(branches, k) <= rank < weight_before(branches, k) + branches[k].sub.count
}

/// The word at `rank` in `t`: the keys along the path on which, at each node,
/// the branch is taken whose share holds the rank, ending at the first node
/// where no branch does.
pub open spec fn tree_sample(t: Tree, rank: nat) -> Seq<char>
    decreases t,
{
    if exists|k: int| holds_rank(t.branches, k, rank) {
        let k = choose|k: int| holds_rank(t.branches, k, rank);
        t.branches[k].key + tree_sample(
            t.branches[k].sub,
            (rank - weight_before(t.branches, k)) as nat,
        )
    } else {
        Seq::empty()
    }
}

/// The word that sampling hands out for `id` in a tree that holds words: the
/// word at the rank that `id` leaves modulo the number of word occurrences.
pub open spec fn sample_at(t: Tree, id: nat) -> Seq<char> {
    tree_sample(t, id % t.count)
}

/// Whether the branches of every node of `t` can be told apart by the first
/// character of their keys, none of which is empty.
pub open spec fn distinct(t: Tree) -> bool
    decreases t,
{
    &&& forall|k: int|
        0 <= k < t.branches.len() ==> (#[trigger] t.branches[k]).key.len() > 0 && distinct(
            t.branches[k].sub,
        )
    &&& forall|j: int, k: int|
        0 <= j < k < t.branches.len() ==> (#[trigger] t.branches[j]).key[0] != (
        #[trigger] t.branches[k]).key[0]
}

/// Whether every key of `t` is one character.
pub open spec fn single_chars(t: Tree) -> bool
    decreases t,
{
    forall|k: int|
        0 <= k < t.branches.len() ==> (#[trigger] t.branches[k]).key.len() == 1 && single_chars(
            t.branches[k].sub,
        )
}

/// The counts before a position never decrease with the position.
pub proof fn lemma_weight_before_monotone(branches: Seq<Branch>, j: int, k: int)
    requires
        j <= k,
    ensures
        weight_before(branches, j) <= weight_before(branches, k),
    decreases k,
{
    if j < k && k > 0 {
        lemma_weight_before_monotone(branches, j, k - 1);
    }
}

/// The counts before a position do not depend on the branches from that
/// position on.
pub proof fn lemma_weight_before_prefix(a: Seq<Branch>, b: Seq<Branch>, k: int)
    requires
        k <= a.len(),
        k <= b.len(),
        forall|j: int| 0 <= j < k ==> (#[trigger] a[j]).sub.count == b[j].sub.count,
    ensures
        weight_before(a, k) == weight_before(b, k),
    decreases k,
{
    if k > 0 {
        lemma_weight_before_prefix(a, b, k - 1);
    }
}

/// Replacing the branch at `k` changes the counts before a later position by
/// the difference of the two counts.
pub proof fn lemma_weight_before_update(branches: Seq<Branch>, k: int, b: Branch, j: int)
    requires
        0 <= k < branches.len(),
        0 <= j <= branches.len(),
    ensures
        weight_before(branches.update(k, b), j) == if j > k {
            weight_before(branches, j) - branches[k].sub.count + b.sub.count
        } else {
            weight_before(branches, j) as int
        },
    decreases j,
{
    if j > 0 {
        lemma_weight_before_update(branches, k, b, j - 1);
    }
}

/// What the lookup of a key returns: a place among the branches, the first
/// one with that key if it is a branch at all.
pub proof fn lemma_first_keyed_range(branches: Seq<Branch>, key: Seq<char>, from: int)
    requires
        0 <= from,
    ensures
        from <= first_keyed(branches, key, from) || first_keyed(branches, key, from)
            == branches.len(),
        first_keyed(branches, key, from) <= branches.len(),
        first_keyed(branches, key, from) < branches.len() ==> branches[first_keyed(
            branches,
            key,
            from,
        )].key == key,
        forall|j: int| from <= j < first_keyed(branches, key, from) ==> branches[j].key != key,
    decreases branches.len() - from,
{
    if from < branches.len() {
        lemma_first_keyed_range(branches, key, from + 1);
    }
}

/// At most one branch holds a given rank.
pub proof fn lemma_holds_rank_unique(branches: Seq<Branch>, j: int, k: int, rank: nat)
    requires
        holds_rank(branches, j, rank),
        holds_rank(branches, k, rank),
    ensures
        j == k,
{
    if j < k {
        lemma_weight_before_monotone(branches, j + 1, k);
    } else if k < j {
        lemma_weight_before_monotone(branches, k + 1, j);
    }
}

/// The branch that holds a rank is the one that sampling takes.
pub proof fn lemma_sample_step(t: Tree, k: int, rank: nat)
    requires
        holds_rank(t.branches, k, rank),
    ensures
        tree_sample(t, rank) == t.branches[k].key + tree_sample(
            t.branches[k].sub,
            (rank - weight_before(t.branches, k)) as nat,
        ),
{
    let c = choose|c: int| holds_rank(t.branches, c, rank);
    lemma_holds_rank_unique(t.branches, c, k, rank);
}

/// A rank that no branch holds ends the word at this node.
pub proof fn lemma_sample_stop(t: Tree, rank: nat)
    requires
        rank >= child_weight(t),
    ensures
        tree_sample(t, rank) == Seq::<char>::empty(),
{
    assert forall|k: int| !holds_rank(t.branches, k, rank) by {
        if 0 <= k < t.branches.len() {
            lemma_weight_before_monotone(t.branches, k + 1, t.branches.len() as int);
        }
    }
}

/// A tree with a word inserted is conserved if it was before.
pub proof fn lemma_insert_conserved(t: Tree, word: Seq<char>)
    requires
        conserved(t),
    ensures
        conserved(tree_insert(t, word)),
        tree_insert(t, word).count == t.count + 1,
    decreases word.len(),
{
    let r = tree_insert(t, word);
    if word.len() > 0 {
        let key = seq![word[0]];
        let rest = word.subrange(1, word.len() as int);
        let k = first_keyed(t.branches, key, 0);
        lemma_first_keyed_range(t.branches, key, 0);
        let n = t.branches.len() as int;
        if k < n {
            lemma_insert_conserved(t.branches[k].sub, rest);
            lemma_weight_before_update(t.branches, k, r.branches[k], n);
            assert forall|j: int| 0 <= j < r.branches.len() implies conserved(
                #[trigger] r.branches[j].sub,
            ) by {
                if j != k {
                    assert(r.branches[j] == t.branches[j]);
                }
            }
        } else {
            lemma_insert_conserved(leaf(), rest);
            lemma_weight_before_prefix(r.branches, t.branches, n);
            assert forall|j: int| 0 <= j < r.branches.len() implies conserved(
                #[trigger] r.branches[j].sub,
            ) by {
                if j < n {
                    assert(r.branches[j] == t.branches[j]);
                }
            }
        }
    }
}

/// A tree built by insertions alone is conserved, counts its words, and stays
/// conserved under compression.
pub proof fn lemma_tree_of_conserved(words: Seq<Seq<char>>)
    ensures
        conserved(tree_of(words)),
        tree_of(words).count == words.len(),
        conserved(tree_compress(tree_of(words))),
    decreases words.len(),
{
    if words.len() > 0 {
        lemma_tree_of_conserved(words.drop_last());
        lemma_insert_conserved(tree_of(words.drop_last()), words.last());
    }
    lemma_compress_conserved(tree_of(words));
}

/// Compression keeps the count at the far end of every edge.
pub proof fn lemma_compress_edge_count(key: Seq<char>, t: Tree)
    ensures
        compress_edge(key, t).sub.count == t.count,
    decreases t,
{
    if redundant(t) {
        lemma_compress_edge_count(key + t.branches[0].key, t.branches[0].sub);
    } else {
        assert(tree_compress(t).count == t.count);
    }
}

/// The compressed form of a conserved tree is conserved.
pub proof fn lemma_compress_conserved(t: Tree)
    requires
        conserved(t),
    ensures
        conserved(tree_compress(t)),
    decreases t, 0int,
{
    let r = tree_compress(t);
    assert forall|k: int| 0 <= k < r.branches.len() implies conserved(
        #[trigger] r.branches[k].sub,
    ) && r.branches[k].sub.count == t.branches[k].sub.count by {
        lemma_compress_edge_conserved(t.branches[k].key, t.branches[k].sub);
        lemma_compress_edge_count(t.branches[k].key, t.branches[k].sub);
    }
    lemma_weight_before_prefix(r.branches, t.branches, t.branches.len() as int);
}

/// The far end of a compressed edge into a conserved tree is conserved.
pub proof fn lemma_compress_edge_conserved(key: Seq<char>, t: Tree)
    requires
        conserved(t),
    ensures
        conserved(compress_edge(key, t).sub),
    decreases t, 1int,
{
    if redundant(t) {
        lemma_compress_edge_conserved(key + t.branches[0].key, t.branches[0].sub);
    } else {
        lemma_compress_conserved(t);
    }
}

/// The number of nodes of `t`.
pub open spec fn node_count(t: Tree) -> nat
    decreases t, 1int, 0int,
{
    1 + node_count_in(t, t.branches.len() as int)
}

/// The number of nodes below the first `k` branches of `t`.
pub open spec fn node_count_in(t: Tree, k: int) -> nat
    decreases t, 0int, k,
{
    if k <= 0 || k > t.branches.len() {
        0
    } else {
        node_count_in(t, k - 1) + node_count(t.branches[k - 1].sub)
    }
}

/// Compression adds no node: the compressed form of a tree has at most as
/// many nodes as the tree.
pub proof fn lemma_compress_shrinks(t: Tree)
    ensures
        node_count(tree_compress(t)) <= node_count(t),
    decreases t, 1int,
{
    lemma_compress_shrinks_in(t, t.branches.len() as int);
}

/// The far end of a compressed edge has at most as many nodes as the tree
/// that the edge led to.
proof fn lemma_compress_edge_shrinks(key: Seq<char>, t: Tree)
    ensures
        node_count(compress_edge(key, t).sub) <= node_count(t),
    decreases t, 2int,
{
    if redundant(t) {
        lemma_compress_edge_shrinks(key + t.branches[0].key, t.branches[0].sub);
        assert(node_count_in(t, 1) == node_count_in(t, 0) + node_count(t.branches[0].sub));
    } else {
        lemma_compress_shrinks(t);
    }
}

/// Below its first `k` branches, the compressed form of a tree has at most
/// as many nodes as the tree.
proof fn lemma_compress_shrinks_in(t: Tree, k: int)
    requires
        0 <= k <= t.branches.len(),
    ensures
        node_count_in(tree_compress(t), k) <= node_count_in(t, k),
    decreases t, 0int, k,
{
    if k > 0 {
        lemma_compress_shrinks_in(t, k - 1);
        lemma_compress_edge_shrinks(t.branches[k - 1].key, t.branches[k - 1].sub);
    }
}

/// The far end of a compressed edge is not redundant, and compressing it
/// again changes nothing.
pub proof fn lemma_compress_edge_settled(key: Seq<char>, t: Tree)
    ensures
        !redundant(compress_edge(key, t).sub),
        tree_compress(compress_edge(key, t).sub) == compress_edge(key, t).sub,
    decreases t, 1int,
{
    if redundant(t) {
        lemma_compress_edge_settled(key + t.branches[0].key, t.branches[0].sub);
    } else {
        let r = tree_compress(t);
        if t.branches.len() == 1 {
            lemma_compress_edge_count(t.branches[0].key, t.branches[0].sub);
            assert(r.branches[0].sub.count == t.branches[0].sub.count);
        }
        lemma_compress_idempotent(t);
    }
}

/// Compression is idempotent: the compressed form of a compressed tree is
/// that tree.
pub proof fn lemma_compress_idempotent(t: Tree)
    ensures
        tree_compress(tree_compress(t)) == tree_compress(t),
    decreases t, 0int,
{
    let r = tree_compress(t);
    let rr = tree_compress(r);
    assert forall|k: int| 0 <= k < r.branches.len() implies rr.branches[k] == r.branches[k] by {
        lemma_compress_edge_settled(t.branches[k].key, t.branches[k].sub);
        let b = r.branches[k];
        assert(b == compress_edge(t.branches[k].key, t.branches[k].sub));
        assert(rr.branches[k] == compress_edge(b.key, b.sub));
    }
    assert(rr.branches =~= r.branches);
}

/// Inserting a word into a tree of one-character keys that tell the branches
/// of every node apart gives such a tree.
pub proof fn lemma_insert_distinct(t: Tree, word: Seq<char>)
    requires
        single_chars(t),
        distinct(t),
    ensures
        single_chars(tree_insert(t, word)),
        distinct(tree_insert(t, word)),
    decreases word.len(),
{
    let r = tree_insert(t, word);
    if word.len() > 0 {
        let key = seq![word[0]];
        let rest = word.subrange(1, word.len() as int);
        let n = t.branches.len() as int;
        let k = first_keyed(t.branches, key, 0);
        lemma_first_keyed_range(t.branches, key, 0);
        if k < n {
            lemma_insert_distinct(t.branches[k].sub, rest);
            assert forall|j: int| 0 <= j < n implies (#[trigger] r.branches[j]).key
                == t.branches[j].key by {}
        } else {
            lemma_insert_distinct(leaf(), rest);
            assert forall|j: int| 0 <= j < n implies (#[trigger] r.branches[j])
                == t.branches[j] by {}
            assert forall|i: int, j: int| 0 <= i < j < r.branches.len() implies (
            #[trigger] r.branches[i]).key[0] != (#[trigger] r.branches[j]).key[0] by {
                if j == n {
                    let other = t.branches[i];
                    assert(other.key.len() == 1);
                    if other.key[0] == word[0] {
                        assert(other.key =~= key);
                    }
                }
            }
        }
    }
}

/// Compression keeps the first character of every key, and so keeps the
/// branches of every node apart.
pub proof fn lemma_compress_distinct(t: Tree)
    requires
        distinct(t),
    ensures
        distinct(tree_compress(t)),
    decreases t, 0int,
{
    let r = tree_compress(t);
    assert forall|k: int| 0 <= k < r.branches.len() implies (#[trigger] r.branches[k]).key.len()
        > 0 && distinct(r.branches[k].sub) && r.branches[k].key[0] == t.branches[k].key[0] by {
        let b = t.branches[k];
        lemma_compress_edge_distinct(b.key, b.sub);
    }
    assert forall|j: int, k: int| 0 <= j < k < r.branches.len() implies (
    #[trigger] r.branches[j]).key[0] != (#[trigger] r.branches[k]).key[0] by {
        let bj = t.branches[j];
        let bk = t.branches[k];
        assert(bj.key[0] != bk.key[0]);
    }
}

/// A compressed edge begins with the character that the edge began with, and
/// the branches of every node behind it are apart if they were before.
pub proof fn lemma_compress_edge_distinct(key: Seq<char>, t: Tree)
    requires
        distinct(t),
        key.len() > 0,
    ensures
        distinct(compress_edge(key, t).sub),
        compress_edge(key, t).key.len() > 0,
        compress_edge(key, t).key[0] == key[0],
    decreases t, 1int,
{
    if redundant(t) {
        let b = t.branches[0];
        lemma_compress_edge_distinct(key + b.key, b.sub);
    } else {
        lemma_compress_distinct(t);
    }
}

} // verus!
