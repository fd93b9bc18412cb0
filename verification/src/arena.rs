//! A weighted prefix tree laid out in an arena: nodes in a sequence, edges by
//! position in it. This module relates such a layout to the tree it stands for.

use vstd::prelude::*;
use vstd::set_lib::{lemma_int_range, lemma_set_disjoint_lens, set_int_range};
use crate::tree::{
    Branch, Tree, conserved, first_keyed, leaf, lemma_weight_before_monotone, node_count,
    node_count_in, tree_insert,
};

verus! {

/// An edge of a node in an arena.
pub struct Link {
    /// The characters that the edge spells.
    pub key: Seq<char>,
    /// The position of the child in the arena.
    pub to: int,
}

/// A node in an arena.
pub struct Slot {
    /// How many corpus words pass through or end at this node.
    pub count: nat,
    /// The edges to the children, in the order in which they were first made.
    pub links: Seq<Link>,
}

/// The tree that hangs from position `i` of the arena `a`.
pub open spec fn subtree(a: Seq<Slot>, i: int) -> Tree
    decreases a.len() - i,
{
    Tree {
        count: a[i].count,
        branches: Seq::new(
            a[i].links.len(),
            |k: int|
                Branch {
                    key: a[i].links[k].key,
                    sub: if i < a[i].links[k].to < a.len() {
                        subtree(a, a[i].links[k].to)
                    } else {
                        leaf()
                    },
                },
        ),
    }
}

/// Every edge leads to a later position of the arena.
pub open spec fn forward(a: Seq<Slot>) -> bool {
    forall|i: int, k: int|
        0 <= i < a.len() && 0 <= k < a[i].links.len() ==> i < (#[trigger] a[i].links[k]).to
            < a.len()
}

/// No two edges lead to the same position.
pub open spec fn single_parent(a: Seq<Slot>) -> bool {
    forall|i: int, k: int, j: int, l: int|
        0 <= i < a.len() && 0 <= k < a[i].links.len() && 0 <= j < a.len() && 0 <= l
            < a[j].links.len() && (#[trigger] a[i].links[k]).to == (#[trigger] a[j].links[l]).to
            ==> i == j && k == l
}

/// Whether some link of the arena leads to position `j`.
pub open spec fn has_parent(a: Seq<Slot>, j: int) -> bool {
    exists|i: int, k: int|
        0 <= i < a.len() && 0 <= k < a[i].links.len() && (#[trigger] a[i].links[k]).to == j
}

/// Every position but the first is the child of some position.
pub open spec fn rooted(a: Seq<Slot>) -> bool {
    forall|j: int| 0 < j < a.len() ==> #[trigger] has_parent(a, j)
}

/// The arena holds a tree rooted at position 0, and nothing else.
pub open spec fn arena_wf(a: Seq<Slot>) -> bool {
    &&& a.len() > 0
    &&& forward(a)
    &&& single_parent(a)
    &&& rooted(a)
}

/// What the tree at a position of a well-formed arena is made of: the count
/// of the slot, and for each link its key and the tree at the position that it
/// leads to.
pub proof fn lemma_subtree_unfold(a: Seq<Slot>, i: int)
    requires
        forward(a),
        0 <= i < a.len(),
    ensures
        subtree(a, i).count == a[i].count,
        subtree(a, i).branches.len() == a[i].links.len(),
        forall|k: int|
            0 <= k < a[i].links.len() ==> #[trigger] subtree(a, i).branches[k] == (Branch {
                key: a[i].links[k].key,
                sub: subtree(a, a[i].links[k].to),
            }),
{
    assert forall|k: int| 0 <= k < a[i].links.len() implies #[trigger] subtree(a, i).branches[k]
        == (Branch { key: a[i].links[k].key, sub: subtree(a, a[i].links[k].to) }) by {
        let link = a[i].links[k];
        assert(i < link.to < a.len());
    }
}

/// The position of the first link at or after `from` whose key is `key`, or
/// the number of links if there is none.
pub open spec fn first_link(links: Seq<Link>, key: Seq<char>, from: int) -> int
    decreases links.len() - from,
{
    if from >= links.len() {
        links.len() as int
    } else if links[from].key == key {
        from
    } else {
        first_link(links, key, from + 1)
    }
}

/// The slot `s` after it has counted one more word.
pub open spec fn bump(s: Slot) -> Slot {
    Slot { count: s.count + 1, links: s.links }
}

/// A slot without words or links.
pub open spec fn vacant() -> Slot {
    Slot { count: 0, links: Seq::empty() }
}

/// The position of the child of `n` under `key`, which is the end of the
/// arena if `n` has no such child yet.
pub open spec fn child_at(a: Seq<Slot>, n: int, key: Seq<char>) -> int {
    let k = first_link(a[n].links, key, 0);
    if k < a[n].links.len() {
        a[n].links[k].to
    } else {
        a.len() as int
    }
}

/// The arena in which `n` has a child under `key`: `a` itself if it had one,
/// else `a` with a vacant slot at its end and a link to it at the end of the
/// links of `n`.
pub open spec fn with_child(a: Seq<Slot>, n: int, key: Seq<char>) -> Seq<Slot> {
    if first_link(a[n].links, key, 0) < a[n].links.len() {
        a
    } else {
        a.update(
            n,
            Slot { count: a[n].count, links: a[n].links.push(Link { key, to: a.len() as int }) },
        ).push(vacant())
    }
}

/// The arena after the node at `n` has taken the first character `c` of a
/// word: it counts one more, and has a child under `c`.
pub open spec fn step_arena(a: Seq<Slot>, n: int, c: char) -> Seq<Slot> {
    with_child(a.update(n, bump(a[n])), n, seq![c])
}

/// The arena after `word` has been inserted below the node at `n`.
pub open spec fn arena_insert(a: Seq<Slot>, n: int, word: Seq<char>) -> Seq<Slot>
    decreases word.len(),
{
    if word.len() == 0 {
        a.update(n, bump(a[n]))
    } else {
        arena_insert(
            step_arena(a, n, word[0]),
            child_at(a, n, seq![word[0]]),
            word.subrange(1, word.len() as int),
        )
    }
}

/// Whether position `y` belongs to the tree that hangs from position `x`.
pub open spec fn inside(a: Seq<Slot>, x: int, y: int) -> bool
    decreases a.len() - x,
{
    x == y || (0 <= x < a.len() && exists|k: int|
        0 <= k < a[x].links.len() && x < (#[trigger] a[x].links[k]).to < a.len() && inside(
            a,
            a[x].links[k].to,
            y,
        ))
}

/// What belongs to the tree at `x` lies at or behind `x`, within the arena.
pub proof fn lemma_inside_range(a: Seq<Slot>, x: int, y: int)
    requires
        inside(a, x, y),
    ensures
        x <= y,
        x < a.len() ==> y < a.len(),
    decreases a.len() - x,
{
    if x != y {
        let k = choose|k: int|
            0 <= k < a[x].links.len() && x < (#[trigger] a[x].links[k]).to < a.len() && inside(
                a,
                a[x].links[k].to,
                y,
            );
        lemma_inside_range(a, a[x].links[k].to, y);
    }
}

/// What belongs to the tree at a child of `x` belongs to the tree at `x`.
pub proof fn lemma_inside_child(a: Seq<Slot>, x: int, k: int, y: int)
    requires
        forward(a),
        0 <= x < a.len(),
        0 <= k < a[x].links.len(),
        inside(a, a[x].links[k].to, y),
    ensures
        inside(a, x, y),
{
    let link = a[x].links[k];
    assert(x < link.to < a.len());
}

/// A position inside the tree at `x`, other than `x`, is the child of a
/// position inside that tree. Returns that parent and the place of the link.
pub proof fn lemma_inside_parent(a: Seq<Slot>, x: int, y: int) -> (r: (int, int))
    requires
        inside(a, x, y),
        x != y,
    ensures
        inside(a, x, r.0),
        0 <= r.0 < a.len(),
        0 <= r.1 < a[r.0].links.len(),
        a[r.0].links[r.1].to == y,
    decreases a.len() - x,
{
    let k = choose|k: int|
        0 <= k < a[x].links.len() && x < (#[trigger] a[x].links[k]).to < a.len() && inside(
            a,
            a[x].links[k].to,
            y,
        );
    let c = a[x].links[k].to;
    if c == y {
        (x, k)
    } else {
        let r = lemma_inside_parent(a, c, y);
        r
    }
}

/// Whether a position is inside a tree depends on the links alone.
pub proof fn lemma_inside_same_links(a: Seq<Slot>, b: Seq<Slot>, x: int, y: int)
    requires
        a.len() == b.len(),
        forall|i: int| 0 <= i < a.len() ==> (#[trigger] a[i]).links == b[i].links,
        inside(a, x, y),
    ensures
        inside(b, x, y),
    decreases a.len() - x,
{
    if x != y {
        let k = choose|k: int|
            0 <= k < a[x].links.len() && x < (#[trigger] a[x].links[k]).to < a.len() && inside(
                a,
                a[x].links[k].to,
                y,
            );
        lemma_inside_same_links(a, b, a[x].links[k].to, y);
        let link = b[x].links[k];
        assert(x < link.to < b.len() && inside(b, link.to, y));
    }
}

/// The trees at two different children of one node share no position.
pub proof fn lemma_siblings_disjoint(a: Seq<Slot>, n: int, j: int, k: int, y: int)
    requires
        arena_wf(a),
        0 <= n < a.len(),
        0 <= j < a[n].links.len(),
        0 <= k < a[n].links.len(),
        j != k,
        inside(a, a[n].links[j].to, y),
    ensures
        !inside(a, a[n].links[k].to, y),
    decreases y,
{
    let c = a[n].links[j].to;
    let m = a[n].links[k].to;
    let lj = a[n].links[j];
    let lk = a[n].links[k];
    assert(n < lj.to < a.len() && n < lk.to < a.len());
    assert(c != m);
    if inside(a, m, y) {
        lemma_inside_range(a, c, y);
        lemma_inside_range(a, m, y);
        if y == c {
            let (p, q) = lemma_inside_parent(a, m, y);
            let lp = a[p].links[q];
            assert(lp.to == lj.to);
            lemma_inside_range(a, m, p);
        } else if y == m {
            let (p, q) = lemma_inside_parent(a, c, y);
            let lp = a[p].links[q];
            assert(lp.to == lk.to);
            lemma_inside_range(a, c, p);
        } else {
            let (pc, qc) = lemma_inside_parent(a, c, y);
            let (pm, qm) = lemma_inside_parent(a, m, y);
            let lc = a[pc].links[qc];
            let lm = a[pm].links[qm];
            assert(lc.to == lm.to);
            assert(pc < lc.to);
            lemma_siblings_disjoint(a, n, j, k, pc);
        }
    }
}

/// The tree at `x` is the same in two arenas that agree on every position
/// inside it.
pub proof fn lemma_subtree_frame(a: Seq<Slot>, b: Seq<Slot>, x: int)
    requires
        forward(a),
        0 <= x < a.len() <= b.len(),
        forall|y: int| #[trigger] inside(a, x, y) ==> b[y] == a[y],
    ensures
        subtree(b, x) == subtree(a, x),
    decreases a.len() - x,
{
    assert(inside(a, x, x));
    assert forall|k: int| 0 <= k < a[x].links.len() implies subtree(b, a[x].links[k].to)
        == subtree(a, a[x].links[k].to) by {
        let link = a[x].links[k];
        assert(x < link.to < a.len());
        assert forall|y: int| #[trigger] inside(a, link.to, y) implies b[y] == a[y] by {
            lemma_inside_child(a, x, k, y);
        }
        lemma_subtree_frame(a, b, link.to);
    }
    assert(subtree(b, x).branches =~= subtree(a, x).branches);
}

/// Looking a key up among the links of a slot is looking it up among the
/// branches of its tree.
pub proof fn lemma_first_link_keyed(a: Seq<Slot>, n: int, key: Seq<char>, from: int)
    requires
        0 <= from,
    ensures
        first_keyed(subtree(a, n).branches, key, from) == first_link(a[n].links, key, from),
    decreases a[n].links.len() - from,
{
    if from < a[n].links.len() {
        lemma_first_link_keyed(a, n, key, from + 1);
    }
}

/// What the lookup of a key returns: a place among the links, the first one
/// with that key if it is a link at all.
pub proof fn lemma_first_link_range(links: Seq<Link>, key: Seq<char>, from: int)
    requires
        0 <= from,
    ensures
        from <= first_link(links, key, from) || first_link(links, key, from) == links.len(),
        first_link(links, key, from) <= links.len(),
        first_link(links, key, from) < links.len() ==> links[first_link(links, key, from)].key
            == key,
    decreases links.len() - from,
{
    if from < links.len() {
        lemma_first_link_range(links, key, from + 1);
    }
}

/// Counting one more word at `n` keeps the arena a tree and changes no link.
pub proof fn lemma_bump_wf(a: Seq<Slot>, n: int)
    requires
        arena_wf(a),
        0 <= n < a.len(),
    ensures
        arena_wf(a.update(n, bump(a[n]))),
{
    let b = a.update(n, bump(a[n]));
    assert forall|i: int| 0 <= i < a.len() implies (#[trigger] b[i]).links == a[i].links by {}
    assert forall|i: int, k: int| 0 <= i < b.len() && 0 <= k < b[i].links.len() implies i < (
    #[trigger] b[i].links[k]).to < b.len() by {
        let link = a[i].links[k];
        assert(i < link.to < a.len());
    }
    assert forall|i: int, k: int, j: int, l: int|
        0 <= i < b.len() && 0 <= k < b[i].links.len() && 0 <= j < b.len() && 0 <= l
            < b[j].links.len() && (#[trigger] b[i].links[k]).to == (#[trigger] b[j].links[l]).to
        implies i == j && k == l by {
        let l1 = a[i].links[k];
        let l2 = a[j].links[l];
        assert(l1.to == l2.to);
    }
    assert forall|j: int| 0 < j < b.len() implies #[trigger] has_parent(b, j) by {
        assert(has_parent(a, j));
        let (i, k) = choose|i: int, k: int|
            0 <= i < a.len() && 0 <= k < a[i].links.len() && (#[trigger] a[i].links[k]).to == j;
        let link = b[i].links[k];
        assert(link.to == j);
    }
}

/// Looking a child up, or making it, keeps the arena a tree; the child lies
/// behind its parent.
pub proof fn lemma_with_child_wf(a: Seq<Slot>, n: int, key: Seq<char>)
    requires
        arena_wf(a),
        0 <= n < a.len(),
    ensures
        arena_wf(with_child(a, n, key)),
        n < child_at(a, n, key) < with_child(a, n, key).len(),
        a.len() <= with_child(a, n, key).len(),
{
    let k = first_link(a[n].links, key, 0);
    lemma_first_link_range(a[n].links, key, 0);
    let b = with_child(a, n, key);
    if k < a[n].links.len() {
        let link = a[n].links[k];
        assert(n < link.to < a.len());
    } else {
        assert forall|i: int, q: int| 0 <= i < b.len() && 0 <= q < b[i].links.len() implies i < (
        #[trigger] b[i].links[q]).to < b.len() by {
            if i < a.len() && q < a[i].links.len() {
                let link = a[i].links[q];
                assert(i < link.to < a.len());
            }
        }
        assert forall|i: int, q: int, j: int, l: int|
            0 <= i < b.len() && 0 <= q < b[i].links.len() && 0 <= j < b.len() && 0 <= l
                < b[j].links.len() && (#[trigger] b[i].links[q]).to == (
            #[trigger] b[j].links[l]).to implies i == j && q == l by {
            if i < a.len() && q < a[i].links.len() {
                let l1 = a[i].links[q];
                assert(i < l1.to < a.len());
            }
            if j < a.len() && l < a[j].links.len() {
                let l2 = a[j].links[l];
                assert(j < l2.to < a.len());
            }
            if i < a.len() && q < a[i].links.len() && j < a.len() && l < a[j].links.len() {
                let l1 = a[i].links[q];
                let l2 = a[j].links[l];
                assert(l1.to == l2.to);
            }
        }
        assert forall|j: int| 0 < j < b.len() implies #[trigger] has_parent(b, j) by {
            if j < a.len() {
                assert(has_parent(a, j));
                let (i, q) = choose|i: int, q: int|
                    0 <= i < a.len() && 0 <= q < a[i].links.len() && (#[trigger] a[i].links[q]).to
                        == j;
                let link = b[i].links[q];
                assert(link.to == j);
            } else {
                let link = b[n].links[a[n].links.len() as int];
                assert(link.to == j);
            }
        }
    }
}

/// The child that a step leads to hangs a conserved tree, and counts no more
/// than its parent did, if the tree at the parent was conserved.
pub proof fn lemma_step_child(a: Seq<Slot>, n: int, c: char)
    requires
        arena_wf(a),
        0 <= n < a.len(),
        conserved(subtree(a, n)),
    ensures
        conserved(subtree(step_arena(a, n, c), child_at(a, n, seq![c]))),
        step_arena(a, n, c)[child_at(a, n, seq![c])].count <= a[n].count,
{
    let key = seq![c];
    let a1 = step_arena(a, n, c);
    let m = child_at(a, n, key);
    let k = first_link(a[n].links, key, 0);
    let t = subtree(a, n);
    lemma_first_link_range(a[n].links, key, 0);
    lemma_subtree_unfold(a, n);
    if k < a[n].links.len() {
        let link = a[n].links[k];
        assert(n < link.to < a.len());
        assert forall|y: int| #[trigger] inside(a, m, y) implies a1[y] == a[y] by {
            lemma_inside_range(a, m, y);
        }
        lemma_subtree_frame(a, a1, m);
        assert(t.branches[k].sub == subtree(a, m));
        lemma_weight_before_monotone(t.branches, k + 1, t.branches.len() as int);
        lemma_subtree_unfold(a, m);
    } else {
        assert(a1[m] == vacant());
        assert(subtree(a1, m).branches =~= Seq::<Branch>::empty());
    }
}

/// Inserting a word below `n` keeps the arena a tree, changes nothing
/// outside the tree at `n`, and turns that tree into the one with the word
/// inserted.
pub proof fn lemma_arena_insert(a: Seq<Slot>, n: int, word: Seq<char>)
    requires
        arena_wf(a),
        0 <= n < a.len(),
    ensures
        arena_wf(arena_insert(a, n, word)),
        a.len() <= arena_insert(a, n, word).len(),
        forall|y: int|
            0 <= y < a.len() && !inside(a, n, y) ==> #[trigger] arena_insert(a, n, word)[y]
                == a[y],
        subtree(arena_insert(a, n, word), n) == tree_insert(subtree(a, n), word),
    decreases word.len(),
{
    let b = arena_insert(a, n, word);
    let t = subtree(a, n);
    lemma_subtree_unfold(a, n);
    if word.len() == 0 {
        lemma_bump_wf(a, n);
        lemma_subtree_unfold(b, n);
        assert forall|k: int| 0 <= k < a[n].links.len() implies subtree(b, a[n].links[k].to)
            == subtree(a, a[n].links[k].to) by {
            let link = a[n].links[k];
            assert(n < link.to < a.len());
            assert forall|y: int| #[trigger] inside(a, link.to, y) implies b[y] == a[y] by {
                lemma_inside_range(a, link.to, y);
            }
            lemma_subtree_frame(a, b, link.to);
        }
        assert(subtree(b, n).branches =~= t.branches);
    } else {
        let c = word[0];
        let key = seq![c];
        let rest = word.subrange(1, word.len() as int);
        let a0 = a.update(n, bump(a[n]));
        let a1 = step_arena(a, n, c);
        let m = child_at(a, n, key);
        let k = first_link(a[n].links, key, 0);
        lemma_first_link_range(a[n].links, key, 0);
        lemma_first_link_keyed(a, n, key, 0);
        lemma_bump_wf(a, n);
        lemma_with_child_wf(a0, n, key);
        assert(a1 == with_child(a0, n, key));
        assert(m == child_at(a0, n, key));
        lemma_arena_insert(a1, m, rest);
        assert(b == arena_insert(a1, m, rest));
        let found = k < a[n].links.len();
        // The slots of old positions other than `n` are those of `a`.
        assert forall|y: int| 0 <= y < a.len() && y != n implies a1[y] == a[y] by {}
        // What is inside the tree at `m` in `a1` is inside the tree at `n` in
        // `a`, or new.
        assert forall|y: int| 0 <= y < a.len() && inside(a1, m, y) implies inside(a, n, y) by {
            lemma_inside_range(a1, m, y);
            if found {
                lemma_inside_same_links(a1, a, m, y);
                lemma_inside_child(a, n, k, y);
            }
        }
        assert forall|y: int| 0 <= y < a.len() && !inside(a, n, y) implies #[trigger] b[y]
            == a[y] by {
            assert(inside(a, n, n));
            assert(!inside(a1, m, y));
        }
        // The slot at `n` is as the step left it.
        assert(b[n] == a1[n]) by {
            if inside(a1, m, n) {
                lemma_inside_range(a1, m, n);
            }
        }
        // The trees at the other children of `n` are as they were.
        let km = if found { k } else { a[n].links.len() as int };
        assert(a1[n].links[km].to == m);
        assert forall|j: int| 0 <= j < a[n].links.len() && j != km implies subtree(
            b,
            a[n].links[j].to,
        ) == subtree(a, a[n].links[j].to) by {
            let link = a[n].links[j];
            assert(n < link.to < a.len());
            assert(a1[n].links[j] == link);
            assert forall|y: int| #[trigger] inside(a1, link.to, y) implies b[y] == a1[y] by {
                lemma_inside_range(a1, link.to, y);
                lemma_siblings_disjoint(a1, n, j, km, y);
            }
            lemma_subtree_frame(a1, b, link.to);
            assert forall|y: int| #[trigger] inside(a, link.to, y) implies a1[y] == a[y] by {
                lemma_inside_range(a, link.to, y);
            }
            lemma_subtree_frame(a, a1, link.to);
        }
        // The tree at `m` before the rest of the word went in.
        if found {
            let link = a[n].links[k];
            assert(n < link.to < a.len());
            assert forall|y: int| #[trigger] inside(a, m, y) implies a1[y] == a[y] by {
                lemma_inside_range(a, m, y);
            }
            lemma_subtree_frame(a, a1, m);
            assert(t.branches[k].sub == subtree(a, m));
        } else {
            assert(a1[m] == vacant());
            assert(subtree(a1, m).branches =~= Seq::<Branch>::empty());
            assert(subtree(a1, m) == leaf());
        }
        lemma_subtree_unfold(b, n);
        assert(subtree(b, n).branches =~= tree_insert(t, word).branches);
    }
}

/// A child of a position inside the tree at `x` is inside that tree.
pub proof fn lemma_inside_extend(a: Seq<Slot>, x: int, p: int, k: int)
    requires
        forward(a),
        inside(a, x, p),
        0 <= p < a.len(),
        0 <= k < a[p].links.len(),
    ensures
        inside(a, x, a[p].links[k].to),
    decreases a.len() - x,
{
    let link = a[p].links[k];
    assert(p < link.to < a.len());
    if x == p {
        assert(inside(a, link.to, link.to));
    } else {
        let q = choose|q: int|
            0 <= q < a[x].links.len() && x < (#[trigger] a[x].links[q]).to < a.len() && inside(
                a,
                a[x].links[q].to,
                p,
            );
        lemma_inside_extend(a, a[x].links[q].to, p, k);
    }
}

/// Every position of an arena is inside the tree at its first position.
pub proof fn lemma_all_inside(a: Seq<Slot>, j: int)
    requires
        arena_wf(a),
        0 <= j < a.len(),
    ensures
        inside(a, 0, j),
    decreases j,
{
    if j > 0 {
        assert(has_parent(a, j));
        let (p, k) = choose|p: int, k: int|
            0 <= p < a.len() && 0 <= k < a[p].links.len() && (#[trigger] a[p].links[k]).to == j;
        let link = a[p].links[k];
        assert(p < link.to);
        lemma_all_inside(a, p);
        lemma_inside_extend(a, 0, p, k);
    }
}

/// The positions inside the tree at `x`.
pub open spec fn positions(a: Seq<Slot>, x: int) -> Set<int> {
    Set::new(|y: int| inside(a, x, y))
}

/// The position `x` and the positions inside the trees at its first `k`
/// children.
pub open spec fn positions_upto(a: Seq<Slot>, x: int, k: int) -> Set<int> {
    Set::new(
        |y: int|
            y == x || exists|j: int|
                0 <= j < k && j < a[x].links.len() && x < (#[trigger] a[x].links[j]).to < a.len()
                    && inside(a, a[x].links[j].to, y),
    )
}

/// The tree at a position has as many nodes as positions are inside it.
pub proof fn lemma_positions_count(a: Seq<Slot>, x: int)
    requires
        arena_wf(a),
        0 <= x < a.len(),
    ensures
        positions(a, x).finite(),
        positions(a, x).len() == node_count(subtree(a, x)),
    decreases a.len() - x, 1int, 0int,
{
    lemma_positions_upto_count(a, x, a[x].links.len() as int);
    lemma_subtree_unfold(a, x);
    assert(positions(a, x) =~= positions_upto(a, x, a[x].links.len() as int));
}

/// The trees at the first `k` children of a position have, with the
/// position itself, as many nodes as positions are inside them.
pub proof fn lemma_positions_upto_count(a: Seq<Slot>, x: int, k: int)
    requires
        arena_wf(a),
        0 <= x < a.len(),
        0 <= k <= a[x].links.len(),
    ensures
        positions_upto(a, x, k).finite(),
        positions_upto(a, x, k).len() == 1 + node_count_in(subtree(a, x), k),
    decreases a.len() - x, 0int, k,
{
    lemma_subtree_unfold(a, x);
    let here = positions_upto(a, x, k);
    if k == 0 {
        assert(here =~= set![x]);
    } else {
        let link = a[x].links[k - 1];
        assert(x < link.to < a.len());
        let before = positions_upto(a, x, k - 1);
        let below = positions(a, link.to);
        lemma_positions_upto_count(a, x, k - 1);
        lemma_positions_count(a, link.to);
        assert(subtree(a, x).branches[k - 1].sub == subtree(a, link.to));
        assert(before.disjoint(below)) by {
            assert forall|y: int| before.contains(y) implies !below.contains(y) by {
                if below.contains(y) {
                    lemma_inside_range(a, link.to, y);
                    if y != x {
                        let j = choose|j: int|
                            0 <= j < k - 1 && j < a[x].links.len() && x < (
                            #[trigger] a[x].links[j]).to < a.len() && inside(
                                a,
                                a[x].links[j].to,
                                y,
                            );
                        lemma_siblings_disjoint(a, x, j, k - 1, y);
                    }
                }
            }
        }
        assert(here =~= before + below) by {
            assert forall|y: int| here.contains(y) implies (before + below).contains(y) by {
                if y != x {
                    let j = choose|j: int|
                        0 <= j < k && j < a[x].links.len() && x < (#[trigger] a[x].links[j]).to
                            < a.len() && inside(a, a[x].links[j].to, y);
                    if j < k - 1 {
                        assert(before.contains(y));
                    } else {
                        assert(below.contains(y));
                    }
                }
            }
            assert forall|y: int| (before + below).contains(y) implies here.contains(y) by {
                if below.contains(y) {
                    assert(inside(a, link.to, y));
                } else if y != x {
                    let j = choose|j: int|
                        0 <= j < k - 1 && j < a[x].links.len() && x < (
                        #[trigger] a[x].links[j]).to < a.len() && inside(a, a[x].links[j].to, y);
                    assert(inside(a, a[x].links[j].to, y));
                }
            }
        }
        lemma_set_disjoint_lens(before, below);
    }
}

/// An arena holds exactly the nodes of its tree: it has as many positions
/// as the tree has nodes.
pub proof fn lemma_arena_size(a: Seq<Slot>)
    requires
        arena_wf(a),
    ensures
        a.len() == node_count(subtree(a, 0)),
{
    lemma_positions_count(a, 0);
    lemma_int_range(0, a.len() as int);
    assert(positions(a, 0) =~= set_int_range(0, a.len() as int)) by {
        assert forall|y: int| inside(a, 0, y) implies 0 <= y < a.len() by {
            lemma_inside_range(a, 0, y);
        }
        assert forall|y: int| 0 <= y < a.len() implies inside(a, 0, y) by {
            lemma_all_inside(a, y);
        }
    }
}

/// Whether a link before place `k` of position `i` leads to position `j`:
/// a link of an earlier position, or an earlier link of `i`.
pub open spec fn linked_before(a: Seq<Slot>, j: int, i: int, k: int) -> bool {
    exists|x: int, q: int|
        0 <= x < a.len() && 0 <= q < a[x].links.len() && (x < i || (x == i && q < k)) && (
        #[trigger] a[x].links[q]).to == j
}

/// One line of a listing of the nodes of an arena.
pub struct Visit {
    /// What the path from the root to the node spells.
    pub prefix: Seq<char>,
    /// The position of the node.
    pub index: int,
    /// The number of edges on the path from the root to the node.
    pub depth: nat,
}

/// The nodes of the tree at `i` in pre-order: the node itself, then the
/// trees of its children, in order. The path to `i` spells `prefix` and has
/// `depth` edges.
pub open spec fn preorder(a: Seq<Slot>, i: int, prefix: Seq<char>, depth: nat) -> Seq<Visit>
    decreases a.len() - i, 1int, 0int,
{
    seq![Visit { prefix, index: i, depth }] + preorder_from(a, i, prefix, depth, 0)
}

/// The nodes of the trees of the children of `i` from place `k` on, in
/// pre-order.
pub open spec fn preorder_from(a: Seq<Slot>, i: int, prefix: Seq<char>, depth: nat, k: int) -> Seq<
    Visit,
>
    decreases a.len() - i, 0int, a[i].links.len() - k,
{
    if k < 0 || k >= a[i].links.len() {
        Seq::empty()
    } else {
        let link = a[i].links[k];
        (if i < link.to < a.len() {
            preorder(a, link.to, prefix + link.key, depth + 1)
        } else {
            Seq::empty()
        }) + preorder_from(a, i, prefix, depth, k + 1)
    }
}

/// The nodes of the trees that wait on a stack, in the order in which they
/// will be listed: the tree on top of the stack first.
pub open spec fn preorder_stack(a: Seq<Slot>, stack: Seq<Visit>) -> Seq<Visit>
    decreases stack.len(),
{
    if stack.len() == 0 {
        Seq::empty()
    } else {
        preorder(a, stack.last().index, stack.last().prefix, stack.last().depth) + preorder_stack(
            a,
            stack.drop_last(),
        )
    }
}

/// Whether the listing `visits` names positions of the arena only.
pub open spec fn in_range(a: Seq<Slot>, visits: Seq<Visit>) -> bool {
    forall|j: int| 0 <= j < visits.len() ==> 0 <= (#[trigger] visits[j]).index < a.len()
}

/// A listing in pre-order names positions of the arena only.
pub proof fn lemma_preorder_in_range(a: Seq<Slot>, i: int, prefix: Seq<char>, depth: nat)
    requires
        0 <= i < a.len(),
    ensures
        in_range(a, preorder(a, i, prefix, depth)),
    decreases a.len() - i, 1int, 0int,
{
    lemma_preorder_from_in_range(a, i, prefix, depth, 0);
    let head = seq![Visit { prefix, index: i, depth }];
    let tail = preorder_from(a, i, prefix, depth, 0);
    assert forall|j: int| 0 <= j < (head + tail).len() implies 0 <= (
    #[trigger] (head + tail)[j]).index < a.len() by {
        if j >= 1 {
            assert((head + tail)[j] == tail[j - 1]);
        }
    }
}

/// A listing of the trees of the children of a node names positions of the
/// arena only.
pub proof fn lemma_preorder_from_in_range(
    a: Seq<Slot>,
    i: int,
    prefix: Seq<char>,
    depth: nat,
    k: int,
)
    requires
        0 <= i < a.len(),
    ensures
        in_range(a, preorder_from(a, i, prefix, depth, k)),
    decreases a.len() - i, 0int, a[i].links.len() - k,
{
    if 0 <= k < a[i].links.len() {
        let link = a[i].links[k];
        lemma_preorder_from_in_range(a, i, prefix, depth, k + 1);
        let tail = preorder_from(a, i, prefix, depth, k + 1);
        let head = if i < link.to < a.len() {
            preorder(a, link.to, prefix + link.key, depth + 1)
        } else {
            Seq::empty()
        };
        if i < link.to < a.len() {
            lemma_preorder_in_range(a, link.to, prefix + link.key, depth + 1);
        }
        assert forall|j: int| 0 <= j < (head + tail).len() implies 0 <= (
        #[trigger] (head + tail)[j]).index < a.len() by {
            if j >= head.len() {
                assert((head + tail)[j] == tail[j - head.len()]);
            } else {
                assert((head + tail)[j] == head[j]);
            }
        }
    }
}

} // verus!
