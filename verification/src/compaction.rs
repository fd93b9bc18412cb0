//! The bookkeeping of compression: an arena that is rebuilt slot by slot, and
//! what has to hold of it while some of its slots still wait for their turn.

use vstd::prelude::*;
use crate::arena::{Link, Slot, arena_wf, has_parent, lemma_subtree_unfold, subtree};
use crate::tree::{Branch, compress_edge, redundant, tree_compress};

verus! {

/// The number of positions in the tree at `x`.
pub open spec fn size(a: Seq<Slot>, x: int) -> nat
    decreases a.len() - x, 1int, 0int,
{
    1 + links_size(a, x, a[x].links.len() as int)
}

/// The number of positions in the trees at the first `k` children of `x`.
pub open spec fn links_size(a: Seq<Slot>, x: int, k: int) -> nat
    decreases a.len() - x, 0int, k,
{
    if k <= 0 {
        0
    } else {
        links_size(a, x, k - 1) + if x < a[x].links[k - 1].to < a.len() {
            size(a, a[x].links[k - 1].to)
        } else {
            0
        }
    }
}

/// The number of positions in the trees of `a` that the slots on the stack
/// still have to take over, where `origin` tells for each slot at which
/// position of `a` its tree hangs.
pub open spec fn pending_size(a: Seq<Slot>, origin: Seq<int>, stack: Seq<usize>) -> nat
    decreases stack.len(),
{
    if stack.len() == 0 {
        0
    } else {
        pending_size(a, origin, stack.drop_last()) + size(a, origin[stack.last() as int])
    }
}

/// The size of what is pending depends on the origins of the slots on the
/// stack alone.
pub proof fn lemma_pending_size_frame(
    a: Seq<Slot>,
    origin: Seq<int>,
    other: Seq<int>,
    stack: Seq<usize>,
)
    requires
        forall|s: int|
            0 <= s < stack.len() ==> origin[#[trigger] stack[s] as int] == other[stack[s] as int],
    ensures
        pending_size(a, origin, stack) == pending_size(a, other, stack),
    decreases stack.len(),
{
    if stack.len() > 0 {
        let rest = stack.drop_last();
        assert forall|s: int| 0 <= s < rest.len() implies origin[#[trigger] rest[s] as int]
            == other[rest[s] as int] by {
            assert(rest[s] == stack[s]);
        }
        lemma_pending_size_frame(a, origin, other, rest);
        assert(stack.last() == stack[stack.len() - 1]);
    }
}

/// How far the rebuilding of an arena has come.
pub struct Progress {
    /// For each slot, the edge that must lead to it in the end, with the tree
    /// that must hang from it.
    pub goal: Seq<Branch>,
    /// For each slot that waits, the position in the old arena whose content
    /// it holds.
    pub origin: Seq<int>,
    /// For each slot, whether its links lead into the new arena already.
    pub done: Seq<bool>,
}

/// What holds of a slot `j` that waits on the stack: it holds the content of
/// the old slot it came from, links into the old arena included; its parent
/// is done and links to it; and compressing the edge from the parent as it
/// is now gives the goal of the slot.
pub open spec fn pending_ok(
    a: Seq<Slot>,
    n: Seq<Slot>,
    parents: Seq<usize>,
    places: Seq<usize>,
    st: Progress,
    j: int,
) -> bool {
    let o = st.origin[j];
    let p = parents[j] as int;
    let q = places[j] as int;
    &&& 0 <= o < a.len()
    &&& n[j] == a[o]
    &&& if j == 0 {
        o == 0 && st.goal[0].sub == tree_compress(subtree(a, 0))
    } else {
        &&& 0 <= p < j
        &&& st.done[p]
        &&& 0 <= q < n[p].links.len()
        &&& n[p].links[q].to == j
        &&& compress_edge(n[p].links[q].key, subtree(a, o)) == st.goal[j]
    }
}

/// What holds of the link at place `q` of a slot `j` that is done: it leads
/// to a later slot of the new arena, which knows `j` as its parent and `q` as
/// its place; the goal of that slot is the branch that the goal of `j` has at
/// `q`; and once that slot is done too, the key of the link is final.
pub open spec fn link_ok(
    n: Seq<Slot>,
    parents: Seq<usize>,
    places: Seq<usize>,
    st: Progress,
    j: int,
    q: int,
) -> bool {
    let c = n[j].links[q].to;
    &&& j < c < n.len()
    &&& parents[c] == j
    &&& places[c] == q
    &&& st.goal[c] == st.goal[j].sub.branches[q]
    &&& st.done[c] ==> n[j].links[q].key == st.goal[c].key
}

/// What holds of a slot `j` that is done, as far as its first `upto` links
/// go: it has the count and the number of links of its goal, and each of
/// those links is in order.
pub open spec fn done_ok(
    n: Seq<Slot>,
    parents: Seq<usize>,
    places: Seq<usize>,
    st: Progress,
    j: int,
    upto: int,
) -> bool {
    &&& n[j].count == st.goal[j].sub.count
    &&& n[j].links.len() == st.goal[j].sub.branches.len()
    &&& forall|q: int| 0 <= q < upto ==> #[trigger] link_ok(n, parents, places, st, j, q)
}

/// Every slot but the first knows its parent and its place among the links
/// of the parent; the parent lies before it, is done, and links to it there.
pub open spec fn linked(
    n: Seq<Slot>,
    parents: Seq<usize>,
    places: Seq<usize>,
    st: Progress,
) -> bool {
    forall|j: int|
        0 < j < n.len() ==> {
            let p = (#[trigger] parents[j]) as int;
            let q = places[j] as int;
            &&& 0 <= p < j
            &&& st.done[p]
            &&& 0 <= q < n[p].links.len()
            &&& n[p].links[q].to == j
        }
}

/// The bookkeeping has one entry for each slot of the new arena.
pub open spec fn shaped(
    n: Seq<Slot>,
    parents: Seq<usize>,
    places: Seq<usize>,
    st: Progress,
) -> bool {
    &&& n.len() > 0
    &&& parents.len() == n.len()
    &&& places.len() == n.len()
    &&& st.goal.len() == n.len()
    &&& st.origin.len() == n.len()
    &&& st.done.len() == n.len()
}

/// Every slot of the new arena is done, and in order.
pub open spec fn all_done(
    n: Seq<Slot>,
    parents: Seq<usize>,
    places: Seq<usize>,
    st: Progress,
) -> bool {
    &&& shaped(n, parents, places, st)
    &&& linked(n, parents, places, st)
    &&& forall|j: int|
        0 <= j < n.len() ==> #[trigger] st.done[j] && done_ok(
            n,
            parents,
            places,
            st,
            j,
            n[j].links.len() as int,
        )
}

/// Once every slot is done, the new arena is a tree.
pub proof fn lemma_all_done_wf(n: Seq<Slot>, parents: Seq<usize>, places: Seq<usize>, st: Progress)
    requires
        all_done(n, parents, places, st),
    ensures
        arena_wf(n),
{
    assert forall|i: int, k: int| 0 <= i < n.len() && 0 <= k < n[i].links.len() implies i < (
    #[trigger] n[i].links[k]).to < n.len() by {
        assert(st.done[i]);
        assert(link_ok(n, parents, places, st, i, k));
    }
    assert forall|i: int, k: int, j: int, l: int|
        0 <= i < n.len() && 0 <= k < n[i].links.len() && 0 <= j < n.len() && 0 <= l
            < n[j].links.len() && (#[trigger] n[i].links[k]).to == (#[trigger] n[j].links[l]).to
        implies i == j && k == l by {
        assert(st.done[i] && st.done[j]);
        assert(link_ok(n, parents, places, st, i, k));
        assert(link_ok(n, parents, places, st, j, l));
    }
    assert forall|j: int| 0 < j < n.len() implies #[trigger] has_parent(n, j) by {
        let p = parents[j] as int;
        let q = places[j] as int;
        let link = n[p].links[q];
        assert(link.to == j);
    }
}

/// Once every slot is done, the tree at each slot is the tree of its goal.
pub proof fn lemma_all_done_subtree(
    n: Seq<Slot>,
    parents: Seq<usize>,
    places: Seq<usize>,
    st: Progress,
    j: int,
)
    requires
        all_done(n, parents, places, st),
        0 <= j < n.len(),
    ensures
        subtree(n, j) == st.goal[j].sub,
    decreases n.len() - j,
{
    lemma_all_done_wf(n, parents, places, st);
    lemma_subtree_unfold(n, j);
    let want = st.goal[j].sub;
    assert(st.done[j]);
    assert forall|q: int| 0 <= q < n[j].links.len() implies subtree(n, j).branches[q]
        == want.branches[q] by {
        assert(link_ok(n, parents, places, st, j, q));
        let c = n[j].links[q].to;
        assert(st.done[c]);
        lemma_all_done_subtree(n, parents, places, st, c);
    }
    assert(subtree(n, j).branches =~= want.branches);
}

/// Whether the slot `j` is on the stack.
pub open spec fn on_stack(stack: Seq<usize>, j: int) -> bool {
    exists|s: int| 0 <= s < stack.len() && #[trigger] stack[s] == j
}

/// The stack holds slots that wait, each of them once.
pub open spec fn stack_ok(n: Seq<Slot>, st: Progress, stack: Seq<usize>) -> bool {
    &&& forall|s: int|
        0 <= s < stack.len() ==> (#[trigger] stack[s]) < n.len() && !st.done[stack[s] as int]
    &&& forall|s: int, t: int|
        0 <= s < t < stack.len() ==> #[trigger] stack[s] != #[trigger] stack[t]
}

/// What holds of a slot: if it is done, all its links are in order; if it
/// waits, it is in order as a waiting slot, and on the stack.
pub open spec fn slot_ok(
    a: Seq<Slot>,
    n: Seq<Slot>,
    parents: Seq<usize>,
    places: Seq<usize>,
    st: Progress,
    stack: Seq<usize>,
    j: int,
) -> bool {
    if st.done[j] {
        done_ok(n, parents, places, st, j, n[j].links.len() as int)
    } else {
        pending_ok(a, n, parents, places, st, j) && on_stack(stack, j)
    }
}

/// What holds between two steps of rebuilding `a` as `n`.
pub open spec fn rebuilding(
    a: Seq<Slot>,
    n: Seq<Slot>,
    parents: Seq<usize>,
    places: Seq<usize>,
    st: Progress,
    stack: Seq<usize>,
) -> bool {
    &&& shaped(n, parents, places, st)
    &&& linked(n, parents, places, st)
    &&& st.goal[0].sub == tree_compress(subtree(a, 0))
    &&& stack_ok(n, st, stack)
    &&& forall|j: int|
        0 <= j < n.len() ==> #[trigger] slot_ok(a, n, parents, places, st, stack, j)
}

/// What holds while the slot `index` is being settled, its first `k` links
/// leading into the new arena already and the others still into the old one.
pub open spec fn finalizing(
    a: Seq<Slot>,
    n: Seq<Slot>,
    parents: Seq<usize>,
    places: Seq<usize>,
    st: Progress,
    stack: Seq<usize>,
    index: int,
    k: int,
) -> bool {
    let o = st.origin[index];
    &&& shaped(n, parents, places, st)
    &&& linked(n, parents, places, st)
    &&& st.goal[0].sub == tree_compress(subtree(a, 0))
    &&& 0 <= index < n.len()
    &&& st.done[index]
    &&& 0 <= o < a.len()
    &&& 0 <= k <= a[o].links.len()
    &&& n[index].count == a[o].count
    &&& n[index].links.len() == a[o].links.len()
    &&& st.goal[index].sub == tree_compress(subtree(a, o))
    &&& forall|q: int| 0 <= q < k ==> #[trigger] link_ok(n, parents, places, st, index, q)
    &&& forall|q: int| k <= q < a[o].links.len() ==> #[trigger] n[index].links[q] == a[o].links[q]
    &&& forall|j: int| 0 < j < n.len() && (#[trigger] parents[j]) == index ==> places[j] < k
    &&& stack_ok(n, st, stack)
    &&& forall|j: int|
        0 <= j < n.len() && j != index ==> #[trigger] slot_ok(
            a,
            n,
            parents,
            places,
            st,
            stack,
            j,
        )
}

/// A node of an arena is redundant as a tree exactly if it has one link, to
/// a slot with its own count.
pub proof fn lemma_redundant(a: Seq<Slot>, o: int)
    requires
        arena_wf(a),
        0 <= o < a.len(),
    ensures
        redundant(subtree(a, o)) <==> a[o].links.len() == 1 && a[a[o].links[0].to].count
            == a[o].count,
        a[o].links.len() == 1 ==> o < a[o].links[0].to < a.len(),
{
    lemma_subtree_unfold(a, o);
    if a[o].links.len() == 1 {
        let link = a[o].links[0];
        assert(o < link.to < a.len());
        lemma_subtree_unfold(a, link.to);
        assert(subtree(a, o).branches[0].sub == subtree(a, link.to));
    }
}

/// The new arena after the slot `index`, which is redundant, has been
/// replaced by its only child: the link from its parent spells both keys, and
/// the slot holds the content of the child.
pub open spec fn splice_arena(
    a: Seq<Slot>,
    n: Seq<Slot>,
    parents: Seq<usize>,
    places: Seq<usize>,
    index: int,
) -> Seq<Slot> {
    let p = parents[index] as int;
    let q = places[index] as int;
    let key = n[p].links[q].key + n[index].links[0].key;
    n.update(
        p,
        Slot { count: n[p].count, links: n[p].links.update(q, Link { key, to: index }) },
    ).update(index, a[n[index].links[0].to])
}

/// The progress after the slot `index` has been replaced by its only child.
pub open spec fn splice_progress(n: Seq<Slot>, st: Progress, index: int) -> Progress {
    Progress { goal: st.goal, origin: st.origin.update(index, n[index].links[0].to), done: st.done }
}

/// Replacing a redundant slot by its only child keeps the rebuilding in
/// order, and leaves less to do.
pub proof fn lemma_splice(
    a: Seq<Slot>,
    n: Seq<Slot>,
    parents: Seq<usize>,
    places: Seq<usize>,
    st: Progress,
    stack: Seq<usize>,
)
    requires
        arena_wf(a),
        rebuilding(a, n, parents, places, st, stack),
        stack.len() > 0,
        stack.last() != 0,
        redundant(subtree(a, st.origin[stack.last() as int])),
    ensures
        rebuilding(
            a,
            splice_arena(a, n, parents, places, stack.last() as int),
            parents,
            places,
            splice_progress(n, st, stack.last() as int),
            stack,
        ),
        pending_size(a, splice_progress(n, st, stack.last() as int).origin, stack)
            < pending_size(a, st.origin, stack),
{
    let index = stack.last() as int;
    let n2 = splice_arena(a, n, parents, places, index);
    let st2 = splice_progress(n, st, index);
    assert(stack[stack.len() - 1] == index as usize);
    assert(slot_ok(a, n, parents, places, st, stack, index));
    let o = st.origin[index];
    let p = parents[index] as int;
    let q = places[index] as int;
    lemma_redundant(a, o);
    lemma_subtree_unfold(a, o);
    let o2 = a[o].links[0].to;
    assert(n[index].links[0].to == o2);
    assert(slot_ok(a, n, parents, places, st, stack, p));
    assert(link_ok(n, parents, places, st, p, q));
    let key2 = n[p].links[q].key + n[index].links[0].key;
    assert(subtree(a, o).branches[0] == (Branch { key: a[o].links[0].key, sub: subtree(a, o2) }));
    assert(compress_edge(key2, subtree(a, o2)) == st.goal[index]);
    assert forall|j: int| 0 <= j < n2.len() implies #[trigger] slot_ok(
        a,
        n2,
        parents,
        places,
        st2,
        stack,
        j,
    ) by {
        assert(slot_ok(a, n, parents, places, st, stack, j));
        if j == index {
        } else if st.done[j] {
            assert forall|r: int| 0 <= r < n2[j].links.len() implies #[trigger] link_ok(
                n2,
                parents,
                places,
                st2,
                j,
                r,
            ) by {
                assert(link_ok(n, parents, places, st, j, r));
            }
        } else {
            let pj = parents[j] as int;
            let qj = places[j] as int;
            if j != 0 && pj == p {
                assert(qj != q);
            }
        }
    }
    assert forall|j: int| 0 < j < n2.len() implies {
        let pj = (#[trigger] parents[j]) as int;
        let qj = places[j] as int;
        &&& 0 <= pj < j
        &&& st2.done[pj]
        &&& 0 <= qj < n2[pj].links.len()
        &&& n2[pj].links[qj].to == j
    } by {
        let pj = parents[j] as int;
        let qj = places[j] as int;
        assert(pj != index);
        if pj == p && qj != q {
            assert(n2[pj].links[qj] == n[pj].links[qj]);
        }
    }
    // Less is left to do.
    let rest = stack.drop_last();
    assert forall|s: int| 0 <= s < rest.len() implies st.origin[#[trigger] rest[s] as int]
        == st2.origin[rest[s] as int] by {
        assert(rest[s] == stack[s]);
    }
    lemma_pending_size_frame(a, st.origin, st2.origin, rest);
    assert(links_size(a, o, 1) == links_size(a, o, 0) + size(a, o2));
}

/// Settling a slot that is kept begins by marking it as done: its goal is
/// then the compressed form of the tree that it came from.
pub proof fn lemma_finalize_begin(
    a: Seq<Slot>,
    n: Seq<Slot>,
    parents: Seq<usize>,
    places: Seq<usize>,
    st: Progress,
    stack: Seq<usize>,
)
    requires
        arena_wf(a),
        rebuilding(a, n, parents, places, st, stack),
        stack.len() > 0,
        stack.last() == 0 || !redundant(subtree(a, st.origin[stack.last() as int])),
    ensures
        finalizing(
            a,
            n,
            parents,
            places,
            Progress {
                goal: st.goal,
                origin: st.origin,
                done: st.done.update(stack.last() as int, true),
            },
            stack.drop_last(),
            stack.last() as int,
            0,
        ),
{
    let index = stack.last() as int;
    let st2 = Progress { goal: st.goal, origin: st.origin, done: st.done.update(index, true) };
    let rest = stack.drop_last();
    assert(stack[stack.len() - 1] == index as usize);
    assert(slot_ok(a, n, parents, places, st, stack, index));
    let o = st.origin[index];
    let p = parents[index] as int;
    let q = places[index] as int;
    lemma_subtree_unfold(a, o);
    assert forall|s: int| 0 <= s < rest.len() implies (#[trigger] rest[s]) < n.len()
        && !st2.done[rest[s] as int] by {
        assert(rest[s] == stack[s]);
    }
    assert forall|s: int, t: int| 0 <= s < t < rest.len() implies #[trigger] rest[s]
        != #[trigger] rest[t] by {
        assert(rest[s] == stack[s] && rest[t] == stack[t]);
    }
    assert forall|j: int| 0 <= j < n.len() && j != index implies #[trigger] slot_ok(
        a,
        n,
        parents,
        places,
        st2,
        rest,
        j,
    ) by {
        assert(slot_ok(a, n, parents, places, st, stack, j));
        if st.done[j] {
            assert forall|r: int| 0 <= r < n[j].links.len() implies #[trigger] link_ok(
                n,
                parents,
                places,
                st2,
                j,
                r,
            ) by {
                assert(link_ok(n, parents, places, st, j, r));
            }
        } else {
            let s = choose|s: int| 0 <= s < stack.len() && #[trigger] stack[s] == j;
            assert(rest[s] == stack[s]);
        }
    }
    assert forall|j: int| 0 < j < n.len() && (#[trigger] parents[j]) == index implies places[j]
        < 0 by {
        assert(st.done[parents[j] as int]);
    }
}

/// The new arena after the link at place `k` of the slot `index` has been
/// led to a new slot at the end, which holds the content of the old child.
pub open spec fn extend_arena(a: Seq<Slot>, n: Seq<Slot>, index: int, k: int) -> Seq<Slot> {
    n.update(
        index,
        Slot {
            count: n[index].count,
            links: n[index].links.update(
                k,
                Link { key: n[index].links[k].key, to: n.len() as int },
            ),
        },
    ).push(a[n[index].links[k].to])
}

/// The progress after the link at place `k` of the slot `index` has been led
/// to a new slot.
pub open spec fn extend_progress(n: Seq<Slot>, st: Progress, index: int, k: int) -> Progress {
    Progress {
        goal: st.goal.push(st.goal[index].sub.branches[k]),
        origin: st.origin.push(n[index].links[k].to),
        done: st.done.push(false),
    }
}

/// Leading one more link of the slot that is being settled to a new slot
/// keeps everything in order.
pub proof fn lemma_finalize_step(
    a: Seq<Slot>,
    n: Seq<Slot>,
    parents: Seq<usize>,
    places: Seq<usize>,
    st: Progress,
    stack: Seq<usize>,
    index: int,
    k: int,
)
    requires
        arena_wf(a),
        finalizing(a, n, parents, places, st, stack, index, k),
        k < n[index].links.len(),
        k <= usize::MAX,
        n.len() < usize::MAX,
    ensures
        finalizing(
            a,
            extend_arena(a, n, index, k),
            parents.push(index as usize),
            places.push(k as usize),
            extend_progress(n, st, index, k),
            stack.push(n.len() as usize),
            index,
            k + 1,
        ),
        0 <= n[index].links[k].to < a.len(),
{
    let n2 = extend_arena(a, n, index, k);
    let parents2 = parents.push(index as usize);
    let places2 = places.push(k as usize);
    let st2 = extend_progress(n, st, index, k);
    let stack2 = stack.push(n.len() as usize);
    let c = n.len() as int;
    let o = st.origin[index];
    assert(n[index].links[k] == a[o].links[k]);
    let old_link = a[o].links[k];
    assert(o < old_link.to < a.len());
    let oc = old_link.to;
    lemma_subtree_unfold(a, o);
    assert(tree_compress(subtree(a, o)).branches[k] == compress_edge(
        a[o].links[k].key,
        subtree(a, oc),
    ));
    assert forall|q: int| 0 <= q < k + 1 implies #[trigger] link_ok(
        n2,
        parents2,
        places2,
        st2,
        index,
        q,
    ) by {
        if q < k {
            assert(link_ok(n, parents, places, st, index, q));
        }
    }
    assert forall|q: int| k + 1 <= q < a[o].links.len() implies #[trigger] n2[index].links[q]
        == a[o].links[q] by {
        assert(n[index].links[q] == a[o].links[q]);
    }
    assert forall|s: int| 0 <= s < stack2.len() implies (#[trigger] stack2[s]) < n2.len()
        && !st2.done[stack2[s] as int] by {
        if s < stack.len() {
            assert(stack2[s] == stack[s]);
        }
    }
    assert forall|s: int, t: int| 0 <= s < t < stack2.len() implies #[trigger] stack2[s]
        != #[trigger] stack2[t] by {
        assert(stack2[s] == stack[s]);
        if t < stack.len() {
            assert(stack2[t] == stack[t]);
        }
    }
    assert forall|j: int| 0 <= j < n2.len() && j != index implies #[trigger] slot_ok(
        a,
        n2,
        parents2,
        places2,
        st2,
        stack2,
        j,
    ) by {
        if j < n.len() {
            assert(slot_ok(a, n, parents, places, st, stack, j));
            if st.done[j] {
                assert forall|r: int| 0 <= r < n2[j].links.len() implies #[trigger] link_ok(
                    n2,
                    parents2,
                    places2,
                    st2,
                    j,
                    r,
                ) by {
                    assert(link_ok(n, parents, places, st, j, r));
                }
            } else {
                let s = choose|s: int| 0 <= s < stack.len() && #[trigger] stack[s] == j;
                assert(stack2[s] == stack[s]);
                let pj = parents[j] as int;
                let qj = places[j] as int;
                if j != 0 && pj == index {
                    assert(qj != k);
                }
            }
        } else {
            assert(stack2[stack.len() as int] == c as usize);
        }
    }
    assert forall|j: int| 0 < j < n2.len() && (#[trigger] parents2[j]) == index implies places2[j]
        < k + 1 by {
        if j < n.len() {
            assert(parents2[j] == parents[j]);
        }
    }
    assert forall|j: int| 0 < j < n2.len() implies {
        let pj = (#[trigger] parents2[j]) as int;
        let qj = places2[j] as int;
        &&& 0 <= pj < j
        &&& st2.done[pj]
        &&& 0 <= qj < n2[pj].links.len()
        &&& n2[pj].links[qj].to == j
    } by {
        if j < n.len() {
            let pj = parents[j] as int;
            let qj = places[j] as int;
            assert(parents2[j] == parents[j]);
            if pj == index {
                assert(qj < k);
            }
        }
    }
}

/// Once all the links of the slot that is being settled lead to new slots,
/// the rebuilding is in order again.
pub proof fn lemma_finalize_end(
    a: Seq<Slot>,
    n: Seq<Slot>,
    parents: Seq<usize>,
    places: Seq<usize>,
    st: Progress,
    stack: Seq<usize>,
    index: int,
)
    requires
        arena_wf(a),
        finalizing(a, n, parents, places, st, stack, index, n[index].links.len() as int),
    ensures
        rebuilding(a, n, parents, places, st, stack),
{
    let o = st.origin[index];
    lemma_subtree_unfold(a, o);
    assert(tree_compress(subtree(a, o)).count == a[o].count);
    assert forall|j: int| 0 <= j < n.len() implies #[trigger] slot_ok(
        a,
        n,
        parents,
        places,
        st,
        stack,
        j,
    ) by {
        if j == index {
        }
    }
}

/// With nothing left on the stack, every slot is done.
pub proof fn lemma_rebuilt(
    a: Seq<Slot>,
    n: Seq<Slot>,
    parents: Seq<usize>,
    places: Seq<usize>,
    st: Progress,
    stack: Seq<usize>,
)
    requires
        rebuilding(a, n, parents, places, st, stack),
        stack.len() == 0,
    ensures
        arena_wf(n),
        subtree(n, 0) == tree_compress(subtree(a, 0)),
{
    assert forall|j: int| 0 <= j < n.len() implies #[trigger] st.done[j] && done_ok(
        n,
        parents,
        places,
        st,
        j,
        n[j].links.len() as int,
    ) by {
        assert(slot_ok(a, n, parents, places, st, stack, j));
        if !st.done[j] {
            let s = choose|s: int| 0 <= s < stack.len() && #[trigger] stack[s] == j;
            assert(false);
        }
    }
    lemma_all_done_wf(n, parents, places, st);
    lemma_all_done_subtree(n, parents, places, st, 0);
}

} // verus!
