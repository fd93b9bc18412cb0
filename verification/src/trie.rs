//! The weighted trie: an arena of nodes that counts the words of a corpus by
//! prefix, can be compressed, and hands out the word at a given rank.

use vstd::prelude::*;
use vstd::string::StringExecFns;
use crate::arena::{
    Link, Slot, Visit, arena_insert, arena_wf, bump, child_at, first_link, has_parent, in_range,
    lemma_arena_size,
    lemma_arena_insert, lemma_bump_wf, lemma_preorder_in_range, lemma_step_child,
    lemma_subtree_unfold, lemma_with_child_wf, linked_before, preorder, preorder_from,
    preorder_stack, step_arena, subtree, vacant, with_child,
};
use crate::compaction::{
    Progress, extend_arena, extend_progress, finalizing, lemma_finalize_begin, lemma_finalize_end,
    lemma_finalize_step, lemma_pending_size_frame, lemma_rebuilt, lemma_redundant, lemma_splice,
    links_size, pending_size, rebuilding, slot_ok, splice_arena, splice_progress,
};
use crate::text::{char_to_string, decimal, decimal_string};
use crate::tree::{
    Branch, Tree, conserved, distinct, holds_rank, leaf, lemma_compress_conserved,
    lemma_compress_distinct, lemma_compress_shrinks, lemma_insert_conserved, lemma_insert_distinct,
    node_count, single_chars,
    lemma_sample_step, lemma_sample_stop, sample_at, tree_compress, tree_insert, tree_sample,
    weight_before,
};

verus! {

/// What can go wrong in a trie.
#[derive(Clone, Copy, Debug, PartialEq, Eq, Structural)]
pub enum TrieErrKind {
    /// A position that the trie was asked to follow is not in its arena.
    MissingNode(usize),
    /// A word was asked of a trie that holds none.
    EmptyTrie,
}

/// A failure of a trie operation.
#[derive(Clone, Copy, Debug, PartialEq, Eq, Structural)]
pub struct TrieErr {
    /// Which failure it is.
    pub kind: TrieErrKind,
}

impl TrieErr {
    /// The failure to find a node at `index`.
    pub fn missing_node(index: usize) -> (e: Self)
        ensures
            e.kind == TrieErrKind::MissingNode(index),
    {
        TrieErr { kind: TrieErrKind::MissingNode(index) }
    }

    /// The failure to sample from a trie without words.
    pub fn empty_trie() -> (e: Self)
        ensures
            e.kind == TrieErrKind::EmptyTrie,
    {
        TrieErr { kind: TrieErrKind::EmptyTrie }
    }

    /// The message of the failure.
    pub open spec fn message(&self) -> Seq<char> {
        match self.kind {
            TrieErrKind::MissingNode(index) => "Could not get node at index "@ + decimal(
                index as nat,
            ),
            TrieErrKind::EmptyTrie => "Cannot sample from an empty trie"@,
        }
    }

    /// The failure as a line of text: its message behind the name of the type.
    pub fn to_text(&self) -> (s: String)
        ensures
            s@ == "TrieErr: "@ + self.message(),
    {
        let mut s = String::from_str("TrieErr: ");
        match self.kind {
            TrieErrKind::MissingNode(index) => {
                s.append("Could not get node at index ");
                let number = decimal_string(index as u64);
                s.append(number.as_str());
            },
            TrieErrKind::EmptyTrie => {
                s.append("Cannot sample from an empty trie");
            },
        }
        s
    }
}

/// An edge from a node to one of its children.
struct Edge {
    key: String,
    to: usize,
}

/// A node of the trie.
struct Node {
    children: Vec<Edge>,
    count: u64,
}

/// The links for the edges `edges`.
spec fn links_of(edges: Seq<Edge>) -> Seq<Link> {
    Seq::new(edges.len(), |k: int| Link { key: edges[k].key@, to: edges[k].to as int })
}

/// The slots for the nodes `nodes`.
spec fn arena_of(nodes: Seq<Node>) -> Seq<Slot> {
    Seq::new(
        nodes.len(),
        |i: int| Slot { count: nodes[i].count as nat, links: links_of(nodes[i].children@) },
    )
}

impl Node {
    fn new() -> (node: Self)
        ensures
            node.count == 0,
            node.children@.len() == 0,
    {
        Node { children: Vec::new(), count: 0 }
    }
}

impl Edge {
    /// A copy of the edge.
    fn duplicate(&self) -> (edge: Self)
        ensures
            edge.key@ == self.key@,
            edge.to == self.to,
    {
        Edge { key: self.key.clone(), to: self.to }
    }
}

impl Node {
    /// A copy of the node, links included.
    fn duplicate(&self) -> (node: Self)
        ensures
            node.count == self.count,
            links_of(node.children@) == links_of(self.children@),
    {
        let mut children: Vec<Edge> = Vec::new();
        let mut k: usize = 0;
        while k < self.children.len()
            invariant
                0 <= k <= self.children@.len(),
                children@.len() == k,
                forall|j: int|
                    0 <= j < k ==> (#[trigger] children@[j]).key@ == self.children@[j].key@
                        && children@[j].to == self.children@[j].to,
            decreases self.children@.len() - k,
        {
            children.push(self.children[k].duplicate());
            k += 1;
        }
        proof {
            assert(links_of(children@) =~= links_of(self.children@));
        }
        Node { children, count: self.count }
    }
}

/// The lines of a listing that the entries `entries` stand for.
pub open spec fn visits_of(entries: Seq<(String, usize, usize)>) -> Seq<Visit> {
    Seq::new(
        entries.len(),
        |i: int|
            Visit { prefix: entries[i].0@, index: entries[i].1 as int, depth: entries[i].2 as nat },
    )
}

/// The white space in front of a line at depth `depth`: four spaces for each
/// level.
pub open spec fn indent(depth: nat) -> Seq<char>
    decreases depth,
{
    if depth == 0 {
        Seq::empty()
    } else {
        indent((depth - 1) as nat) + "    "@
    }
}

/// The line of a listing for one node: indented by its depth, what the path
/// to it spells, or `root` for the root, then its count and its position.
pub open spec fn line_text(a: Seq<Slot>, visit: Visit) -> Seq<char> {
    indent(visit.depth) + (if visit.index == 0 {
        "root"@
    } else {
        visit.prefix
    }) + " (count="@ + decimal(a[visit.index].count) + ", index="@ + decimal(visit.index as nat)
        + ")\n"@
}

/// The lines of a listing for the nodes `visits`, in order.
pub open spec fn lines_text(a: Seq<Slot>, visits: Seq<Visit>) -> Seq<char>
    decreases visits.len(),
{
    if visits.len() == 0 {
        Seq::empty()
    } else {
        lines_text(a, visits.drop_last()) + line_text(a, visits.last())
    }
}

/// The listing of an arena: a line for each node of the tree, in pre-order,
/// and a last line with the number of slots.
pub open spec fn listing_text(a: Seq<Slot>) -> Seq<char> {
    lines_text(a, preorder(a, 0, Seq::empty(), 0)) + "Num. nodes = "@ + decimal(a.len()) + "\n"@
}

/// A prefix tree over the words of a corpus in which every node counts the
/// word occurrences that pass through it.
pub struct Trie {
    nodes: Vec<Node>,
}

impl View for Trie {
    type V = Tree;

    /// The tree that the trie stands for.
    closed spec fn view(&self) -> Tree {
        subtree(self.arena(), 0)
    }
}

impl Trie {
    /// The nodes of the trie as an arena.
    pub closed spec fn arena(&self) -> Seq<Slot> {
        arena_of(self.nodes@)
    }

    /// The trie is a tree rooted at position 0, its counts are conserved,
    /// and the edges of every node differ in the first character of their
    /// keys.
    pub closed spec fn wf(&self) -> bool {
        &&& arena_wf(self.arena())
        &&& conserved(self@)
        &&& distinct(self@)
    }

    /// In a well-formed trie the count of every node is the sum of the counts
    /// of its children and of the words that end at it, no node has two edges
    /// whose keys begin alike, and the arena holds the nodes of the tree and
    /// nothing else.
    pub proof fn lemma_wf(&self)
        requires
            self.wf(),
        ensures
            conserved(self@),
            distinct(self@),
            arena_wf(self.arena()),
            self.arena().len() == node_count(self@),
    {
        lemma_arena_size(self.arena());
    }

    /// A trie that holds no word.
    pub fn new() -> (trie: Self)
        ensures
            trie.wf(),
            trie@ == leaf(),
            trie.arena() == seq![vacant()],
    {
        let mut nodes: Vec<Node> = Vec::new();
        nodes.push(Node::new());
        let trie = Trie { nodes };
        proof {
            assert(trie.arena()[0].links =~= Seq::empty());
            assert(trie.arena() =~= seq![vacant()]);
            assert(trie@.branches =~= Seq::empty());
        }
        trie
    }

    /// The node at `index`, if the arena has one there.
    fn get_node(&self, index: usize) -> (r: Result<&Node, TrieErr>)
        ensures
            match r {
                Ok(node) => index < self.nodes@.len() && *node == self.nodes@[index as int],
                Err(e) => index >= self.nodes@.len() && e == TrieErr {
                    kind: TrieErrKind::MissingNode(index),
                },
            },
    {
        if index < self.nodes.len() {
            Ok(&self.nodes[index])
        } else {
            Err(TrieErr::missing_node(index))
        }
    }

    /// The node at `index`, to be changed, if the arena has one there.
    fn get_mut_node(&mut self, index: usize) -> (r: Result<&mut Node, TrieErr>)
        ensures
            match r {
                Ok(node) => {
                    &&& index < old(self).nodes@.len()
                    &&& *node == old(self).nodes@[index as int]
                    &&& final(self).nodes@ == old(self).nodes@.update(index as int, *final(node))
                },
                Err(e) => index >= old(self).nodes@.len() && *final(self) == *old(self) && e
                    == TrieErr { kind: TrieErrKind::MissingNode(index) },
            },
    {
        if index < self.nodes.len() {
            Ok(&mut self.nodes[index])
        } else {
            Err(TrieErr::missing_node(index))
        }
    }

    /// The position of the child of the node at `parent_index` under the key
    /// `prefix`. A child that is not there yet is made, at the end of the
    /// arena.
    fn add_node(&mut self, parent_index: usize, prefix: &str) -> (r: Result<usize, TrieErr>)
        ensures
            match r {
                Ok(index) => parent_index < old(self).nodes@.len() && final(self).arena()
                    == with_child(old(self).arena(), parent_index as int, prefix@) && index
                    == child_at(old(self).arena(), parent_index as int, prefix@),
                Err(e) => parent_index >= old(self).nodes@.len() && *final(self) == *old(self)
                    && e == TrieErr { kind: TrieErrKind::MissingNode(parent_index) },
            },
    {
        let index = self.nodes.len();
        let ghost before = self.arena();
        let key = String::from_str(prefix);
        let parent = self.get_node(parent_index)?;
        let ghost links = links_of(parent.children@);
        assert(links == before[parent_index as int].links);
        let mut k: usize = 0;
        while k < parent.children.len()
            invariant
                0 <= k <= parent.children@.len(),
                links == links_of(parent.children@),
                first_link(links, key@, k as int) == first_link(links, key@, 0),
                parent_index < self.nodes@.len(),
                before == self.arena(),
                links == before[parent_index as int].links,
                key@ == prefix@,
                *self == *old(self),
            decreases parent.children@.len() - k,
        {
            if parent.children[k].key == key {
                return Ok(parent.children[k].to);
            }
            k += 1;
        }
        let parent = self.get_mut_node(parent_index)?;
        parent.children.push(Edge { key, to: index });
        self.nodes.push(Node::new());
        proof {
            let slot = Slot {
                count: before[parent_index as int].count,
                links: links.push(Link { key: prefix@, to: index as int }),
            };
            assert(links_of(self.nodes@[parent_index as int].children@) =~= slot.links);
            assert(links_of(self.nodes@[index as int].children@) =~= Seq::<Link>::empty());
            assert(self.arena() =~= before.update(parent_index as int, slot).push(vacant()));
        }
        Ok(index)
    }

    /// Inserts one more occurrence of `word` into a trie that has not been
    /// compressed: every node on the path of the word, one character per
    /// edge, counts one more, and the path is extended where the trie did not
    /// have it.
    pub fn insert(&mut self, word: &str) -> (r: Result<&mut Self, TrieErr>)
        requires
            old(self).wf(),
            single_chars(old(self)@),
            old(self)@.count < u64::MAX,
        ensures
            match r {
                Ok(trie) => {
                    &&& trie.wf()
                    &&& single_chars(trie@)
                    &&& trie@ == tree_insert(old(self)@, word@)
                    &&& trie.arena() == arena_insert(old(self).arena(), 0, word@)
                    &&& *final(self) == *final(trie)
                },
                Err(_) => false,
            },
    {
        let mut node_index: usize = 0;
        let ghost start = self.arena();
        proof {
            lemma_subtree_unfold(start, 0);
            assert(word@.subrange(0, word@.len() as int) =~= word@);
        }
        for c in it: word.chars()
            invariant
                it.seq() == word@,
                arena_wf(self.arena()),
                0 <= node_index < self.nodes@.len(),
                conserved(subtree(self.arena(), node_index as int)),
                self.arena()[node_index as int].count <= start[0].count,
                start[0].count < u64::MAX,
                arena_insert(
                    self.arena(),
                    node_index as int,
                    word@.subrange(it.index() as int, word@.len() as int),
                ) == arena_insert(start, 0, word@),
        {
            let ghost a = self.arena();
            let ghost n = node_index as int;
            let ghost suffix = word@.subrange(it.index() as int, word@.len() as int);
            let node = self.get_mut_node(node_index)?;
            node.count += 1;
            proof {
                assert(self.arena() =~= a.update(n, bump(a[n])));
                assert(suffix[0] == c);
                assert(suffix.subrange(1, suffix.len() as int) =~= word@.subrange(
                    it.index() + 1,
                    word@.len() as int,
                ));
                lemma_bump_wf(a, n);
                lemma_with_child_wf(a.update(n, bump(a[n])), n, seq![c]);
                lemma_step_child(a, n, c);
            }
            let prefix = char_to_string(c);
            node_index = self.add_node(node_index, prefix.as_str())?;
            proof {
                assert(self.arena() == step_arena(a, n, c));
            }
        }
        let ghost a = self.arena();
        let node = self.get_mut_node(node_index)?;
        node.count += 1;
        proof {
            assert(self.arena() =~= a.update(node_index as int, bump(a[node_index as int])));
            assert(word@.subrange(word@.len() as int, word@.len() as int) =~= Seq::<char>::empty());
            lemma_arena_insert(start, 0, word@);
            lemma_insert_conserved(old(self)@, word@);
            lemma_insert_distinct(old(self)@, word@);
        }
        Ok(self)
    }

    /// The compressed form of the trie: every chain of nodes below the root
    /// that have one child and at which no word ends is merged into one edge.
    /// Counts, and the order of the children, stay as they are; the arena
    /// does not grow.
    pub fn compress(&self) -> (r: Result<Self, TrieErr>)
        requires
            self.wf(),
        ensures
            match r {
                Ok(trie) => {
                    &&& trie.wf()
                    &&& trie@ == tree_compress(self@)
                    &&& trie.arena().len() <= self.arena().len()
                },
                Err(_) => false,
            },
    {
        let ghost a = self.arena();
        let mut new_nodes: Vec<Node> = Vec::new();
        new_nodes.push(self.nodes[0].duplicate());
        let mut parents: Vec<usize> = Vec::new();
        parents.push(0);
        let mut places: Vec<usize> = Vec::new();
        places.push(0);
        let mut stack: Vec<usize> = Vec::new();
        stack.push(0);
        let ghost mut st = Progress {
            goal: seq![Branch { key: Seq::empty(), sub: tree_compress(subtree(a, 0)) }],
            origin: seq![0int],
            done: seq![false],
        };
        proof {
            assert(arena_of(new_nodes@)[0] == a[0]);
            assert(stack@[0] == 0);
        }
        while stack.len() > 0
            invariant
                a == self.arena(),
                arena_wf(a),
                rebuilding(a, arena_of(new_nodes@), parents@, places@, st, stack@),
            decreases pending_size(a, st.origin, stack@),
        {
            let ghost n = arena_of(new_nodes@);
            let ghost full = stack@;
            let index = stack.pop().unwrap();
            let ghost o = st.origin[index as int];
            proof {
                assert(full[full.len() - 1] == index);
                assert(slot_ok(a, n, parents@, places@, st, full, index as int));
                assert(stack@ =~= full.drop_last());
                lemma_redundant(a, o);
            }
            if index != 0 && new_nodes[index].children.len() == 1 {
                let cindex = new_nodes[index].children[0].to;
                assert(n[index as int].links[0].to == cindex);
                let child = &self.nodes[cindex];
                if new_nodes[index].count == child.count {
                    // This node is redundant: its only child takes its place.
                    let parent = parents[index];
                    let place = places[index];
                    proof {
                        assert(slot_ok(
                            a,
                            n,
                            parents@,
                            places@,
                            st,
                            full,
                            parent as int,
                        ));
                    }
                    let mut prefix = new_nodes[parent].children[place].key.clone();
                    prefix.append(new_nodes[index].children[0].key.as_str());
                    new_nodes[parent].children[place].key = prefix;
                    new_nodes.set(index, child.duplicate());
                    stack.push(index);
                    proof {
                        lemma_splice(a, n, parents@, places@, st, full);
                        st = splice_progress(n, st, index as int);
                        assert(stack@ =~= full);
                        let want = splice_arena(a, n, parents@, places@, index as int);
                        assert(arena_of(new_nodes@).len() == want.len());
                        assert forall|j: int| 0 <= j < want.len() implies arena_of(new_nodes@)[j]
                            == want[j] by {
                            if j == parent {
                                assert(arena_of(new_nodes@)[j].links =~= want[j].links);
                            }
                        }
                        assert(arena_of(new_nodes@) =~= want);
                    }
                    continue;
                }
            }
            // This node stays: its children get slots of their own.
            let ghost base = pending_size(a, st.origin, stack@);
            proof {
                lemma_finalize_begin(a, n, parents@, places@, st, full);
                st = Progress {
                    goal: st.goal,
                    origin: st.origin,
                    done: st.done.update(index as int, true),
                };
            }
            let count = new_nodes[index].children.len();
            let mut k: usize = 0;
            while k < count
                invariant
                    a == self.arena(),
                    arena_wf(a),
                    index < new_nodes@.len(),
                    count == new_nodes@[index as int].children@.len(),
                    0 <= k <= count,
                    st.origin[index as int] == o,
                    finalizing(
                        a,
                        arena_of(new_nodes@),
                        parents@,
                        places@,
                        st,
                        stack@,
                        index as int,
                        k as int,
                    ),
                    pending_size(a, st.origin, stack@) == base + links_size(a, o, k as int),
                decreases count - k,
            {
                let ghost m = arena_of(new_nodes@);
                let ghost stack_before = stack@;
                let ghost parents_before = parents@;
                let ghost places_before = places@;
                let ghost st_before = st;
                proof {
                    assert(m[index as int].links[k as int] == a[o].links[k as int]);
                    let link = a[o].links[k as int];
                    assert(o < link.to < a.len());
                }
                let cindex = new_nodes[index].children[k].to;
                let new_index = new_nodes.len();
                new_nodes[index].children[k].to = new_index;
                new_nodes.push(self.nodes[cindex].duplicate());
                stack.push(new_index);
                parents.push(index);
                places.push(k);
                proof {
                    assert(new_nodes.len() == m.len() + 1);
                    lemma_finalize_step(
                        a,
                        m,
                        parents_before,
                        places_before,
                        st_before,
                        stack_before,
                        index as int,
                        k as int,
                    );
                    st = extend_progress(m, st_before, index as int, k as int);
                    let want = extend_arena(a, m, index as int, k as int);
                    assert(arena_of(new_nodes@).len() == want.len());
                    assert forall|j: int| 0 <= j < want.len() implies arena_of(new_nodes@)[j]
                        == want[j] by {
                        if j == index {
                            assert(arena_of(new_nodes@)[j].links =~= want[j].links);
                        }
                    }
                    assert(arena_of(new_nodes@) =~= want);
                    assert(stack@.drop_last() =~= stack_before);
                    assert forall|s: int| 0 <= s < stack_before.len() implies st.origin[
                    #[trigger] stack_before[s] as int]
                        == st_before.origin[stack_before[s] as int] by {}
                    lemma_pending_size_frame(a, st.origin, st_before.origin, stack_before);
                }
                k += 1;
            }
            proof {
                lemma_finalize_end(
                    a,
                    arena_of(new_nodes@),
                    parents@,
                    places@,
                    st,
                    stack@,
                    index as int,
                );
                assert(full.drop_last() =~= full.subrange(0, full.len() - 1));
            }
        }
        let trie = Trie { nodes: new_nodes };
        proof {
            lemma_rebuilt(a, trie.arena(), parents@, places@, st, stack@);
            lemma_compress_conserved(self@);
            lemma_compress_distinct(self@);
            lemma_compress_shrinks(self@);
            lemma_arena_size(a);
            lemma_arena_size(trie.arena());
        }
        Ok(trie)
    }

    /// For each node, the key of the edge that leads to it and the position
    /// of its parent. For the root, which has no parent, these are the empty
    /// key and position 0.
    pub fn get_node_info(&self) -> (r: (Vec<String>, Vec<usize>))
        requires
            self.wf(),
        ensures
            r.0@.len() == self.arena().len(),
            r.1@.len() == self.arena().len(),
            forall|i: int, k: int|
                0 <= i < self.arena().len() && 0 <= k < self.arena()[i].links.len() ==> r.1@[(
                #[trigger] self.arena()[i].links[k]).to] == i && r.0@[self.arena()[i].links[k].to]@
                    == self.arena()[i].links[k].key,
            forall|j: int|
                0 <= j < self.arena().len() && !has_parent(self.arena(), j) ==> (#[trigger] r.1@[j])
                    == 0 && r.0@[j]@ == Seq::<char>::empty(),
    {
        let ghost a = self.arena();
        let mut prefixes: Vec<String> = Vec::new();
        let mut parents: Vec<usize> = Vec::new();
        let mut j: usize = 0;
        while j < self.nodes.len()
            invariant
                0 <= j <= self.nodes@.len(),
                prefixes@.len() == j,
                parents@.len() == j,
                forall|x: int| 0 <= x < j ==> (#[trigger] parents@[x]) == 0 && prefixes@[x]@
                    == Seq::<char>::empty(),
            decreases self.nodes@.len() - j,
        {
            prefixes.push(String::new());
            parents.push(0);
            j += 1;
        }
        let mut i: usize = 0;
        proof {
            assert(prefixes@.len() == a.len());
        }
        while i < self.nodes.len()
            invariant
                a == self.arena(),
                arena_wf(a),
                0 <= i <= self.nodes@.len(),
                prefixes@.len() == a.len(),
                parents@.len() == a.len(),
                forall|x: int, k: int|
                    0 <= x < i && 0 <= k < a[x].links.len() ==> parents@[(
                    #[trigger] a[x].links[k]).to] == x && prefixes@[a[x].links[k].to]@
                        == a[x].links[k].key,
                forall|y: int|
                    0 <= y < a.len() && !(#[trigger] linked_before(a, y, i as int, 0))
                        ==> parents@[y] == 0 && prefixes@[y]@ == Seq::<char>::empty(),
            decreases self.nodes@.len() - i,
        {
            let node = &self.nodes[i];
            let mut k: usize = 0;
            while k < node.children.len()
                invariant
                    a == self.arena(),
                    arena_wf(a),
                    0 <= i < self.nodes@.len(),
                    *node == self.nodes@[i as int],
                    0 <= k <= node.children@.len(),
                    prefixes@.len() == a.len(),
                    parents@.len() == a.len(),
                    forall|x: int, q: int|
                        0 <= x <= i && 0 <= q < a[x].links.len() && (x < i || q < k) ==> parents@[(
                        #[trigger] a[x].links[q]).to] == x && prefixes@[a[x].links[q].to]@
                            == a[x].links[q].key,
                    forall|y: int|
                        0 <= y < a.len() && !(#[trigger] linked_before(a, y, i as int, k as int))
                            ==> parents@[y] == 0 && prefixes@[y]@ == Seq::<char>::empty(),
                decreases node.children@.len() - k,
            {
                let ghost link = a[i as int].links[k as int];
                let ghost old_parents = parents@;
                let ghost old_prefixes = prefixes@;
                proof {
                    assert(i < link.to < a.len());
                    assert(link.to == node.children@[k as int].to);
                }
                let to = node.children[k].to;
                parents.set(to, i);
                prefixes.set(to, node.children[k].key.clone());
                proof {
                    assert forall|x: int, q: int|
                        0 <= x <= i && 0 <= q < a[x].links.len() && (x < i || q < k + 1)
                        implies parents@[(#[trigger] a[x].links[q]).to] == x
                        && prefixes@[a[x].links[q].to]@ == a[x].links[q].key by {
                        let other = a[x].links[q];
                        assert(x < other.to < a.len());
                        if other.to == link.to {
                            assert(x == i && q == k);
                        }
                    }
                    assert forall|y: int|
                        0 <= y < a.len() && !(#[trigger] linked_before(
                            a,
                            y,
                            i as int,
                            k as int + 1,
                        )) implies parents@[y] == 0 && prefixes@[y]@ == Seq::<char>::empty() by {
                        if linked_before(a, y, i as int, k as int) {
                            let (x, q) = choose|x: int, q: int|
                                0 <= x < a.len() && 0 <= q < a[x].links.len() && (x < i || (x == i
                                    && q < k)) && (#[trigger] a[x].links[q]).to == y;
                            let witness = a[x].links[q];
                            assert(linked_before(a, y, i as int, k as int + 1));
                        }
                        if link.to == y {
                            assert(linked_before(a, y, i as int, k as int + 1));
                        }
                    }
                }
                k += 1;
            }
            proof {
                assert forall|y: int|
                    0 <= y < a.len() && !(#[trigger] linked_before(a, y, i as int + 1, 0))
                    implies parents@[y] == 0 && prefixes@[y]@ == Seq::<char>::empty() by {
                    if linked_before(a, y, i as int, k as int) {
                        let (x, q) = choose|x: int, q: int|
                            0 <= x < a.len() && 0 <= q < a[x].links.len() && (x < i || (x == i && q
                                < k)) && (#[trigger] a[x].links[q]).to == y;
                        let witness = a[x].links[q];
                        assert(linked_before(a, y, i as int + 1, 0));
                    }
                }
            }
            i += 1;
        }
        proof {
            assert forall|j: int| 0 <= j < a.len() && !has_parent(a, j) implies (
            #[trigger] parents@[j]) == 0 && prefixes@[j]@ == Seq::<char>::empty() by {
                if linked_before(a, j, i as int, 0) {
                    let (x, q) = choose|x: int, q: int|
                        0 <= x < a.len() && 0 <= q < a[x].links.len() && (x < i || (x == i && q
                            < 0)) && (#[trigger] a[x].links[q]).to == j;
                    let witness = a[x].links[q];
                    assert(has_parent(a, j));
                }
            }
        }
        (prefixes, parents)
    }

    /// The nodes of the trie in pre-order, children in the order of their
    /// edges: for each node what the path to it spells, its position, and its
    /// depth.
    pub fn preorder_iter(&self) -> (r: Vec<(String, usize, usize)>)
        requires
            self.wf(),
        ensures
            visits_of(r@) == preorder(self.arena(), 0, Seq::empty(), 0),
    {
        let ghost a = self.arena();
        let ghost total = preorder(a, 0, Seq::empty(), 0);
        let mut out: Vec<(String, usize, usize)> = Vec::new();
        let mut stack: Vec<(String, usize, usize)> = Vec::new();
        stack.push((String::new(), 0, 0));
        proof {
            let sv = visits_of(stack@);
            assert(sv.drop_last() =~= Seq::<Visit>::empty());
            assert(sv.last() == Visit { prefix: Seq::empty(), index: 0, depth: 0 });
            assert(preorder_stack(a, sv.drop_last()) =~= Seq::<Visit>::empty());
            assert(visits_of(out@) + preorder_stack(a, sv) =~= total);
        }
        while stack.len() > 0
            invariant
                a == self.arena(),
                arena_wf(a),
                visits_of(out@) + preorder_stack(a, visits_of(stack@)) == total,
                forall|s: int|
                    0 <= s < stack@.len() ==> (#[trigger] stack@[s]).1 < a.len() && stack@[s].2
                        <= stack@[s].1,
            decreases total.len() - out@.len(),
        {
            let ghost full = visits_of(stack@);
            let ghost listed = visits_of(out@);
            let ghost top = stack@[stack@.len() - 1];
            let (prefix, index, depth) = stack.pop().unwrap();
            let ghost rest = visits_of(stack@);
            let ghost waiting = preorder_stack(a, rest);
            let ghost visit = Visit { prefix: prefix@, index: index as int, depth: depth as nat };
            proof {
                assert(full.drop_last() =~= rest);
                assert(full.last() == visit);
                assert(preorder_stack(a, full) == preorder(a, index as int, prefix@, depth as nat)
                    + waiting);
            }
            let node = &self.nodes[index];
            let mut k: usize = node.children.len();
            proof {
                assert(Seq::<Visit>::empty() + waiting =~= waiting);
            }
            while k > 0
                invariant
                    a == self.arena(),
                    arena_wf(a),
                    index < a.len(),
                    depth <= index,
                    *node == self.nodes@[index as int],
                    0 <= k <= node.children@.len(),
                    preorder_stack(a, visits_of(stack@)) == preorder_from(
                        a,
                        index as int,
                        prefix@,
                        depth as nat,
                        k as int,
                    ) + waiting,
                    forall|s: int|
                        0 <= s < stack@.len() ==> (#[trigger] stack@[s]).1 < a.len() && stack@[s].2
                            <= stack@[s].1,
                decreases k,
            {
                k -= 1;
                let ghost below = visits_of(stack@);
                let edge = &node.children[k];
                let ghost link = a[index as int].links[k as int];
                proof {
                    assert(index < link.to < a.len());
                    assert(link.to == edge.to && link.key == edge.key@);
                }
                let mut child_prefix = prefix.clone();
                child_prefix.append(edge.key.as_str());
                stack.push((child_prefix, edge.to, depth + 1));
                proof {
                    let sv = visits_of(stack@);
                    assert(sv.drop_last() =~= below);
                    assert(sv.last() == Visit {
                        prefix: prefix@ + link.key,
                        index: link.to,
                        depth: (depth + 1) as nat,
                    });
                    let child = preorder(a, link.to, prefix@ + link.key, (depth + 1) as nat);
                    let later = preorder_from(
                        a,
                        index as int,
                        prefix@,
                        depth as nat,
                        k as int + 1,
                    );
                    assert(child + (later + waiting) =~= (child + later) + waiting);
                }
            }
            out.push((prefix, index, depth));
            proof {
                assert(visits_of(out@) =~= listed + seq![visit]);
                let below = preorder_from(a, index as int, prefix@, depth as nat, 0);
                assert((listed + seq![visit]) + (below + waiting) =~= listed + ((seq![visit]
                    + below) + waiting));
                assert(total.len() == visits_of(out@).len() + preorder_stack(
                    a,
                    visits_of(stack@),
                ).len());
            }
        }
        proof {
            assert(visits_of(out@) + Seq::<Visit>::empty() =~= visits_of(out@));
        }
        out
    }

    /// The trie as a listing for inspection: a line for each node, in
    /// pre-order and indented by depth, and a last line with the number of
    /// nodes in the arena.
    pub fn to_text(&self) -> (text: String)
        requires
            self.wf(),
        ensures
            text@ == listing_text(self.arena()),
    {
        let ghost a = self.arena();
        let entries = self.preorder_iter();
        let ghost visits = visits_of(entries@);
        let mut text = String::new();
        let mut i: usize = 0;
        proof {
            assert(visits.take(0) =~= Seq::<Visit>::empty());
            lemma_preorder_in_range(a, 0, Seq::empty(), 0);
        }
        while i < entries.len()
            invariant
                a == self.arena(),
                arena_wf(a),
                visits == visits_of(entries@),
                0 <= i <= entries@.len(),
                in_range(a, visits),
                text@ == lines_text(a, visits.take(i as int)),
            decreases entries@.len() - i,
        {
            let ghost before = text@;
            let ghost visit = visits[i as int];
            let depth = entries[i].2;
            let index = entries[i].1;
            let mut level: usize = 0;
            proof {
                assert(before + indent(0) =~= before);
            }
            while level < depth
                invariant
                    0 <= level <= depth,
                    text@ == before + indent(level as nat),
                decreases depth - level,
            {
                text.append("    ");
                proof {
                    assert((before + indent(level as nat)) + "    "@ =~= before + (indent(
                        level as nat,
                    ) + "    "@));
                }
                level += 1;
            }
            if index == 0 {
                text.append("root");
            } else {
                text.append(entries[i].0.as_str());
            }
            text.append(" (count=");
            let count = decimal_string(self.nodes[index].count);
            text.append(count.as_str());
            text.append(", index=");
            let position = decimal_string(index as u64);
            text.append(position.as_str());
            text.append(")\n");
            proof {
                let upto = visits.take(i as int + 1);
                assert(upto.drop_last() =~= visits.take(i as int));
                assert(upto.last() == visit);
                assert(text@ =~= before + line_text(a, visit));
            }
            i += 1;
        }
        proof {
            assert(visits.take(visits.len() as int) =~= visits);
        }
        text.append("Num. nodes = ");
        let number = decimal_string(self.nodes.len() as u64);
        text.append(number.as_str());
        text.append("\n");
        text
    }

    /// The number of word occurrences in the trie.
    pub fn num_words(&self) -> (n: u64)
        requires
            self.wf(),
        ensures
            n == self@.count,
    {
        match self.get_node(0) {
            Ok(node) => node.count,
            Err(_) => 0,
        }
    }

    /// The word at rank `id`, taken modulo the number of word occurrences.
    /// Fails if and only if the trie holds no word.
    pub fn sample(&self, id: u64) -> (r: Result<String, TrieErr>)
        requires
            self.wf(),
        ensures
            match r {
                Ok(word) => self@.count > 0 && word@ == sample_at(self@, id as nat),
                Err(e) => self@.count == 0 && e == TrieErr { kind: TrieErrKind::EmptyTrie },
            },
    {
        let mut node = self.get_node(0)?;
        if node.count == 0 {
            return Err(TrieErr::empty_trie());
        }
        let mut word = String::new();
        let mut id = id % node.count;
        let ghost rank = id as nat;
        let ghost mut at: int = 0;
        proof {
            assert(word@ + tree_sample(self@, rank) =~= tree_sample(self@, rank));
        }
        loop
            invariant_except_break
                tree_sample(self@, rank) == word@ + tree_sample(
                    subtree(self.arena(), at),
                    id as nat,
                ),
            invariant
                arena_wf(self.arena()),
                0 <= at < self.nodes@.len(),
                *node == self.nodes@[at],
            ensures
                word@ == tree_sample(self@, rank),
            decreases self.nodes@.len() - at,
        {
            let ghost here = subtree(self.arena(), at);
            let ghost start = id as nat;
            proof {
                lemma_subtree_unfold(self.arena(), at);
            }
            let mut k: usize = 0;
            let mut found = false;
            while k < node.children.len() && !found
                invariant
                    arena_wf(self.arena()),
                    0 <= at < self.nodes@.len(),
                    *node == self.nodes@[at],
                    here == subtree(self.arena(), at),
                    here.branches.len() == node.children@.len(),
                    forall|j: int|
                        0 <= j < node.children@.len() ==> #[trigger] here.branches[j] == (Branch {
                            key: node.children@[j].key@,
                            sub: subtree(self.arena(), node.children@[j].to as int),
                        }),
                    0 <= k <= node.children@.len(),
                    weight_before(here.branches, k as int) + id == start,
                    found ==> k < node.children@.len() && holds_rank(
                        here.branches,
                        k as int,
                        start,
                    ),
                decreases node.children@.len() - k + (if found { 0int } else { 1int }),
            {
                proof {
                    let link = self.arena()[at].links[k as int];
                    assert(link.to == node.children@[k as int].to);
                    lemma_subtree_unfold(self.arena(), link.to);
                    assert(here.branches[k as int].sub.count == self.nodes@[link.to].count);
                }
                let child = self.get_node(node.children[k].to)?;
                if id < child.count {
                    found = true;
                } else {
                    id -= child.count;
                    k += 1;
                }
            }
            if !found {
                proof {
                    lemma_sample_stop(here, start);
                    assert(word@ + Seq::<char>::empty() =~= word@);
                }
                break;
            }
            let edge = &node.children[k];
            proof {
                let link = self.arena()[at].links[k as int];
                assert(link.to == edge.to);
                lemma_sample_step(here, k as int, start);
                assert(here.branches[k as int].sub == subtree(self.arena(), edge.to as int));
                let rest = tree_sample(subtree(self.arena(), edge.to as int), id as nat);
                assert(word@ + (edge.key@ + rest) =~= (word@ + edge.key@) + rest);
            }
            word.append(edge.key.as_str());
            node = self.get_node(edge.to)?;
            proof {
                at = edge.to as int;
            }
        }
        Ok(word)
    }
}

} // verus!
