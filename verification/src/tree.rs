use vstd::prelude::*;

use crate::mcts_node::MctsNode;

verus! {

struct TreeEntry<T, M, A> {
    node: MctsNode<T, M, A>,
    parent: usize,
    children: Vec<usize>,
}

/// Whether node `j` lies on the path from `leaf` up to the root (both ends
/// included).
pub open spec fn on_path<T, M, A>(t: MctsTree<T, M, A>, leaf: int, j: int) -> bool
    decreases
        (if leaf >= 0 {
            leaf
        } else {
            0
        }),
{
    j == leaf || (0 < leaf && 0 <= t.spec_parent(leaf) < leaf && on_path(t, t.spec_parent(leaf), j))
}

/// The exact effect of backpropagating `reward` from `leaf`: every node on
/// the path from `leaf` to the root gains one visit and `reward`, every other
/// node is untouched, and the structure of the tree does not change at all.
pub open spec fn backprop_effect<T, M, A>(
    pre: MctsTree<T, M, A>,
    post: MctsTree<T, M, A>,
    leaf: int,
    reward: u32,
) -> bool {
    &&& 0 <= leaf < pre.spec_len()
    &&& post.spec_len() == pre.spec_len()
    &&& forall|j: int|
        0 <= j < post.spec_len() ==> #[trigger] post.spec_parent(j) == pre.spec_parent(j)
    &&& forall|j: int|
        0 <= j < post.spec_len() ==> #[trigger] post.spec_children(j) == pre.spec_children(j)
    &&& forall|j: int|
        0 <= j < post.spec_len() && on_path(pre, leaf, j) ==> (#[trigger] post.spec_node(
            j,
        )).n_visits == pre.spec_node(j).n_visits + 1 && post.spec_node(j).sum_rewards
            == pre.spec_node(j).sum_rewards + reward
    &&& forall|j: int|
        0 <= j < post.spec_len() && !on_path(pre, leaf, j) ==> #[trigger] post.spec_node(j)
            == pre.spec_node(j)
    &&& forall|j: int|
        0 <= j < post.spec_len() ==> {
            let a = pre.spec_node(j);
            let b = #[trigger] post.spec_node(j);
            b.unvisited_moves == a.unvisited_moves && b.hash == a.hash && b.state == a.state
                && b.additional_info == a.additional_info
        }
}

/// Visit counts never grow down an edge, and each node's accumulated rewards
/// stay within `visits` times the largest single reward.
pub open spec fn stats_ok<T, M, A>(t: MctsTree<T, M, A>) -> bool {
    &&& forall|j: int|
        1 <= j < t.spec_len() ==> (#[trigger] t.spec_node(j)).n_visits <= t.spec_node(
            t.spec_parent(j),
        ).n_visits
    &&& forall|i: int|
        0 <= i < t.spec_len() ==> (#[trigger] t.spec_node(i)).sum_rewards <= t.spec_node(
            i,
        ).n_visits * 4294967295
}

/// The root lies on every path.
pub proof fn lemma_on_path_root<T, M, A>(t: MctsTree<T, M, A>, leaf: int)
    requires
        t.wf(),
        0 <= leaf < t.spec_len(),
    ensures
        on_path(t, leaf, 0),
    decreases leaf,
{
    if leaf > 0 {
        lemma_on_path_root(t, t.spec_parent(leaf));
    }
}

/// Path members lie between the root and the leaf.
pub proof fn lemma_on_path_bounds<T, M, A>(t: MctsTree<T, M, A>, leaf: int, j: int)
    requires
        t.wf(),
        0 <= leaf < t.spec_len(),
        on_path(t, leaf, j),
    ensures
        0 <= j <= leaf,
    decreases leaf,
{
    if j != leaf {
        lemma_on_path_bounds(t, t.spec_parent(leaf), j);
    }
}

/// The parent of a non-root path member is a path member too.
pub proof fn lemma_on_path_parent<T, M, A>(t: MctsTree<T, M, A>, leaf: int, j: int)
    requires
        t.wf(),
        0 <= leaf < t.spec_len(),
        on_path(t, leaf, j),
        j != 0,
    ensures
        on_path(t, leaf, t.spec_parent(j)),
    decreases leaf,
{
    if j == leaf {
        assert(0 < leaf);
        assert(on_path(t, t.spec_parent(leaf), t.spec_parent(j)));
    } else {
        lemma_on_path_parent(t, t.spec_parent(leaf), j);
        assert(0 < leaf && 0 <= t.spec_parent(leaf) < leaf && on_path(
            t,
            t.spec_parent(leaf),
            t.spec_parent(j),
        ));
    }
}

/// With dominating visit counts, no node has more visits than the root.
pub proof fn lemma_visits_le_root<T, M, A>(t: MctsTree<T, M, A>, j: int)
    requires
        t.wf(),
        stats_ok(t),
        0 <= j < t.spec_len(),
    ensures
        t.spec_node(j).n_visits <= t.spec_node(0).n_visits,
    decreases j,
{
    if j > 0 {
        lemma_visits_le_root(t, t.spec_parent(j));
    }
}

/// An arena of search nodes connected by parent and children indices.
///
/// The root sits at index 0; nodes are only ever appended, so an index stays
/// valid for the tree's whole lifetime. Every well-formed tree keeps each
/// node's parent strictly below it, which rules out cycles.
pub struct MctsTree<T, M, A> {
    entries: Vec<TreeEntry<T, M, A>>,
}

impl<T, M, A> MctsTree<T, M, A> {
    /// Number of nodes in the arena.
    pub closed spec fn spec_len(&self) -> nat {
        self.entries@.len()
    }

    /// The node value stored at index `i`.
    pub closed spec fn spec_node(&self, i: int) -> MctsNode<T, M, A> {
        self.entries@[i].node
    }

    /// The parent index of node `i` (the root is its own parent).
    pub closed spec fn spec_parent(&self, i: int) -> int {
        self.entries@[i].parent as int
    }

    /// The children indices of node `i`, in insertion order.
    pub closed spec fn spec_children(&self, i: int) -> Seq<usize> {
        self.entries@[i].children@
    }

    /// Structural well-formedness of the arena: the root is node 0, parents
    /// lie strictly below their children, and the parent and children links
    /// agree and hold no duplicates.
    pub open spec fn wf(&self) -> bool {
        &&& self.spec_len() >= 1
        &&& self.spec_parent(0) == 0
        &&& forall|i: int|
            1 <= i < self.spec_len() ==> 0 <= #[trigger] self.spec_parent(i) < i
        &&& forall|i: int, k: int|
            0 <= i < self.spec_len() && 0 <= k < self.spec_children(i).len() ==> i < (
            #[trigger] self.spec_children(i)[k]) as int && (self.spec_children(i)[k] as int)
                < self.spec_len()
        &&& forall|i: int, k: int|
            0 <= i < self.spec_len() && 0 <= k < self.spec_children(i).len()
                ==> self.spec_parent((#[trigger] self.spec_children(i)[k]) as int) == i
        &&& forall|j: int|
            1 <= j < self.spec_len() ==> #[trigger] self.spec_children(
                self.spec_parent(j),
            ).contains(j as usize)
        &&& forall|i: int, k1: int, k2: int|
            0 <= i < self.spec_len() && 0 <= k1 < k2 < self.spec_children(i).len() ==> (
            #[trigger] self.spec_children(i)[k1]) != (#[trigger] self.spec_children(i)[k2])
    }

    /// Well-formedness depends only on the parent and children links, not on
    /// the node values.
    proof fn lemma_wf_from_links(pre: Self, post: Self)
        requires
            pre.wf(),
            post.spec_len() == pre.spec_len(),
            forall|j: int|
                0 <= j < post.spec_len() ==> #[trigger] post.spec_parent(j) == pre.spec_parent(j),
            forall|j: int|
                0 <= j < post.spec_len() ==> #[trigger] post.spec_children(j) == pre.spec_children(
                    j,
                ),
        ensures
            post.wf(),
    {
        assert forall|i: int, k: int|
            0 <= i < post.spec_len() && 0 <= k < post.spec_children(i).len() implies i < (
        #[trigger] post.spec_children(i)[k]) as int && (post.spec_children(i)[k] as int)
            < post.spec_len() && post.spec_parent(post.spec_children(i)[k] as int) == i by {
            assert(post.spec_children(i) == pre.spec_children(i));
            assert(i < (pre.spec_children(i)[k]) as int);
            assert(pre.spec_parent(pre.spec_children(i)[k] as int) == i);
        }
        assert forall|j: int|
            1 <= j < post.spec_len() implies #[trigger] post.spec_children(
            post.spec_parent(j),
        ).contains(j as usize) by {
            assert(pre.spec_children(pre.spec_parent(j)).contains(j as usize));
            assert(0 <= pre.spec_parent(j) < post.spec_len());
        }
        assert forall|i: int, k1: int, k2: int|
            0 <= i < post.spec_len() && 0 <= k1 < k2 < post.spec_children(i).len() implies (
        #[trigger] post.spec_children(i)[k1]) != (#[trigger] post.spec_children(i)[k2]) by {
            assert(post.spec_children(i) == pre.spec_children(i));
            assert(pre.spec_children(i)[k1] != pre.spec_children(i)[k2]);
        }
    }

    /// A fresh tree holding only `root`, with room reserved for `capacity` nodes.
    pub fn with_capacity(root: MctsNode<T, M, A>, capacity: usize) -> (t: Self)
        ensures
            t.wf(),
            t.spec_len() == 1,
            t.spec_node(0) == root,
            t.spec_children(0) =~= Seq::<usize>::empty(),
    {
        let mut entries: Vec<TreeEntry<T, M, A>> = Vec::with_capacity(capacity);
        entries.push(TreeEntry { node: root, parent: 0, children: Vec::new() });
        let t = MctsTree { entries };
        proof {
            assert(t.spec_children(0) =~= Seq::<usize>::empty());
        }
        t
    }

    /// A fresh tree holding only `root`.
    pub fn new(root: MctsNode<T, M, A>) -> (t: Self)
        ensures
            t.wf(),
            t.spec_len() == 1,
            t.spec_node(0) == root,
            t.spec_children(0) =~= Seq::<usize>::empty(),
    {
        Self::with_capacity(root, 0)
    }

    /// Number of nodes.
    pub fn len(&self) -> (n: usize)
        ensures
            n == self.spec_len(),
    {
        self.entries.len()
    }

    /// A reference to the node value at index `i`.
    pub fn node(&self, i: usize) -> (r: &MctsNode<T, M, A>)
        requires
            i < self.spec_len(),
        ensures
            *r == self.spec_node(i as int),
    {
        &self.entries[i].node
    }

    /// The parent index of node `i`.
    pub fn parent_of(&self, i: usize) -> (p: usize)
        requires
            i < self.spec_len(),
        ensures
            p as int == self.spec_parent(i as int),
    {
        self.entries[i].parent
    }

    /// The children index list of node `i`.
    pub fn children_list(&self, i: usize) -> (r: &Vec<usize>)
        requires
            i < self.spec_len(),
        ensures
            r@ == self.spec_children(i as int),
    {
        &self.entries[i].children
    }

    /// Whether node `i` has at least one child.
    pub fn has_children(&self, i: usize) -> (r: bool)
        requires
            i < self.spec_len(),
        ensures
            r == (self.spec_children(i as int).len() > 0),
    {
        self.entries[i].children.len() > 0
    }

    /// Record one search iteration through node `i`: one more visit, and
    /// `reward` added to the accumulated rewards.
    pub fn bump_stats(&mut self, i: usize, reward: u32)
        requires
            i < old(self).spec_len(),
            old(self).spec_node(i as int).n_visits < 4294967295u32,
            old(self).spec_node(i as int).sum_rewards + reward <= 18446744073709551615u64,
        ensures
            final(self).spec_len() == old(self).spec_len(),
            forall|j: int| 0 <= j < final(self).spec_len() ==>
                #[trigger] final(self).spec_parent(j) == old(self).spec_parent(j),
            forall|j: int| 0 <= j < final(self).spec_len() ==>
                #[trigger] final(self).spec_children(j) == old(self).spec_children(j),
            forall|j: int| 0 <= j < final(self).spec_len() && j != i ==>
                #[trigger] final(self).spec_node(j) == old(self).spec_node(j),
            final(self).spec_node(i as int).n_visits == old(self).spec_node(i as int).n_visits + 1,
            final(self).spec_node(i as int).sum_rewards == old(self).spec_node(i as int).sum_rewards
                + reward,
            final(self).spec_node(i as int).unvisited_moves == old(self).spec_node(
                i as int,
            ).unvisited_moves,
            final(self).spec_node(i as int).hash == old(self).spec_node(i as int).hash,
            final(self).spec_node(i as int).state == old(self).spec_node(i as int).state,
            final(self).spec_node(i as int).additional_info == old(self).spec_node(
                i as int,
            ).additional_info,
            old(self).wf() ==> final(self).wf(),
    {
        let e = &mut self.entries[i];
        e.node.n_visits = e.node.n_visits + 1;
        e.node.sum_rewards = e.node.sum_rewards + reward as u64;
        proof {
            if old(self).wf() {
                Self::lemma_wf_from_links(*old(self), *self);
            }
        }
    }

    /// Remove and return the unexpanded move at position `idx` of node `i`.
    pub fn remove_unvisited(&mut self, i: usize, idx: usize) -> (m: M)
        requires
            i < old(self).spec_len(),
            idx < old(self).spec_node(i as int).unvisited_moves@.len(),
        ensures
            m == old(self).spec_node(i as int).unvisited_moves@[idx as int],
            final(self).spec_len() == old(self).spec_len(),
            forall|j: int| 0 <= j < final(self).spec_len() ==>
                #[trigger] final(self).spec_parent(j) == old(self).spec_parent(j),
            forall|j: int| 0 <= j < final(self).spec_len() ==>
                #[trigger] final(self).spec_children(j) == old(self).spec_children(j),
            forall|j: int| 0 <= j < final(self).spec_len() && j != i ==>
                #[trigger] final(self).spec_node(j) == old(self).spec_node(j),
            final(self).spec_node(i as int).unvisited_moves@ == old(self).spec_node(
                i as int,
            ).unvisited_moves@.remove(idx as int),
            final(self).spec_node(i as int).n_visits == old(self).spec_node(i as int).n_visits,
            final(self).spec_node(i as int).sum_rewards == old(self).spec_node(i as int).sum_rewards,
            final(self).spec_node(i as int).hash == old(self).spec_node(i as int).hash,
            final(self).spec_node(i as int).state == old(self).spec_node(i as int).state,
            final(self).spec_node(i as int).additional_info == old(self).spec_node(
                i as int,
            ).additional_info,
            old(self).wf() ==> final(self).wf(),
    {
        let e = &mut self.entries[i];
        let m = e.node.unvisited_moves.remove(idx);
        proof {
            if old(self).wf() {
                Self::lemma_wf_from_links(*old(self), *self);
            }
        }
        m
    }

    /// Append a fresh node as a new child of `p` and return its index.
    pub fn append_child(&mut self, p: usize, node: MctsNode<T, M, A>) -> (id: usize)
        requires
            old(self).wf(),
            p < old(self).spec_len(),
            old(self).spec_len() < 18446744073709551615u64,
        ensures
            final(self).wf(),
            id == old(self).spec_len(),
            final(self).spec_len() == old(self).spec_len() + 1,
            final(self).spec_node(id as int) == node,
            final(self).spec_parent(id as int) == p,
            final(self).spec_children(id as int) =~= Seq::<usize>::empty(),
            final(self).spec_children(p as int) == old(self).spec_children(p as int).push(id),
            forall|j: int| 0 <= j < old(self).spec_len() ==>
                #[trigger] final(self).spec_node(j) == old(self).spec_node(j),
            forall|j: int| 0 <= j < old(self).spec_len() ==>
                #[trigger] final(self).spec_parent(j) == old(self).spec_parent(j),
            forall|j: int| 0 <= j < old(self).spec_len() && j != p ==>
                #[trigger] final(self).spec_children(j) == old(self).spec_children(j),
    {
        let id = self.entries.len();
        self.entries.push(TreeEntry { node, parent: p, children: Vec::new() });
        let e = &mut self.entries[p];
        e.children.push(id);
        proof {
            let pre = *old(self);
            let post = *self;
            let l = pre.spec_len() as int;
            assert(post.spec_children(id as int) =~= Seq::<usize>::empty());
            assert(post.spec_children(p as int) =~= pre.spec_children(p as int).push(id));
            assert forall|j: int|
                0 <= j < l && j != p implies #[trigger] post.spec_children(j)
                == pre.spec_children(j) by {}
            assert forall|j: int|
                0 <= j < l implies #[trigger] post.spec_parent(j) == pre.spec_parent(j)
                && #[trigger] post.spec_node(j) == pre.spec_node(j) by {}
            assert forall|i: int|
                1 <= i < post.spec_len() implies 0 <= #[trigger] post.spec_parent(i) < i by {
                if i < l {
                    assert(post.spec_parent(i) == pre.spec_parent(i));
                }
            }
            assert forall|i: int, k: int|
                0 <= i < post.spec_len() && 0 <= k < post.spec_children(i).len() implies i < (
            #[trigger] post.spec_children(i)[k]) as int && (post.spec_children(i)[k] as int)
                < post.spec_len() && post.spec_parent(post.spec_children(i)[k] as int) == i by {
                if i == p {
                    if k < pre.spec_children(p as int).len() {
                        let c = pre.spec_children(p as int)[k];
                        assert(post.spec_children(i)[k] == c);
                        assert(p < c as int && (c as int) < l);
                        assert(pre.spec_parent(c as int) == p as int);
                        assert(post.spec_parent(c as int) == p as int);
                    } else {
                        assert(post.spec_children(i)[k] == id as usize);
                    }
                } else if i < l {
                    let c = pre.spec_children(i)[k];
                    assert(post.spec_children(i)[k] == c);
                    assert(i < c as int && (c as int) < l);
                    assert(pre.spec_parent(c as int) == i);
                    assert(post.spec_parent(c as int) == i);
                } else {
                    assert(post.spec_children(i).len() == 0);
                }
            }
            assert forall|j: int|
                1 <= j < post.spec_len() implies #[trigger] post.spec_children(
                post.spec_parent(j),
            ).contains(j as usize) by {
                if j < l {
                    assert(pre.spec_children(pre.spec_parent(j)).contains(j as usize));
                    let pj = pre.spec_parent(j);
                    let k = choose|k: int|
                        0 <= k < pre.spec_children(pj).len() && pre.spec_children(pj)[k] == (
                        j as usize);
                    assert(post.spec_children(pj)[k] == j as usize);
                    assert(post.spec_parent(j) == pj);
                } else {
                    assert(post.spec_children(p as int).last() == id as usize);
                    assert(post.spec_children(post.spec_parent(j)).contains(j as usize));
                }
            }
            assert forall|i: int, k1: int, k2: int|
                0 <= i < post.spec_len() && 0 <= k1 < k2 < post.spec_children(i).len() implies (
            #[trigger] post.spec_children(i)[k1]) != (#[trigger] post.spec_children(i)[k2]) by {
                if i == p {
                    if k2 < pre.spec_children(p as int).len() {
                        assert(pre.spec_children(i)[k1] != pre.spec_children(i)[k2]);
                    } else {
                        let c1 = pre.spec_children(p as int)[k1];
                        assert((c1 as int) < l);
                        assert(post.spec_children(i)[k2] == id as usize);
                    }
                } else if i < l {
                    assert(pre.spec_children(i)[k1] != pre.spec_children(i)[k2]);
                }
            }
            assert(post.wf());
        }
        id
    }
}

} // verus!
