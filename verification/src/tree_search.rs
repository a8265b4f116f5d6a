use vstd::prelude::*;

use core::marker::PhantomData;

use crate::aliases::{LazyMctsNode, LazyMctsTree, Nat, NodeId};
use crate::mcts_node::MctsNode;
use crate::traits::{
    child_moves, coherent, expansion_effect, lemma_coherent_same_structure, reconstructed,
    valid_history, BackPropPolicy, Evaluator, GameTrait, LazyTreePolicy, Playout,
};
use crate::tree::{backprop_effect, on_path, stats_ok, MctsTree};

verus! {

/// One full search iteration as seen on the tree: an expansion step over
/// `pre` chose node `leaf` (tree `mid`), some playout reached a finished
/// state from `leaf`'s reconstructed state by the legal replay `h`, and the
/// evaluator's reward for that finished state, taken from the root player's
/// perspective, was backpropagated from `leaf` (tree `post`).
pub open spec fn iteration_effect<State: GameTrait, EV: Evaluator<State, A>, A: Default>(
    root: State,
    pre: LazyMctsTree<State, A>,
    mid: LazyMctsTree<State, A>,
    post: LazyMctsTree<State, A>,
    leaf: int,
    reward: u32,
    h: Seq<State::Move>,
) -> bool {
    let s0 = reconstructed(root, mid.spec_node(leaf).state@);
    &&& expansion_effect::<State, A>(pre, mid, leaf)
    &&& backprop_effect(mid, post, leaf, reward)
    &&& valid_history(s0, h)
    &&& reconstructed(s0, h).is_final_spec()
    &&& reward == EV::leaf_spec(reconstructed(s0, h), root.turn_spec())
}

/// A Monte Carlo tree search that stores no game state in its nodes: each
/// node holds only the move history from the root, and states are
/// reconstructed on demand by replaying that history onto the root state
/// supplied at construction.
pub struct LazyMcts<State, TP, PP, BP, EV, AddInfo> where
    State: GameTrait,
    TP: LazyTreePolicy<State, EV, AddInfo>,
    PP: Playout<State>,
    BP: BackPropPolicy<Vec<<State as GameTrait>::Move>, <State as GameTrait>::Move, AddInfo>,
    EV: Evaluator<State, AddInfo>,
    AddInfo: Default,
{
    root_state: State,
    tree_policy: PhantomData<TP>,
    playout_policy: PhantomData<PP>,
    backprop_policy: PhantomData<BP>,
    evaluator: PhantomData<EV>,
    tree: LazyMctsTree<State, AddInfo>,
}

impl<State, TP, PP, BP, EV, A> LazyMcts<State, TP, PP, BP, EV, A> where
    State: GameTrait,
    TP: LazyTreePolicy<State, EV, A>,
    PP: Playout<State>,
    BP: BackPropPolicy<Vec<<State as GameTrait>::Move>, <State as GameTrait>::Move, A>,
    EV: Evaluator<State, A>,
    A: Default,
 {
    /// The root game state the search was built from.
    pub closed spec fn spec_root_state(&self) -> State {
        self.root_state
    }

    /// The search tree.
    pub closed spec fn spec_tree(&self) -> LazyMctsTree<State, A> {
        self.tree
    }

    /// Number of nodes in the search tree.
    pub open spec fn spec_len(&self) -> nat {
        self.spec_tree().spec_len()
    }

    /// Visit count of node `i`.
    pub open spec fn spec_visits(&self, i: int) -> Nat {
        self.spec_tree().spec_node(i).n_visits
    }

    /// Visit count of the root.
    pub open spec fn spec_root_visits(&self) -> Nat {
        self.spec_visits(0)
    }

    /// Accumulated rewards of node `i`.
    pub open spec fn spec_sum_rewards(&self, i: int) -> u64 {
        self.spec_tree().spec_node(i).sum_rewards
    }

    /// Move history of node `i`.
    pub open spec fn spec_history(&self, i: int) -> Seq<State::Move> {
        self.spec_tree().spec_node(i).state@
    }

    /// Number of unexpanded moves of node `i`.
    pub open spec fn spec_unvisited_count(&self, i: int) -> nat {
        self.spec_tree().spec_node(i).unvisited_moves@.len()
    }

    /// Number of children of node `i`.
    pub open spec fn spec_children_count(&self, i: int) -> nat {
        self.spec_tree().spec_children(i).len()
    }

    /// Parent index of node `i`.
    pub open spec fn spec_parent_of(&self, i: int) -> int {
        self.spec_tree().spec_parent(i)
    }

    /// The engine invariant: the arena is well formed, visit counts dominate
    /// down every edge, and the tree is coherent with the root state.
    pub open spec fn inv(&self) -> bool {
        &&& self.spec_tree().wf()
        &&& stats_ok(self.spec_tree())
        &&& coherent(self.spec_tree(), self.spec_root_state())
    }

    /// A fresh search over a copy of `root_state`, with room for `capacity`
    /// nodes.
    pub fn with_capacity(root_state: &State, capacity: usize) -> (s: Self)
        ensures
            s.inv(),
            s.spec_root_state() == *root_state,
            s.spec_len() == 1,
            s.spec_root_visits() == 0,
            s.spec_children_count(0) == 0,
            s.spec_unvisited_count(0) == root_state.legal_moves_spec().len(),
    {
        let root_node: LazyMctsNode<State, A> = MctsNode {
            sum_rewards: 0u64,
            n_visits: 0u32,
            unvisited_moves: root_state.legals_moves(),
            hash: root_state.hash(),
            state: Vec::new(),
            additional_info: A::default(),
        };
        let tree = MctsTree::with_capacity(root_node, capacity);
        let s = LazyMcts {
            root_state: root_state.clone_state(),
            tree_policy: PhantomData,
            playout_policy: PhantomData,
            backprop_policy: PhantomData,
            evaluator: PhantomData,
            tree,
        };
        proof {
            broadcast use vstd::seq_lib::group_to_multiset_ensures;
            broadcast use vstd::multiset::group_multiset_axioms;

            let t = s.spec_tree();
            let root = s.spec_root_state();
            assert(t.spec_node(0).state@ =~= Seq::<State::Move>::empty());
            assert(reconstructed(root, t.spec_node(0).state@) == root);
            assert(child_moves::<State, A>(t, 0) =~= Seq::<State::Move>::empty());
            assert(child_moves::<State, A>(t, 0).to_multiset().len() == 0);
            assert(t.spec_node(0).unvisited_moves@.to_multiset().add(
                child_moves::<State, A>(t, 0).to_multiset(),
            ) =~= t.spec_node(0).unvisited_moves@.to_multiset());
            assert(t.spec_node(0).unvisited_moves@ == root.legal_moves_spec());
            assert(coherent(t, root));
            assert(stats_ok(t));
        }
        s
    }

    /// A fresh search over a copy of `root_state`.
    pub fn new(root_state: &State) -> (s: Self)
        ensures
            s.inv(),
            s.spec_root_state() == *root_state,
            s.spec_len() == 1,
            s.spec_root_visits() == 0,
            s.spec_children_count(0) == 0,
            s.spec_unvisited_count(0) == root_state.legal_moves_spec().len(),
    {
        Self::with_capacity(root_state, 0)
    }

    /// The selection and expansion phase: descends the tree, expands at most
    /// one node, and returns the chosen node with its reconstructed state.
    /// Statistics are untouched, so a caller may run the playout on the
    /// returned state without holding the tree.
    pub fn select_expand(&mut self, evaluator_args: &EV::Args) -> (r: (NodeId, State))
        requires
            old(self).inv(),
            EV::args_ok(*evaluator_args),
            old(self).spec_len() < 18446744073709551615u64,
        ensures
            final(self).inv(),
            final(self).spec_root_state() == old(self).spec_root_state(),
            old(self).spec_len() <= final(self).spec_len() <= old(self).spec_len() + 1,
            (r.0 as int) < final(self).spec_len(),
            expansion_effect::<State, A>(
                old(self).spec_tree(),
                final(self).spec_tree(),
                r.0 as int,
            ),
            r.1 == reconstructed(
                old(self).spec_root_state(),
                final(self).spec_tree().spec_node(r.0 as int).state@,
            ),
            forall|j: int|
                0 <= j < old(self).spec_len() ==> #[trigger] final(self).spec_visits(j) == old(self).spec_visits(j) && final(self).spec_sum_rewards(j) == old(self).spec_sum_rewards(
                    j,
                ),
            forall|j: int|
                0 <= j < old(self).spec_len() ==> #[trigger] final(self).spec_parent_of(j) == old(self).spec_parent_of(j) && final(self).spec_history(j) == old(self).spec_history(j)
                    && final(self).spec_unvisited_count(j) <= old(self).spec_unvisited_count(j)
                    && final(self).spec_children_count(j) >= old(self).spec_children_count(j),
            final(self).spec_root_visits() == old(self).spec_root_visits(),
            (old(self).spec_children_count(0) > 0 || old(self).spec_unvisited_count(0) > 0)
                ==> final(self).spec_children_count(0) > 0,
            old(self).spec_unvisited_count(0) > 0 ==> final(self).spec_children_count(0) == old(self).spec_children_count(0) + 1 && final(self).spec_unvisited_count(0) == old(self).spec_unvisited_count(0) - 1,
    {
        let root_clone = self.root_state.clone_state();
        let r = TP::tree_policy(&mut self.tree, root_clone, evaluator_args);
        proof {
            let pre = old(self).spec_tree();
            let post = self.spec_tree();
            let chosen = r.0 as int;
            assert forall|j: int|
                0 <= j < pre.spec_len() implies #[trigger] post.spec_parent(j) == pre.spec_parent(
                j,
            ) && post.spec_node(j).state@ == pre.spec_node(j).state@ && post.spec_node(
                j,
            ).unvisited_moves@.len() <= pre.spec_node(j).unvisited_moves@.len()
                && post.spec_children(j).len() >= pre.spec_children(j).len() by {
                if post.spec_len() == pre.spec_len() {
                    assert(post == pre);
                } else {
                    let p = post.spec_parent(chosen);
                    let mi = choose|mi: int|
                        0 <= mi < pre.spec_node(p).unvisited_moves@.len() && post.spec_node(
                            p,
                        ).unvisited_moves@ == pre.spec_node(p).unvisited_moves@.remove(mi)
                            && post.spec_node(chosen).state@ == pre.spec_node(p).state@.push(
                            pre.spec_node(p).unvisited_moves@[mi],
                        );
                    if j == p {
                        assert(post.spec_node(p).unvisited_moves@ == pre.spec_node(
                            p,
                        ).unvisited_moves@.remove(mi));
                        assert(post.spec_children(p) == pre.spec_children(p).push(
                            chosen as usize,
                        ));
                        assert(post.spec_node(p).state == pre.spec_node(p).state);
                    } else {
                        assert(post.spec_node(j) == pre.spec_node(j));
                        assert(post.spec_children(j) == pre.spec_children(j));
                    }
                }
            }
        }
        r
    }

    /// The backpropagation phase: adds `reward` and one visit to every node
    /// from `leaf` up to the root, both included.
    pub fn backpropagate(&mut self, leaf: NodeId, reward: u32)
        requires
            old(self).inv(),
            (leaf as int) < old(self).spec_len(),
            old(self).spec_root_visits() < 4294967295u32,
        ensures
            final(self).inv(),
            final(self).spec_root_state() == old(self).spec_root_state(),
            final(self).spec_len() == old(self).spec_len(),
            final(self).spec_root_visits() == old(self).spec_root_visits() + 1,
            backprop_effect(
                old(self).spec_tree(),
                final(self).spec_tree(),
                leaf as int,
                reward,
            ),
            forall|j: int|
                0 <= j < final(self).spec_len() ==> #[trigger] final(self).spec_children_count(j)
                    == old(self).spec_children_count(j),
            forall|j: int|
                0 <= j < final(self).spec_len() ==> #[trigger] final(self).spec_visits(j) >= old(self).spec_visits(j),
    {
        let ghost t1 = self.tree;
        BP::backprop(&mut self.tree, leaf, reward);
        proof {
            lemma_coherent_same_structure(t1, self.tree, self.root_state);
        }
    }

    /// Executes one selection, expansion, simulation and backpropagation
    /// cycle. The tree's whole change is one expansion step followed by one
    /// backpropagation from the chosen node of the evaluator's reward for a
    /// finished state that some playout legally reached from that node, from
    /// the root player's perspective; so the search grows by at most one
    /// node and the root gains exactly one visit.
    pub fn execute(&mut self, evaluator_args: &EV::Args, playout_args: PP::Args)
        requires
            old(self).inv(),
            EV::args_ok(*evaluator_args),
            old(self).spec_root_visits() < 4294967295u32,
            old(self).spec_len() < 18446744073709551615u64,
        ensures
            final(self).inv(),
            final(self).spec_root_state() == old(self).spec_root_state(),
            final(self).spec_root_visits() == old(self).spec_root_visits() + 1,
            old(self).spec_len() <= final(self).spec_len() <= old(self).spec_len() + 1,
            exists|mid: LazyMctsTree<State, A>, leaf: int, reward: u32, h: Seq<State::Move>|
                #![trigger iteration_effect::<State, EV, A>(
                    old(self).spec_root_state(),
                    old(self).spec_tree(),
                    mid,
                    final(self).spec_tree(),
                    leaf,
                    reward,
                    h,
                )]
                iteration_effect::<State, EV, A>(
                    old(self).spec_root_state(),
                    old(self).spec_tree(),
                    mid,
                    final(self).spec_tree(),
                    leaf,
                    reward,
                    h,
                ),
            forall|j: int|
                0 <= j < old(self).spec_len() ==> #[trigger] final(self).spec_parent_of(j) == old(self).spec_parent_of(j) && final(self).spec_history(j) == old(self).spec_history(j)
                    && final(self).spec_visits(j) >= old(self).spec_visits(j) && final(self).spec_unvisited_count(j) <= old(self).spec_unvisited_count(j) && final(self).spec_children_count(j) >= old(self).spec_children_count(j),
            final(self).spec_len() == old(self).spec_len() ==> forall|j: int|
                0 <= j < old(self).spec_len() ==> #[trigger] final(self).spec_children_count(j)
                    == old(self).spec_children_count(j) && final(self).spec_unvisited_count(j)
                    == old(self).spec_unvisited_count(j),
            (old(self).spec_children_count(0) > 0 || old(self).spec_unvisited_count(0) > 0)
                ==> final(self).spec_children_count(0) > 0,
            old(self).spec_unvisited_count(0) > 0 ==> final(self).spec_children_count(0) == old(self).spec_children_count(0) + 1 && final(self).spec_unvisited_count(0) == old(self).spec_unvisited_count(0) - 1,
    {
        let (node_id, state) = self.select_expand(evaluator_args);
        let ghost mid = self.spec_tree();
        let ghost s0 = state;
        let final_state = PP::playout(state, playout_args);
        let ghost fs = final_state;
        let turn = self.root_state.player_turn();
        let eval = EV::evaluate_leaf(final_state, &turn);
        self.backpropagate(node_id, eval);
        proof {
            let pre = old(self).spec_tree();
            let post = self.spec_tree();
            let root0 = old(self).spec_root_state();
            assert(s0 == reconstructed(root0, mid.spec_node(node_id as int).state@));
            assert(exists|h: Seq<State::Move>|
                #![auto]
                valid_history(s0, h) && fs == reconstructed(s0, h));
            let h = choose|h: Seq<State::Move>|
                #![auto]
                valid_history(s0, h) && fs == reconstructed(s0, h);
            assert(fs.is_final_spec());
            assert(eval == EV::leaf_spec(fs, root0.turn_spec()));
            assert(expansion_effect::<State, A>(pre, mid, node_id as int) && backprop_effect(
                mid,
                post,
                node_id as int,
                eval,
            ));
            assert(iteration_effect::<State, EV, A>(
                root0,
                pre,
                mid,
                post,
                node_id as int,
                eval,
                h,
            ));
            assert forall|j: int|
                0 <= j < pre.spec_len() implies #[trigger] post.spec_parent(j) == pre.spec_parent(
                j,
            ) && post.spec_node(j).state@ == pre.spec_node(j).state@ && post.spec_node(
                j,
            ).n_visits >= pre.spec_node(j).n_visits && post.spec_node(j).unvisited_moves@.len()
                <= pre.spec_node(j).unvisited_moves@.len() && post.spec_children(j).len()
                >= pre.spec_children(j).len() by {
                assert(mid.spec_parent(j) == pre.spec_parent(j));
                assert(mid.spec_node(j).state@ == pre.spec_node(j).state@);
                assert(mid.spec_node(j).n_visits == pre.spec_node(j).n_visits);
                assert(mid.spec_node(j).unvisited_moves@.len() <= pre.spec_node(
                    j,
                ).unvisited_moves@.len());
                assert(mid.spec_children(j).len() >= pre.spec_children(j).len());
                assert(post.spec_parent(j) == mid.spec_parent(j));
                assert(post.spec_children(j) == mid.spec_children(j));
                assert(post.spec_node(j).state == mid.spec_node(j).state);
                assert(post.spec_node(j).unvisited_moves == mid.spec_node(j).unvisited_moves);
                if on_path(mid, node_id as int, j) {
                    assert(post.spec_node(j).n_visits == mid.spec_node(j).n_visits + 1);
                } else {
                    assert(post.spec_node(j) == mid.spec_node(j));
                }
            }
            if post.spec_len() == pre.spec_len() {
                assert(mid == pre);
                assert forall|j: int|
                    0 <= j < pre.spec_len() implies #[trigger] post.spec_children(j)
                    == pre.spec_children(j) && post.spec_node(j).unvisited_moves@
                    == pre.spec_node(j).unvisited_moves@ by {
                    assert(post.spec_children(j) == mid.spec_children(j));
                    assert(post.spec_node(j).unvisited_moves == mid.spec_node(j).unvisited_moves);
                }
            }
        }
    }

    /// Returns the best move from the root: the last move of the root child
    /// with the maximal evaluator score. The move is always one of the legal
    /// moves of the root state.
    pub fn best_move(&self, evaluator_args: &EV::Args) -> (m: State::Move)
        requires
            self.inv(),
            EV::args_ok(*evaluator_args),
            self.spec_children_count(0) > 0,
        ensures
            self.spec_root_state().legal_moves_spec().contains(m),
            exists|c: NodeId|
                (#[trigger] self.spec_tree().spec_children(0).contains(c)) && m == self.spec_tree()
                    .spec_node(c as int).state@.last() && forall|k: int|
                    0 <= k < self.spec_children_count(0) ==> EV::eval_spec(
                        self.spec_tree().spec_node(
                            (#[trigger] self.spec_tree().spec_children(0)[k]) as int,
                        ),
                        self.spec_root_state().turn_spec(),
                        self.spec_root_visits(),
                        *evaluator_args,
                    ) <= EV::eval_spec(
                        self.spec_tree().spec_node(c as int),
                        self.spec_root_state().turn_spec(),
                        self.spec_root_visits(),
                        *evaluator_args,
                    ),
    {
        let turn = self.root_state.player_turn();
        let best = TP::best_child(&self.tree, &turn, 0, evaluator_args);
        proof {
            let t = self.spec_tree();
            let ch = t.spec_children(0);
            assert(ch.contains(best));
            let k = choose|k: int| 0 <= k < ch.len() && ch[k] == best;
            assert(0 < (ch[k] as int) < t.spec_len());
            let b = best as int;
            assert(t.spec_node(b).state@ == t.spec_node(t.spec_parent(b)).state@.push(
                t.spec_node(b).state@.last(),
            ));
            assert(t.spec_parent(b) == 0);
            assert(t.spec_node(0).state@ == Seq::<State::Move>::empty());
            let h = t.spec_node(b).state@;
            assert(h.len() == 1);
            assert(valid_history(self.spec_root_state(), h));
            assert(h.drop_last() =~= Seq::<State::Move>::empty());
            assert(reconstructed(self.spec_root_state(), h.drop_last())
                == self.spec_root_state());
            assert(self.spec_root_state().legal_moves_spec().contains(h.last()));
        }
        let hist: &Vec<State::Move> = &self.tree.node(best).state;
        let l = hist.len();
        let m = hist[l - 1];
        m
    }

    /// For every node, the unexpanded moves and the children together account
    /// for exactly the legal moves of the node's reconstructed state:
    /// expansion consumes unexpanded moves one at a time and never re-adds
    /// them.
    pub proof fn lemma_expansion_conserves_moves(&self, i: int)
        requires
            self.inv(),
            0 <= i < self.spec_len(),
        ensures
            self.spec_unvisited_count(i) + self.spec_children_count(i) == reconstructed(
                self.spec_root_state(),
                self.spec_history(i),
            ).legal_moves_spec().len(),
    {
        broadcast use vstd::seq_lib::group_to_multiset_ensures;
        broadcast use vstd::multiset::group_multiset_axioms;

        let t = self.spec_tree();
        let u = t.spec_node(i).unvisited_moves@;
        let c = child_moves::<State, A>(t, i);
        let l = reconstructed(self.spec_root_state(), t.spec_node(i).state@).legal_moves_spec();
        assert(u.to_multiset().add(c.to_multiset()) == l.to_multiset());
        assert(c.len() == self.spec_children_count(i));
        assert(u.to_multiset().len() == u.len());
        assert(c.to_multiset().len() == c.len());
        assert(l.to_multiset().len() == l.len());
        assert(u.to_multiset().add(c.to_multiset()).len() == u.to_multiset().len()
            + c.to_multiset().len());
    }

    /// A parent is visited at least as often as any of its children.
    pub proof fn lemma_parent_visits_dominate(&self, child: int)
        requires
            self.inv(),
            1 <= child < self.spec_len(),
        ensures
            self.spec_visits(self.spec_parent_of(child)) >= self.spec_visits(child),
    {
    }

    /// Number of nodes in the search tree.
    pub fn node_count(&self) -> (r: usize)
        ensures
            r == self.spec_len(),
    {
        self.tree.len()
    }

    /// Visit count of the root.
    pub fn root_visits(&self) -> (r: Nat)
        requires
            self.spec_len() > 0,
        ensures
            r == self.spec_root_visits(),
    {
        self.tree.node(0).n_visits
    }

    /// Visit count of node `id`.
    pub fn visits_of(&self, id: NodeId) -> (r: Nat)
        requires
            (id as int) < self.spec_len(),
        ensures
            r == self.spec_visits(id as int),
    {
        self.tree.node(id).n_visits
    }

    /// Accumulated rewards of node `id`.
    pub fn sum_rewards_of(&self, id: NodeId) -> (r: u64)
        requires
            (id as int) < self.spec_len(),
        ensures
            r == self.spec_sum_rewards(id as int),
    {
        self.tree.node(id).sum_rewards
    }

    /// Number of unexpanded moves of node `id`.
    pub fn unvisited_count_of(&self, id: NodeId) -> (r: usize)
        requires
            (id as int) < self.spec_len(),
        ensures
            r == self.spec_unvisited_count(id as int),
    {
        self.tree.node(id).unvisited_moves.len()
    }

    /// The children indices of node `id`, as a fresh list.
    pub fn children_of(&self, id: NodeId) -> (r: Vec<NodeId>)
        requires
            (id as int) < self.spec_len(),
        ensures
            r@ == self.spec_tree().spec_children(id as int),
    {
        let children: &Vec<usize> = self.tree.children_list(id);
        let mut r: Vec<usize> = Vec::new();
        let mut i: usize = 0;
        while i < children.len()
            invariant
                i <= children@.len(),
                r@ == children@.take(i as int),
                children@ == self.spec_tree().spec_children(id as int),
                (id as int) < self.spec_tree().spec_len(),
            decreases children@.len() - i,
        {
            r.push(children[i]);
            proof {
                assert(children@.take(i as int + 1) =~= children@.take(i as int).push(
                    children@[i as int],
                ));
            }
            i = i + 1;
        }
        proof {
            assert(children@.take(children@.len() as int) =~= children@);
        }
        r
    }

    /// The move history of node `id`, as a fresh list.
    pub fn history_of(&self, id: NodeId) -> (r: Vec<State::Move>)
        requires
            (id as int) < self.spec_len(),
        ensures
            r@ == self.spec_history(id as int),
    {
        let hist: &Vec<State::Move> = &self.tree.node(id).state;
        let mut r: Vec<State::Move> = Vec::new();
        let mut i: usize = 0;
        while i < hist.len()
            invariant
                i <= hist@.len(),
                r@ == hist@.take(i as int),
                hist@ == self.spec_history(id as int),
                (id as int) < self.spec_tree().spec_len(),
            decreases hist@.len() - i,
        {
            r.push(hist[i]);
            proof {
                assert(hist@.take(i as int + 1) =~= hist@.take(i as int).push(hist@[i as int]));
            }
            i = i + 1;
        }
        proof {
            assert(hist@.take(hist@.len() as int) =~= hist@);
        }
        r
    }
}

} // verus!
