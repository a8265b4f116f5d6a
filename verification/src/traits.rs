use vstd::prelude::*;

use crate::aliases::{LazyMctsNode, LazyMctsTree, Nat, NodeId, Num};
use crate::tree::{stats_ok, MctsTree};

verus! {

/// The capability interface a game must provide to the engine.
///
/// The spec functions give the mathematical meaning of the executable
/// methods; an implementation proves that each method agrees with them, which
/// makes move application a pure function of the state and the move.
pub trait GameTrait: Sized {
    type Player;

    type Move: Copy;

    /// The legal moves of this state for the player to move.
    spec fn legal_moves_spec(&self) -> Seq<Self::Move>;

    /// The player to move.
    spec fn turn_spec(&self) -> Self::Player;

    /// Whether the game is over.
    spec fn is_final_spec(&self) -> bool;

    /// The state reached by playing `m` on this state.
    spec fn next_spec(&self, m: Self::Move) -> Self;

    /// The winner of a finished game; a draw is reported as whatever sentinel
    /// value the game reserves for it.
    spec fn winner_spec(&self) -> Self::Player;

    /// Returns the list of legal moves for the actual player.
    fn legals_moves(&self) -> (r: Vec<Self::Move>)
        ensures
            r@ == self.legal_moves_spec(),
    ;

    /// Returns the player actually playing.
    fn player_turn(&self) -> (r: Self::Player)
        ensures
            r == self.turn_spec(),
    ;

    /// Returns, if any, the hash of the game state (informational only).
    fn hash(&self) -> u64;

    /// Returns true when the game is finished.
    fn is_final(&self) -> (r: bool)
        ensures
            r == self.is_final_spec(),
    ;

    /// Plays the move and alters the state. The engine only ever calls it
    /// with a move drawn from this exact state's legal moves.
    fn do_move(&mut self, m: &Self::Move)
        requires
            old(self).legal_moves_spec().contains(*m),
        ensures
            *final(self) == old(self).next_spec(*m),
    ;

    /// Returns the winner of a finished game.
    fn get_winner(&self) -> (r: Self::Player)
        requires
            self.is_final_spec(),
        ensures
            r == self.winner_spec(),
    ;

    /// A deep, independent copy of the state.
    fn clone_state(&self) -> (r: Self)
        ensures
            r == *self,
    ;

    /// Decides equality of two players.
    fn players_equal(a: &Self::Player, b: &Self::Player) -> (r: bool)
        ensures
            r == (*a == *b),
    ;

    /// A bound on how many moves any play from this state can still last.
    /// This encodes the engine's precondition on the collaborator that no
    /// chain of legal moves goes on forever.
    spec fn measure_spec(&self) -> nat;

    /// A game that is not over always offers at least one legal move.
    proof fn lemma_nonfinal_has_moves(&self)
        requires
            !self.is_final_spec(),
        ensures
            self.legal_moves_spec().len() > 0,
    ;

    /// Playing a legal move strictly shrinks the measure.
    proof fn lemma_do_move_decreases(&self, m: Self::Move)
        requires
            self.legal_moves_spec().contains(m),
        ensures
            self.next_spec(m).measure_spec() < self.measure_spec(),
    ;
}

/// The state reached by replaying the history `h` onto `root`.
pub open spec fn reconstructed<G: GameTrait>(root: G, h: Seq<G::Move>) -> G
    decreases h.len(),
{
    if h.len() == 0 {
        root
    } else {
        reconstructed(root, h.drop_last()).next_spec(h.last())
    }
}

/// Every step of `h` is legal from the state reached by the steps before it.
pub open spec fn valid_history<G: GameTrait>(root: G, h: Seq<G::Move>) -> bool
    decreases h.len(),
{
    h.len() == 0 || (valid_history(root, h.drop_last()) && reconstructed(
        root,
        h.drop_last(),
    ).legal_moves_spec().contains(h.last()))
}

/// Each step of a legal replay is legal from the state reached by the prefix
/// before it.
pub proof fn lemma_valid_history_step<G: GameTrait>(root: G, h: Seq<G::Move>, i: int)
    requires
        valid_history(root, h),
        0 <= i < h.len(),
    ensures
        valid_history(root, h.take(i)),
        reconstructed(root, h.take(i)).legal_moves_spec().contains(h[i]),
    decreases h.len(),
{
    if i == h.len() - 1 {
        assert(h.take(i) =~= h.drop_last());
    } else {
        lemma_valid_history_step(root, h.drop_last(), i);
        assert(h.drop_last().take(i) =~= h.take(i));
        assert(h.drop_last()[i] == h[i]);
    }
}

/// The move that created each child of node `i`: the last entry of the
/// child's history.
pub open spec fn child_moves<G: GameTrait, A>(t: LazyMctsTree<G, A>, i: int) -> Seq<G::Move> {
    Seq::new(
        t.spec_children(i).len(),
        |k: int| t.spec_node(t.spec_children(i)[k] as int).state@.last(),
    )
}

/// The accounting of the lazy tree against the game state `root` at its root:
/// the root's history is empty, every history is a legal replay, each child
/// extends its parent's history by exactly one move, and for every node the
/// unexpanded moves and the moves that created its children together are
/// exactly the legal moves of the node's reconstructed state.
pub open spec fn coherent<G: GameTrait, A>(t: LazyMctsTree<G, A>, root: G) -> bool {
    &&& t.spec_node(0).state@ == Seq::<G::Move>::empty()
    &&& forall|i: int|
        0 <= i < t.spec_len() ==> valid_history(root, (#[trigger] t.spec_node(i)).state@)
    &&& forall|j: int|
        1 <= j < t.spec_len() ==> (#[trigger] t.spec_node(j)).state@.len() >= 1 && t.spec_node(
            j,
        ).state@ == t.spec_node(t.spec_parent(j)).state@.push(t.spec_node(j).state@.last())
    &&& forall|i: int|
        0 <= i < t.spec_len() ==> (#[trigger] t.spec_node(i)).unvisited_moves@.to_multiset().add(
            child_moves::<G, A>(t, i).to_multiset(),
        ) == reconstructed(root, t.spec_node(i).state@).legal_moves_spec().to_multiset()
}

/// Coherence only depends on the tree's structure, histories and unexpanded
/// moves, never on the visit and reward statistics.
pub proof fn lemma_coherent_same_structure<G: GameTrait, A>(
    t1: LazyMctsTree<G, A>,
    t2: LazyMctsTree<G, A>,
    root: G,
)
    requires
        t1.wf(),
        coherent(t1, root),
        t2.spec_len() == t1.spec_len(),
        forall|j: int| 0 <= j < t2.spec_len() ==> #[trigger] t2.spec_parent(j) == t1.spec_parent(j),
        forall|j: int|
            0 <= j < t2.spec_len() ==> #[trigger] t2.spec_children(j) == t1.spec_children(j),
        forall|j: int|
            0 <= j < t2.spec_len() ==> (#[trigger] t2.spec_node(j)).state == t1.spec_node(j).state
                && t2.spec_node(j).unvisited_moves == t1.spec_node(j).unvisited_moves,
    ensures
        coherent(t2, root),
{
    assert(t2.spec_node(0).state@ == t1.spec_node(0).state@);
    assert forall|i: int| 0 <= i < t2.spec_len() implies valid_history(
        root,
        (#[trigger] t2.spec_node(i)).state@,
    ) by {
        assert(t2.spec_node(i).state@ == t1.spec_node(i).state@);
    }
    assert forall|j: int| 1 <= j < t2.spec_len() implies (#[trigger] t2.spec_node(j)).state@.len()
        >= 1 && t2.spec_node(j).state@ == t2.spec_node(t2.spec_parent(j)).state@.push(
        t2.spec_node(j).state@.last(),
    ) by {
        assert(t2.spec_node(j).state@ == t1.spec_node(j).state@);
        assert(t2.spec_node(t2.spec_parent(j)).state@ == t1.spec_node(t1.spec_parent(j)).state@);
    }
    assert forall|i: int| 0 <= i < t2.spec_len() implies (
    #[trigger] t2.spec_node(i)).unvisited_moves@.to_multiset().add(
        child_moves::<G, A>(t2, i).to_multiset(),
    ) == reconstructed(root, t2.spec_node(i).state@).legal_moves_spec().to_multiset() by {
        assert(child_moves::<G, A>(t2, i) =~= child_moves::<G, A>(t1, i)) by {
            assert(t2.spec_children(i) == t1.spec_children(i));
            assert forall|k: int| 0 <= k < t1.spec_children(i).len() implies t2.spec_node(
                (#[trigger] t1.spec_children(i)[k]) as int,
            ).state@ == t1.spec_node(t1.spec_children(i)[k] as int).state@ by {
                let c = t1.spec_children(i)[k] as int;
                assert(i < c < t2.spec_len());
                assert(t2.spec_node(c).state == t1.spec_node(c).state);
            }
        }
        assert(t2.spec_node(i).unvisited_moves@ == t1.spec_node(i).unvisited_moves@);
        assert(t2.spec_node(i).state@ == t1.spec_node(i).state@);
    }
}

/// Scores children during selection and finished states after a playout.
pub trait Evaluator<G: GameTrait, A> {
    type Args;

    /// Which argument values the evaluator accepts.
    spec fn args_ok(args: Self::Args) -> bool;

    /// The score `eval_child` returns, as a function of the child's
    /// statistics, the observer, the parent's visit count and the arguments.
    spec fn eval_spec(child: LazyMctsNode<G, A>, turn: G::Player, parent_visits: Nat, args: Self::Args) -> Num;

    /// The reward `evaluate_leaf` returns for a finished state.
    spec fn leaf_spec(state: G, turn: G::Player) -> u32;

    /// Evaluates a child node of the search tree during selection.
    fn eval_child(
        child: &LazyMctsNode<G, A>,
        turn: &G::Player,
        parent_visits: Nat,
        args: &Self::Args,
    ) -> (r: Num)
        requires
            Self::args_ok(*args),
            child.n_visits <= parent_visits,
            child.sum_rewards <= child.n_visits * 4294967295,
        ensures
            r == Self::eval_spec(*child, *turn, parent_visits, *args),
    ;

    /// Evaluates a finished state from the perspective of `turn`, to know the
    /// reward once a simulation is over.
    fn evaluate_leaf(child: G, turn: &G::Player) -> (r: u32)
        requires
            child.is_final_spec(),
        ensures
            r == Self::leaf_spec(child, *turn),
    ;
}

/// Completes a partial game to a finished state.
pub trait Playout<G: GameTrait> {
    type Args;

    /// Plays the state out to a finished state by legal moves. Termination
    /// is the game's guarantee: the engine assumes no infinite chain of
    /// legal moves. A state that is already finished comes back unchanged.
    fn playout(state: G, args: Self::Args) -> (r: G)
        ensures
            r.is_final_spec(),
            exists|h: Seq<G::Move>|
                #![auto]
                valid_history(state, h) && r == reconstructed(state, h),
            state.is_final_spec() ==> r == state,
    ;
}

/// The exact effect of one selection-and-expansion step that chose node
/// `chosen`. Either nothing could be expanded — the chosen node is a
/// childless node without unexpanded moves and the tree is untouched — or
/// the chosen node is a fresh child: its parent handed exactly one of its
/// unexpanded moves to the child's history, the child starts with zero
/// statistics and no children, and every other node is untouched.
pub open spec fn expansion_effect<G: GameTrait, A>(
    pre: LazyMctsTree<G, A>,
    post: LazyMctsTree<G, A>,
    chosen: int,
) -> bool {
    if post.spec_len() == pre.spec_len() {
        &&& post == pre
        &&& 0 <= chosen < pre.spec_len()
        &&& pre.spec_node(chosen).unvisited_moves@.len() == 0
        &&& pre.spec_children(chosen).len() == 0
    } else {
        &&& chosen == pre.spec_len()
        &&& post.spec_len() == pre.spec_len() + 1
        &&& {
            let p = post.spec_parent(chosen);
            &&& 0 <= p < pre.spec_len()
            &&& exists|mi: int|
                #![auto]
                0 <= mi < pre.spec_node(p).unvisited_moves@.len() && post.spec_node(
                    p,
                ).unvisited_moves@ == pre.spec_node(p).unvisited_moves@.remove(mi)
                    && post.spec_node(chosen).state@ == pre.spec_node(p).state@.push(
                    pre.spec_node(p).unvisited_moves@[mi],
                )
            &&& post.spec_children(p) == pre.spec_children(p).push(chosen as usize)
            &&& post.spec_children(chosen).len() == 0
            &&& post.spec_node(chosen).n_visits == 0
            &&& post.spec_node(chosen).sum_rewards == 0
            &&& forall|j: int|
                0 <= j < pre.spec_len() && j != p ==> #[trigger] post.spec_node(j)
                    == pre.spec_node(j)
            &&& forall|j: int|
                0 <= j < pre.spec_len() ==> #[trigger] post.spec_parent(j) == pre.spec_parent(j)
            &&& forall|j: int|
                0 <= j < pre.spec_len() && j != p ==> #[trigger] post.spec_children(j)
                    == pre.spec_children(j)
            &&& post.spec_node(p).n_visits == pre.spec_node(p).n_visits
            &&& post.spec_node(p).sum_rewards == pre.spec_node(p).sum_rewards
            &&& post.spec_node(p).state == pre.spec_node(p).state
            &&& post.spec_node(p).hash == pre.spec_node(p).hash
            &&& post.spec_node(p).additional_info == pre.spec_node(p).additional_info
        }
    }
}

/// Chooses and expands the node a search iteration works on.
pub trait LazyTreePolicy<G: GameTrait, EV: Evaluator<G, A>, A: Default> {
    /// Descends the tree by the evaluator's score to a node that may be
    /// expanded, expands it by one unexpanded move if it has one, and returns
    /// the resulting node with its reconstructed state.
    ///
    /// Statistics of existing nodes are untouched, at most one node is added
    /// with zero visits, and when the root could grow a child (or already had
    /// one) the root has a child afterwards.
    fn tree_policy(tree: &mut LazyMctsTree<G, A>, root_state: G, evaluator_args: &EV::Args) -> (r:
        (NodeId, G))
        requires
            old(tree).wf(),
            stats_ok(*old(tree)),
            coherent(*old(tree), root_state),
            EV::args_ok(*evaluator_args),
            old(tree).spec_len() < 18446744073709551615u64,
        ensures
            final(tree).wf(),
            stats_ok(*final(tree)),
            coherent(*final(tree), root_state),
            old(tree).spec_len() <= final(tree).spec_len() <= old(tree).spec_len() + 1,
            (r.0 as int) < final(tree).spec_len(),
            expansion_effect::<G, A>(*old(tree), *final(tree), r.0 as int),
            r.1 == reconstructed(root_state, final(tree).spec_node(r.0 as int).state@),
            forall|j: int|
                0 <= j < old(tree).spec_len() ==> (#[trigger] final(tree).spec_node(j)).n_visits
                    == old(tree).spec_node(j).n_visits && final(tree).spec_node(j).sum_rewards
                    == old(tree).spec_node(j).sum_rewards,
            old(tree).spec_children(0).len() > 0 || old(tree).spec_node(0).unvisited_moves@.len()
                > 0 ==> final(tree).spec_children(0).len() > 0,
            old(tree).spec_node(0).unvisited_moves@.len() > 0 ==> final(tree).spec_children(
                0,
            ).len() == old(tree).spec_children(0).len() + 1 && final(tree).spec_node(
                0,
            ).unvisited_moves@.len() == old(tree).spec_node(0).unvisited_moves@.len() - 1,
    ;

    /// Replays the stored history onto a copy of the root state; needed
    /// because nodes store no game state of their own, only the historic
    /// that reaches them. Reconstruction is a pure function of the root
    /// state and the history: replaying the same history twice onto fresh
    /// copies of the same root always yields equal states.
    fn update_state(root_state: G, historic: &Vec<G::Move>) -> (r: G)
        requires
            valid_history(root_state, historic@),
        ensures
            r == reconstructed(root_state, historic@),
    {
        let ghost root0 = root_state;
        let mut state = root_state;
        let n = historic.len();
        let mut i: usize = 0;
        while i < n
            invariant
                n == historic@.len(),
                i <= n,
                valid_history(root0, historic@),
                state == reconstructed(root0, historic@.take(i as int)),
            decreases n - i,
        {
            proof {
                lemma_valid_history_step(root0, historic@, i as int);
                assert(historic@.take(i as int + 1).drop_last() =~= historic@.take(i as int));
                assert(historic@.take(i as int + 1).last() == historic@[i as int]);
            }
            let m = historic[i];
            state.do_move(&m);
            i = i + 1;
        }
        proof {
            assert(historic@.take(n as int) =~= historic@);
        }
        state
    }

    /// The child of `parent_id` whose evaluator score is maximal; ties fall
    /// to iteration order, which callers must not rely on.
    fn best_child(
        tree: &LazyMctsTree<G, A>,
        turn: &G::Player,
        parent_id: NodeId,
        evaluator_args: &EV::Args,
    ) -> (r: NodeId)
        requires
            tree.wf(),
            stats_ok(*tree),
            (parent_id as int) < tree.spec_len(),
            tree.spec_children(parent_id as int).len() > 0,
            EV::args_ok(*evaluator_args),
        ensures
            tree.spec_children(parent_id as int).contains(r),
            forall|k: int|
                0 <= k < tree.spec_children(parent_id as int).len() ==> EV::eval_spec(
                    tree.spec_node((#[trigger] tree.spec_children(parent_id as int)[k]) as int),
                    *turn,
                    tree.spec_node(parent_id as int).n_visits,
                    *evaluator_args,
                ) <= EV::eval_spec(
                    tree.spec_node(r as int),
                    *turn,
                    tree.spec_node(parent_id as int).n_visits,
                    *evaluator_args,
                ),
    ;
}

/// Propagates one simulation's reward up the tree.
pub trait BackPropPolicy<T, M, A> {
    /// Walks from `leaf` to the root, both included, adding one visit and
    /// `playout_result` to the accumulated rewards of every node on the path.
    fn backprop(tree: &mut MctsTree<T, M, A>, leaf: NodeId, playout_result: u32)
        requires
            old(tree).wf(),
            stats_ok(*old(tree)),
            (leaf as int) < old(tree).spec_len(),
            old(tree).spec_node(0).n_visits < 4294967295u32,
        ensures
            final(tree).wf(),
            stats_ok(*final(tree)),
            crate::tree::backprop_effect(*old(tree), *final(tree), leaf as int, playout_result),
            final(tree).spec_node(0).n_visits == old(tree).spec_node(0).n_visits + 1,
    ;
}

} // verus!
