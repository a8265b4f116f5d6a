use vstd::prelude::*;

use core::marker::PhantomData;

use crate::aliases::{LazyMctsNode, LazyMctsTree, Nat, NodeId, Num};
use crate::mcts_node::MctsNode;
use crate::ops::{spec_uct, uct_value, C_MAX};
use crate::rng::random_index;
use crate::traits::{
    child_moves, coherent, reconstructed, valid_history, BackPropPolicy, Evaluator, GameTrait,
    LazyTreePolicy, Playout,
};
use crate::tree::{
    backprop_effect, lemma_on_path_bounds, lemma_on_path_parent, lemma_on_path_root,
    lemma_visits_le_root, on_path, stats_ok, MctsTree,
};

verus! {

/// A default backprop policy: it takes the reward of the simulation and
/// backpropagates the result to the branch nodes, root included.
pub struct DefaultBackProp;

impl<T, M, A> BackPropPolicy<T, M, A> for DefaultBackProp {
    fn backprop(tree: &mut MctsTree<T, M, A>, leaf: NodeId, playout_result: u32) {
        let ghost t0 = *tree;
        let mut current: usize = leaf;
        while current != 0
            invariant
                t0.wf(),
                stats_ok(t0),
                (leaf as int) < t0.spec_len(),
                t0.spec_node(0).n_visits < 4294967295u32,
                tree.wf(),
                tree.spec_len() == t0.spec_len(),
                (current as int) < t0.spec_len(),
                on_path(t0, leaf as int, current as int),
                forall|j: int|
                    0 <= j < t0.spec_len() ==> #[trigger] tree.spec_parent(j) == t0.spec_parent(j),
                forall|j: int|
                    0 <= j < t0.spec_len() ==> #[trigger] tree.spec_children(j)
                        == t0.spec_children(j),
                forall|j: int|
                    0 <= j < t0.spec_len() && on_path(t0, leaf as int, j) && !on_path(
                        t0,
                        current as int,
                        j,
                    ) ==> (#[trigger] tree.spec_node(j)).n_visits == t0.spec_node(j).n_visits + 1
                        && tree.spec_node(j).sum_rewards == t0.spec_node(j).sum_rewards
                        + playout_result,
                forall|j: int|
                    0 <= j < t0.spec_len() && !(on_path(t0, leaf as int, j) && !on_path(
                        t0,
                        current as int,
                        j,
                    )) ==> #[trigger] tree.spec_node(j) == t0.spec_node(j),
                forall|j: int|
                    0 <= j < t0.spec_len() ==> {
                        let pre = t0.spec_node(j);
                        let post = #[trigger] tree.spec_node(j);
                        post.unvisited_moves == pre.unvisited_moves && post.hash == pre.hash
                            && post.state == pre.state && post.additional_info
                            == pre.additional_info
                    },
            decreases current,
        {
            proof {
                lemma_on_path_bounds(t0, leaf as int, current as int);
                lemma_visits_le_root(t0, current as int);
                assert(on_path(t0, current as int, current as int));
                assert(tree.spec_node(current as int) == t0.spec_node(current as int));
                lemma_bump_fits(
                    t0.spec_node(current as int).n_visits as nat,
                    t0.spec_node(current as int).sum_rewards as nat,
                    playout_result as nat,
                );
            }
            tree.bump_stats(current, playout_result);
            let prev = current;
            current = tree.parent_of(current);
            proof {
                lemma_on_path_parent(t0, leaf as int, prev as int);
                assert(on_path(t0, leaf as int, current as int));
                assert forall|j: int|
                    0 <= j < t0.spec_len() && on_path(t0, leaf as int, j) && !on_path(
                        t0,
                        current as int,
                        j,
                    ) implies (#[trigger] tree.spec_node(j)).n_visits == t0.spec_node(j).n_visits
                    + 1 && tree.spec_node(j).sum_rewards == t0.spec_node(j).sum_rewards
                    + playout_result by {
                    if j != prev {
                        assert(!on_path(t0, prev as int, j));
                    }
                }
                assert forall|j: int|
                    0 <= j < t0.spec_len() && !(on_path(t0, leaf as int, j) && !on_path(
                        t0,
                        current as int,
                        j,
                    )) implies #[trigger] tree.spec_node(j) == t0.spec_node(j) by {
                    if on_path(t0, current as int, j) {
                        lemma_on_path_bounds(t0, current as int, j);
                        assert(j != prev);
                        assert(!(on_path(t0, leaf as int, j) && !on_path(t0, prev as int, j)));
                    }
                }
            }
        }
        proof {
            lemma_on_path_bounds(t0, leaf as int, 0);
            assert(tree.spec_node(0) == t0.spec_node(0));
            lemma_visits_le_root(t0, 0);
            lemma_bump_fits(
                t0.spec_node(0).n_visits as nat,
                t0.spec_node(0).sum_rewards as nat,
                playout_result as nat,
            );
        }
        tree.bump_stats(0, playout_result);
        proof {
            let t2 = *tree;
            lemma_on_path_root(t0, leaf as int);
            assert forall|j: int|
                0 <= j < t2.spec_len() && on_path(t0, leaf as int, j) implies (
            #[trigger] t2.spec_node(j)).n_visits == t0.spec_node(j).n_visits + 1
                && t2.spec_node(j).sum_rewards == t0.spec_node(j).sum_rewards + playout_result by {
                if j != 0 {
                    assert(!on_path(t0, 0, j));
                }
            }
            assert forall|j: int|
                0 <= j < t2.spec_len() && !on_path(t0, leaf as int, j) implies (
            #[trigger] t2.spec_node(j)) == t0.spec_node(j) by {
                assert(j != 0);
            }
            assert forall|j: int| 1 <= j < t2.spec_len() implies (
            #[trigger] t2.spec_node(j)).n_visits <= t2.spec_node(t2.spec_parent(j)).n_visits by {
                let p = t0.spec_parent(j);
                assert(t2.spec_parent(j) == p);
                if on_path(t0, leaf as int, j) {
                    lemma_on_path_parent(t0, leaf as int, j);
                    assert(on_path(t0, leaf as int, p));
                } else {
                    assert(t2.spec_node(j) == t0.spec_node(j));
                    assert(t2.spec_node(p).n_visits >= t0.spec_node(p).n_visits);
                }
            }
            assert forall|i: int| 0 <= i < t2.spec_len() implies (
            #[trigger] t2.spec_node(i)).sum_rewards <= t2.spec_node(i).n_visits * 4294967295 by {
                if on_path(t0, leaf as int, i) {
                    lemma_mul_step(
                        t0.spec_node(i).n_visits as nat,
                        t0.spec_node(i).sum_rewards as nat,
                        playout_result as nat,
                    );
                }
            }
            assert(backprop_effect(t0, t2, leaf as int, playout_result));
        }
    }
}

/// A visit increment never overflows the counters: with dominating visit
/// counts the node has fewer visits than the root, and the reward sum stays
/// within `visits * u32::MAX`.
proof fn lemma_bump_fits(visits: nat, sum: nat, reward: nat)
    requires
        visits <= 4294967294,
        sum <= visits * 4294967295,
        reward <= 4294967295,
    ensures
        sum + reward <= 18446744073709551615,
{
    assert(visits * 4294967295 <= 4294967294 * 4294967295) by (nonlinear_arith)
        requires
            visits <= 4294967294,
    ;
}

/// Adding one visit keeps the reward sum within `visits * u32::MAX`.
proof fn lemma_mul_step(visits: nat, sum: nat, reward: nat)
    requires
        sum <= visits * 4294967295,
        reward <= 4294967295,
    ensures
        sum + reward <= (visits + 1) * 4294967295,
{
    assert((visits + 1) * 4294967295 == visits * 4294967295 + 4294967295) by (nonlinear_arith);
}

/// Simulates taking random moves until the end of the game.
pub struct DefaultPlayout;

impl<G: GameTrait> Playout<G> for DefaultPlayout {
    type Args = ();

    fn playout(state: G, args: ()) -> (r: G) {
        let ghost mut h: Seq<G::Move> = Seq::empty();
        let mut s = state.clone_state();
        loop
            invariant
                valid_history(state, h),
                s == reconstructed(state, h),
                state.is_final_spec() ==> h.len() == 0,
            decreases s.measure_spec(),
        {
            if s.is_final() {
                proof {
                    assert(valid_history(state, h) && s == reconstructed(state, h));
                    if state.is_final_spec() {
                        assert(reconstructed(state, h) == state);
                    }
                }
                return s;
            }
            proof {
                s.lemma_nonfinal_has_moves();
            }
            let moves = s.legals_moves();
            let i = random_index(moves.len());
            let m = moves[i];
            proof {
                assert(s.legal_moves_spec().contains(m)) by {
                    assert(s.legal_moves_spec()[i as int] == m);
                }
                s.lemma_do_move_decreases(m);
                assert(h.push(m).drop_last() =~= h);
                assert(h.push(m).last() == m);
                assert(valid_history(state, h.push(m)));
            }
            s.do_move(&m);
            proof {
                h = h.push(m);
            }
        }
    }
}

/// Copies a move list.
fn clone_moves<M: Copy>(v: &Vec<M>) -> (r: Vec<M>)
    ensures
        r@ == v@,
{
    let mut r: Vec<M> = Vec::new();
    let mut i: usize = 0;
    while i < v.len()
        invariant
            i <= v@.len(),
            r@ == v@.take(i as int),
        decreases v@.len() - i,
    {
        r.push(v[i]);
        proof {
            assert(v@.take(i as int + 1) =~= v@.take(i as int).push(v@[i as int]));
        }
        i = i + 1;
    }
    proof {
        assert(v@.take(v@.len() as int) =~= v@);
    }
    r
}

/// After one expansion step the tree keeps its statistics discipline and its
/// coherence with the root state: the expanded node hands the chosen move
/// from its unexpanded list to the move of its new child, and the new child
/// starts with the legal moves of its own reconstructed state.
#[verifier::rlimit(100)]
proof fn lemma_expand_restores_invariants<G: GameTrait, A>(
    t0: LazyMctsTree<G, A>,
    t2: LazyMctsTree<G, A>,
    root_state: G,
    ni: int,
    idx: int,
    m: G::Move,
    new_id: usize,
    new_state: G,
)
    requires
        t0.wf(),
        stats_ok(t0),
        coherent(t0, root_state),
        0 <= ni < t0.spec_len(),
        0 <= idx < t0.spec_node(ni).unvisited_moves@.len(),
        m == t0.spec_node(ni).unvisited_moves@[idx],
        new_id as int == t0.spec_len(),
        t2.spec_len() == t0.spec_len() + 1,
        forall|j: int|
            0 <= j < t0.spec_len() && j != ni ==> #[trigger] t2.spec_node(j) == t0.spec_node(j),
        forall|j: int|
            0 <= j < t0.spec_len() ==> #[trigger] t2.spec_parent(j) == t0.spec_parent(j),
        forall|j: int|
            0 <= j < t0.spec_len() && j != ni ==> #[trigger] t2.spec_children(j)
                == t0.spec_children(j),
        t2.spec_children(ni) == t0.spec_children(ni).push(new_id),
        t2.spec_parent(new_id as int) == ni,
        t2.spec_children(new_id as int).len() == 0,
        t2.spec_node(ni).unvisited_moves@ == t0.spec_node(ni).unvisited_moves@.remove(idx),
        t2.spec_node(ni).state == t0.spec_node(ni).state,
        t2.spec_node(ni).n_visits == t0.spec_node(ni).n_visits,
        t2.spec_node(ni).sum_rewards == t0.spec_node(ni).sum_rewards,
        t2.spec_node(new_id as int).state@ == t0.spec_node(ni).state@.push(m),
        t2.spec_node(new_id as int).unvisited_moves@ == new_state.legal_moves_spec(),
        t2.spec_node(new_id as int).n_visits == 0,
        t2.spec_node(new_id as int).sum_rewards == 0,
        new_state == reconstructed(root_state, t0.spec_node(ni).state@.push(m)),
        valid_history(root_state, t0.spec_node(ni).state@.push(m)),
    ensures
        stats_ok(t2),
        coherent(t2, root_state),
{
    broadcast use vstd::seq_lib::group_to_multiset_ensures;
    broadcast use vstd::multiset::group_multiset_axioms;

    let l0 = t0.spec_len() as int;
    let hist0 = t0.spec_node(ni).state@;
    let newh = hist0.push(m);
    let u0 = t0.spec_node(ni).unvisited_moves@;
    let u2 = t2.spec_node(ni).unvisited_moves@;
    assert(u2.to_multiset() =~= u0.to_multiset().remove(m));
    // statistics are untouched, and the new node starts at zero
    assert forall|j: int| 1 <= j < t2.spec_len() implies (
    #[trigger] t2.spec_node(j)).n_visits <= t2.spec_node(t2.spec_parent(j)).n_visits by {
        if j < l0 {
            assert(t2.spec_node(j).n_visits == t0.spec_node(j).n_visits);
            assert(t2.spec_parent(j) == t0.spec_parent(j));
        } else {
            assert(t2.spec_parent(j) == ni);
            assert(t2.spec_node(j).n_visits == 0);
        }
    }
    assert forall|i: int| 0 <= i < t2.spec_len() implies (
    #[trigger] t2.spec_node(i)).sum_rewards <= t2.spec_node(i).n_visits * 4294967295 by {
        if i < l0 {
            assert(t2.spec_node(i).sum_rewards == t0.spec_node(i).sum_rewards);
            assert(t2.spec_node(i).n_visits == t0.spec_node(i).n_visits);
        }
    }
    assert(stats_ok(t2));
    // the tree stays coherent with the root state
    assert(t2.spec_node(0).state@ == t0.spec_node(0).state@);
    assert forall|i: int| 0 <= i < t2.spec_len() implies valid_history(
        root_state,
        (#[trigger] t2.spec_node(i)).state@,
    ) by {
        if i < l0 {
            assert(t2.spec_node(i).state@ == t0.spec_node(i).state@);
        } else {
            assert(t2.spec_node(i).state@ == newh);
        }
    }
    assert forall|j: int| 1 <= j < t2.spec_len() implies (
    #[trigger] t2.spec_node(j)).state@.len() >= 1 && t2.spec_node(j).state@ == t2.spec_node(
        t2.spec_parent(j),
    ).state@.push(t2.spec_node(j).state@.last()) by {
        if j < l0 {
            assert(t2.spec_node(j).state@ == t0.spec_node(j).state@);
            assert(t2.spec_node(t2.spec_parent(j)).state@ == t0.spec_node(t0.spec_parent(j)).state@);
        } else {
            assert(t2.spec_node(j).state@ == newh);
            assert(t2.spec_node(ni).state@ == hist0);
        }
    }
    // the moves equation at every node
    assert(child_moves::<G, A>(t2, ni) =~= child_moves::<G, A>(t0, ni).push(m)) by {
        let c0 = t0.spec_children(ni);
        let c2 = t2.spec_children(ni);
        assert(c2 == c0.push(new_id));
        assert forall|k: int| 0 <= k < c2.len() implies child_moves::<G, A>(t2, ni)[k] == (
        if k < c0.len() {
            child_moves::<G, A>(t0, ni)[k]
        } else {
            m
        }) by {
            if k < c0.len() {
                assert(c2[k] == c0[k]);
                assert((c0[k] as int) < l0);
                assert(t2.spec_node(c0[k] as int).state@ == t0.spec_node(c0[k] as int).state@);
            } else {
                assert(c2[k] == new_id);
                assert(t2.spec_node(new_id as int).state@.last() == m);
            }
        }
    }
    assert forall|i: int| 0 <= i < t2.spec_len() implies (
    #[trigger] t2.spec_node(i)).unvisited_moves@.to_multiset().add(
        child_moves::<G, A>(t2, i).to_multiset(),
    ) == reconstructed(root_state, t2.spec_node(i).state@).legal_moves_spec().to_multiset() by {
        if i == ni {
            let leg = reconstructed(root_state, hist0).legal_moves_spec();
            assert(u0.to_multiset().add(child_moves::<G, A>(t0, ni).to_multiset())
                == leg.to_multiset());
            assert(u0.to_multiset().count(m) > 0) by {
                assert(u0[idx] == m);
                assert(u0.contains(m));
            }
            assert(child_moves::<G, A>(t2, ni).to_multiset() =~= child_moves::<G, A>(
                t0,
                ni,
            ).to_multiset().insert(m));
            assert(u2.to_multiset().add(child_moves::<G, A>(t2, i).to_multiset())
                =~= u0.to_multiset().add(child_moves::<G, A>(t0, ni).to_multiset()));
            assert(t2.spec_node(i).state@ == hist0);
        } else if i < l0 {
            assert(t2.spec_node(i).unvisited_moves@ == t0.spec_node(i).unvisited_moves@);
            assert(t2.spec_node(i).state@ == t0.spec_node(i).state@);
            assert(child_moves::<G, A>(t2, i) =~= child_moves::<G, A>(t0, i)) by {
                let ci = t0.spec_children(i);
                assert(t2.spec_children(i) == ci);
                assert forall|k: int| 0 <= k < ci.len() implies t2.spec_node(ci[k] as int).state@
                    == t0.spec_node(ci[k] as int).state@ by {
                    assert((ci[k] as int) < l0);
                }
            }
        } else {
            assert(t2.spec_node(i).unvisited_moves@ == new_state.legal_moves_spec());
            assert(t2.spec_node(i).state@ == newh);
            assert(new_state == reconstructed(root_state, newh));
            assert(t2.spec_children(i).len() == 0);
            assert(child_moves::<G, A>(t2, i) =~= Seq::<G::Move>::empty());
            assert(child_moves::<G, A>(t2, i).to_multiset().len() == 0);
            assert(t2.spec_node(i).unvisited_moves@.to_multiset().add(
                child_moves::<G, A>(t2, i).to_multiset(),
            ) =~= t2.spec_node(i).unvisited_moves@.to_multiset());
        }
    }
    assert(coherent(t2, root_state));
}

/// Node `c` carries the maximal evaluator score among the children of its
/// parent: the witness that selection descended to `c` through `best_child`.
pub open spec fn picked_by_score<G: GameTrait, EV: Evaluator<G, A>, A: Default>(
    t: LazyMctsTree<G, A>,
    c: int,
    turn: G::Player,
    args: EV::Args,
) -> bool {
    forall|k: int|
        0 <= k < t.spec_children(t.spec_parent(c)).len() ==> EV::eval_spec(
            t.spec_node((#[trigger] t.spec_children(t.spec_parent(c))[k]) as int),
            turn,
            t.spec_node(t.spec_parent(c)).n_visits,
            args,
        ) <= EV::eval_spec(t.spec_node(c), turn, t.spec_node(t.spec_parent(c)).n_visits, args)
}

/// Explores each child of a node at least once before descending past it.

pub struct DefaultLazyTreePolicy<G: GameTrait, EV: Evaluator<G, A>, A: Default> {
    phantom_state: PhantomData<G>,
    phantom_ev: PhantomData<EV>,
    phantom_a: PhantomData<A>,
}

impl<G: GameTrait, EV: Evaluator<G, A>, A: Default> DefaultLazyTreePolicy<G, EV, A> {
    /// Descends from the root by best child until reaching a node that still
    /// has an unexpanded move or has no children yet. Every node passed
    /// through on the way was fully expanded and carried the maximal
    /// evaluator score among its siblings.
    pub fn select(tree: &LazyMctsTree<G, A>, turn: &G::Player, evaluator_args: &EV::Args) -> (r:
        NodeId)
        requires
            tree.wf(),
            stats_ok(*tree),
            EV::args_ok(*evaluator_args),
        ensures
            (r as int) < tree.spec_len(),
            tree.spec_node(r as int).unvisited_moves@.len() > 0 || tree.spec_children(
                r as int,
            ).len() == 0,
            tree.spec_children(0).len() == 0 ==> r == 0,
            tree.spec_node(0).unvisited_moves@.len() > 0 ==> r == 0,
            forall|j: int|
                #![auto]
                on_path(*tree, r as int, j) && j != r ==> tree.spec_node(
                    j,
                ).unvisited_moves@.len() == 0 && tree.spec_children(j).len() > 0,
            forall|c: int|
                #![auto]
                on_path(*tree, r as int, c) && c != 0 ==> picked_by_score::<G, EV, A>(
                    *tree,
                    c,
                    *turn,
                    *evaluator_args,
                ),
    {
        let mut current: usize = 0;
        loop
            invariant
                tree.wf(),
                stats_ok(*tree),
                EV::args_ok(*evaluator_args),
                (current as int) < tree.spec_len(),
                tree.spec_children(0).len() == 0 ==> current == 0,
                tree.spec_node(0).unvisited_moves@.len() > 0 ==> current == 0,
                forall|j: int|
                    #![auto]
                    on_path(*tree, current as int, j) && j != current ==> tree.spec_node(
                        j,
                    ).unvisited_moves@.len() == 0 && tree.spec_children(j).len() > 0,
                forall|c: int|
                    #![auto]
                    on_path(*tree, current as int, c) && c != 0 ==> picked_by_score::<G, EV, A>(
                        *tree,
                        c,
                        *turn,
                        *evaluator_args,
                    ),
            decreases tree.spec_len() - current,
        {
            if !tree.has_children(current) {
                return current;
            }
            if tree.node(current).can_add_child() {
                return current;
            }
            let next = <Self as LazyTreePolicy<G, EV, A>>::best_child(
                tree,
                turn,
                current,
                evaluator_args,
            );
            proof {
                let ch = tree.spec_children(current as int);
                assert(ch.contains(next));
                let k = choose|k: int| 0 <= k < ch.len() && ch[k] == next;
                assert((current as int) < (ch[k] as int) && (ch[k] as int) < tree.spec_len());
                assert(tree.spec_parent(next as int) == current as int);
                assert forall|j: int|
                    on_path(*tree, next as int, j) && j != next implies on_path(
                    *tree,
                    current as int,
                    j,
                ) by {}
                assert(picked_by_score::<G, EV, A>(*tree, next as int, *turn, *evaluator_args));
                assert forall|j: int|
                    #![auto]
                    on_path(*tree, next as int, j) && j != next implies tree.spec_node(
                        j,
                    ).unvisited_moves@.len() == 0 && tree.spec_children(j).len() > 0 by {
                    if j != current {
                        assert(on_path(*tree, current as int, j) && j != current);
                    }
                }
                assert forall|c: int|
                    #![auto]
                    on_path(*tree, next as int, c) && c != 0 implies picked_by_score::<G, EV, A>(
                        *tree,
                        c,
                        *turn,
                        *evaluator_args,
                    ) by {
                    if c != next {
                        assert(on_path(*tree, current as int, c) && c != 0);
                    }
                }
            }
            current = next;
        }
    }

    /// Reconstructs the chosen node's state; when the node still has an
    /// unexpanded move, plays one chosen uniformly at random, appends the new
    /// child and returns it together with the state after the move. A node
    /// with nothing left to expand is returned as it is.
    #[verifier::rlimit(100)]
    pub fn expand(tree: &mut LazyMctsTree<G, A>, node_id: NodeId, root_state: G) -> (r: (
        NodeId,
        G,
    ))
        requires
            old(tree).wf(),
            stats_ok(*old(tree)),
            coherent(*old(tree), root_state),
            (node_id as int) < old(tree).spec_len(),
            old(tree).spec_len() < 18446744073709551615u64,
        ensures
            final(tree).wf(),
            stats_ok(*final(tree)),
            coherent(*final(tree), root_state),
            old(tree).spec_len() <= final(tree).spec_len() <= old(tree).spec_len() + 1,
            (r.0 as int) < final(tree).spec_len(),
            forall|j: int|
                0 <= j < old(tree).spec_len() ==> (#[trigger] final(tree).spec_node(j)).n_visits
                    == old(tree).spec_node(j).n_visits && final(tree).spec_node(j).sum_rewards
                    == old(tree).spec_node(j).sum_rewards,
            forall|j: int|
                0 <= j < old(tree).spec_len() && j != node_id ==> #[trigger] final(tree).spec_children(j) == old(tree).spec_children(j),
            final(tree).spec_children(node_id as int).len() >= old(tree).spec_children(
                node_id as int,
            ).len(),
            old(tree).spec_node(node_id as int).unvisited_moves@.len() > 0 ==> final(tree).spec_children(node_id as int).len() == old(tree).spec_children(node_id as int).len()
                + 1,
            r.1 == reconstructed(root_state, final(tree).spec_node(r.0 as int).state@),
            old(tree).spec_node(node_id as int).unvisited_moves@.len() == 0 ==> *final(tree)
                == *old(tree) && r.0 == node_id,
            old(tree).spec_node(node_id as int).unvisited_moves@.len() > 0 ==> {
                let ni = node_id as int;
                let newi = old(tree).spec_len() as int;
                &&& final(tree).spec_len() == old(tree).spec_len() + 1
                &&& r.0 as int == newi
                &&& final(tree).spec_parent(newi) == ni
                &&& final(tree).spec_children(newi).len() == 0
                &&& final(tree).spec_node(newi).n_visits == 0
                &&& final(tree).spec_node(newi).sum_rewards == 0
                &&& final(tree).spec_node(newi).unvisited_moves@ == r.1.legal_moves_spec()
                &&& exists|mi: int|
                    #![auto]
                    0 <= mi < old(tree).spec_node(ni).unvisited_moves@.len() && final(tree).spec_node(ni).unvisited_moves@ == old(tree).spec_node(
                        ni,
                    ).unvisited_moves@.remove(mi) && final(tree).spec_node(newi).state@ == old(
                        tree,
                    ).spec_node(ni).state@.push(old(tree).spec_node(ni).unvisited_moves@[mi])
                &&& final(tree).spec_children(ni) == old(tree).spec_children(ni).push(r.0)
                &&& final(tree).spec_node(ni).unvisited_moves@.len() == old(tree).spec_node(
                    ni,
                ).unvisited_moves@.len() - 1
                &&& forall|j: int|
                    0 <= j < old(tree).spec_len() && j != ni ==> #[trigger] final(tree).spec_node(
                        j,
                    ) == old(tree).spec_node(j)
                &&& forall|j: int|
                    0 <= j < old(tree).spec_len() ==> #[trigger] final(tree).spec_parent(j) == old(
                        tree,
                    ).spec_parent(j)
                &&& final(tree).spec_node(ni).state == old(tree).spec_node(ni).state
                &&& final(tree).spec_node(ni).hash == old(tree).spec_node(ni).hash
                &&& final(tree).spec_node(ni).additional_info == old(tree).spec_node(
                    ni,
                ).additional_info
            },
    {
        let ghost t0 = *tree;
        let ghost hist0 = t0.spec_node(node_id as int).state@;
        let node_state: G = {
            let hist: &Vec<G::Move> = &tree.node(node_id).state;
            <Self as LazyTreePolicy<G, EV, A>>::update_state(root_state, hist)
        };
        if !tree.node(node_id).can_add_child() {
            proof {
                assert(tree.spec_node(node_id as int).state@ == hist0);
            }
            return (node_id, node_state);
        }
        let unvisited_len = tree.node(node_id).unvisited_moves.len();
        let idx = random_index(unvisited_len);
        let m: G::Move = tree.remove_unvisited(node_id, idx);
        let mut new_hist: Vec<G::Move> = clone_moves(&tree.node(node_id).state);
        new_hist.push(m);
        proof {
            broadcast use vstd::seq_lib::group_to_multiset_ensures;
            broadcast use vstd::multiset::group_multiset_axioms;

            let u0 = t0.spec_node(node_id as int).unvisited_moves@;
            assert(u0.contains(m)) by {
                assert(u0[idx as int] == m);
            }
            let leg = reconstructed(root_state, hist0).legal_moves_spec();
            assert(u0.to_multiset().add(child_moves::<G, A>(t0, node_id as int).to_multiset())
                == leg.to_multiset());
            assert(u0.to_multiset().count(m) > 0);
            assert(leg.to_multiset().count(m) > 0);
            assert(leg.contains(m));
            assert(new_hist@ == hist0.push(m));
            assert(new_hist@.drop_last() =~= hist0);
            assert(new_hist@.last() == m);
            assert(valid_history(root_state, hist0));
            assert(valid_history(root_state, new_hist@));
            assert(reconstructed(root_state, new_hist@) == reconstructed(
                root_state,
                hist0,
            ).next_spec(m));
        }
        let mut new_state = node_state;
        new_state.do_move(&m);
        let legals = new_state.legals_moves();
        let hashv = new_state.hash();
        let child_node: LazyMctsNode<G, A> = MctsNode {
            sum_rewards: 0u64,
            n_visits: 0u32,
            unvisited_moves: legals,
            hash: hashv,
            state: new_hist,
            additional_info: A::default(),
        };
        let new_id = tree.append_child(node_id, child_node);
        proof {
            lemma_expand_restores_invariants::<G, A>(
                t0,
                *tree,
                root_state,
                node_id as int,
                idx as int,
                m,
                new_id,
                new_state,
            );
            let t2 = *tree;
            let ni = node_id as int;
            let newi = t0.spec_len() as int;
            assert(t2.spec_node(newi).state@ == hist0.push(m));
            assert(new_state == reconstructed(root_state, t2.spec_node(newi).state@));
            assert(t2.spec_node(newi).unvisited_moves@ == new_state.legal_moves_spec());
            assert(0 <= idx < t0.spec_node(ni).unvisited_moves@.len() && t2.spec_node(
                ni,
            ).unvisited_moves@ == t0.spec_node(ni).unvisited_moves@.remove(idx as int)
                && t2.spec_node(newi).state@ == t0.spec_node(ni).state@.push(
                t0.spec_node(ni).unvisited_moves@[idx as int],
            ));
            assert forall|j: int|
                0 <= j < t0.spec_len() && j != ni implies #[trigger] t2.spec_node(j)
                == t0.spec_node(j) by {}
        }
        (new_id, new_state)
    }
}

impl<G: GameTrait, EV: Evaluator<G, A>, A: Default> LazyTreePolicy<G, EV, A> for DefaultLazyTreePolicy<
    G,
    EV,
    A,
> {
    fn tree_policy(tree: &mut LazyMctsTree<G, A>, root_state: G, evaluator_args: &EV::Args) -> (r:
        (NodeId, G)) {
        let turn = root_state.player_turn();
        let selected = Self::select(tree, &turn, evaluator_args);
        let ghost t0 = *tree;
        let r = Self::expand(tree, selected, root_state);
        proof {
            if t0.spec_children(0).len() == 0 && t0.spec_node(0).unvisited_moves@.len() > 0 {
                assert(selected == 0);
            }
        }
        r
    }

    fn best_child(
        tree: &LazyMctsTree<G, A>,
        turn: &G::Player,
        parent_id: NodeId,
        evaluator_args: &EV::Args,
    ) -> (r: NodeId) {
        let parent_visits = tree.node(parent_id).n_visits;
        let children: &Vec<usize> = tree.children_list(parent_id);
        let n = children.len();
        proof {
            assert(tree.spec_children(parent_id as int)[0] == children@[0]);
            lemma_child_stats::<G, A>(*tree, parent_id as int, 0);
        }
        let c0 = children[0];
        let mut best_id: usize = c0;
        let mut best_score: Num = EV::eval_child(tree.node(c0), turn, parent_visits, evaluator_args);
        let mut k: usize = 1;
        while k < n
            invariant
                tree.wf(),
                stats_ok(*tree),
                EV::args_ok(*evaluator_args),
                (parent_id as int) < tree.spec_len(),
                n == tree.spec_children(parent_id as int).len(),
                children@ == tree.spec_children(parent_id as int),
                1 <= k <= n,
                parent_visits == tree.spec_node(parent_id as int).n_visits,
                tree.spec_children(parent_id as int).contains(best_id),
                (best_id as int) < tree.spec_len(),
                best_score == EV::eval_spec(
                    tree.spec_node(best_id as int),
                    *turn,
                    parent_visits,
                    *evaluator_args,
                ),
                forall|kk: int|
                    0 <= kk < k ==> EV::eval_spec(
                        tree.spec_node(
                            (#[trigger] tree.spec_children(parent_id as int)[kk]) as int,
                        ),
                        *turn,
                        parent_visits,
                        *evaluator_args,
                    ) <= best_score,
            decreases n - k,
        {
            proof {
                lemma_child_stats::<G, A>(*tree, parent_id as int, k as int);
            }
            let c = children[k];
            let score = EV::eval_child(tree.node(c), turn, parent_visits, evaluator_args);
            if score > best_score {
                best_id = c;
                best_score = score;
            }
            k = k + 1;
        }
        best_id
    }
}

/// In a well-formed tree with dominating statistics, the `k`-th child of a
/// node is in range, points back to its parent, and its counters satisfy the
/// evaluator's preconditions.
proof fn lemma_child_stats<G: GameTrait, A>(t: LazyMctsTree<G, A>, p: int, k: int)
    requires
        t.wf(),
        stats_ok(t),
        0 <= p < t.spec_len(),
        0 <= k < t.spec_children(p).len(),
    ensures
        p < (t.spec_children(p)[k] as int) < t.spec_len(),
        t.spec_parent(t.spec_children(p)[k] as int) == p,
        t.spec_node(t.spec_children(p)[k] as int).n_visits <= t.spec_node(p).n_visits,
        t.spec_node(t.spec_children(p)[k] as int).sum_rewards <= t.spec_node(
            t.spec_children(p)[k] as int,
        ).n_visits * 4294967295,
{
    let c = t.spec_children(p)[k] as int;
    assert(t.spec_node(c).n_visits <= t.spec_node(t.spec_parent(c)).n_visits);
}

/// Uses UCT to evaluate nodes, and evaluates an end state with 1 if the
/// observed player won.
pub struct DefaultUctEvaluator;

impl<G: GameTrait, A> Evaluator<G, A> for DefaultUctEvaluator {
    /// The exploration constant, in fixed point with scale `SCALE`.
    type Args = u64;

    open spec fn args_ok(args: u64) -> bool {
        args <= C_MAX
    }

    open spec fn eval_spec(child: LazyMctsNode<G, A>, turn: G::Player, parent_visits: Nat, args: u64) -> Num {
        if child.n_visits == 0 {
            0
        } else {
            spec_uct(
                parent_visits as nat,
                child.sum_rewards as nat,
                child.n_visits as nat,
                args as nat,
            ) as u128
        }
    }

    open spec fn leaf_spec(state: G, turn: G::Player) -> u32 {
        if state.winner_spec() == turn {
            1
        } else {
            0
        }
    }

    fn eval_child(
        child: &LazyMctsNode<G, A>,
        turn: &G::Player,
        parent_visits: Nat,
        args: &u64,
    ) -> (r: Num) {
        if child.n_visits == 0 {
            0
        } else {
            uct_value(parent_visits, child.sum_rewards, child.n_visits, *args)
        }
    }

    fn evaluate_leaf(child: G, turn: &G::Player) -> (r: u32) {
        let w = child.get_winner();
        if G::players_equal(&w, turn) {
            1
        } else {
            0
        }
    }
}

} // verus!
