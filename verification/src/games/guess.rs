//! A one-shot guessing game against chance.
//!
//! The first player picks a number from {0, 1, 2}; chance then reveals 0
//! with probability 1/4 or 2 with probability 3/4.  A match pays +1, a miss
//! pays -1.  Both players observe everything, so observations are the moves
//! themselves.

use crate::game_tree::{node_ok, GameTree, GameTreeNode};
use crate::game_tree::rules::{
    distribution_sound, near_one, probs_of, rules_sound, sum_fits, sum_ratios, GameRules, Move,
    Observation, State,
};
use crate::ratio::{q_add, Ratio};
use vstd::prelude::*;

verus! {

/// The guessing game's rule set.
#[derive(Debug, Default, Copy, Clone, Ord, PartialOrd, Eq, PartialEq, Hash, Structural)]
pub struct Guess {}

impl Move for u8 {
    fn eq_move(&self, other: &Self) -> (r: bool) {
        *self == *other
    }
}

impl Observation<u8> for u8 {
    open spec fn spec_observe(m: u8) -> Self {
        m
    }

    fn observe(m: &u8) -> (r: Self) {
        *m
    }

    fn eq_obs(&self, other: &Self) -> (r: bool) {
        *self == *other
    }
}

impl GameRules<u8, u8, u8> for Guess {
    open spec fn spec_state(&self, moves: Seq<u8>) -> State {
        if moves.len() == 0 {
            State::FirstToMove
        } else if moves.len() == 1 {
            State::RandomEvent
        } else if moves[0] == moves[1] {
            State::GameOver(Ratio { num: 1, den: 1 })
        } else {
            State::GameOver(Ratio { num: -1i64, den: 1 })
        }
    }

    open spec fn spec_first_moves(&self, _obs: Seq<u8>) -> Seq<u8> {
        seq![0u8, 1u8, 2u8]
    }

    open spec fn spec_second_moves(&self, _obs: Seq<u8>) -> Seq<u8> {
        Seq::empty()
    }

    open spec fn spec_random_event(&self, _moves: Seq<u8>) -> Seq<(u8, Ratio)> {
        seq![(0u8, Ratio { num: 1, den: 4 }), (2u8, Ratio { num: 3, den: 4 })]
    }

    open spec fn spec_horizon(&self) -> nat {
        2
    }

    proof fn lemma_horizon(&self, moves: Seq<u8>) {
    }

    fn ask_arbiter(&self, moves: &Vec<u8>) -> (s: State) {
        if moves.len() == 0 {
            State::FirstToMove
        } else if moves.len() == 1 {
            State::RandomEvent
        } else if moves[0] == moves[1] {
            State::GameOver(Ratio::one())
        } else {
            State::GameOver(Ratio::from_int(-1))
        }
    }

    fn ask_first(&self, _moves: &Vec<u8>) -> (r: Vec<u8>) {
        let mut r: Vec<u8> = Vec::new();
        r.push(0);
        r.push(1);
        r.push(2);
        proof {
            assert(r@ =~= seq![0u8, 1u8, 2u8]);
        }
        r
    }

    fn ask_second(&self, _moves: &Vec<u8>) -> (r: Vec<u8>) {
        let r: Vec<u8> = Vec::new();
        proof {
            assert(r@ =~= Seq::<u8>::empty());
        }
        r
    }

    fn random_event(&self, _moves: &Vec<u8>) -> (r: Vec<(u8, Ratio)>) {
        let mut r: Vec<(u8, Ratio)> = Vec::new();
        r.push((0, Ratio::new(1, 4)));
        r.push((2, Ratio::new(3, 4)));
        proof {
            assert(r@ =~= seq![(0u8, Ratio { num: 1, den: 4 }), (2u8, Ratio { num: 3, den: 4 })]);
        }
        r
    }
}

/// The guessing game's rules are sound, so tree construction is guaranteed
/// to succeed on them.
pub proof fn lemma_guess_rules_sound(g: Guess)
    ensures
        rules_sound::<u8, u8, u8, Guess>(g),
{
    let p1 = Ratio { num: 1, den: 4 };
    let p2 = Ratio { num: 3, den: 4 };
    let ev = seq![(0u8, p1), (2u8, p2)];
    let probs = seq![p1, p2];
    assert(probs_of(ev) =~= probs);
    assert(probs.drop_last() =~= seq![p1]);
    assert(seq![p1].drop_last() =~= Seq::<Ratio>::empty());
    assert(sum_ratios(Seq::<Ratio>::empty()) == (0int, 1int));
    assert(sum_ratios(seq![p1]) == q_add((0int, 1int), (1int, 4int)));
    assert(sum_ratios(probs) == q_add((1int, 4int), (3int, 4int)));
    assert(sum_ratios(probs) == (16int, 16int));
    assert(near_one((16int, 16int)));
    assert(sum_fits(Seq::<Ratio>::empty()));
    assert(sum_fits(seq![p1]));
    assert(sum_fits(probs));
    assert(distribution_sound(ev));
    assert forall|h: Seq<u8>| g.spec_state(h) is RandomEvent implies distribution_sound(
        #[trigger] g.spec_random_event(h),
    ) by {
        assert(g.spec_random_event(h) =~= ev);
    }
}

/// Every decision row of a guessing-game tree lists distinct moves, so the
/// enumerated strategy catalogues are duplicate-free.
pub proof fn lemma_guess_rows_distinct(t: GameTree<u8, u8, u8, Guess>)
    requires
        t.wf(),
    ensures
        t.decision_rows_distinct(),
{
    assert forall|v: int| 0 <= v < t.nodes@.len() implies match #[trigger] t.nodes@[v] {
        GameTreeNode::FirstMoves(row) => forall|j1: int, j2: int|
            0 <= j1 < j2 < row@.len() ==> (#[trigger] row@[j1]).0 != (#[trigger] row@[j2]).0,
        GameTreeNode::SecondMoves(row) => forall|j1: int, j2: int|
            0 <= j1 < j2 < row@.len() ==> (#[trigger] row@[j1]).0 != (#[trigger] row@[j2]).0,
        _ => true,
    } by {
        assert(node_ok::<u8, u8, u8, Guess>(t.rules, t.nodes@, t.hist(), v));
        match t.nodes@[v] {
            GameTreeNode::FirstMoves(row) => {
                let mv = t.rules.spec_first_moves(Seq::<u8>::empty());
                assert forall|j1: int, j2: int|
                    0 <= j1 < j2 < row@.len() implies (#[trigger] row@[j1]).0 != (
                #[trigger] row@[j2]).0 by {
                    assert(row@[j1].0 == seq![0u8, 1u8, 2u8][j1]);
                    assert(row@[j2].0 == seq![0u8, 1u8, 2u8][j2]);
                }
            }
            GameTreeNode::SecondMoves(row) => {
                assert(row@.len() == 0);
            }
            _ => {}
        }
    }
}

/// In this game the second player never moves: no node of a well-formed
/// tree is a second-player decision, so the second-player catalogue is
/// exactly the single empty strategy.
pub proof fn lemma_guess_no_second_decisions(t: GameTree<u8, u8, u8, Guess>)
    requires
        t.wf(),
    ensures
        t.no_second_decisions(),
{
    assert forall|v: int|
        0 <= v < t.nodes@.len() implies !((#[trigger] t.nodes@[v]) is SecondMoves) by {
        assert(node_ok::<u8, u8, u8, Guess>(t.rules, t.nodes@, t.hist(), v));
    }
}

} // verus!
