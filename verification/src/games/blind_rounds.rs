//! A two-round commitment game played blind.
//!
//! The first player commits a bit, then commits a second bit without seeing
//! the first: every move projects to the empty `Veil` observation, so the
//! two depth-one positions form a single information set.  Matching bits
//! pay +1, differing bits pay -1.  With branching factor 2 over 2 blind
//! rounds the engine must find exactly 2 * 2 pure strategies.

use crate::game_tree::{node_ok, GameTree, GameTreeNode};
use crate::game_tree::rules::{rules_sound, GameRules, Move, Observation, State};
use crate::ratio::Ratio;
use vstd::prelude::*;

verus! {

/// The blind two-round rule set.
#[derive(Debug, Default, Copy, Clone, Ord, PartialOrd, Eq, PartialEq, Hash, Structural)]
pub struct BlindRounds {}

/// What the first player sees of any move: nothing.
#[derive(Debug, Default, Copy, Clone, Ord, PartialOrd, Eq, PartialEq, Hash, Structural)]
pub struct Veil {}

impl Observation<u8> for Veil {
    open spec fn spec_observe(_m: u8) -> Self {
        Veil {}
    }

    fn observe(_m: &u8) -> (r: Self) {
        Veil {}
    }

    fn eq_obs(&self, other: &Self) -> (r: bool) {
        *self == *other
    }
}

impl GameRules<u8, Veil, u8> for BlindRounds {
    open spec fn spec_state(&self, moves: Seq<u8>) -> State {
        if moves.len() < 2 {
            State::FirstToMove
        } else if moves[0] == moves[1] {
            State::GameOver(Ratio { num: 1, den: 1 })
        } else {
            State::GameOver(Ratio { num: -1i64, den: 1 })
        }
    }

    open spec fn spec_first_moves(&self, _obs: Seq<Veil>) -> Seq<u8> {
        seq![0u8, 1u8]
    }

    open spec fn spec_second_moves(&self, _obs: Seq<u8>) -> Seq<u8> {
        Seq::empty()
    }

    open spec fn spec_random_event(&self, _moves: Seq<u8>) -> Seq<(u8, Ratio)> {
        Seq::empty()
    }

    open spec fn spec_horizon(&self) -> nat {
        2
    }

    proof fn lemma_horizon(&self, moves: Seq<u8>) {
    }

    fn ask_arbiter(&self, moves: &Vec<u8>) -> (s: State) {
        if moves.len() < 2 {
            State::FirstToMove
        } else if moves[0] == moves[1] {
            State::GameOver(Ratio::one())
        } else {
            State::GameOver(Ratio::from_int(-1))
        }
    }

    fn ask_first(&self, _moves: &Vec<Veil>) -> (r: Vec<u8>) {
        let mut r: Vec<u8> = Vec::new();
        r.push(0);
        r.push(1);
        proof {
            assert(r@ =~= seq![0u8, 1u8]);
        }
        r
    }

    fn ask_second(&self, _moves: &Vec<u8>) -> (r: Vec<u8>) {
        let r: Vec<u8> = Vec::new();
        proof {
            assert(r@ =~= Seq::<u8>::empty());
        }
        r
    }

    fn random_event(&self, _moves: &Vec<u8>) -> (r: Vec<(u8, Ratio)>) {
        let r: Vec<(u8, Ratio)> = Vec::new();
        proof {
            assert(r@ =~= Seq::<(u8, Ratio)>::empty());
        }
        r
    }
}

/// The blind two-round rules are sound, so tree construction is guaranteed
/// to succeed on them.
pub proof fn lemma_blind_rounds_rules_sound(g: BlindRounds)
    ensures
        rules_sound::<u8, Veil, u8, BlindRounds>(g),
{
}

/// Every decision row of this game's tree lists distinct moves, so the
/// enumerated strategy catalogues are duplicate-free.
pub proof fn lemma_blind_rounds_rows_distinct(t: GameTree<u8, Veil, u8, BlindRounds>)
    requires
        t.wf(),
    ensures
        t.decision_rows_distinct(),
{
    assert forall|v: int| 0 <= v < t.nodes@.len() implies match #[trigger] t.nodes@[v] {
        GameTreeNode::FirstMoves(row) => forall|j1: int, j2: int|
            0 <= j1 < j2 < row@.len() ==> (#[trigger] row@[j1]).0 != (#[trigger] row@[j2]).0,
        GameTreeNode::SecondMoves(row) => forall|j1: int, j2: int|
            0 <= j1 < j2 < row@.len() ==> (#[trigger] row@[j1]).0 != (#[trigger] row@[j2]).0,
        _ => true,
    } by {
        assert(node_ok::<u8, Veil, u8, BlindRounds>(t.rules, t.nodes@, t.hist(), v));
        match t.nodes@[v] {
            GameTreeNode::FirstMoves(row) => {
                assert forall|j1: int, j2: int|
                    0 <= j1 < j2 < row@.len() implies (#[trigger] row@[j1]).0 != (
                #[trigger] row@[j2]).0 by {
                    assert(row@[j1].0 == seq![0u8, 1u8][j1]);
                    assert(row@[j2].0 == seq![0u8, 1u8][j2]);
                }
            }
            GameTreeNode::SecondMoves(row) => {
                assert(row@.len() == 0);
            }
            _ => {}
        }
    }
}

/// In this game the second player never moves: no node of a well-formed
/// tree is a second-player decision, so the second-player catalogue is
/// exactly the single empty strategy.
pub proof fn lemma_blind_rounds_no_second_decisions(t: GameTree<u8, Veil, u8, BlindRounds>)
    requires
        t.wf(),
    ensures
        t.no_second_decisions(),
{
    assert forall|v: int|
        0 <= v < t.nodes@.len() implies !((#[trigger] t.nodes@[v]) is SecondMoves) by {
        assert(node_ok::<u8, Veil, u8, BlindRounds>(t.rules, t.nodes@, t.hist(), v));
    }
}

} // verus!
