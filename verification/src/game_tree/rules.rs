//! The capability contract a pluggable game must satisfy.
//!
//! A game supplies a move type, one observation type per player (a possibly
//! lossy projection of a move, modelling imperfect information), and a rule
//! set: a pure turn-decision function over the full history, legal-move
//! generators over each player's observation history, and a chance
//! distribution.  The engine never looks inside these types; it relies only
//! on the specifications below.

use crate::ratio::Ratio;
use vstd::prelude::*;

verus! {

/// An atomic action taken by a player or by chance.
pub trait Move: Copy + Sized {
    /// Executable equality test, agreeing with mathematical equality.
    fn eq_move(&self, other: &Self) -> (r: bool)
        ensures
            r == (*self == *other),
    ;
}

/// A player-specific, possibly lossy view of a move.
pub trait Observation<M: Move>: Copy + Sized {
    /// The projection of a move into what this player can see.
    spec fn spec_observe(m: M) -> Self;

    fn observe(m: &M) -> (r: Self)
        ensures
            r == Self::spec_observe(*m),
    ;

    /// Executable equality test, agreeing with mathematical equality.
    fn eq_obs(&self, other: &Self) -> (r: bool)
        ensures
            r == (*self == *other),
    ;
}

/// The projection of a whole history into one player's observation history.
pub open spec fn project<M: Move, O: Observation<M>>(h: Seq<M>) -> Seq<O> {
    h.map(|_i: int, m: M| O::spec_observe(m))
}

/// What the arbiter says happens next for a given full history.
#[derive(Clone, Copy, Debug, PartialEq, Eq, Structural)]
pub enum State {
    RandomEvent,
    FirstToMove,
    SecondToMove,
    GameOver(Ratio),
}

/// The rule set of a game: a pure function of the history.
///
/// Each executable method is pinned to a specification function, so the
/// engine's contracts can speak about the game being expanded.  The horizon
/// bounds the depth of any play, which makes tree construction terminate.
pub trait GameRules<M: Move, F: Observation<M>, S: Observation<M>>: Sized {
    /// The state the rules assign to a full history.
    spec fn spec_state(&self, moves: Seq<M>) -> State;

    /// Legal moves for the first player at an information set.
    spec fn spec_first_moves(&self, obs: Seq<F>) -> Seq<M>;

    /// Legal moves for the second player at an information set.
    spec fn spec_second_moves(&self, obs: Seq<S>) -> Seq<M>;

    /// Chance outcomes with their probabilities.
    spec fn spec_random_event(&self, moves: Seq<M>) -> Seq<(M, Ratio)>;

    /// A depth bound: histories at least this long are terminal.
    spec fn spec_horizon(&self) -> nat;

    /// Obligation on the plugin: the horizon really bounds play.
    proof fn lemma_horizon(&self, moves: Seq<M>)
        ensures
            moves.len() >= self.spec_horizon() ==> self.spec_state(moves) is GameOver,
    ;

    fn ask_arbiter(&self, moves: &Vec<M>) -> (s: State)
        ensures
            s == self.spec_state(moves@),
    ;

    fn ask_first(&self, moves: &Vec<F>) -> (r: Vec<M>)
        ensures
            r@ == self.spec_first_moves(moves@),
    ;

    fn ask_second(&self, moves: &Vec<S>) -> (r: Vec<M>)
        ensures
            r@ == self.spec_second_moves(moves@),
    ;

    fn random_event(&self, moves: &Vec<M>) -> (r: Vec<(M, Ratio)>)
        ensures
            r@ == self.spec_random_event(moves@),
    ;
}

/// A rule set is sound when every history it could ever be asked about is
/// answered coherently: decision states offer at least one legal move, and
/// chance states offer a well-formed distribution whose running sums stay
/// representable and whose total is one within tolerance.  Tree construction
/// is guaranteed to succeed on sound rules.
pub open spec fn rules_sound<M: Move, F: Observation<M>, S: Observation<M>, R: GameRules<M, F, S>>(
    rules: R,
) -> bool {
    forall|h: Seq<M>|
        {
            &&& (#[trigger] rules.spec_state(h)) is FirstToMove ==> rules.spec_first_moves(
                project::<M, F>(h),
            ).len() > 0
            &&& rules.spec_state(h) is SecondToMove ==> rules.spec_second_moves(
                project::<M, S>(h),
            ).len() > 0
            &&& rules.spec_state(h) is RandomEvent ==> distribution_sound(
                rules.spec_random_event(h),
            )
            &&& rules.spec_state(h) is GameOver ==> rules.spec_state(h)->GameOver_0.wf()
        }
}

/// Probabilities of a sequence of chance outcomes.
pub open spec fn probs_of<M>(events: Seq<(M, Ratio)>) -> Seq<Ratio> {
    events.map(|_i: int, e: (M, Ratio)| e.1)
}

/// The exact, unnormalized left-to-right sum of a sequence of ratios,
/// starting from zero.
pub open spec fn sum_ratios(probs: Seq<Ratio>) -> crate::ratio::QVal
    decreases probs.len(),
{
    if probs.len() == 0 {
        (0int, 1int)
    } else {
        crate::ratio::q_add(sum_ratios(probs.drop_last()), probs.last().v())
    }
}

/// The exact running sums of a left-to-right summation stay representable.
pub open spec fn sum_fits(probs: Seq<Ratio>) -> bool
    decreases probs.len(),
{
    if probs.len() == 0 {
        true
    } else {
        sum_fits(probs.drop_last()) && {
            let acc = sum_ratios(probs.drop_last());
            let p = probs.last().v();
            &&& i64::MIN < acc.0 * p.1 + p.0 * acc.1 <= i64::MAX
            &&& acc.1 * p.1 <= u64::MAX
        }
    }
}

/// The named tolerance for validating a chance distribution: probabilities
/// must sum to one within `1 / CHANCE_TOLERANCE_DEN`.
pub const CHANCE_TOLERANCE_DEN: u64 = 1_000_000;

/// Whether an exact rational value lies within tolerance of one.
pub open spec fn near_one(s: crate::ratio::QVal) -> bool {
    &&& s.1 >= 1
    &&& (if s.0 - s.1 >= 0 {
        s.0 - s.1
    } else {
        s.1 - s.0
    }) * CHANCE_TOLERANCE_DEN <= s.1
}

/// A chance distribution is sound when each probability is well-formed and
/// non-negative, the running sums stay representable, and the total is one
/// within tolerance.
pub open spec fn distribution_sound<M>(events: Seq<(M, Ratio)>) -> bool {
    &&& forall|j: int|
        0 <= j < events.len() ==> (#[trigger] events[j].1).wf() && events[j].1.num >= 0
    &&& sum_fits(probs_of(events))
    &&& near_one(sum_ratios(probs_of(events)))
}

} // verus!
