//! Rock-paper-scissors with a configurable twist on the double-Paper tie.
//!
//! Identical to the standard game except that two Papers pay the first
//! player the configured twist value instead of 0.  At a twist of zero the
//! rule set reduces exactly to the standard game.

use crate::game_tree::{node_ok, GameTree, GameTreeNode};
use crate::game_tree::rules::{rules_sound, GameRules, Move, Observation, State};
use crate::ratio::Ratio;
use vstd::prelude::*;

verus! {

/// The twisted rule set; `twist` is the first player's payoff when both
/// players show Paper.
#[derive(Debug, Copy, Clone, Eq, PartialEq, Hash, Structural)]
pub struct TwistedRockPaperScissors {
    pub twist: Ratio,
}

impl TwistedRockPaperScissors {
    pub fn new(twist: Ratio) -> (r: Self)
        requires
            twist.wf(),
        ensures
            r.twist == twist,
    {
        TwistedRockPaperScissors { twist }
    }
}

/// Which player made a move.
#[derive(Debug, Copy, Clone, Ord, PartialOrd, Eq, PartialEq, Hash, Structural)]
pub enum Player {
    First,
    Second,
}

impl Player {
    /// The player's index: 0 for the first player, 1 for the second.
    pub open spec fn spec_index(self) -> u8 {
        match self {
            Player::First => 0,
            Player::Second => 1,
        }
    }

    pub fn index(self) -> (r: u8)
        ensures
            r == self.spec_index(),
    {
        match self {
            Player::First => 0,
            Player::Second => 1,
        }
    }
}

/// A gesture together with the player who made it.
#[derive(Debug, Copy, Clone, Ord, PartialOrd, Eq, PartialEq, Hash, Structural)]
pub enum PlayerGesture {
    Rock(Player),
    Paper(Player),
    Scissors(Player),
}

impl PlayerGesture {
    /// The player who made the gesture.
    pub open spec fn spec_player(self) -> Player {
        match self {
            PlayerGesture::Rock(x) => x,
            PlayerGesture::Paper(x) => x,
            PlayerGesture::Scissors(x) => x,
        }
    }

    /// The gesture's cyclic rank: rock 0, paper 1, scissors 2.
    pub open spec fn spec_gesture(self) -> u8 {
        match self {
            PlayerGesture::Rock(_) => 0,
            PlayerGesture::Paper(_) => 1,
            PlayerGesture::Scissors(_) => 2,
        }
    }

    pub fn into_player(self) -> (r: Player)
        ensures
            r == self.spec_player(),
    {
        match self {
            PlayerGesture::Rock(x) => x,
            PlayerGesture::Paper(x) => x,
            PlayerGesture::Scissors(x) => x,
        }
    }

    pub fn to_gesture(self) -> (r: u8)
        ensures
            r == self.spec_gesture(),
    {
        match self {
            PlayerGesture::Rock(_) => 0,
            PlayerGesture::Paper(_) => 1,
            PlayerGesture::Scissors(_) => 2,
        }
    }
}

/// What a player sees of a move: the gesture if it is their own, the
/// `Unknown` sentinel if it is the opponent's.
#[derive(Debug, Copy, Clone, Ord, PartialOrd, Eq, PartialEq, Hash, Structural)]
pub enum Intent {
    Unknown,
    Rock,
    Paper,
    Scissors,
}

/// The first player's view of a move.
#[derive(Debug, Copy, Clone, PartialEq, Eq, Structural)]
pub struct FirstIntent(pub Intent);

/// The second player's view of a move.
#[derive(Debug, Copy, Clone, PartialEq, Eq, Structural)]
pub struct SecondIntent(pub Intent);

impl Move for PlayerGesture {
    fn eq_move(&self, other: &Self) -> (r: bool) {
        *self == *other
    }
}

/// The gesture of a move, with the player forgotten.
pub open spec fn spec_intent_of(m: PlayerGesture) -> Intent {
    match m {
        PlayerGesture::Rock(_) => Intent::Rock,
        PlayerGesture::Paper(_) => Intent::Paper,
        PlayerGesture::Scissors(_) => Intent::Scissors,
    }
}

fn intent_of(m: &PlayerGesture) -> (r: Intent)
    ensures
        r == spec_intent_of(*m),
{
    match m {
        PlayerGesture::Rock(_) => Intent::Rock,
        PlayerGesture::Paper(_) => Intent::Paper,
        PlayerGesture::Scissors(_) => Intent::Scissors,
    }
}

impl Observation<PlayerGesture> for FirstIntent {
    open spec fn spec_observe(m: PlayerGesture) -> Self {
        if m.spec_player() is First {
            FirstIntent(spec_intent_of(m))
        } else {
            FirstIntent(Intent::Unknown)
        }
    }

    fn observe(m: &PlayerGesture) -> (r: Self) {
        if m.into_player().index() == 0 {
            FirstIntent(intent_of(m))
        } else {
            FirstIntent(Intent::Unknown)
        }
    }

    fn eq_obs(&self, other: &Self) -> (r: bool) {
        *self == *other
    }
}

impl Observation<PlayerGesture> for SecondIntent {
    open spec fn spec_observe(m: PlayerGesture) -> Self {
        if m.spec_player() is Second {
            SecondIntent(spec_intent_of(m))
        } else {
            SecondIntent(Intent::Unknown)
        }
    }

    fn observe(m: &PlayerGesture) -> (r: Self) {
        if m.into_player().index() == 1 {
            SecondIntent(intent_of(m))
        } else {
            SecondIntent(Intent::Unknown)
        }
    }

    fn eq_obs(&self, other: &Self) -> (r: bool) {
        *self == *other
    }
}

/// Payoff of the first gesture against the second: +1 for a win, -1 for a
/// loss, 0 for a tie — except that a double-Paper tie pays `twist`.
pub open spec fn spec_compare_gestures(twist: Ratio, a: PlayerGesture, b: PlayerGesture) -> Ratio {
    if a.spec_gesture() == b.spec_gesture() {
        if a.spec_gesture() == 1 {
            twist
        } else {
            Ratio { num: 0, den: 1 }
        }
    } else if a.spec_gesture() == (b.spec_gesture() + 1) % 3 {
        Ratio { num: 1, den: 1 }
    } else {
        Ratio { num: -1i64, den: 1 }
    }
}

fn compare_gestures(twist: Ratio, a: PlayerGesture, b: PlayerGesture) -> (r: Ratio)
    ensures
        r == spec_compare_gestures(twist, a, b),
{
    let ag = a.to_gesture();
    let bg = b.to_gesture();
    if ag == bg {
        if ag == 1 {
            twist
        } else {
            Ratio::zero()
        }
    } else if ag == (bg + 1) % 3 {
        Ratio::one()
    } else {
        Ratio::from_int(-1)
    }
}

impl GameRules<PlayerGesture, FirstIntent, SecondIntent> for TwistedRockPaperScissors {
    open spec fn spec_state(&self, moves: Seq<PlayerGesture>) -> State {
        if moves.len() == 0 {
            State::FirstToMove
        } else if moves.len() == 1 {
            State::SecondToMove
        } else {
            State::GameOver(spec_compare_gestures(self.twist, moves[0], moves[1]))
        }
    }

    open spec fn spec_first_moves(&self, _obs: Seq<FirstIntent>) -> Seq<PlayerGesture> {
        seq![
            PlayerGesture::Rock(Player::First),
            PlayerGesture::Paper(Player::First),
            PlayerGesture::Scissors(Player::First),
        ]
    }

    open spec fn spec_second_moves(&self, _obs: Seq<SecondIntent>) -> Seq<PlayerGesture> {
        seq![
            PlayerGesture::Rock(Player::Second),
            PlayerGesture::Paper(Player::Second),
            PlayerGesture::Scissors(Player::Second),
        ]
    }

    open spec fn spec_random_event(&self, _moves: Seq<PlayerGesture>) -> Seq<(PlayerGesture, Ratio)> {
        Seq::empty()
    }

    open spec fn spec_horizon(&self) -> nat {
        2
    }

    proof fn lemma_horizon(&self, moves: Seq<PlayerGesture>) {
    }

    fn ask_arbiter(&self, moves: &Vec<PlayerGesture>) -> (s: State) {
        if moves.len() == 0 {
            State::FirstToMove
        } else if moves.len() == 1 {
            State::SecondToMove
        } else {
            State::GameOver(compare_gestures(self.twist, moves[0], moves[1]))
        }
    }

    fn ask_first(&self, _moves: &Vec<FirstIntent>) -> (r: Vec<PlayerGesture>) {
        let mut r: Vec<PlayerGesture> = Vec::new();
        r.push(PlayerGesture::Rock(Player::First));
        r.push(PlayerGesture::Paper(Player::First));
        r.push(PlayerGesture::Scissors(Player::First));
        proof {
            assert(r@ =~= self.spec_first_moves(_moves@));
        }
        r
    }

    fn ask_second(&self, _moves: &Vec<SecondIntent>) -> (r: Vec<PlayerGesture>) {
        let mut r: Vec<PlayerGesture> = Vec::new();
        r.push(PlayerGesture::Rock(Player::Second));
        r.push(PlayerGesture::Paper(Player::Second));
        r.push(PlayerGesture::Scissors(Player::Second));
        proof {
            assert(r@ =~= self.spec_second_moves(_moves@));
        }
        r
    }

    fn random_event(&self, _moves: &Vec<PlayerGesture>) -> (r: Vec<(PlayerGesture, Ratio)>) {
        let r: Vec<(PlayerGesture, Ratio)> = Vec::new();
        proof {
            assert(r@ =~= Seq::<(PlayerGesture, Ratio)>::empty());
        }
        r
    }
}

/// The twisted rules are sound whenever the twist is a well-formed payoff,
/// so tree construction is guaranteed to succeed on them.
pub proof fn lemma_twisted_rules_sound(g: TwistedRockPaperScissors)
    requires
        g.twist.wf(),
    ensures
        rules_sound::<PlayerGesture, FirstIntent, SecondIntent, TwistedRockPaperScissors>(g),
{
}

/// At a twist of zero the payoff rule reduces exactly to the standard
/// game's: for gestures of equal rank the two rule sets assign the same
/// payoff to every pair of moves.
pub proof fn lemma_zero_twist_matches_standard(
    a: PlayerGesture,
    b: PlayerGesture,
    sa: crate::games::rock_paper_scissors::PlayerGesture,
    sb: crate::games::rock_paper_scissors::PlayerGesture,
)
    requires
        a.spec_gesture() == sa.spec_gesture(),
        b.spec_gesture() == sb.spec_gesture(),
    ensures
        spec_compare_gestures(Ratio { num: 0, den: 1 }, a, b)
            == crate::games::rock_paper_scissors::spec_compare_gestures(sa, sb),
{
}

/// Every decision row of this game's tree lists distinct moves, so the
/// enumerated strategy catalogues are duplicate-free.
pub proof fn lemma_twisted_rows_distinct(t: GameTree<PlayerGesture, FirstIntent, SecondIntent, TwistedRockPaperScissors>)
    requires
        t.wf(),
    ensures
        t.decision_rows_distinct(),
{
    assert forall|v: int| 0 <= v < t.nodes@.len() implies match #[trigger] t.nodes@[v] {
        GameTreeNode::FirstMoves(row) => forall|j1: int, j2: int|
            0 <= j1 < j2 < row@.len() ==> (#[trigger] row@[j1]).0 != (#[trigger] row@[j2]).0,
        GameTreeNode::SecondMoves(row) => forall|j1: int, j2: int|
            0 <= j1 < j2 < row@.len() ==> (#[trigger] row@[j1]).0 != (#[trigger] row@[j2]).0,
        _ => true,
    } by {
        assert(node_ok::<PlayerGesture, FirstIntent, SecondIntent, TwistedRockPaperScissors>(t.rules, t.nodes@, t.hist(), v));
        match t.nodes@[v] {
            GameTreeNode::FirstMoves(row) => {
                assert forall|j1: int, j2: int|
                    0 <= j1 < j2 < row@.len() implies (#[trigger] row@[j1]).0 != (
                #[trigger] row@[j2]).0 by {
                    assert(row@[j1].0 == seq![PlayerGesture::Rock(Player::First), PlayerGesture::Paper(Player::First), PlayerGesture::Scissors(Player::First)][j1]);
                    assert(row@[j2].0 == seq![PlayerGesture::Rock(Player::First), PlayerGesture::Paper(Player::First), PlayerGesture::Scissors(Player::First)][j2]);
                }
            }
            GameTreeNode::SecondMoves(row) => {
                assert forall|j1: int, j2: int|
                    0 <= j1 < j2 < row@.len() implies (#[trigger] row@[j1]).0 != (
                #[trigger] row@[j2]).0 by {
                    assert(row@[j1].0 == seq![PlayerGesture::Rock(Player::Second), PlayerGesture::Paper(Player::Second), PlayerGesture::Scissors(Player::Second)][j1]);
                    assert(row@[j2].0 == seq![PlayerGesture::Rock(Player::Second), PlayerGesture::Paper(Player::Second), PlayerGesture::Scissors(Player::Second)][j2]);
                }
            }
            _ => {}
        }
    }
}

} // verus!
