//! Standard rock-paper-scissors as a sequential game with imperfect
//! information.
//!
//! The first player commits a gesture, then the second player commits one
//! without having seen it: each player's observation of the opponent's move
//! is the `Unknown` sentinel, so the second player's lone information set
//! models the simultaneity.  Payoffs are +1 / 0 / -1 for the first player.

use crate::game_tree::{node_ok, GameTree, GameTreeNode};
use crate::game_tree::rules::{rules_sound, GameRules, Move, Observation, State};
use crate::ratio::Ratio;
use vstd::prelude::*;

verus! {

/// The standard rule set.
#[derive(Debug, Default, Copy, Clone, Ord, PartialOrd, Eq, PartialEq, Hash, Structural)]
pub struct RockPaperScissors {}

/// Which player made a move.
#[derive(Debug, Copy, Clone, Ord, PartialOrd, Eq, PartialEq, Hash, Structural)]
pub enum Player {
    First,
    Second,
}

impl Player {
    /// The player's index: 0 for the first player, 1 for the second.
    pub open spec fn spec_index(self) -> u8 {
        match self {
            Player::First => 0,
            Player::Second => 1,
        }
    }

    pub fn index(self) -> (r: u8)
        ensures
            r == self.spec_index(),
    {
        match self {
            Player::First => 0,
            Player::Second => 1,
        }
    }
}

/// A gesture together with the player who made it.
#[derive(Debug, Copy, Clone, Ord, PartialOrd, Eq, PartialEq, Hash, Structural)]
pub enum PlayerGesture {
    Rock(Player),
    Paper(Player),
    Scissors(Player),
}

impl PlayerGesture {
    /// The player who made the gesture.
    pub open spec fn spec_player(self) -> Player {
        match self {
            PlayerGesture::Rock(x) => x,
            PlayerGesture::Paper(x) => x,
            PlayerGesture::Scissors(x) => x,
        }
    }

    /// The gesture's cyclic rank: rock 0, paper 1, scissors 2.
    pub open spec fn spec_gesture(self) -> u8 {
        match self {
            PlayerGesture::Rock(_) => 0,
            PlayerGesture::Paper(_) => 1,
            PlayerGesture::Scissors(_) => 2,
        }
    }

    pub fn into_player(self) -> (r: Player)
        ensures
            r == self.spec_player(),
    {
        match self {
            PlayerGesture::Rock(x) => x,
            PlayerGesture::Paper(x) => x,
            PlayerGesture::Scissors(x) => x,
        }
    }

    pub fn to_gesture(self) -> (r: u8)
        ensures
            r == self.spec_gesture(),
    {
        match self {
            PlayerGesture::Rock(_) => 0,
            PlayerGesture::Paper(_) => 1,
            PlayerGesture::Scissors(_) => 2,
        }
    }
}

/// What a player sees of a move: the gesture if it is their own, the
/// `Unknown` sentinel if it is the opponent's.
#[derive(Debug, Copy, Clone, Ord, PartialOrd, Eq, PartialEq, Hash, Structural)]
pub enum Intent {
    Unknown,
    Rock,
    Paper,
    Scissors,
}

/// The first player's view of a move.
#[derive(Debug, Copy, Clone, PartialEq, Eq, Structural)]
pub struct FirstIntent(pub Intent);

/// The second player's view of a move.
#[derive(Debug, Copy, Clone, PartialEq, Eq, Structural)]
pub struct SecondIntent(pub Intent);

impl Move for PlayerGesture {
    fn eq_move(&self, other: &Self) -> (r: bool) {
        *self == *other
    }
}

/// The gesture of a move, with the player forgotten.
pub open spec fn spec_intent_of(m: PlayerGesture) -> Intent {
    match m {
        PlayerGesture::Rock(_) => Intent::Rock,
        PlayerGesture::Paper(_) => Intent::Paper,
        PlayerGesture::Scissors(_) => Intent::Scissors,
    }
}

fn intent_of(m: &PlayerGesture) -> (r: Intent)
    ensures
        r == spec_intent_of(*m),
{
    match m {
        PlayerGesture::Rock(_) => Intent::Rock,
        PlayerGesture::Paper(_) => Intent::Paper,
        PlayerGesture::Scissors(_) => Intent::Scissors,
    }
}

impl Observation<PlayerGesture> for FirstIntent {
    open spec fn spec_observe(m: PlayerGesture) -> Self {
        if m.spec_player() is First {
            FirstIntent(spec_intent_of(m))
        } else {
            FirstIntent(Intent::Unknown)
        }
    }

    fn observe(m: &PlayerGesture) -> (r: Self) {
        if m.into_player().index() == 0 {
            FirstIntent(intent_of(m))
        } else {
            FirstIntent(Intent::Unknown)
        }
    }

    fn eq_obs(&self, other: &Self) -> (r: bool) {
        *self == *other
    }
}

impl Observation<PlayerGesture> for SecondIntent {
    open spec fn spec_observe(m: PlayerGesture) -> Self {
        if m.spec_player() is Second {
            SecondIntent(spec_intent_of(m))
        } else {
            SecondIntent(Intent::Unknown)
        }
    }

    fn observe(m: &PlayerGesture) -> (r: Self) {
        if m.into_player().index() == 1 {
            SecondIntent(intent_of(m))
        } else {
            SecondIntent(Intent::Unknown)
        }
    }

    fn eq_obs(&self, other: &Self) -> (r: bool) {
        *self == *other
    }
}

/// Payoff of the first gesture against the second: +1 for a win, -1 for a
/// loss, 0 for a tie, by the cyclic order rock < paper < scissors < rock.
pub open spec fn spec_compare_gestures(a: PlayerGesture, b: PlayerGesture) -> Ratio {
    if a.spec_gesture() == b.spec_gesture() {
        Ratio { num: 0, den: 1 }
    } else if a.spec_gesture() == (b.spec_gesture() + 1) % 3 {
        Ratio { num: 1, den: 1 }
    } else {
        Ratio { num: -1i64, den: 1 }
    }
}

fn compare_gestures(a: PlayerGesture, b: PlayerGesture) -> (r: Ratio)
    ensures
        r == spec_compare_gestures(a, b),
{
    let ag = a.to_gesture();
    let bg = b.to_gesture();
    if ag == bg {
        Ratio::zero()
    } else if ag == (bg + 1) % 3 {
        Ratio::one()
    } else {
        Ratio::from_int(-1)
    }
}

impl GameRules<PlayerGesture, FirstIntent, SecondIntent> for RockPaperScissors {
    open spec fn spec_state(&self, moves: Seq<PlayerGesture>) -> State {
        if moves.len() == 0 {
            State::FirstToMove
        } else if moves.len() == 1 {
            State::SecondToMove
        } else {
            State::GameOver(spec_compare_gestures(moves[0], moves[1]))
        }
    }

    open spec fn spec_first_moves(&self, _obs: Seq<FirstIntent>) -> Seq<PlayerGesture> {
        seq![
            PlayerGesture::Rock(Player::First),
            PlayerGesture::Paper(Player::First),
            PlayerGesture::Scissors(Player::First),
        ]
    }

    open spec fn spec_second_moves(&self, _obs: Seq<SecondIntent>) -> Seq<PlayerGesture> {
        seq![
            PlayerGesture::Rock(Player::Second),
            PlayerGesture::Paper(Player::Second),
            PlayerGesture::Scissors(Player::Second),
        ]
    }

    open spec fn spec_random_event(&self, _moves: Seq<PlayerGesture>) -> Seq<(PlayerGesture, Ratio)> {
        Seq::empty()
    }

    open spec fn spec_horizon(&self) -> nat {
        2
    }

    proof fn lemma_horizon(&self, moves: Seq<PlayerGesture>) {
    }

    fn ask_arbiter(&self, moves: &Vec<PlayerGesture>) -> (s: State) {
        if moves.len() == 0 {
            State::FirstToMove
        } else if moves.len() == 1 {
            State::SecondToMove
        } else {
            State::GameOver(compare_gestures(moves[0], moves[1]))
        }
    }

    fn ask_first(&self, _moves: &Vec<FirstIntent>) -> (r: Vec<PlayerGesture>) {
        let mut r: Vec<PlayerGesture> = Vec::new();
        r.push(PlayerGesture::Rock(Player::First));
        r.push(PlayerGesture::Paper(Player::First));
        r.push(PlayerGesture::Scissors(Player::First));
        proof {
            assert(r@ =~= self.spec_first_moves(_moves@));
        }
        r
    }

    fn ask_second(&self, _moves: &Vec<SecondIntent>) -> (r: Vec<PlayerGesture>) {
        let mut r: Vec<PlayerGesture> = Vec::new();
        r.push(PlayerGesture::Rock(Player::Second));
        r.push(PlayerGesture::Paper(Player::Second));
        r.push(PlayerGesture::Scissors(Player::Second));
        proof {
            assert(r@ =~= self.spec_second_moves(_moves@));
        }
        r
    }

    fn random_event(&self, _moves: &Vec<PlayerGesture>) -> (r: Vec<(PlayerGesture, Ratio)>) {
        let r: Vec<(PlayerGesture, Ratio)> = Vec::new();
        proof {
            assert(r@ =~= Seq::<(PlayerGesture, Ratio)>::empty());
        }
        r
    }
}

/// The standard rules are sound, so tree construction is guaranteed to
/// succeed on them.
pub proof fn lemma_rock_paper_scissors_rules_sound(g: RockPaperScissors)
    ensures
        rules_sound::<PlayerGesture, FirstIntent, SecondIntent, RockPaperScissors>(g),
{
}

/// Every decision row of this game's tree lists distinct moves, so the
/// enumerated strategy catalogues are duplicate-free.
pub proof fn lemma_rock_paper_scissors_rows_distinct(t: GameTree<PlayerGesture, FirstIntent, SecondIntent, RockPaperScissors>)
    requires
        t.wf(),
    ensures
        t.decision_rows_distinct(),
{
    assert forall|v: int| 0 <= v < t.nodes@.len() implies match #[trigger] t.nodes@[v] {
        GameTreeNode::FirstMoves(row) => forall|j1: int, j2: int|
            0 <= j1 < j2 < row@.len() ==> (#[trigger] row@[j1]).0 != (#[trigger] row@[j2]).0,
        GameTreeNode::SecondMoves(row) => forall|j1: int, j2: int|
            0 <= j1 < j2 < row@.len() ==> (#[trigger] row@[j1]).0 != (#[trigger] row@[j2]).0,
        _ => true,
    } by {
        assert(node_ok::<PlayerGesture, FirstIntent, SecondIntent, RockPaperScissors>(t.rules, t.nodes@, t.hist(), v));
        match t.nodes@[v] {
            GameTreeNode::FirstMoves(row) => {
                assert forall|j1: int, j2: int|
                    0 <= j1 < j2 < row@.len() implies (#[trigger] row@[j1]).0 != (
                #[trigger] row@[j2]).0 by {
                    assert(row@[j1].0 == seq![PlayerGesture::Rock(Player::First), PlayerGesture::Paper(Player::First), PlayerGesture::Scissors(Player::First)][j1]);
                    assert(row@[j2].0 == seq![PlayerGesture::Rock(Player::First), PlayerGesture::Paper(Player::First), PlayerGesture::Scissors(Player::First)][j2]);
                }
            }
            GameTreeNode::SecondMoves(row) => {
                assert forall|j1: int, j2: int|
                    0 <= j1 < j2 < row@.len() implies (#[trigger] row@[j1]).0 != (
                #[trigger] row@[j2]).0 by {
                    assert(row@[j1].0 == seq![PlayerGesture::Rock(Player::Second), PlayerGesture::Paper(Player::Second), PlayerGesture::Scissors(Player::Second)][j1]);
                    assert(row@[j2].0 == seq![PlayerGesture::Rock(Player::Second), PlayerGesture::Paper(Player::Second), PlayerGesture::Scissors(Player::Second)][j2]);
                }
            }
            _ => {}
        }
    }
}

} // verus!
