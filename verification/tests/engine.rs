use gametree::game_tree::strategy::NaiveStrategy;
use gametree::game_tree::{BuildError, GameTree, GameTreeNode, Play};
use gametree::games::blind_rounds::{BlindRounds, Veil};
use gametree::games::guess::Guess;
use gametree::games::rock_paper_scissors::{Player, PlayerGesture, RockPaperScissors};
use gametree::games::twisted_rock_paper_scissors as twisted;
use gametree::ratio::Ratio;

type GuessTree = GameTree<u8, u8, u8, Guess>;
type RpsTree = GameTree<
    PlayerGesture,
    gametree::games::rock_paper_scissors::FirstIntent,
    gametree::games::rock_paper_scissors::SecondIntent,
    RockPaperScissors,
>;
type TwistedTree = GameTree<
    twisted::PlayerGesture,
    twisted::FirstIntent,
    twisted::SecondIntent,
    twisted::TwistedRockPaperScissors,
>;

fn q(num: i64, den: u64) -> Ratio {
    Ratio::new(num, den)
}

#[test]
fn play_tracks_history_in_lock_step() {
    let mut play: Play<u8, u8, u8> = Play::new();
    assert!(play.is_empty());
    play.push_move(7);
    play.push_move(9);
    assert_eq!(play.len(), 2);
    assert_eq!(play.to_arbiter(), &vec![7, 9]);
    assert_eq!(play.to_first(), &vec![7, 9]);
    assert_eq!(play.pop_move(), Some(9));
    assert_eq!(play.pop_move(), Some(7));
    assert!(play.is_empty());
}

#[test]
fn naive_strategy_lookup() {
    let mut s: NaiveStrategy<u8, u8> = NaiveStrategy::new();
    assert_eq!(s.get(&vec![]), None);
    s.insert(vec![], 2);
    s.insert(vec![1, 2], 0);
    assert_eq!(s.get(&vec![]), Some(2));
    assert_eq!(s.get(&vec![1, 2]), Some(0));
    assert_eq!(s.get(&vec![1]), None);
}

#[test]
fn guess_tree_shape() {
    let t: GuessTree = GameTree::from_rules(Guess::default()).unwrap();
    // Root decision with three guesses, each followed by a chance node with
    // two outcomes, each followed by a terminal: 1 + 3 * (1 + 2) = 10.
    assert_eq!(t.nodes.len(), 10);
    assert!(matches!(t.nodes[0], GameTreeNode::FirstMoves(_)));
}

#[test]
fn chance_probabilities_sum_to_one_within_tolerance() {
    let t: GuessTree = GameTree::from_rules(Guess::default()).unwrap();
    let mut seen = 0;
    for node in &t.nodes {
        if let GameTreeNode::RandomEvent(row) = node {
            let sum: f64 = row.iter().map(|(_, _, p)| p.num as f64 / p.den as f64).sum();
            assert!((sum - 1.0).abs() < 1e-6);
            seen += 1;
        }
    }
    assert_eq!(seen, 3);
}

#[test]
fn guess_enumerates_three_first_strategies() {
    let t: GuessTree = GameTree::from_rules(Guess::default()).unwrap();
    let fs = t.list_all_first_strategies();
    // One decision point with three moves and no earlier choices: 3^1 pure
    // strategies.
    assert_eq!(fs.len(), 3);
    // Emitted by popping extensions from the end of the work list.
    assert_eq!(fs[0].get(&vec![]), Some(2));
    assert_eq!(fs[1].get(&vec![]), Some(1));
    assert_eq!(fs[2].get(&vec![]), Some(0));
    let ss = t.list_all_second_strategies();
    assert_eq!(ss.len(), 1);
    assert_eq!(ss[0].entries.len(), 0);
}

#[test]
fn guess_matrix_matches_hand_computed_expectations() {
    let t: GuessTree = GameTree::from_rules(Guess::default()).unwrap();
    let mat = t.to_matrix().unwrap();
    assert_eq!(mat.len(), 3);
    for row in &mat {
        assert_eq!(row.len(), 1);
    }
    // Rows in enumeration order: guessing 2, 1, 0.
    // E[guess 2] = 1/4 * (-1) + 3/4 * (+1) = 1/2.
    assert!(mat[0][0].equiv(q(1, 2)));
    // Guessing 1 never matches the chance outcome: exactly -1.
    assert!(mat[1][0].equiv(q(-1, 1)));
    // E[guess 0] = 1/4 * (+1) + 3/4 * (-1) = -1/2.
    assert!(mat[2][0].equiv(q(-1, 2)));
}

#[test]
fn simulate_is_deterministic() {
    let t: GuessTree = GameTree::from_rules(Guess::default()).unwrap();
    let fs = t.list_all_first_strategies();
    let ss = t.list_all_second_strategies();
    let r1 = t.simulate(&fs[0], &ss[0]);
    let r2 = t.simulate(&fs[0], &ss[0]);
    assert_eq!(r1, r2);
    assert!(r1.is_some());
}

#[test]
fn every_enumerated_strategy_pair_simulates() {
    let t: RpsTree = GameTree::from_rules(RockPaperScissors::default()).unwrap();
    let fs = t.list_all_first_strategies();
    let ss = t.list_all_second_strategies();
    for f in &fs {
        for s in &ss {
            assert!(t.simulate(f, s).is_some());
        }
    }
}

#[test]
fn incomplete_strategy_fails_simulation() {
    let t: RpsTree = GameTree::from_rules(RockPaperScissors::default()).unwrap();
    let undecided: NaiveStrategy<
        PlayerGesture,
        gametree::games::rock_paper_scissors::FirstIntent,
    > = NaiveStrategy::new();
    let ss = t.list_all_second_strategies();
    assert!(t.simulate(&undecided, &ss[0]).is_none());
}

#[test]
fn rock_paper_scissors_full_matrix() {
    let t: RpsTree = GameTree::from_rules(RockPaperScissors::default()).unwrap();
    let fs = t.list_all_first_strategies();
    let ss = t.list_all_second_strategies();
    assert_eq!(fs.len(), 3);
    assert_eq!(ss.len(), 3);
    let mat = t.to_matrix().unwrap();
    // Enumeration pops extensions from the end: rows and columns both run
    // scissors, paper, rock.
    let expected = [[0i64, 1, -1], [-1, 0, 1], [1, -1, 0]];
    for i in 0..3 {
        for j in 0..3 {
            assert!(mat[i][j].equiv(Ratio::from_int(expected[i][j])), "cell {} {}", i, j);
        }
    }
}

#[test]
fn gestures_expose_player_and_rank() {
    let g = PlayerGesture::Paper(Player::Second);
    assert_eq!(g.into_player(), Player::Second);
    assert_eq!(g.to_gesture(), 1);
    assert_eq!(PlayerGesture::Rock(Player::First).to_gesture(), 0);
    assert_eq!(PlayerGesture::Scissors(Player::First).into_player(), Player::First);
    let tg = twisted::PlayerGesture::Scissors(twisted::Player::First);
    assert_eq!(tg.into_player(), twisted::Player::First);
    assert_eq!(tg.to_gesture(), 2);
}

#[test]
fn twisted_game_at_zero_reduces_to_standard() {
    let t0: TwistedTree =
        GameTree::from_rules(twisted::TwistedRockPaperScissors::new(Ratio::zero())).unwrap();
    let std_t: RpsTree = GameTree::from_rules(RockPaperScissors::default()).unwrap();
    let m0 = t0.to_matrix().unwrap();
    let ms = std_t.to_matrix().unwrap();
    assert_eq!(m0.len(), ms.len());
    for (r0, rs) in m0.iter().zip(ms.iter()) {
        assert_eq!(r0.len(), rs.len());
        for (a, b) in r0.iter().zip(rs.iter()) {
            assert!(a.equiv(*b));
        }
    }
}

#[test]
fn twisted_game_tie_pays_the_twist() {
    let twist = q(2, 5);
    let t: TwistedTree =
        GameTree::from_rules(twisted::TwistedRockPaperScissors::new(twist)).unwrap();
    let mat = t.to_matrix().unwrap();
    // Rows and columns run scissors, paper, rock; the double-Paper cell is
    // the twist, every other cell is the standard payoff.
    assert!(mat[1][1].equiv(twist));
    assert!(mat[0][0].equiv(Ratio::zero()));
    assert!(mat[2][2].equiv(Ratio::zero()));
    assert!(mat[0][1].equiv(Ratio::one()));
}

#[test]
fn malformed_payoff_is_a_build_error() {
    // A denominator of zero is not a well-formed payoff; construction must
    // refuse the rule set rather than build a tree around it.
    let bad = twisted::TwistedRockPaperScissors { twist: Ratio { num: 1, den: 0 } };
    let r: Result<TwistedTree, BuildError> = GameTree::from_rules(bad);
    assert!(matches!(r, Err(BuildError::BadPayoff)));
}

#[test]
fn blind_rounds_enumerates_branching_to_the_number_of_rounds() {
    let t: GameTree<u8, Veil, u8, BlindRounds> =
        GameTree::from_rules(BlindRounds::default()).unwrap();
    let fs = t.list_all_first_strategies();
    // Two decisions with two moves each, both taken inside a single-node
    // information set per depth: 2^2 complete strategies.
    assert_eq!(fs.len(), 4);
    for f in &fs {
        assert_eq!(f.entries.len(), 2);
    }
    let ss = t.list_all_second_strategies();
    assert_eq!(ss.len(), 1);
    let mat = t.to_matrix().unwrap();
    // Strategies in emission order: (1,1), (1,0), (0,1), (0,0); matching
    // bits pay +1, differing bits -1.
    let expected = [1i64, -1, -1, 1];
    for (row, want) in mat.iter().zip(expected.iter()) {
        assert_eq!(row.len(), 1);
        assert!(row[0].equiv(Ratio::from_int(*want)));
    }
}
