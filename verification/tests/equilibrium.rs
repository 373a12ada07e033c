//! Equilibria of the bundled games, computed by handing the exact payoff
//! matrices to the external linear-program solver.

use gametree::game_tree::GameTree;
use gametree::games::rock_paper_scissors::{FirstIntent, PlayerGesture, RockPaperScissors, SecondIntent};
use gametree::games::twisted_rock_paper_scissors as twisted;
use gametree::ratio::Ratio;
use good_lp::{clarabel, variable, Expression, ProblemVariables, Solution, SolverModel, Variable};

fn row_expression(variables: &[Variable], row: &[f64]) -> Expression {
    variables.iter().zip(row).map(|(x, c)| *c * *x).sum()
}

/// Minimax linear program over a payoff matrix: minimize `cost` subject to
/// the distribution summing to 1, entries in [0, 1], and every row's
/// weighted combination bounded above by `cost`.
fn solve_game(game: &Vec<Vec<f64>>) -> (f64, Vec<f64>) {
    assert!(!game.is_empty());
    let mut problem = ProblemVariables::new();
    let cost = problem.add(variable());
    let width = game.iter().map(|row| row.len()).max().unwrap();
    let cols: Vec<Variable> = problem.add_vector(variable().bounds(0..=1), width);
    let total_prob: Expression = cols.iter().sum();
    let mut model = problem.minimise(cost).using(clarabel).with(total_prob.eq(1.));
    for row in game {
        model = model.with(row_expression(&cols, row).leq(cost));
    }
    let solution = model.solve().unwrap();
    (solution.value(cost), cols.into_iter().map(|c| solution.value(c)).collect())
}

fn to_floats(m: &Vec<Vec<Ratio>>) -> Vec<Vec<f64>> {
    m.iter().map(|row| row.iter().map(|r| r.num as f64 / r.den as f64).collect()).collect()
}

type RpsTree = GameTree<PlayerGesture, FirstIntent, SecondIntent, RockPaperScissors>;
type TwistedTree = GameTree<
    twisted::PlayerGesture,
    twisted::FirstIntent,
    twisted::SecondIntent,
    twisted::TwistedRockPaperScissors,
>;

#[test]
fn rock_paper_scissors_equilibrium_is_uniform_and_fair() {
    let t: RpsTree = GameTree::from_rules(RockPaperScissors::default()).unwrap();
    let mat = t.to_matrix().unwrap();
    let (value, distribution) = solve_game(&to_floats(&mat));
    assert!(value.abs() < 1e-6, "value {}", value);
    assert_eq!(distribution.len(), 3);
    for p in &distribution {
        assert!((p - 1.0 / 3.0).abs() < 1e-6, "probability {}", p);
    }
}

#[test]
fn twisted_equilibrium_reduces_to_standard_at_zero() {
    let t: TwistedTree =
        GameTree::from_rules(twisted::TwistedRockPaperScissors::new(Ratio::zero())).unwrap();
    let mat = t.to_matrix().unwrap();
    let (value, distribution) = solve_game(&to_floats(&mat));
    assert!(value.abs() < 1e-6);
    for p in &distribution {
        assert!((p - 1.0 / 3.0).abs() < 1e-6);
    }
}

#[test]
fn twisted_equilibrium_moves_continuously_with_the_twist() {
    // Sampled twist values: the equilibrium value changes by a small amount
    // for a small change of the twist, and leaves 0 once the twist does.
    let mut last = 0.0f64;
    for (num, den) in [(0i64, 10u64), (1, 10), (2, 10), (3, 10)] {
        let t: TwistedTree = GameTree::from_rules(twisted::TwistedRockPaperScissors::new(
            Ratio::new(num, den),
        ))
        .unwrap();
        let mat = t.to_matrix().unwrap();
        let (value, _) = solve_game(&to_floats(&mat));
        assert!((value - last).abs() < 0.1, "jump from {} to {}", last, value);
        last = value;
    }
}
