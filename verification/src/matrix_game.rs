//! Normal-form matrix games: the transforms handed to an external
//! equilibrium solver.
//!
//! The payoff matrix produced by the engine is the row player's view.  An
//! external linear-program solver computes the game value and an optimal
//! mixed strategy from it; [`reverse_game`] produces the column player's
//! view of the same game — transposed and negated, short rows padded with
//! zero — so one solver serves both players.

use crate::ratio::Ratio;
use vstd::prelude::*;

verus! {

/// A payoff matrix abstracted to a sequence of rows.
pub open spec fn matrix_view(m: Seq<Vec<Ratio>>) -> Seq<Seq<Ratio>> {
    m.map(|_i: int, row: Vec<Ratio>| row@)
}

/// Every cell is a well-formed ratio.
pub open spec fn matrix_wf(m: Seq<Seq<Ratio>>) -> bool {
    forall|i: int, j: int|
        0 <= i < m.len() && 0 <= j < m[i].len() ==> (#[trigger] m[i][j]).wf()
}

/// The greatest row length of a matrix.
pub open spec fn max_row_len(m: Seq<Seq<Ratio>>) -> nat
    decreases m.len(),
{
    if m.len() == 0 {
        0
    } else {
        let rest = max_row_len(m.drop_last());
        if m.last().len() > rest {
            m.last().len()
        } else {
            rest
        }
    }
}

/// One cell of the reversed game: the negation of `m[i][j]`, or zero where
/// row `i` is too short.
pub open spec fn reverse_cell(m: Seq<Seq<Ratio>>, j: int, i: int) -> Ratio {
    if j < m[i].len() {
        Ratio { num: (-m[i][j].num) as i64, den: m[i][j].den }
    } else {
        Ratio { num: 0, den: 1 }
    }
}

/// The column player's view of the game: transposed and negated, short rows
/// treated as zero-payoff options up to the maximum column count.
pub open spec fn spec_reverse(m: Seq<Seq<Ratio>>) -> Seq<Seq<Ratio>> {
    Seq::new(max_row_len(m), |j: int| Seq::new(m.len(), |i: int| reverse_cell(m, j, i)))
}

/// Transposes and negates a payoff matrix, padding short rows with zero.
pub fn reverse_game(game: &Vec<Vec<Ratio>>) -> (r: Vec<Vec<Ratio>>)
    requires
        matrix_wf(matrix_view(game@)),
    ensures
        matrix_view(r@) == spec_reverse(matrix_view(game@)),
        matrix_wf(matrix_view(r@)),
{
    let ghost mv = matrix_view(game@);
    let mut cols: usize = 0;
    let mut i: usize = 0;
    while i < game.len()
        invariant
            i <= game@.len(),
            mv == matrix_view(game@),
            cols == max_row_len(mv.take(i as int)),
        decreases game@.len() - i,
    {
        if game[i].len() > cols {
            cols = game[i].len();
        }
        proof {
            assert(mv.take(i + 1).drop_last() =~= mv.take(i as int));
            assert(mv.take(i + 1).last() == mv[i as int]);
        }
        i += 1;
    }
    proof {
        assert(mv.take(game@.len() as int) =~= mv);
    }
    let rows = game.len();
    let mut ans: Vec<Vec<Ratio>> = Vec::new();
    let mut j: usize = 0;
    while j < cols
        invariant
            j <= cols,
            mv == matrix_view(game@),
            cols == max_row_len(mv),
            matrix_wf(mv),
            rows == game@.len(),
            ans@.len() == j,
            forall|a: int| 0 <= a < j ==> (#[trigger] ans@[a])@ == spec_reverse(mv)[a],
        decreases cols - j,
    {
        let mut rowv: Vec<Ratio> = Vec::new();
        let mut k: usize = 0;
        while k < rows
            invariant
                k <= rows,
                j < cols,
                mv == matrix_view(game@),
                cols == max_row_len(mv),
                matrix_wf(mv),
                rows == game@.len(),
                rowv@.len() == k,
                forall|a: int| 0 <= a < k ==> (#[trigger] rowv@[a]) == reverse_cell(
                    mv,
                    j as int,
                    a,
                ),
            decreases rows - k,
        {
            let cell = if j < game[k].len() {
                proof {
                    assert(mv[k as int][j as int].wf());
                }
                game[k][j].neg()
            } else {
                Ratio::zero()
            };
            rowv.push(cell);
            k += 1;
        }
        proof {
            assert(rowv@ =~= spec_reverse(mv)[j as int]);
        }
        ans.push(rowv);
        j += 1;
    }
    proof {
        assert(matrix_view(ans@) =~= spec_reverse(mv));
        assert forall|a: int, b: int|
            0 <= a < spec_reverse(mv).len() && 0 <= b < spec_reverse(mv)[a].len() implies (
        #[trigger] spec_reverse(mv)[a][b]).wf() by {
            assert(spec_reverse(mv)[a][b] == reverse_cell(mv, a, b));
        }
    }
    ans
}

/// The maximum row length of a non-empty matrix whose rows all have the
/// same length is that length.
proof fn lemma_max_rectangular(m: Seq<Seq<Ratio>>, w: nat)
    requires
        m.len() > 0,
        forall|i: int| 0 <= i < m.len() ==> (#[trigger] m[i]).len() == w,
    ensures
        max_row_len(m) == w,
    decreases m.len(),
{
    if m.len() == 1 {
        assert(m.drop_last().len() == 0);
        assert(max_row_len(m.drop_last()) == 0);
        assert(m.last().len() == w);
    } else {
        assert forall|i: int| 0 <= i < m.drop_last().len() implies (#[trigger] m.drop_last()[i]).len()
            == w by {
            assert(m.drop_last()[i] == m[i]);
        }
        lemma_max_rectangular(m.drop_last(), w);
        assert(m.last().len() == w);
    }
}

/// Round trip: reversing a rectangular matrix twice gives the matrix back,
/// exactly.  A matrix of non-empty rows of equal length comes back
/// unchanged; the empty matrix also does.
pub proof fn lemma_reverse_involution(m: Seq<Seq<Ratio>>)
    requires
        matrix_wf(m),
        forall|i: int| 0 <= i < m.len() ==> (#[trigger] m[i]).len() == max_row_len(m),
        m.len() == 0 || max_row_len(m) > 0,
    ensures
        spec_reverse(spec_reverse(m)) == m,
{
    let c = max_row_len(m);
    let r1 = spec_reverse(m);
    if m.len() == 0 {
        assert(max_row_len(m) == 0);
        assert(r1 =~= Seq::<Seq<Ratio>>::empty());
        assert(max_row_len(r1) == 0);
        assert(spec_reverse(r1) =~= m);
    } else {
        assert(r1.len() == c && c > 0);
        assert forall|j: int| 0 <= j < r1.len() implies (#[trigger] r1[j]).len() == m.len() by {}
        lemma_max_rectangular(r1, m.len() as nat);
        assert forall|i: int| 0 <= i < m.len() implies spec_reverse(r1)[i] == m[i] by {
            assert forall|j: int| 0 <= j < c implies spec_reverse(r1)[i][j] == m[i][j] by {
                assert(spec_reverse(r1)[i][j] == reverse_cell(r1, i, j));
                assert(r1[j][i] == reverse_cell(m, j, i));
                assert(m[i][j].wf());
            }
            assert(spec_reverse(r1)[i] =~= m[i]);
        }
        assert(spec_reverse(r1) =~= m);
    }
}

} // verus!
