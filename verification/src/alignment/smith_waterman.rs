//! The Smith-Waterman engine: it builds the score matrix and its
//! traceback matrix, lists the tracebacks that the traceback matrix allows,
//! and turns them into alignments.

use vstd::prelude::*;
use vstd::string::StrSliceExecFns;
pub use crate::alignment::align::AlignmentCell;
use crate::alignment::align::{views, Alignment, Alignments};
use crate::alignment::matrix::{
    has_shape, score_cells, traceback_cells, ScoreMatrix, TracebackMatrix, CELL_BYTES,
};
use crate::alignment::model::{
    alignable, alignment_of, alignments_of, best_candidate, both_cells_rise, callable, candidate,
    cell_alignments, cell_of, directions_at, implements, in_matrix, is_best_score, is_traceback,
    matrix_alignments, max3, predecessor, prepend_all, read_from, row_alignments, score_at,
    score_matrix_of, step_ok, steps_valid, traceable, traceback_matrix_of, tracebacks_from,
    tracebacks_through, Policy, MAX_EXTENT, SCORE_LIMIT,
};
use crate::alignment::theorems::{
    lemma_both_cells_rise, lemma_traceback_steps_valid, lemma_tracebacks_end_at_empty_cell,
};
use crate::errors::ErrorKind;

verus! {

/// Where a cell's best predecessor lies.
#[derive(Clone, Copy, Debug, PartialEq, Eq, Structural)]
pub enum Direction {
    Diag,
    Up,
    Left,
}

/// A cell of a matrix: its row and its column.
pub type Index = (usize, usize);

/// Cells of a traceback matrix, each the predecessor of the one before it.
pub type Traceback = Vec<Index>;

/// Whether both matrices for `a` against `b` can be built.
pub fn can_align(a: &str, b: &str) -> (fits: bool)
    ensures
        fits == alignable(a@.len(), b@.len()),
{
    let a_len = a.unicode_len();
    let b_len = b.unicode_len();
    if a_len > MAX_EXTENT - 2 || b_len > MAX_EXTENT - 2 - a_len {
        return false;
    }
    let rows = a_len as u128 + 1;
    let cols = b_len as u128 + 1;
    assert(rows * cols <= 0x1_0000_0000_0000_0000) by (nonlinear_arith)
        requires
            0 <= rows <= 0x1_0000_0000,
            0 <= cols <= 0x1_0000_0000,
    ;
    let cells = rows * cols;
    let cell_bytes = CELL_BYTES as u128;
    assert(cells <= 0x1_0000_0000_0000_0000 && cell_bytes == 24);
    cells * cell_bytes <= isize::MAX as u128
}

/// The characters of `s`, in order.
pub fn chars_of(s: &str) -> (v: Vec<char>)
    ensures
        v@ == s@,
{
    let mut v: Vec<char> = Vec::new();
    for c in it: s.chars()
        invariant
            it.seq() == s@,
            v@ == it.seq().take(it.index()),
    {
        assert(it.seq().take(it.index() + 1) =~= it.seq().take(it.index()).push(c));
        v.push(c);
    }
    assert(s@.take(s@.len() as int) =~= s@);
    v
}

/// Cell `(i2, j2)` has been settled when the builder stands at cell `(i, j)`:
/// it lies on the border or comes before `(i, j)` row by row.
spec fn settled(i2: int, j2: int, i: int, j: int) -> bool {
    i2 <= 0 || j2 <= 0 || i2 < i || (i2 == i && j2 < j)
}

/// Cell `(i2, j2)` of the raw matrices holds what `p` asks for.
spec fn cell_agrees(
    sc: Seq<Seq<i64>>,
    tc: Seq<Seq<Seq<Direction>>>,
    a: Seq<char>,
    b: Seq<char>,
    p: Policy,
    i2: int,
    j2: int,
) -> bool {
    &&& sc[i2][j2] == score_at(a, b, p, i2, j2)
    &&& tc[i2][j2] == directions_at(a, b, p, i2, j2)
}

/// The matrices while the builder stands at cell `(i, j)`: every settled
/// cell holds what each implemented policy asks for, every other cell is
/// still empty, and every score is within its bound.
spec fn partly_built<S: Fn(char, char) -> i32, G: Fn(u32) -> i32>(
    sc: Seq<Seq<i64>>,
    tc: Seq<Seq<Seq<Direction>>>,
    a: Seq<char>,
    b: Seq<char>,
    score_func: &S,
    gap_penalty: &G,
    i: int,
    j: int,
) -> bool {
    &&& has_shape(sc, a.len() + 1, b.len() + 1)
    &&& has_shape(tc, a.len() + 1, b.len() + 1)
    &&& forall|i2: int, j2: int|
        0 <= i2 <= a.len() && 0 <= j2 <= b.len() ==> 0 <= (#[trigger] sc[i2][j2]) <= (i2 + j2)
            * SCORE_LIMIT
    &&& forall|i2: int, j2: int|
        0 <= i2 <= a.len() && 0 <= j2 <= b.len() && (i2 == 0 || j2 == 0 || !settled(i2, j2, i, j))
            ==> (#[trigger] sc[i2][j2]) == 0
    &&& forall|i2: int, j2: int|
        0 <= i2 <= a.len() && 0 <= j2 <= b.len() && (i2 == 0 || j2 == 0 || !settled(i2, j2, i, j))
            ==> (#[trigger] tc[i2][j2]).len() == 0
    &&& forall|p: Policy, i2: int, j2: int|
        implements(score_func, gap_penalty, a, b, p) && 0 <= i2 <= a.len() && 0 <= j2 <= b.len()
            && settled(i2, j2, i, j) ==> #[trigger] cell_agrees(sc, tc, a, b, p, i2, j2)
}

/// The greatest of three scores, with the directions that reach it.
fn best_of(diag: i64, up: i64, left: i64) -> (res: (i64, Vec<Direction>))
    ensures
        res.0 == max3(diag as int, up as int, left as int),
        res.1@ == (if diag == res.0 {
            seq![Direction::Diag]
        } else {
            Seq::empty()
        }) + (if up == res.0 {
            seq![Direction::Up]
        } else {
            Seq::empty()
        }) + (if left == res.0 {
            seq![Direction::Left]
        } else {
            Seq::empty()
        }),
{
    let best = if diag >= up && diag >= left {
        diag
    } else if up >= left {
        up
    } else {
        left
    };
    let mut directions: Vec<Direction> = Vec::new();
    if diag == best {
        directions.push(Direction::Diag);
    }
    if up == best {
        directions.push(Direction::Up);
    }
    if left == best {
        directions.push(Direction::Left);
    }
    proof {
        assert(directions@ =~= (if diag == best {
            seq![Direction::Diag]
        } else {
            Seq::empty()
        }) + (if up == best {
            seq![Direction::Up]
        } else {
            Seq::empty()
        }) + (if left == best {
            seq![Direction::Left]
        } else {
            Seq::empty()
        }));
    }
    (best, directions)
}

/// Settles cell `(i, j)`, whose three predecessors are settled.
fn settle_cell<S: Fn(char, char) -> i32, G: Fn(u32) -> i32>(
    s: &mut ScoreMatrix,
    t: &mut TracebackMatrix,
    a: &Vec<char>,
    b: &Vec<char>,
    score_func: &S,
    gap_penalty: &G,
    i: usize,
    j: usize,
)
    requires
        callable(score_func, gap_penalty, a@, b@),
        a@.len() + b@.len() + 2 <= MAX_EXTENT,
        1 <= i <= a@.len(),
        1 <= j <= b@.len(),
        partly_built(
            score_cells(*old(s)),
            traceback_cells(*old(t)),
            a@,
            b@,
            score_func,
            gap_penalty,
            i as int,
            j as int,
        ),
    ensures
        partly_built(
            score_cells(*final(s)),
            traceback_cells(*final(t)),
            a@,
            b@,
            score_func,
            gap_penalty,
            i as int,
            j + 1,
        ),
{
    let ghost sc0 = score_cells(*s);
    let ghost tc0 = traceback_cells(*t);
    let pair_score = score_func(a[i - 1], b[j - 1]);
    let gap = gap_penalty(1);
    let from_diag = s.at(i - 1, j - 1);
    let from_up = s.at(i - 1, j);
    let from_left = s.at(i, j - 1);
    assert(sc0[i - 1][j - 1] == from_diag);
    assert(sc0[i - 1][j as int] == from_up);
    assert(sc0[i as int][j - 1] == from_left);
    let diag = from_diag + pair_score as i64;
    let up = from_up - gap as i64;
    let left = from_left - gap as i64;
    let (best, directions) = best_of(diag, up, left);
    if best > 0 {
        s.put(i, j, best);
        t.put(i, j, directions);
    }
    proof {
        let sc1 = score_cells(*s);
        let tc1 = traceback_cells(*t);
        assert forall|p: Policy, i2: int, j2: int|
            implements(score_func, gap_penalty, a@, b@, p) && 0 <= i2 <= a@.len() && 0 <= j2 <= b@.len()
                && settled(i2, j2, i as int, j + 1) implies #[trigger] cell_agrees(
            sc1,
            tc1,
            a@,
            b@,
            p,
            i2,
            j2,
        ) by {
            if i2 == i && j2 == j {
                assert(cell_agrees(sc0, tc0, a@, b@, p, i - 1, j - 1));
                assert(cell_agrees(sc0, tc0, a@, b@, p, i - 1, j as int));
                assert(cell_agrees(sc0, tc0, a@, b@, p, i as int, j - 1));
                assert(call_ensures(*score_func, (a@[i - 1], b@[j - 1]), pair_score));
                assert(call_ensures(*gap_penalty, (1u32,), gap));
                assert(diag == candidate(a@, b@, p, i as int, j as int, Direction::Diag));
                assert(up == candidate(a@, b@, p, i as int, j as int, Direction::Up));
                assert(left == candidate(a@, b@, p, i as int, j as int, Direction::Left));
                assert(best == best_candidate(a@, b@, p, i as int, j as int));
                assert(sc1[i2][j2] == score_at(a@, b@, p, i2, j2));
                assert(tc1[i2][j2] =~= directions_at(a@, b@, p, i2, j2));
            } else {
                assert(cell_agrees(sc0, tc0, a@, b@, p, i2, j2));
                assert(sc1[i2][j2] == sc0[i2][j2]);
                assert(tc1[i2][j2] == tc0[i2][j2]);
            }
        }
    }
}

/// Builds the score matrix of `a` against `b` and its traceback matrix.
///
/// Row `i` stands for the first `i` characters of `a`, column `j` for the
/// first `j` of `b`. Row 0 and column 0 hold score 0 and no direction, no
/// score is negative, and under each policy that the two callables compute
/// every cell holds that policy's score and directions.
pub fn build_score_matrix<S: Fn(char, char) -> i32, G: Fn(u32) -> i32>(
    a: &str,
    b: &str,
    score_func: &S,
    gap_penalty: &G,
) -> (res: (ScoreMatrix, TracebackMatrix))
    requires
        alignable(a@.len(), b@.len()),
        callable(score_func, gap_penalty, a@, b@),
    ensures
        has_shape(res.0@, a@.len() + 1, b@.len() + 1),
        has_shape(res.1@, a@.len() + 1, b@.len() + 1),
        traceable(res.1@),
        forall|i: int, j: int|
            0 <= i <= a@.len() && 0 <= j <= b@.len() ==> 0 <= #[trigger] res.0@[i][j] <= (i + j)
                * SCORE_LIMIT,
        forall|i: int, j: int|
            0 <= i <= a@.len() && 0 <= j <= b@.len() && (i == 0 || j == 0) ==> #[trigger] res.0@[i][j]
                == 0,
        forall|p: Policy| #[trigger]
            implements(score_func, gap_penalty, a@, b@, p) ==> res.0@ == score_matrix_of(a@, b@, p)
                && res.1@ == traceback_matrix_of(a@, b@, p),
{
    let a_chars = chars_of(a);
    let b_chars = chars_of(b);
    let rows = a_chars.len() + 1;
    let cols = b_chars.len() + 1;
    let mut score_matrix = ScoreMatrix::zeros(rows, cols);
    let mut traceback_matrix = TracebackMatrix::empty(rows, cols);
    let mut i: usize = 1;
    while i < rows
        invariant
            callable(score_func, gap_penalty, a@, b@),
            a_chars@ == a@,
            b_chars@ == b@,
            rows == a@.len() + 1,
            cols == b@.len() + 1,
            rows + cols <= MAX_EXTENT,
            1 <= i <= rows,
            partly_built(
                score_cells(score_matrix),
                traceback_cells(traceback_matrix),
                a@,
                b@,
                score_func,
                gap_penalty,
                i as int,
                0,
            ),
        decreases rows - i,
    {
        let mut j: usize = 1;
        while j < cols
            invariant
                callable(score_func, gap_penalty, a@, b@),
                a_chars@ == a@,
                b_chars@ == b@,
                rows == a@.len() + 1,
                cols == b@.len() + 1,
                rows + cols <= MAX_EXTENT,
                1 <= i < rows,
                1 <= j <= cols,
                partly_built(
                    score_cells(score_matrix),
                    traceback_cells(traceback_matrix),
                    a@,
                    b@,
                    score_func,
                    gap_penalty,
                    i as int,
                    j as int,
                ),
            decreases cols - j,
        {
            settle_cell(
                &mut score_matrix,
                &mut traceback_matrix,
                &a_chars,
                &b_chars,
                score_func,
                gap_penalty,
                i,
                j,
            );
            j += 1;
        }
        proof {
            lemma_row_settled(
                score_cells(score_matrix),
                traceback_cells(traceback_matrix),
                a@,
                b@,
                score_func,
                gap_penalty,
                i as int,
            );
        }
        i += 1;
    }
    proof {
        let sc = score_cells(score_matrix);
        let tc = traceback_cells(traceback_matrix);
        assert forall|p: Policy| #[trigger]
            implements(score_func, gap_penalty, a@, b@, p) implies score_matrix@ == score_matrix_of(
            a@,
            b@,
            p,
        ) && traceback_matrix@ == traceback_matrix_of(a@, b@, p) by {
            assert forall|i2: int, j2: int| 0 <= i2 <= a@.len() && 0 <= j2 <= b@.len() implies sc[i2][j2]
                == score_at(a@, b@, p, i2, j2) && tc[i2][j2] == directions_at(a@, b@, p, i2, j2) by {
                assert(cell_agrees(sc, tc, a@, b@, p, i2, j2));
            }
            assert(score_matrix@ =~~= score_matrix_of(a@, b@, p));
            assert(traceback_matrix@ =~~= traceback_matrix_of(a@, b@, p));
        }
    }
    (score_matrix, traceback_matrix)
}

/// Once the builder has passed the last column of row `i`, it stands at the
/// first cell of row `i + 1`.
proof fn lemma_row_settled<S: Fn(char, char) -> i32, G: Fn(u32) -> i32>(
    sc: Seq<Seq<i64>>,
    tc: Seq<Seq<Seq<Direction>>>,
    a: Seq<char>,
    b: Seq<char>,
    score_func: &S,
    gap_penalty: &G,
    i: int,
)
    requires
        partly_built(sc, tc, a, b, score_func, gap_penalty, i, b.len() as int + 1),
    ensures
        partly_built(sc, tc, a, b, score_func, gap_penalty, i + 1, 0),
{
    assert forall|p: Policy, i2: int, j2: int|
        implements(score_func, gap_penalty, a, b, p) && 0 <= i2 <= a.len() && 0 <= j2 <= b.len()
            && settled(i2, j2, i + 1, 0) implies #[trigger] cell_agrees(sc, tc, a, b, p, i2, j2) by {
        assert(settled(i2, j2, i, b.len() as int + 1));
    }
}

/// `tail` with `idx` put in front.
fn prepend(idx: Index, tail: &Vec<Index>) -> (tb: Traceback)
    ensures
        tb@ == seq![idx] + tail@,
{
    let mut tb: Vec<Index> = Vec::new();
    tb.push(idx);
    let mut q: usize = 0;
    while q < tail.len()
        invariant
            q <= tail@.len(),
            tb@ == seq![idx] + tail@.take(q as int),
        decreases tail@.len() - q,
    {
        assert(tail@.take(q + 1) =~= tail@.take(q as int).push(tail@[q as int]));
        assert((seq![idx] + tail@.take(q as int)).push(tail@[q as int]) =~= seq![idx] + tail@.take(
            q + 1,
        ));
        tb.push(tail[q]);
        q += 1;
    }
    assert(tail@.take(tail@.len() as int) =~= tail@);
    tb
}

/// Calculates the tracebacks for `traceback_matrix` starting at index `idx`.
///
/// Tracebacks run backwards: the first cell of each is `idx`, the greatest
/// of its cells, and each further cell is a predecessor of the one before.
/// They come in the order of the directions in each cell.
pub fn tracebacks(traceback_matrix: &TracebackMatrix, idx: Index) -> (tbs: Vec<Traceback>)
    requires
        traceable(traceback_matrix@),
        idx.0 < traceback_matrix@.len(),
        idx.1 < traceback_matrix@[0].len(),
    ensures
        views(tbs@) == tracebacks_from(traceback_matrix@, idx),
        forall|n: int|
            0 <= n < tbs@.len() ==> is_traceback(traceback_matrix@, idx, (#[trigger] tbs@[n])@),
    decreases idx.0 + idx.1,
{
    let ghost t = traceback_matrix@;
    let directions = traceback_matrix.at(idx.0, idx.1);
    let mut tbs: Vec<Traceback> = Vec::new();
    if directions.len() == 0 {
        tbs.push(Vec::new());
        assert(views(tbs@) =~= seq![Seq::<Index>::empty()]);
    } else {
        let mut k: usize = 0;
        assert(views(tbs@) =~= Seq::<Seq<Index>>::empty());
        while k < directions.len()
            invariant
                traceable(t),
                t == traceback_matrix@,
                idx.0 < t.len(),
                idx.1 < t[0].len(),
                idx.0 >= 1,
                idx.1 >= 1,
                directions@ == t[idx.0 as int][idx.1 as int],
                k <= directions@.len(),
                views(tbs@) == tracebacks_through(t, idx, k as nat),
            decreases directions@.len() - k,
        {
            let (row, col) = idx;
            let tail_idx = match directions[k] {
                Direction::Up => (row - 1, col),
                Direction::Diag => (row - 1, col - 1),
                Direction::Left => (row, col - 1),
            };
            assert(tail_idx == predecessor(directions@[k as int], idx));
            let tails = tracebacks(traceback_matrix, tail_idx);
            let ghost before = views(tbs@);
            let mut n: usize = 0;
            assert(prepend_all(idx, views(tails@).take(0)) =~= Seq::<Seq<Index>>::empty());
            assert(before + Seq::<Seq<Index>>::empty() =~= before);
            while n < tails.len()
                invariant
                    n <= tails@.len(),
                    views(tbs@) == before + prepend_all(idx, views(tails@).take(n as int)),
                decreases tails@.len() - n,
            {
                let tb = prepend(idx, &tails[n]);
                let ghost previous = tbs@;
                tbs.push(tb);
                proof {
                    assert(views(tails@).take(n + 1) =~= views(tails@).take(n as int).push(
                        tails@[n as int]@,
                    ));
                    assert(prepend_all(idx, views(tails@).take(n + 1)) =~= prepend_all(
                        idx,
                        views(tails@).take(n as int),
                    ).push(tb@));
                    assert(views(tbs@) =~= views(previous).push(tb@));
                    assert(views(tbs@) =~= before + prepend_all(idx, views(tails@).take(n + 1)));
                }
                n += 1;
            }
            assert(views(tails@).take(tails@.len() as int) =~= views(tails@));
            k += 1;
        }
    }
    proof {
        assert forall|n: int| 0 <= n < tbs@.len() implies is_traceback(
            t,
            idx,
            (#[trigger] tbs@[n])@,
        ) by {
            assert(views(tbs@)[n] == tbs@[n]@);
            lemma_tracebacks_end_at_empty_cell(t, idx, n);
        }
    }
    tbs
}

/// Converts a traceback (as returned by `tracebacks`) into an alignment
/// (as returned by `align`).
///
/// The alignment runs forwards, from the traceback's last cell to its first.
/// A traceback with a cell in row 0 or column 0, or with a move that is no
/// step, has no alignment.
pub fn traceback_to_alignment(traceback: &Traceback) -> (res: Result<Alignment, ErrorKind>)
    ensures
        steps_valid(traceback@) ==> (res matches Ok(alignment) && alignment@ == alignment_of(
            traceback@,
        )),
        !steps_valid(traceback@) ==> res == Err::<Alignment, ErrorKind>(ErrorKind::InvalidAlignment),
        res matches Ok(alignment) ==> both_cells_rise(alignment@),
{
    let ghost tb = traceback@;
    let n = traceback.len();
    let mut alignment: Alignment = Vec::new();
    if n == 0 {
        assert(alignment@ =~= alignment_of(tb));
        return Ok(alignment);
    }
    // Move every cell from the space of the matrix, which has one more row
    // and column, to the space of the sequences, and turn the path round.
    let mut path: Vec<Index> = Vec::new();
    let mut q: usize = 0;
    while q < n
        invariant
            tb == traceback@,
            n == tb.len(),
            q <= n,
            path@.len() == q,
            forall|x: int| 0 <= x < q ==> (#[trigger] tb[n - 1 - x]).0 >= 1 && tb[n - 1 - x].1 >= 1,
            forall|x: int|
                0 <= x < q ==> (#[trigger] path@[x]) == ((tb[n - 1 - x].0 - 1) as usize, (tb[n - 1
                    - x].1 - 1) as usize),
        decreases n - q,
    {
        let cell = traceback[n - 1 - q];
        if cell.0 == 0 || cell.1 == 0 {
            assert(!(tb[n - 1 - q].0 >= 1 && tb[n - 1 - q].1 >= 1));
            return Err(ErrorKind::InvalidAlignment);
        }
        path.push((cell.0 - 1, cell.1 - 1));
        q += 1;
    }
    assert forall|k: int| 0 <= k < tb.len() implies (#[trigger] tb[k]).0 >= 1 && tb[k].1 >= 1 by {
        assert(tb[n - 1 - (n - 1 - k)].0 >= 1);
    }
    // The first cell of the path is always included.
    alignment.push(AlignmentCell::Both { left: path[0].0, right: path[0].1 });
    // Now compare adjacent cells of the path to see how they changed.
    let mut k: usize = 1;
    while k < n
        invariant
            tb == traceback@,
            n == tb.len(),
            1 <= k <= n,
            path@.len() == n,
            forall|x: int| 0 <= x < n ==> (#[trigger] tb[x]).0 >= 1 && tb[x].1 >= 1,
            forall|x: int|
                0 <= x < n ==> (#[trigger] path@[x]) == ((tb[n - 1 - x].0 - 1) as usize, (tb[n - 1
                    - x].1 - 1) as usize),
            alignment@.len() == k,
            forall|x: int| 0 <= x < k ==> (#[trigger] alignment@[x]) == cell_of(tb, x),
            forall|x: int| 1 <= x < k ==> #[trigger] step_ok(tb, n - 1 - x),
        decreases n - k,
    {
        let curr = path[k - 1];
        let next = path[k];
        proof {
            assert(tb[n - 1 - k].0 >= 1 && tb[n - k].0 >= 1);
            assert(path@[k as int] == ((tb[n - 1 - k].0 - 1) as usize, (tb[n - 1 - k].1 - 1) as usize));
            assert(path@[k - 1] == ((tb[n - 1 - (k - 1)].0 - 1) as usize, (tb[n - 1 - (k - 1)].1
                - 1) as usize));
        }
        if next.0 == curr.0 + 1 && next.1 == curr.1 + 1 {
            alignment.push(AlignmentCell::Both { left: next.0, right: next.1 });
        } else if next.0 == curr.0 + 1 && next.1 == curr.1 {
            alignment.push(AlignmentCell::RightGap { left: next.0 });
        } else if next.0 == curr.0 && next.1 == curr.1 + 1 {
            alignment.push(AlignmentCell::LeftGap { right: next.1 });
        } else {
            assert(!step_ok(tb, n - 1 - k));
            return Err(ErrorKind::InvalidAlignment);
        }
        assert(step_ok(tb, n - 1 - k));
        k += 1;
    }
    proof {
        assert forall|x: int| 0 <= x < tb.len() - 1 implies #[trigger] step_ok(tb, x) by {
            assert(step_ok(tb, n - 1 - (n - 1 - x)));
        }
        assert(alignment@ =~= alignment_of(tb));
        lemma_both_cells_rise(tb);
    }
    Ok(alignment)
}

/// The greatest score of a matrix.
fn best_score(score_matrix: &ScoreMatrix) -> (best: i64)
    requires
        score_matrix@.len() >= 1,
        score_matrix@[0].len() >= 1,
        has_shape(score_matrix@, score_matrix@.len(), score_matrix@[0].len()),
    ensures
        is_best_score(score_matrix@, best as int),
{
    let rows = score_matrix.nrows();
    let cols = score_matrix.ncols();
    let ghost s = score_matrix@;
    let mut best = score_matrix.at(0, 0);
    let ghost mut at: (int, int) = (0, 0);
    let mut i: usize = 0;
    while i < rows
        invariant
            s == score_matrix@,
            rows == s.len(),
            cols == s[0].len(),
            has_shape(s, rows as nat, cols as nat),
            i <= rows,
            0 <= at.0 < rows && 0 <= at.1 < cols && s[at.0][at.1] == best,
            forall|i2: int, j2: int| 0 <= i2 < i && 0 <= j2 < cols ==> #[trigger] s[i2][j2] <= best,
        decreases rows - i,
    {
        let mut j: usize = 0;
        while j < cols
            invariant
                s == score_matrix@,
                rows == s.len(),
                cols == s[0].len(),
                has_shape(s, rows as nat, cols as nat),
                i < rows,
                j <= cols,
                0 <= at.0 < rows && 0 <= at.1 < cols && s[at.0][at.1] == best,
                forall|i2: int, j2: int|
                    0 <= i2 < i && 0 <= j2 < cols ==> #[trigger] s[i2][j2] <= best,
                forall|j2: int| 0 <= j2 < j ==> #[trigger] s[i as int][j2] <= best,
            decreases cols - j,
        {
            assert(s[i as int].len() == cols);
            let score = score_matrix.at(i, j);
            if score > best {
                best = score;
                proof {
                    at = (i as int, j as int);
                }
            }
            j += 1;
        }
        i += 1;
    }
    best
}

/// Reads the best score and its alignments from a pair of matrices.
///
/// The alignments come cell by cell: rows from the first, within a row
/// columns from the first, and for one cell in the order of `tracebacks`.
pub fn read_alignments(score_matrix: &ScoreMatrix, traceback_matrix: &TracebackMatrix) -> (res:
    Result<Alignments, ErrorKind>)
    requires
        traceable(traceback_matrix@),
        has_shape(score_matrix@, traceback_matrix@.len(), traceback_matrix@[0].len()),
    ensures
        read_from(res, score_matrix@, traceback_matrix@),
{
    let ghost s = score_matrix@;
    let ghost t = traceback_matrix@;
    let rows = score_matrix.nrows();
    let cols = score_matrix.ncols();
    let max_score = best_score(score_matrix);
    if max_score <= 0 {
        return Err(ErrorKind::NoAlignments);
    }
    let mut alignments: Vec<Alignment> = Vec::new();
    assert(views(alignments@) =~= matrix_alignments(s, t, max_score as int, 0));
    let mut i: usize = 0;
    while i < rows
        invariant
            s == score_matrix@,
            t == traceback_matrix@,
            traceable(t),
            rows == t.len(),
            cols == t[0].len(),
            has_shape(s, rows as nat, cols as nat),
            i <= rows,
            views(alignments@) == matrix_alignments(s, t, max_score as int, i as nat),
        decreases rows - i,
    {
        let ghost before_row = views(alignments@);
        let mut j: usize = 0;
        assert(before_row + row_alignments(s, t, max_score as int, i as int, 0) =~= before_row);
        while j < cols
            invariant
                s == score_matrix@,
                t == traceback_matrix@,
                traceable(t),
                rows == t.len(),
                cols == t[0].len(),
                has_shape(s, rows as nat, cols as nat),
                i < rows,
                j <= cols,
                views(alignments@) == before_row + row_alignments(
                    s,
                    t,
                    max_score as int,
                    i as int,
                    j as nat,
                ),
            decreases cols - j,
        {
            let ghost before_cell = views(alignments@);
            assert(s[i as int].len() == cols);
            if score_matrix.at(i, j) == max_score {
                let tbs = tracebacks(traceback_matrix, (i, j));
                let mut n: usize = 0;
                assert(before_cell + alignments_of(views(tbs@).take(0)) =~= before_cell);
                while n < tbs.len()
                    invariant
                        t == traceback_matrix@,
                        traceable(t),
                        in_matrix(t, (i, j)),
                        views(tbs@) == tracebacks_from(t, (i, j)),
                        n <= tbs@.len(),
                        views(alignments@) == before_cell + alignments_of(
                            views(tbs@).take(n as int),
                        ),
                    decreases tbs@.len() - n,
                {
                    proof {
                        assert(views(tbs@)[n as int] == tbs@[n as int]@);
                        lemma_tracebacks_end_at_empty_cell(t, (i, j), n as int);
                        lemma_traceback_steps_valid(t, (i, j), tbs@[n as int]@);
                    }
                    let ghost previous = alignments@;
                    match traceback_to_alignment(&tbs[n]) {
                        Ok(alignment) => {
                            alignments.push(alignment);
                            proof {
                                assert(views(alignments@) =~= views(previous).push(alignment@));
                                assert(views(tbs@).take(n + 1) =~= views(tbs@).take(n as int).push(
                                    tbs@[n as int]@,
                                ));
                                assert(alignments_of(views(tbs@).take(n + 1)) =~= alignments_of(
                                    views(tbs@).take(n as int),
                                ).push(alignment@));
                                assert(views(alignments@) =~= before_cell + alignments_of(
                                    views(tbs@).take(n + 1),
                                ));
                            }
                        },
                        Err(e) => {
                            // Every traceback of a traceable matrix has an alignment.
                            assert(false);
                            return Err(e);
                        },
                    }
                    n += 1;
                }
                assert(views(tbs@).take(tbs@.len() as int) =~= views(tbs@));
            }
            proof {
                assert(s[i as int][j as int] == score_cells(*score_matrix)[i as int][j as int]);
                assert(views(alignments@) == before_cell + cell_alignments(
                    s,
                    t,
                    max_score as int,
                    i as int,
                    j as int,
                )) by {
                    if s[i as int][j as int] != max_score {
                        assert(before_cell + Seq::<Seq<AlignmentCell>>::empty() =~= before_cell);
                    }
                }
                assert(before_row + row_alignments(s, t, max_score as int, i as int, j as nat)
                    + cell_alignments(s, t, max_score as int, i as int, j as int) =~= before_row
                    + row_alignments(s, t, max_score as int, i as int, (j + 1) as nat));
            }
            j += 1;
        }
        assert(s[i as int].len() == cols);
        i += 1;
    }
    Ok((max_score, alignments))
}

/// Calculates the best alignments of sequences `a` and `b`.
///
/// `score_func` gives the score of pairing two characters, `gap_penalty`
/// the penalty of a gap of a given length; it is asked about length 1 only.
///
/// The result is the greatest score of the score matrix with every
/// alignment that reaches it: for each cell of that score, row by row, the
/// alignments of its tracebacks. Where no score is positive, as when either
/// sequence is empty, there is no alignment.
pub fn align<S: Fn(char, char) -> i32, G: Fn(u32) -> i32>(
    a: &str,
    b: &str,
    score_func: &S,
    gap_penalty: &G,
) -> (res: Result<Alignments, ErrorKind>)
    requires
        alignable(a@.len(), b@.len()),
        callable(score_func, gap_penalty, a@, b@),
    ensures
        res matches Err(e) ==> e == ErrorKind::NoAlignments,
        res matches Ok(found) ==> found.0 > 0,
        a@.len() == 0 || b@.len() == 0 ==> res is Err,
        forall|p: Policy| #[trigger]
            implements(score_func, gap_penalty, a@, b@, p) ==> read_from(
                res,
                score_matrix_of(a@, b@, p),
                traceback_matrix_of(a@, b@, p),
            ),
{
    let (score_matrix, traceback_matrix) = build_score_matrix(a, b, score_func, gap_penalty);
    read_alignments(&score_matrix, &traceback_matrix)
}

} // verus!
