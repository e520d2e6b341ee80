//! The mathematics of local alignment: what the cells of the two
//! matrices hold, which tracebacks a traceback matrix allows, and what the
//! alignment of a traceback is.

use vstd::prelude::*;
use crate::alignment::align::{views, AlignmentCell, Alignments};
use crate::alignment::matrix::{has_shape, CELL_BYTES};
use crate::alignment::smith_waterman::{Direction, Index};
use crate::errors::ErrorKind;

verus! {

/// A scoring policy as mathematics: the score of pairing two characters and
/// the penalty of one step of a gap.
pub struct Policy {
    pub score: spec_fn(char, char) -> int,
    pub gap: int,
}

/// Every score and penalty that a policy callable may return lies between
/// `-SCORE_LIMIT` and `SCORE_LIMIT`, the bounds of its type.
pub const SCORE_LIMIT: i64 = 0x8000_0000;

/// The most rows and columns together that a pair of matrices may have, so
/// that every score fits its cell.
pub const MAX_EXTENT: usize = 0xffff_ffff;

/// Both matrices for sequences of these lengths can be built: their cells
/// can be allocated and no score can overflow.
pub open spec fn alignable(a_len: nat, b_len: nat) -> bool {
    &&& (a_len + 1) * (b_len + 1) * CELL_BYTES <= isize::MAX
    &&& a_len + b_len + 2 <= MAX_EXTENT
}

/// The two callables may be called as aligning `a` with `b` calls them: the
/// first on every pair of a character of `a` and one of `b`, the second,
/// where there is such a pair, on a gap of length 1.
pub open spec fn callable<S: Fn(char, char) -> i32, G: Fn(u32) -> i32>(
    score_func: &S,
    gap_penalty: &G,
    a: Seq<char>,
    b: Seq<char>,
) -> bool {
    &&& forall|i: int, j: int|
        0 <= i < a.len() && 0 <= j < b.len() ==> call_requires(
            *score_func,
            (#[trigger] a[i], #[trigger] b[j]),
        )
    &&& a.len() > 0 && b.len() > 0 ==> call_requires(*gap_penalty, (1u32,))
}

/// The two callables compute the policy `p` as far as aligning `a` with `b`
/// asks: whatever they return for a pair of a character of `a` and one of
/// `b`, and for a gap of length 1, is what `p` says.
pub open spec fn implements<S: Fn(char, char) -> i32, G: Fn(u32) -> i32>(
    score_func: &S,
    gap_penalty: &G,
    a: Seq<char>,
    b: Seq<char>,
    p: Policy,
) -> bool {
    &&& forall|i: int, j: int, r: i32|
        0 <= i < a.len() && 0 <= j < b.len() && #[trigger] call_ensures(
            *score_func,
            (a[i], b[j]),
            r,
        ) ==> r == (p.score)(a[i], b[j])
    &&& forall|r: i32| #[trigger] call_ensures(*gap_penalty, (1u32,), r) ==> r == p.gap
}

/// The greatest of three.
pub open spec fn max3(x: int, y: int, z: int) -> int {
    if x >= y && x >= z {
        x
    } else if y >= z {
        y
    } else {
        z
    }
}

/// The Smith-Waterman score of cell `(i, j)`: 0 on the border, and inside
/// the best candidate where that is positive, else 0.
pub open spec fn score_at(a: Seq<char>, b: Seq<char>, p: Policy, i: int, j: int) -> int
    decreases i + j, 2int,
{
    if i <= 0 || j <= 0 {
        0
    } else {
        let m = best_candidate(a, b, p, i, j);
        if m > 0 {
            m
        } else {
            0
        }
    }
}

/// The greatest of the three candidate scores of cell `(i, j)`.
pub open spec fn best_candidate(a: Seq<char>, b: Seq<char>, p: Policy, i: int, j: int) -> int
    decreases i + j, 1int,
{
    if i <= 0 || j <= 0 {
        0
    } else {
        max3(
            candidate(a, b, p, i, j, Direction::Diag),
            candidate(a, b, p, i, j, Direction::Up),
            candidate(a, b, p, i, j, Direction::Left),
        )
    }
}

/// The score that cell `(i, j)` would get from its predecessor in direction
/// `d`: the predecessor's score plus the pair's score along the diagonal,
/// less the gap penalty from above or from the left.
pub open spec fn candidate(
    a: Seq<char>,
    b: Seq<char>,
    p: Policy,
    i: int,
    j: int,
    d: Direction,
) -> int
    decreases i + j, 0int,
{
    if i <= 0 || j <= 0 {
        0
    } else {
        match d {
            Direction::Diag => score_at(a, b, p, i - 1, j - 1) + (p.score)(a[i - 1], b[j - 1]),
            Direction::Up => score_at(a, b, p, i - 1, j) - p.gap,
            Direction::Left => score_at(a, b, p, i, j - 1) - p.gap,
        }
    }
}

/// `d` alone if its candidate is the best one of cell `(i, j)`, else nothing.
pub open spec fn direction_if_best(
    a: Seq<char>,
    b: Seq<char>,
    p: Policy,
    i: int,
    j: int,
    d: Direction,
) -> Seq<Direction> {
    if candidate(a, b, p, i, j, d) == best_candidate(a, b, p, i, j) {
        seq![d]
    } else {
        Seq::empty()
    }
}

/// The directions of cell `(i, j)`: none on the border or where no candidate
/// is positive, else each direction whose candidate is the best, in the
/// order `Diag`, `Up`, `Left`.
pub open spec fn directions_at(a: Seq<char>, b: Seq<char>, p: Policy, i: int, j: int) -> Seq<
    Direction,
> {
    if i <= 0 || j <= 0 || best_candidate(a, b, p, i, j) <= 0 {
        Seq::empty()
    } else {
        direction_if_best(a, b, p, i, j, Direction::Diag) + direction_if_best(
            a,
            b,
            p,
            i,
            j,
            Direction::Up,
        ) + direction_if_best(a, b, p, i, j, Direction::Left)
    }
}

/// The score matrix of `a` against `b` under `p`.
pub open spec fn score_matrix_of(a: Seq<char>, b: Seq<char>, p: Policy) -> Seq<Seq<int>> {
    Seq::new(a.len() + 1, |i: int| Seq::new(b.len() + 1, |j: int| score_at(a, b, p, i, j)))
}

/// The traceback matrix of `a` against `b` under `p`.
pub open spec fn traceback_matrix_of(a: Seq<char>, b: Seq<char>, p: Policy) -> Seq<
    Seq<Seq<Direction>>,
> {
    Seq::new(a.len() + 1, |i: int| Seq::new(b.len() + 1, |j: int| directions_at(a, b, p, i, j)))
}

/// A traceback matrix from which tracebacks can be read: it is a rectangle
/// with at least one cell, and a cell that holds any direction is in neither
/// row 0 nor column 0, so that every direction leads to a cell of the matrix.
pub open spec fn traceable(t: Seq<Seq<Seq<Direction>>>) -> bool {
    &&& t.len() >= 1
    &&& t[0].len() >= 1
    &&& has_shape(t, t.len(), t[0].len())
    &&& forall|i: int, j: int|
        0 <= i < t.len() && 0 <= j < t[0].len() && (#[trigger] t[i][j]).len() > 0 ==> i >= 1 && j
            >= 1
}

/// The cell that direction `d` leads to from `idx`.
pub open spec fn predecessor(d: Direction, idx: Index) -> Index {
    match d {
        Direction::Diag => ((idx.0 - 1) as usize, (idx.1 - 1) as usize),
        Direction::Up => ((idx.0 - 1) as usize, idx.1),
        Direction::Left => (idx.0, (idx.1 - 1) as usize),
    }
}

/// Each of `tails` with `idx` put in front.
pub open spec fn prepend_all(idx: Index, tails: Seq<Seq<Index>>) -> Seq<Seq<Index>> {
    tails.map_values(|tail: Seq<Index>| seq![idx] + tail)
}

/// Every traceback from `idx` that `t` allows. A cell without directions
/// has one traceback, the empty one. Any other cell has, for each of its
/// directions in turn, each traceback of that direction's predecessor in
/// turn, with the cell itself in front. (A cell in row 0 or column 0 counts
/// as one without directions.)
pub open spec fn tracebacks_from(t: Seq<Seq<Seq<Direction>>>, idx: Index) -> Seq<Seq<Index>>
    decreases idx.0 + idx.1, t[idx.0 as int][idx.1 as int].len() + 1,
{
    if idx.0 < 1 || idx.1 < 1 || t[idx.0 as int][idx.1 as int].len() == 0 {
        seq![Seq::empty()]
    } else {
        tracebacks_through(t, idx, t[idx.0 as int][idx.1 as int].len())
    }
}

/// The tracebacks from `idx` that start along one of the cell's first `k`
/// directions.
pub open spec fn tracebacks_through(t: Seq<Seq<Seq<Direction>>>, idx: Index, k: nat) -> Seq<
    Seq<Index>,
>
    decreases idx.0 + idx.1, k,
{
    if idx.0 < 1 || idx.1 < 1 || k == 0 {
        Seq::empty()
    } else {
        tracebacks_through(t, idx, (k - 1) as nat) + prepend_all(
            idx,
            tracebacks_from(t, predecessor(t[idx.0 as int][idx.1 as int][k - 1], idx)),
        )
    }
}

/// A step that an alignment can take from cell `from` to cell `to`: one
/// row and one column on, one row on, or one column on.
pub open spec fn is_step(from: Index, to: Index) -> bool {
    ||| to.0 == from.0 + 1 && to.1 == from.1 + 1
    ||| to.0 == from.0 + 1 && to.1 == from.1
    ||| to.0 == from.0 && to.1 == from.1 + 1
}

/// The move from cell `k + 1` of `tb` back to cell `k` is a step.
pub open spec fn step_ok(tb: Seq<Index>, k: int) -> bool {
    is_step(tb[k + 1], tb[k])
}

/// `tb` can be turned into an alignment: none of its cells lies in row 0
/// or column 0, and, read from its last cell to its first, it moves by
/// steps.
pub open spec fn steps_valid(tb: Seq<Index>) -> bool {
    &&& forall|k: int| 0 <= k < tb.len() ==> (#[trigger] tb[k]).0 >= 1 && tb[k].1 >= 1
    &&& forall|k: int| 0 <= k < tb.len() - 1 ==> #[trigger] step_ok(tb, k)
}

/// Cell `k` of the alignment of `tb`. It speaks of the `k`-th cell of `tb`
/// counted from the end, moved from the matrix to the sequences by taking 1
/// from its row and column. The first is a `Both`; a later one is a `Both`
/// after a diagonal step, a `RightGap` after a step along the rows alone and
/// a `LeftGap` after a step along the columns alone.
pub open spec fn cell_of(tb: Seq<Index>, k: int) -> AlignmentCell {
    let here = tb[tb.len() - 1 - k];
    let left = (here.0 - 1) as usize;
    let right = (here.1 - 1) as usize;
    if k == 0 {
        AlignmentCell::Both { left, right }
    } else {
        let from = tb[tb.len() - k];
        if here.0 == from.0 + 1 && here.1 == from.1 + 1 {
            AlignmentCell::Both { left, right }
        } else if here.0 == from.0 + 1 {
            AlignmentCell::RightGap { left }
        } else {
            AlignmentCell::LeftGap { right }
        }
    }
}

/// The alignment of the traceback `tb`.
pub open spec fn alignment_of(tb: Seq<Index>) -> Seq<AlignmentCell> {
    Seq::new(tb.len(), |k: int| cell_of(tb, k))
}

/// `c` is a cell of the matrix `t`.
pub open spec fn in_matrix(t: Seq<Seq<Seq<Direction>>>, c: Index) -> bool {
    c.0 < t.len() && c.1 < t[0].len()
}

/// The directions that `t` holds at cell `c`.
pub open spec fn directions_of(t: Seq<Seq<Seq<Direction>>>, c: Index) -> Seq<Direction> {
    t[c.0 as int][c.1 as int]
}

/// One of the directions at cell `from` leads to cell `to`.
pub open spec fn leads(t: Seq<Seq<Seq<Direction>>>, from: Index, to: Index) -> bool {
    exists|n: int|
        0 <= n < directions_of(t, from).len() && to == predecessor(
            #[trigger] directions_of(t, from)[n],
            from,
        )
}

/// Cell `k` of `tb` leads to cell `k + 1`.
pub open spec fn link_ok(t: Seq<Seq<Seq<Direction>>>, tb: Seq<Index>, k: int) -> bool {
    leads(t, tb[k], tb[k + 1])
}

/// Cell `last` leads to a cell without directions.
pub open spec fn ends_before_empty_cell(t: Seq<Seq<Seq<Direction>>>, last: Index) -> bool {
    exists|end: Index| #[trigger] leads(t, last, end) && directions_of(t, end).len() == 0
}

/// `tb` is a traceback of `t` from `start`. Either `start` has no direction
/// and `tb` is empty; or `tb` begins with `start`, each of its cells is a
/// cell of the matrix that has directions and leads to the next, and the
/// last leads to a cell without directions, which `tb` does not hold.
pub open spec fn is_traceback(t: Seq<Seq<Seq<Direction>>>, start: Index, tb: Seq<Index>) -> bool {
    if tb.len() == 0 {
        directions_of(t, start).len() == 0
    } else {
        &&& tb[0] == start
        &&& forall|k: int|
            0 <= k < tb.len() ==> in_matrix(t, #[trigger] tb[k]) && directions_of(t, tb[k]).len()
                > 0
        &&& forall|k: int| 0 <= k < tb.len() - 1 ==> #[trigger] link_ok(t, tb, k)
        &&& ends_before_empty_cell(t, tb.last())
    }
}

/// Every `Both` cell of `alignment` lies further on in both sequences than
/// every `Both` cell before it.
pub open spec fn both_cells_rise(alignment: Seq<AlignmentCell>) -> bool {
    forall|x: int, y: int|
        0 <= x < y < alignment.len() && (#[trigger] alignment[x]) is Both && (#[trigger] alignment[y]) is Both
            ==> alignment[y]->Both_left >= alignment[x]->Both_left + 1 && alignment[y]->Both_right
            >= alignment[x]->Both_right + 1
}

/// `m` is the greatest score of the matrix `s`.
pub open spec fn is_best_score(s: Seq<Seq<int>>, m: int) -> bool {
    &&& forall|i: int, j: int| 0 <= i < s.len() && 0 <= j < s[i].len() ==> #[trigger] s[i][j] <= m
    &&& exists|i: int, j: int| 0 <= i < s.len() && 0 <= j < s[i].len() && #[trigger] s[i][j] == m
}

/// The alignments of every traceback in `tbs`, in order.
pub open spec fn alignments_of(tbs: Seq<Seq<Index>>) -> Seq<Seq<AlignmentCell>> {
    tbs.map_values(|tb: Seq<Index>| alignment_of(tb))
}

/// The alignments that start at cell `(i, j)`: those of all its tracebacks
/// where its score is `m`, none elsewhere.
pub open spec fn cell_alignments(
    s: Seq<Seq<int>>,
    t: Seq<Seq<Seq<Direction>>>,
    m: int,
    i: int,
    j: int,
) -> Seq<Seq<AlignmentCell>> {
    if s[i][j] == m {
        alignments_of(tracebacks_from(t, (i as usize, j as usize)))
    } else {
        Seq::empty()
    }
}

/// The alignments that start in the first `cols` cells of row `i`, cell by
/// cell.
pub open spec fn row_alignments(
    s: Seq<Seq<int>>,
    t: Seq<Seq<Seq<Direction>>>,
    m: int,
    i: int,
    cols: nat,
) -> Seq<Seq<AlignmentCell>>
    decreases cols,
{
    if cols == 0 {
        Seq::empty()
    } else {
        row_alignments(s, t, m, i, (cols - 1) as nat) + cell_alignments(s, t, m, i, cols - 1)
    }
}

/// The alignments that start in the first `rows` rows, row by row.
pub open spec fn matrix_alignments(
    s: Seq<Seq<int>>,
    t: Seq<Seq<Seq<Direction>>>,
    m: int,
    rows: nat,
) -> Seq<Seq<AlignmentCell>>
    decreases rows,
{
    if rows == 0 {
        Seq::empty()
    } else {
        matrix_alignments(s, t, m, (rows - 1) as nat) + row_alignments(
            s,
            t,
            m,
            rows - 1,
            s[rows - 1].len(),
        )
    }
}

/// Every alignment of score `m`: for each cell of score `m`, row by row
/// and within a row from the first column on, the alignments of the cell's
/// tracebacks in their order.
pub open spec fn best_alignments(s: Seq<Seq<int>>, t: Seq<Seq<Seq<Direction>>>, m: int) -> Seq<
    Seq<AlignmentCell>,
> {
    matrix_alignments(s, t, m, s.len())
}

/// `res` is what the matrices `s` and `t` give: the greatest score with
/// every alignment that reaches it where that score is positive, and
/// `NoAlignments` where no score is.
pub open spec fn read_from(res: Result<Alignments, ErrorKind>, s: Seq<Seq<int>>, t: Seq<Seq<Seq<Direction>>>) -> bool {
    match res {
        Ok((score, alignments)) => {
            &&& score > 0
            &&& is_best_score(s, score as int)
            &&& views(alignments@) == best_alignments(s, t, score as int)
        },
        Err(e) => {
            &&& e == ErrorKind::NoAlignments
            &&& forall|i: int, j: int|
                0 <= i < s.len() && 0 <= j < s[i].len() ==> #[trigger] s[i][j] <= 0
        },
    }
}

/// The greatest score of the matrix `s`.
pub open spec fn greatest_score(s: Seq<Seq<int>>) -> int {
    choose|m: int| is_best_score(s, m)
}

/// The alignments that the matrices `s` and `t` give: every alignment of
/// the greatest score where that is positive, none where it is not.
pub open spec fn alignments_in(s: Seq<Seq<int>>, t: Seq<Seq<Seq<Direction>>>) -> Seq<
    Seq<AlignmentCell>,
> {
    if greatest_score(s) > 0 {
        best_alignments(s, t, greatest_score(s))
    } else {
        Seq::empty()
    }
}

/// The alignments that an aligner has produced: none where it failed.
pub open spec fn produced(found: Result<Alignments, ErrorKind>) -> Seq<Seq<AlignmentCell>> {
    match found {
        Ok((_, alignments)) => views(alignments@),
        Err(_) => Seq::empty(),
    }
}

} // verus!
