//! What holds of every score matrix, traceback matrix and alignment.

use vstd::prelude::*;
use crate::alignment::align::AlignmentCell;
use crate::alignment::align::Alignments;
use crate::alignment::model::{
    alignment_of, alignments_in, alignments_of, best_alignments, best_candidate,
    both_cells_rise, candidate,
    cell_alignments, cell_of, direction_if_best, directions_at, directions_of,
    ends_before_empty_cell, greatest_score, in_matrix, is_best_score, is_traceback, leads, link_ok,
    matrix_alignments, predecessor, prepend_all, produced, read_from, row_alignments, score_at,
    score_matrix_of, step_ok, steps_valid, traceable, traceback_matrix_of, tracebacks_from,
    tracebacks_through, Policy,
};
use crate::alignment::smith_waterman::{Direction, Index};
use crate::errors::ErrorKind;
use crate::scoring::{standard_policy, standard_score};

verus! {

/// Row 0 and column 0 of the score matrix hold 0, and the same cells of the
/// traceback matrix hold no direction.
pub proof fn lemma_border_is_zero(a: Seq<char>, b: Seq<char>, p: Policy, i: int, j: int)
    requires
        0 <= i <= a.len(),
        0 <= j <= b.len(),
        i == 0 || j == 0,
    ensures
        score_matrix_of(a, b, p)[i][j] == 0,
        traceback_matrix_of(a, b, p)[i][j] == Seq::<Direction>::empty(),
{
}

/// No cell of the score matrix is negative.
pub proof fn lemma_scores_are_not_negative(a: Seq<char>, b: Seq<char>, p: Policy, i: int, j: int)
    requires
        0 <= i <= a.len(),
        0 <= j <= b.len(),
    ensures
        score_matrix_of(a, b, p)[i][j] >= 0,
{
}

/// Where the score of a cell is positive, its directions are those whose
/// candidate is the score, each once; elsewhere it has none.
pub proof fn lemma_directions_are_the_best(
    a: Seq<char>,
    b: Seq<char>,
    p: Policy,
    i: int,
    j: int,
    d: Direction,
)
    requires
        0 <= i <= a.len(),
        0 <= j <= b.len(),
    ensures
        ({
            let score = score_matrix_of(a, b, p)[i][j];
            let directions = traceback_matrix_of(a, b, p)[i][j];
            &&& score > 0 ==> (directions.contains(d) <==> candidate(a, b, p, i, j, d) == score)
            &&& score > 0 ==> i >= 1 && j >= 1
            &&& score <= 0 ==> directions.len() == 0
            &&& directions.no_duplicates()
        }),
{
    let score = score_matrix_of(a, b, p)[i][j];
    let directions = traceback_matrix_of(a, b, p)[i][j];
    assert(score == score_at(a, b, p, i, j));
    assert(directions == directions_at(a, b, p, i, j));
    if score > 0 {
        let diag = direction_if_best(a, b, p, i, j, Direction::Diag);
        let up = direction_if_best(a, b, p, i, j, Direction::Up);
        let left = direction_if_best(a, b, p, i, j, Direction::Left);
        assert(directions == diag + up + left);
        assert(score == best_candidate(a, b, p, i, j));
        if candidate(a, b, p, i, j, d) == score {
            match d {
                Direction::Diag => {
                    assert(diag[0] == d);
                    assert(directions[0] == d);
                },
                Direction::Up => {
                    assert(up[0] == d);
                    assert(directions[diag.len() as int] == d);
                },
                Direction::Left => {
                    assert(left[0] == d);
                    assert(directions[(diag.len() + up.len()) as int] == d);
                },
            }
        }
        if directions.contains(d) {
            let n = choose|n: int| 0 <= n < directions.len() && directions[n] == d;
            if n < diag.len() {
                assert(diag[n] == d);
            } else if n < diag.len() + up.len() {
                assert(up[n - diag.len()] == d);
            } else {
                assert(left[n - diag.len() - up.len()] == d);
            }
        }
        assert forall|x: int, y: int|
            0 <= x < directions.len() && 0 <= y < directions.len() && x != y implies directions[x]
            != directions[y] by {
            let dx = directions[x];
            let dy = directions[y];
            if x < diag.len() {
                assert(dx == Direction::Diag);
            } else if x < diag.len() + up.len() {
                assert(dx == up[x - diag.len()]);
            } else {
                assert(dx == left[x - diag.len() - up.len()]);
            }
            if y < diag.len() {
                assert(dy == Direction::Diag);
            } else if y < diag.len() + up.len() {
                assert(dy == up[y - diag.len()]);
            } else {
                assert(dy == left[y - diag.len() - up.len()]);
            }
        }
    }
}

/// Along a traceback that has an alignment, read from its end, neither the
/// row nor the column ever falls.
proof fn lemma_path_rises(tb: Seq<Index>, x: int, y: int)
    requires
        steps_valid(tb),
        0 <= x <= y < tb.len(),
    ensures
        tb[tb.len() - 1 - x].0 <= tb[tb.len() - 1 - y].0,
        tb[tb.len() - 1 - x].1 <= tb[tb.len() - 1 - y].1,
    decreases y - x,
{
    if x < y {
        lemma_path_rises(tb, x, y - 1);
        assert(step_ok(tb, tb.len() - 1 - y));
    }
}

/// In the alignment of a traceback, a `Both` cell that comes after another
/// `Both` cell, with or without gaps between them, lies further on in both
/// sequences.
pub proof fn lemma_both_cells_rise(tb: Seq<Index>)
    requires
        steps_valid(tb),
    ensures
        both_cells_rise(alignment_of(tb)),
{
    let n = tb.len();
    let alignment = alignment_of(tb);
    assert forall|x: int, y: int|
        0 <= x < y < alignment.len() && (#[trigger] alignment[x]) is Both && (
        #[trigger] alignment[y]) is Both implies alignment[y]->Both_left >= alignment[x]->Both_left
        + 1 && alignment[y]->Both_right >= alignment[x]->Both_right + 1 by {
        assert(alignment[x] == cell_of(tb, x));
        assert(alignment[y] == cell_of(tb, y));
        lemma_path_rises(tb, x, y - 1);
        assert(step_ok(tb, n - 1 - y));
        assert(tb[n - 1 - x].0 >= 1 && tb[n - 1 - x].1 >= 1);
        assert(tb[n - 1 - y].0 >= 1 && tb[n - 1 - y].1 >= 1);
        assert(tb[n - y].0 >= 1);
    }
}

/// The alignment that pairs each of the first `n` characters of one
/// sequence with the same character of the other.
pub open spec fn identity_alignment(n: nat) -> Seq<AlignmentCell> {
    Seq::new(n, |k: int| AlignmentCell::Both { left: k as usize, right: k as usize })
}

/// The traceback from cell `(i, i)` down the diagonal to cell `(1, 1)`.
pub open spec fn diagonal_traceback(i: nat) -> Seq<Index> {
    Seq::new(i, |k: int| ((i - k) as usize, (i - k) as usize))
}

/// Under the standard policy no score is more than 3 for each character
/// of the shorter of the two prefixes.
pub proof fn lemma_standard_score_bound(a: Seq<char>, b: Seq<char>, i: int, j: int)
    requires
        0 <= i,
        0 <= j,
    ensures
        score_at(a, b, standard_policy(), i, j) <= 3 * i,
        score_at(a, b, standard_policy(), i, j) <= 3 * j,
    decreases i + j,
{
    let p = standard_policy();
    if i >= 1 && j >= 1 {
        lemma_standard_score_bound(a, b, i - 1, j - 1);
        lemma_standard_score_bound(a, b, i - 1, j);
        lemma_standard_score_bound(a, b, i, j - 1);
        assert((p.score)(a[i - 1], b[j - 1]) == standard_score(a[i - 1], b[j - 1]));
        assert(candidate(a, b, p, i, j, Direction::Diag) <= 3 * i);
        assert(candidate(a, b, p, i, j, Direction::Diag) <= 3 * j);
        assert(candidate(a, b, p, i, j, Direction::Up) <= 3 * i);
        assert(candidate(a, b, p, i, j, Direction::Up) <= 3 * j);
        assert(candidate(a, b, p, i, j, Direction::Left) <= 3 * i);
        assert(candidate(a, b, p, i, j, Direction::Left) <= 3 * j);
    }
}

/// When a sequence is aligned with itself under the standard policy, cell
/// `(i, i)` scores 3 for each of the `i` characters and is reached along
/// the diagonal alone.
pub proof fn lemma_diagonal_of_self_alignment(a: Seq<char>, i: int)
    requires
        0 <= i <= a.len(),
    ensures
        score_at(a, a, standard_policy(), i, i) == 3 * i,
        i >= 1 ==> directions_at(a, a, standard_policy(), i, i) == seq![Direction::Diag],
    decreases i,
{
    let p = standard_policy();
    if i >= 1 {
        lemma_diagonal_of_self_alignment(a, i - 1);
        lemma_standard_score_bound(a, a, i - 1, i);
        lemma_standard_score_bound(a, a, i, i - 1);
        assert((p.score)(a[i - 1], a[i - 1]) == standard_score(a[i - 1], a[i - 1]));
        assert(candidate(a, a, p, i, i, Direction::Diag) == 3 * i);
        assert(candidate(a, a, p, i, i, Direction::Up) < 3 * i);
        assert(candidate(a, a, p, i, i, Direction::Left) < 3 * i);
        assert(best_candidate(a, a, p, i, i) == 3 * i);
        assert(direction_if_best(a, a, p, i, i, Direction::Diag) == seq![Direction::Diag]);
        assert(direction_if_best(a, a, p, i, i, Direction::Up) == Seq::<Direction>::empty());
        assert(direction_if_best(a, a, p, i, i, Direction::Left) == Seq::<Direction>::empty());
        assert(directions_at(a, a, p, i, i) =~= seq![Direction::Diag]);
    }
}

/// When a sequence is aligned with itself under the standard policy, the
/// one traceback from cell `(i, i)` runs down the diagonal.
pub proof fn lemma_diagonal_tracebacks(a: Seq<char>, i: nat)
    requires
        i <= a.len() <= usize::MAX,
    ensures
        tracebacks_from(traceback_matrix_of(a, a, standard_policy()), (i as usize, i as usize))
            == seq![diagonal_traceback(i)],
    decreases i,
{
    let p = standard_policy();
    let t = traceback_matrix_of(a, a, p);
    let idx = (i as usize, i as usize);
    if i == 0 {
        assert(diagonal_traceback(0) =~= Seq::<Index>::empty());
    } else {
        lemma_diagonal_of_self_alignment(a, i as int);
        assert(t[i as int][i as int] == directions_at(a, a, p, i as int, i as int));
        let before = ((i - 1) as usize, (i - 1) as usize);
        assert(predecessor(t[idx.0 as int][idx.1 as int][0], idx) == before);
        lemma_diagonal_tracebacks(a, (i - 1) as nat);
        let tails = tracebacks_from(t, before);
        assert(tails == seq![diagonal_traceback((i - 1) as nat)]);
        assert(tracebacks_through(t, idx, 0) == Seq::<Seq<Index>>::empty());
        assert(tracebacks_through(t, idx, 1) == tracebacks_through(t, idx, 0) + prepend_all(
            idx,
            tails,
        ));
        assert(seq![idx] + diagonal_traceback((i - 1) as nat) =~= diagonal_traceback(i));
        assert(prepend_all(idx, tails) =~= seq![diagonal_traceback(i)]);
        assert(tracebacks_through(t, idx, 1) =~= seq![diagonal_traceback(i)]);
    }
}

/// The alignment of the diagonal traceback pairs each character with
/// itself.
pub proof fn lemma_diagonal_alignment(n: nat)
    requires
        n <= usize::MAX,
    ensures
        alignment_of(diagonal_traceback(n)) == identity_alignment(n),
{
    let tb = diagonal_traceback(n);
    assert forall|k: int| 0 <= k < n implies cell_of(tb, k) == (AlignmentCell::Both {
        left: k as usize,
        right: k as usize,
    }) by {
        assert(tb[n - 1 - k] == ((k + 1) as usize, (k + 1) as usize));
        if k > 0 {
            assert(tb[n - k] == (k as usize, k as usize));
        }
    }
    assert(alignment_of(tb) =~= identity_alignment(n));
}

/// A row in whose first `cols` cells the score `m` does not stand has no
/// alignment of that score.
proof fn lemma_row_without_best(
    s: Seq<Seq<int>>,
    t: Seq<Seq<Seq<Direction>>>,
    m: int,
    i: int,
    cols: nat,
)
    requires
        forall|j: int| 0 <= j < cols ==> s[i][j] != m,
    ensures
        row_alignments(s, t, m, i, cols) == Seq::<Seq<AlignmentCell>>::empty(),
    decreases cols,
{
    if cols > 0 {
        lemma_row_without_best(s, t, m, i, (cols - 1) as nat);
        assert(cell_alignments(s, t, m, i, cols - 1) == Seq::<Seq<AlignmentCell>>::empty());
        assert(Seq::<Seq<AlignmentCell>>::empty() + Seq::<Seq<AlignmentCell>>::empty()
            =~= Seq::<Seq<AlignmentCell>>::empty());
    }
}

/// Rows in which the score `m` does not stand have no alignment of that
/// score.
proof fn lemma_rows_without_best(s: Seq<Seq<int>>, t: Seq<Seq<Seq<Direction>>>, m: int, rows: nat)
    requires
        forall|i: int, j: int| 0 <= i < rows && 0 <= j < s[i].len() ==> s[i][j] != m,
    ensures
        matrix_alignments(s, t, m, rows) == Seq::<Seq<AlignmentCell>>::empty(),
    decreases rows,
{
    if rows > 0 {
        lemma_rows_without_best(s, t, m, (rows - 1) as nat);
        lemma_row_without_best(s, t, m, rows - 1, s[rows - 1].len());
        assert(Seq::<Seq<AlignmentCell>>::empty() + Seq::<Seq<AlignmentCell>>::empty()
            =~= Seq::<Seq<AlignmentCell>>::empty());
    }
}

/// A sequence that is not empty aligns with itself, under the standard
/// policy, with a score of 3 for each character, and its one alignment
/// pairs each character with itself.
pub proof fn lemma_self_alignment(a: Seq<char>)
    requires
        0 < a.len() <= usize::MAX,
    ensures
        greatest_score(score_matrix_of(a, a, standard_policy())) == 3 * a.len(),
        alignments_in(
            score_matrix_of(a, a, standard_policy()),
            traceback_matrix_of(a, a, standard_policy()),
        ) == seq![identity_alignment(a.len())],
{
    let p = standard_policy();
    let n = a.len();
    let s = score_matrix_of(a, a, p);
    let t = traceback_matrix_of(a, a, p);
    let m: int = 3 * (n as int);
    assert forall|i: int, j: int| 0 <= i < s.len() && 0 <= j < s[i].len() implies #[trigger] s[i][j]
        <= m && (s[i][j] == m ==> i == n && j == n) by {
        lemma_standard_score_bound(a, a, i, j);
    }
    lemma_diagonal_of_self_alignment(a, n as int);
    assert(s[n as int][n as int] == m);
    assert(is_best_score(s, m));
    lemma_best_score_unique(s, m, greatest_score(s));

    lemma_rows_without_best(s, t, m, n);
    lemma_row_without_best(s, t, m, n as int, n);
    lemma_diagonal_tracebacks(a, n);
    lemma_diagonal_alignment(n);
    assert(cell_alignments(s, t, m, n as int, n as int) == alignments_of(
        seq![diagonal_traceback(n)],
    ));
    assert(alignments_of(seq![diagonal_traceback(n)]) =~= seq![identity_alignment(n)]);
    assert(row_alignments(s, t, m, n as int, n + 1) == row_alignments(s, t, m, n as int, n)
        + cell_alignments(s, t, m, n as int, n as int));
    assert(matrix_alignments(s, t, m, n + 1) == matrix_alignments(s, t, m, n) + row_alignments(
        s,
        t,
        m,
        n as int,
        s[n as int].len(),
    ));
    assert(Seq::<Seq<AlignmentCell>>::empty() + seq![identity_alignment(n)]
        =~= seq![identity_alignment(n)]);
    assert(best_alignments(s, t, m) == seq![identity_alignment(n)]);
}

/// Every traceback that `tracebacks_from` lists ends at a cell without
/// directions and does not hold that cell: it is a traceback in the sense
/// of `is_traceback`.
pub proof fn lemma_tracebacks_end_at_empty_cell(t: Seq<Seq<Seq<Direction>>>, idx: Index, n: int)
    requires
        traceable(t),
        in_matrix(t, idx),
        0 <= n < tracebacks_from(t, idx).len(),
    ensures
        is_traceback(t, idx, tracebacks_from(t, idx)[n]),
    decreases idx.0 + idx.1, directions_of(t, idx).len() + 1,
{
    assert(directions_of(t, idx) == t[idx.0 as int][idx.1 as int]);
    if idx.0 < 1 || idx.1 < 1 || directions_of(t, idx).len() == 0 {
    } else {
        lemma_tracebacks_through_end_at_empty_cell(t, idx, directions_of(t, idx).len(), n);
    }
}

/// The same of the tracebacks along a cell's first `k` directions.
proof fn lemma_tracebacks_through_end_at_empty_cell(
    t: Seq<Seq<Seq<Direction>>>,
    idx: Index,
    k: nat,
    n: int,
)
    requires
        traceable(t),
        in_matrix(t, idx),
        k <= directions_of(t, idx).len(),
        0 <= n < tracebacks_through(t, idx, k).len(),
    ensures
        is_traceback(t, idx, tracebacks_through(t, idx, k)[n]),
    decreases idx.0 + idx.1, k,
{
    let dirs = directions_of(t, idx);
    assert(dirs == t[idx.0 as int][idx.1 as int]);
    assert(idx.0 >= 1 && idx.1 >= 1 && k >= 1);
    let earlier = tracebacks_through(t, idx, (k - 1) as nat);
    if n < earlier.len() {
        lemma_tracebacks_through_end_at_empty_cell(t, idx, (k - 1) as nat, n);
    } else {
        let from = predecessor(dirs[k - 1], idx);
        let tails = tracebacks_from(t, from);
        let m = n - earlier.len();
        let tail = tails[m];
        let tb = tracebacks_through(t, idx, k)[n];
        assert(tb == seq![idx] + tail);
        lemma_tracebacks_end_at_empty_cell(t, from, m);
        assert(leads(t, idx, from));
        assert(tb[0] == idx);
        if tail.len() == 0 {
            assert(tb.last() == idx);
            assert(ends_before_empty_cell(t, tb.last()));
        } else {
            assert(tb.last() == tail.last());
            assert forall|q: int| 0 <= q < tb.len() implies in_matrix(t, #[trigger] tb[q])
                && directions_of(t, tb[q]).len() > 0 by {
                if q > 0 {
                    assert(tb[q] == tail[q - 1]);
                }
            }
            assert forall|q: int| 0 <= q < tb.len() - 1 implies #[trigger] link_ok(t, tb, q) by {
                if q > 0 {
                    assert(tb[q] == tail[q - 1]);
                    assert(tb[q + 1] == tail[q]);
                    assert(link_ok(t, tail, q - 1));
                } else {
                    assert(tb[1] == tail[0]);
                }
            }
        }
    }
}

/// The tracebacks along more of a cell's directions hold those along fewer.
proof fn lemma_tracebacks_through_grow(
    t: Seq<Seq<Seq<Direction>>>,
    idx: Index,
    fewer: nat,
    more: nat,
    tb: Seq<Index>,
)
    requires
        idx.0 >= 1,
        idx.1 >= 1,
        fewer <= more,
        tracebacks_through(t, idx, fewer).contains(tb),
    ensures
        tracebacks_through(t, idx, more).contains(tb),
    decreases more,
{
    if fewer < more {
        let before = tracebacks_through(t, idx, (more - 1) as nat);
        lemma_tracebacks_through_grow(t, idx, fewer, (more - 1) as nat, tb);
        let n = choose|n: int| 0 <= n < before.len() && before[n] == tb;
        assert(tracebacks_through(t, idx, more)[n] == tb);
    }
}

/// Every traceback from a cell is among those that `tracebacks_from` lists.
pub proof fn lemma_every_traceback_is_listed(
    t: Seq<Seq<Seq<Direction>>>,
    idx: Index,
    tb: Seq<Index>,
)
    requires
        traceable(t),
        in_matrix(t, idx),
        is_traceback(t, idx, tb),
    ensures
        tracebacks_from(t, idx).contains(tb),
    decreases tb.len(),
{
    let dirs = directions_of(t, idx);
    assert(dirs == t[idx.0 as int][idx.1 as int]);
    if tb.len() == 0 {
        assert(tb =~= Seq::<Index>::empty());
        assert(tracebacks_from(t, idx)[0] == tb);
    } else {
        assert(tb[0] == idx);
        assert(in_matrix(t, tb[0]) && directions_of(t, tb[0]).len() > 0);
        assert(idx.0 >= 1 && idx.1 >= 1);
        let rest = tb.subrange(1, tb.len() as int);
        assert(tb =~= seq![idx] + rest);
        // the direction that the traceback takes from its first cell, and
        // the cell that it leads to
        let (n, next) = if rest.len() == 0 {
            assert(tb.last() == idx);
            let end = choose|end: Index| #[trigger]
                leads(t, idx, end) && directions_of(t, end).len() == 0;
            let n = choose|n: int| 0 <= n < dirs.len() && end == predecessor(#[trigger] dirs[n], idx);
            assert(is_traceback(t, end, rest));
            (n, end)
        } else {
            assert(link_ok(t, tb, 0));
            let next = tb[1];
            let n = choose|n: int|
                0 <= n < dirs.len() && next == predecessor(#[trigger] dirs[n], idx);
            assert(rest[0] == next);
            assert forall|k: int| 0 <= k < rest.len() implies in_matrix(t, #[trigger] rest[k])
                && directions_of(t, rest[k]).len() > 0 by {
                assert(rest[k] == tb[k + 1]);
            }
            assert forall|k: int| 0 <= k < rest.len() - 1 implies #[trigger] link_ok(
                t,
                rest,
                k,
            ) by {
                assert(rest[k] == tb[k + 1]);
                assert(rest[k + 1] == tb[k + 2]);
                assert(link_ok(t, tb, k + 1));
            }
            assert(rest.last() == tb.last());
            assert(is_traceback(t, next, rest));
            (n, next)
        };
        assert(in_matrix(t, next));
        lemma_every_traceback_is_listed(t, next, rest);
        let tails = tracebacks_from(t, next);
        let m = choose|m: int| 0 <= m < tails.len() && tails[m] == rest;
        let through = tracebacks_through(t, idx, (n + 1) as nat);
        let earlier = tracebacks_through(t, idx, n as nat);
        assert(through == earlier + prepend_all(idx, tails));
        assert(prepend_all(idx, tails)[m] == tb);
        assert(through[earlier.len() + m] == tb);
        lemma_tracebacks_through_grow(t, idx, (n + 1) as nat, dirs.len(), tb);
    }
}

/// A traceback of a traceable matrix can be turned into an alignment.
pub proof fn lemma_traceback_steps_valid(t: Seq<Seq<Seq<Direction>>>, start: Index, tb: Seq<Index>)
    requires
        traceable(t),
        is_traceback(t, start, tb),
    ensures
        steps_valid(tb),
{
    if tb.len() > 0 {
        assert forall|k: int| 0 <= k < tb.len() implies (#[trigger] tb[k]).0 >= 1 && tb[k].1
            >= 1 by {
            assert(in_matrix(t, tb[k]));
            assert(t[tb[k].0 as int][tb[k].1 as int].len() > 0);
        }
        assert forall|k: int| 0 <= k < tb.len() - 1 implies #[trigger] step_ok(tb, k) by {
            assert(link_ok(t, tb, k));
            assert(tb[k].0 >= 1 && tb[k].1 >= 1);
        }
    }
}

/// A matrix has one greatest score at most.
pub proof fn lemma_best_score_unique(s: Seq<Seq<int>>, m1: int, m2: int)
    requires
        is_best_score(s, m1),
        is_best_score(s, m2),
    ensures
        m1 == m2,
{
}

/// What is read from a pair of matrices is the alignments that they give.
pub proof fn lemma_read_alignments(
    found: Result<Alignments, ErrorKind>,
    s: Seq<Seq<int>>,
    t: Seq<Seq<Seq<Direction>>>,
)
    requires
        s.len() >= 1,
        s[0].len() >= 1,
        read_from(found, s, t),
    ensures
        produced(found) == alignments_in(s, t),
        found matches Ok(best) ==> best.0 == greatest_score(s),
{
    match found {
        Ok((score, alignments)) => {
            lemma_best_score_unique(s, score as int, greatest_score(s));
        },
        Err(_) => {
            if greatest_score(s) > 0 {
                // some cell is the greatest of all, and it is not positive
                let m = choose|m: int| is_best_score(s, m);
                lemma_has_best_score(s);
                assert(is_best_score(s, m));
                assert(false);
            }
        },
    }
}

/// A matrix that has a cell has a greatest score.
pub proof fn lemma_has_best_score(s: Seq<Seq<int>>)
    requires
        s.len() >= 1,
        s[0].len() >= 1,
    ensures
        exists|m: int| is_best_score(s, m),
{
    lemma_prefix_has_best(s, s.len());
    let m = choose|m: int| best_of_rows(s, s.len(), m);
    assert(is_best_score(s, m));
}

/// `m` is the greatest score of the first `rows` rows of `s`.
spec fn best_of_rows(s: Seq<Seq<int>>, rows: nat, m: int) -> bool {
    &&& forall|i: int, j: int| 0 <= i < rows && 0 <= j < s[i].len() ==> #[trigger] s[i][j] <= m
    &&& exists|i: int, j: int| 0 <= i < rows && 0 <= j < s[i].len() && #[trigger] s[i][j] == m
}

/// `m` is the greatest of the first `cols` scores of row `s`.
spec fn best_of_row(row: Seq<int>, cols: nat, m: int) -> bool {
    &&& forall|j: int| 0 <= j < cols ==> #[trigger] row[j] <= m
    &&& exists|j: int| 0 <= j < cols && #[trigger] row[j] == m
}

proof fn lemma_row_has_best(row: Seq<int>, cols: nat)
    requires
        1 <= cols <= row.len(),
    ensures
        exists|m: int| best_of_row(row, cols, m),
    decreases cols,
{
    if cols == 1 {
        assert(best_of_row(row, cols, row[0]));
    } else {
        let fewer = (cols - 1) as nat;
        lemma_row_has_best(row, fewer);
        let m = choose|m: int| best_of_row(row, fewer, m);
        if row[cols - 1] > m {
            assert(best_of_row(row, cols, row[cols - 1]));
        } else {
            assert(best_of_row(row, cols, m));
        }
    }
}

proof fn lemma_prefix_has_best(s: Seq<Seq<int>>, rows: nat)
    requires
        1 <= rows <= s.len(),
        s[0].len() >= 1,
    ensures
        exists|m: int| best_of_rows(s, rows, m),
    decreases rows,
{
    if rows == 1 {
        lemma_row_has_best(s[0], s[0].len());
        let m = choose|m: int| best_of_row(s[0], s[0].len(), m);
        assert(best_of_rows(s, rows, m));
    } else {
        let fewer = (rows - 1) as nat;
        lemma_prefix_has_best(s, fewer);
        let m = choose|m: int| best_of_rows(s, fewer, m);
        let row = s[rows - 1];
        if row.len() == 0 {
            assert(best_of_rows(s, rows, m));
        } else {
            lemma_row_has_best(row, row.len());
            let m2 = choose|m2: int| best_of_row(row, row.len(), m2);
            if m2 > m {
                assert(best_of_rows(s, rows, m2));
            } else {
                assert(best_of_rows(s, rows, m));
            }
        }
    }
}

} // verus!
