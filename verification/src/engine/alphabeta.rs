//! Negamax + alpha-beta + iterative deepening + candidate pruning + time budget.
//!
//! Candidates are the empty cells within Chebyshev distance 2 of a stone; they are
//! ordered by a 1-ply evaluation so that alpha-beta cuts come early. Iterative
//! deepening keeps the result of the deepest completed search when the time budget
//! runs out.
use vstd::prelude::*;
use std::time::Instant;
use crate::board::{
    Board, Color, Pos, BOARD_SIZE, cell_of, cell_at, in_board, five_at, history_ok,
    same_cell, group_pos,
};

use crate::engine::evaluate::{evaluate, eval_spec, lemma_eval_bounds, SIDE_SCORE_MAX};
use crate::engine::shape::SCORE_FIVE;
use crate::engine::{Engine, move_ok, fallback_move};
use crate::clock::{expired, instant_now, millis, instant_checked_add};


verus! {

broadcast use group_pos;

/// Empty cells within this Chebyshev distance of a stone are search candidates.
pub const SEARCH_RADIUS: i32 = 2;

/// Base of the terminal score for the side that has five in a row. A win found with
/// `depth` plies of search left scores `WIN_SCORE + depth` (see `win_value`), so the
/// search prefers winning sooner and losing later.
pub const WIN_SCORE: i64 = SCORE_FIVE * 100;

/// The score of a won game reached with `depth` plies of search left: the sooner the
/// win, the more search is left, the higher the score.
pub open spec fn win_value(depth: int) -> int {
    WIN_SCORE + depth
}

/// The centre intersection (天元).
pub open spec fn center() -> Pos {
    Pos::at(9, 9)
}

/// Some stone lies within Chebyshev distance `SEARCH_RADIUS` of (col, row).
pub open spec fn near_stone(h: Seq<(Pos, Color)>, col: int, row: int) -> bool {
    exists|dc: int, dr: int|
        -2 <= dc <= 2 && -2 <= dr <= 2 && in_board(col + dc, row + dr) && (#[trigger] cell_of(
            h,
            col + dc,
            row + dr,
        )) is Some
}

/// (col, row) is an empty intersection next to the stones.
pub open spec fn is_candidate(h: Seq<(Pos, Color)>, col: int, row: int) -> bool {
    in_board(col, row) && cell_of(h, col, row) is None && near_stone(h, col, row)
}

/// Intersections of column `col` with row below `row` that satisfy `pred`, by row.
pub open spec fn scan_col(pred: spec_fn(int, int) -> bool, col: int, row: int) -> Seq<Pos>
    decreases row,
{
    if row <= 0 {
        Seq::empty()
    } else if pred(col, row - 1) {
        scan_col(pred, col, row - 1).push(Pos::at(col, row - 1))
    } else {
        scan_col(pred, col, row - 1)
    }
}

/// Intersections of the columns below `col` that satisfy `pred`, column by column.
pub open spec fn scan_cols(pred: spec_fn(int, int) -> bool, col: int) -> Seq<Pos>
    decreases col,
{
    if col <= 0 {
        Seq::empty()
    } else {
        scan_cols(pred, col - 1) + scan_col(pred, col - 1, 19)
    }
}

pub open spec fn candidate_pred(h: Seq<(Pos, Color)>) -> spec_fn(int, int) -> bool {
    |c: int, r: int| is_candidate(h, c, r)
}

pub open spec fn empty_pred(h: Seq<(Pos, Color)>) -> spec_fn(int, int) -> bool {
    |c: int, r: int| in_board(c, r) && cell_of(h, c, r) is None
}

/// The search candidates: the centre on an empty board, else the empty cells next to
/// the stones, column by column.
pub open spec fn candidates_spec(h: Seq<(Pos, Color)>) -> Seq<Pos> {
    if h.len() == 0 {
        seq![center()]
    } else {
        scan_cols(candidate_pred(h), 19)
    }
}

/// The empty intersections, column by column.
pub open spec fn empties_spec(h: Seq<(Pos, Color)>) -> Seq<Pos> {
    scan_cols(empty_pred(h), 19)
}

/// Every position a scan yields satisfies its predicate, and lies in the columns and
/// rows scanned.
proof fn lemma_scan_col(pred: spec_fn(int, int) -> bool, col: int, row: int)
    requires
        0 <= col < 19,
        row <= 19,
    ensures
        forall|i: int|
            0 <= i < scan_col(pred, col, row).len() ==> {
                let p = #[trigger] scan_col(pred, col, row)[i];
                &&& p.col_spec() == col
                &&& 0 <= p.row_spec() < row
                &&& pred(col, p.row_spec())
            },
        forall|i: int, j: int|
            0 <= i < j < scan_col(pred, col, row).len() ==> (#[trigger] scan_col(pred, col, row)[i]).row_spec()
                < (#[trigger] scan_col(pred, col, row)[j]).row_spec(),
        forall|r: int| 0 <= r < row && pred(col, r) ==> #[trigger] scan_col(pred, col, row).contains(Pos::at(col, r)),
    decreases row,
{
    if row > 0 {
        lemma_scan_col(pred, col, row - 1);
        let prev = scan_col(pred, col, row - 1);
        if pred(col, row - 1) {
            let cur = prev.push(Pos::at(col, row - 1));
            assert forall|i: int, j: int| 0 <= i < j < cur.len() implies (#[trigger] cur[i]).row_spec()
                < (#[trigger] cur[j]).row_spec() by {
                assert(cur[i] == prev[i]);
                if j < prev.len() {
                    assert(cur[j] == prev[j]);
                } else {
                    assert(cur[j] == Pos::at(col, row - 1));
                    assert(Pos::at(col, row - 1).row_spec() == row - 1);
                    assert(prev[i].row_spec() < row - 1);
                }
            }
            assert forall|r: int| 0 <= r < row && pred(col, r) implies #[trigger] cur.contains(Pos::at(col, r)) by {
                if r < row - 1 {
                    assert(prev.contains(Pos::at(col, r)));
                    let k = choose|k: int| 0 <= k < prev.len() && prev[k] == Pos::at(col, r);
                    assert(cur[k] == Pos::at(col, r));
                } else {
                    assert(cur[cur.len() - 1] == Pos::at(col, r));
                }
            }
        }
    }
}

proof fn lemma_scan_cols(pred: spec_fn(int, int) -> bool, col: int)
    requires
        0 <= col <= 19,
    ensures
        forall|i: int|
            0 <= i < scan_cols(pred, col).len() ==> {
                let p = #[trigger] scan_cols(pred, col)[i];
                &&& 0 <= p.col_spec() < col
                &&& 0 <= p.row_spec() < 19
                &&& pred(p.col_spec(), p.row_spec())
            },
        forall|i: int, j: int|
            0 <= i < j < scan_cols(pred, col).len() ==> !same_cell(
                #[trigger] scan_cols(pred, col)[i],
                #[trigger] scan_cols(pred, col)[j],
            ),
        forall|c: int, r: int|
            0 <= c < col && 0 <= r < 19 && pred(c, r) ==> #[trigger] scan_cols(pred, col).contains(
                Pos::at(c, r),
            ),
    decreases col,
{
    if col > 0 {
        lemma_scan_cols(pred, col - 1);
        lemma_scan_col(pred, col - 1, 19);
        let a = scan_cols(pred, col - 1);
        let b = scan_col(pred, col - 1, 19);
        let s = a + b;
        assert forall|i: int| 0 <= i < s.len() implies {
            let p = #[trigger] s[i];
            &&& 0 <= p.col_spec() < col
            &&& 0 <= p.row_spec() < 19
            &&& pred(p.col_spec(), p.row_spec())
        } by {
            if i < a.len() {
                assert(s[i] == a[i]);
            } else {
                assert(s[i] == b[i - a.len()]);
            }
        }
        assert forall|i: int, j: int| 0 <= i < j < s.len() implies !same_cell(
            #[trigger] s[i],
            #[trigger] s[j],
        ) by {
            if j < a.len() {
                assert(s[i] == a[i]);
                assert(s[j] == a[j]);
            } else if i < a.len() {
                assert(s[i] == a[i]);
                assert(s[j] == b[j - a.len()]);
            } else {
                assert(s[i] == b[i - a.len()]);
                assert(s[j] == b[j - a.len()]);
            }
        }
        assert forall|c: int, r: int| 0 <= c < col && 0 <= r < 19 && pred(c, r) implies #[trigger] s.contains(
            Pos::at(c, r),
        ) by {
            if c < col - 1 {
                assert(a.contains(Pos::at(c, r)));
                let k = choose|k: int| 0 <= k < a.len() && a[k] == Pos::at(c, r);
                assert(s[k] == Pos::at(c, r));
            } else {
                assert(b.contains(Pos::at(c, r)));
                let k = choose|k: int| 0 <= k < b.len() && b[k] == Pos::at(c, r);
                assert(s[a.len() + k] == Pos::at(c, r));
            }
        }
    }
}

/// The candidates are distinct empty intersections on the board, and every empty
/// intersection next to a stone is one of them.
pub proof fn lemma_candidates(h: Seq<(Pos, Color)>)
    ensures
        forall|i: int|
            0 <= i < candidates_spec(h).len() ==> (#[trigger] candidates_spec(h)[i]).valid()
                && cell_at(h, candidates_spec(h)[i]) is None,
        forall|i: int, j: int|
            0 <= i < j < candidates_spec(h).len() ==> !same_cell(
                #[trigger] candidates_spec(h)[i],
                #[trigger] candidates_spec(h)[j],
            ),
        h.len() > 0 ==> forall|c: int, r: int|
            is_candidate(h, c, r) ==> #[trigger] candidates_spec(h).contains(Pos::at(c, r)),
        h.len() > 0 ==> forall|i: int|
            0 <= i < candidates_spec(h).len() ==> is_candidate(
                h,
                (#[trigger] candidates_spec(h)[i]).col_spec(),
                candidates_spec(h)[i].row_spec(),
            ),
{
    if h.len() == 0 {
        assert(candidates_spec(h)[0] == center());
        assert(cell_of(h, 9, 9) is None);
    } else {
        lemma_scan_cols(candidate_pred(h), 19);
    }
}

/// Whether a stone lies within distance 2 of (col, row).
fn has_stone_near(board: &Board, col: usize, row: usize) -> (r: bool)
    requires
        board.wf(),
        col < 19,
        row < 19,
    ensures
        r == near_stone(board@, col as int, row as int),
{
    let mut dc: i32 = -SEARCH_RADIUS;
    while dc <= SEARCH_RADIUS
        invariant
            board.wf(),
            col < 19,
            row < 19,
            -2 <= dc <= 3,
            forall|a: int, b: int|
                -2 <= a < dc && -2 <= b <= 2 && in_board(col + a, row + b) ==> (#[trigger] cell_of(
                    board@,
                    col + a,
                    row + b,
                )) is None,
        decreases 3 - dc,
    {
        let mut dr: i32 = -SEARCH_RADIUS;
        while dr <= SEARCH_RADIUS
            invariant
                board.wf(),
                col < 19,
                row < 19,
                -2 <= dc <= 2,
                -2 <= dr <= 3,
                forall|a: int, b: int|
                    -2 <= a < dc && -2 <= b <= 2 && in_board(col + a, row + b) ==> (#[trigger] cell_of(
                        board@,
                        col + a,
                        row + b,
                    )) is None,
                forall|b: int|
                    -2 <= b < dr && in_board(col + dc, row + b) ==> (#[trigger] cell_of(
                        board@,
                        col + dc,
                        row + b,
                    )) is None,
            decreases 3 - dr,
        {
            let nx = col as i32 + dc;
            let ny = row as i32 + dr;
            if 0 <= nx && nx < 19 && 0 <= ny && ny < 19 {
                let q = Pos::new(nx as usize, ny as usize);
                if !board.is_empty(q) {
                    assert(cell_of(board@, col + dc, row + dr) is Some);
                    return true;
                }
            }
            dr = dr + 1;
        }
        dc = dc + 1;
    }
    false
}

/// Empty cells within `SEARCH_RADIUS` (Chebyshev) of any stone; the centre on an empty
/// board.
pub fn candidates(board: &Board) -> (cands: Vec<Pos>)
    requires
        board.wf(),
    ensures
        cands@ == candidates_spec(board@),
{
    if board.move_count() == 0 {
        let c = vec![Pos::new(BOARD_SIZE / 2, BOARD_SIZE / 2)];
        assert(c@ =~= candidates_spec(board@));
        return c;
    }
    let ghost pred = candidate_pred(board@);
    let mut out: Vec<Pos> = Vec::new();
    let mut c: usize = 0;
    while c < BOARD_SIZE
        invariant
            board.wf(),
            board@.len() > 0,
            pred == candidate_pred(board@),
            c <= 19,
            out@ == scan_cols(pred, c as int),
        decreases 19 - c,
    {
        let ghost before = out@;
        let mut r: usize = 0;
        while r < BOARD_SIZE
            invariant
                board.wf(),
                pred == candidate_pred(board@),
                c < 19,
                r <= 19,
                out@ == before + scan_col(pred, c as int, r as int),
            decreases 19 - r,
        {
            let p = Pos::new(c, r);
            if board.is_empty(p) && has_stone_near(board, c, r) {
                out.push(p);
                assert(out@ =~= before + scan_col(pred, c as int, r + 1));
            } else {
                assert(out@ =~= before + scan_col(pred, c as int, r + 1));
            }
            r = r + 1;
        }
        c = c + 1;
    }
    out
}

/// How good playing `p` looks for `side` one ply deep.
pub open spec fn order_score(h: Seq<(Pos, Color)>, side: Color, p: Pos) -> int {
    eval_spec(h.push((p, side)), side)
}

/// Some entry of `perm` is `j`.
pub open spec fn covers(perm: Seq<int>, j: int) -> bool {
    exists|k: int| 0 <= k < perm.len() && perm[k] == j
}

/// `after` is `before` sorted by descending 1-ply score, equal scores keeping their
/// order; `perm[k]` is the place in `before` of `after[k]`.
pub open spec fn sorted_by_score(
    h: Seq<(Pos, Color)>,
    side: Color,
    before: Seq<Pos>,
    after: Seq<Pos>,
    perm: Seq<int>,
) -> bool {
    &&& after.len() == before.len()
    &&& perm.len() == before.len()
    &&& forall|k: int|
        0 <= k < perm.len() ==> 0 <= #[trigger] perm[k] < before.len() && after[k] == before[perm[k]]
    &&& forall|a: int, b: int| 0 <= a < b < perm.len() ==> #[trigger] perm[a] != #[trigger] perm[b]
    &&& forall|j: int| 0 <= j < before.len() ==> #[trigger] covers(perm, j)
    &&& forall|a: int, b: int|
        0 <= a < b < after.len() ==> order_score(h, side, #[trigger] after[a]) > order_score(
            h,
            side,
            #[trigger] after[b],
        ) || (order_score(h, side, after[a]) == order_score(h, side, after[b]) && perm[a] < perm[b])
}

/// Insertion invariant of the stable sort: `sorted` holds the first `i` scored moves
/// of `cands`, in descending score order, equal scores in the order given.
spec fn insertion_ok(
    h: Seq<(Pos, Color)>,
    side: Color,
    cands: Seq<Pos>,
    sorted: Seq<(Pos, i64)>,
    perm: Seq<int>,
    i: int,
) -> bool {
    &&& sorted.len() == i
    &&& perm.len() == i
    &&& forall|k: int|
        0 <= k < i ==> 0 <= #[trigger] perm[k] < i && sorted[k].0 == cands[perm[k]] && sorted[k].1
            == order_score(h, side, cands[perm[k]])
    &&& forall|a: int, b: int| 0 <= a < b < i ==> #[trigger] perm[a] != #[trigger] perm[b]
    &&& forall|j: int| 0 <= j < i ==> #[trigger] covers(perm, j)
    &&& forall|a: int, b: int|
        0 <= a < b < i ==> (#[trigger] sorted[a]).1 > (#[trigger] sorted[b]).1 || (sorted[a].1
            == sorted[b].1 && perm[a] < perm[b])
}

proof fn lemma_insertion_step(
    h: Seq<(Pos, Color)>,
    side: Color,
    cands: Seq<Pos>,
    sorted: Seq<(Pos, i64)>,
    perm: Seq<int>,
    i: int,
    j: int,
)
    requires
        0 <= i < cands.len(),
        insertion_ok(h, side, cands, sorted, perm, i),
        0 <= j <= i,
        forall|t: int| 0 <= t < j ==> (#[trigger] sorted[t]).1 >= order_score(h, side, cands[i]),
        j < i ==> sorted[j].1 < order_score(h, side, cands[i]),
        order_score(h, side, cands[i]) == order_score(h, side, cands[i]) as i64,
    ensures
        insertion_ok(
            h,
            side,
            cands,
            sorted.insert(j, (cands[i], order_score(h, side, cands[i]) as i64)),
            perm.insert(j, i),
            i + 1,
        ),
{
    let x = (cands[i], order_score(h, side, cands[i]) as i64);
    let s2 = sorted.insert(j, x);
    let p2 = perm.insert(j, i);
    sorted.insert_ensures(j, x);
    perm.insert_ensures(j, i);
    assert forall|k: int| 0 <= k < i + 1 implies 0 <= #[trigger] p2[k] < i + 1 && s2[k].0 == cands[p2[k]]
        && s2[k].1 == order_score(h, side, cands[p2[k]]) by {
        if k < j {
            assert(p2[k] == perm[k]);
        } else if k > j {
            assert(p2[k] == perm[k - 1]);
            assert(s2[k] == sorted[k - 1]);
        }
    }
    assert forall|a: int, b: int| 0 <= a < b < i + 1 implies #[trigger] p2[a] != #[trigger] p2[b] by {
        if a < j {
            assert(p2[a] == perm[a]);
        } else if a > j {
            assert(p2[a] == perm[a - 1]);
        }
        if b < j {
            assert(p2[b] == perm[b]);
        } else if b > j {
            assert(p2[b] == perm[b - 1]);
        }
    }
    assert forall|q: int| 0 <= q < i + 1 implies #[trigger] covers(p2, q) by {
        if q == i {
            assert(p2[j] == i);
        } else {
            assert(covers(perm, q));
            let k = choose|k: int| 0 <= k < perm.len() && perm[k] == q;
            if k < j {
                assert(p2[k] == q);
            } else {
                assert(p2[k + 1] == q);
            }
        }
    }
    assert forall|a: int, b: int| 0 <= a < b < i + 1 implies (#[trigger] s2[a]).1 > (#[trigger] s2[b]).1
        || (s2[a].1 == s2[b].1 && p2[a] < p2[b]) by {
        if b < j {
            assert(s2[a] == sorted[a] && s2[b] == sorted[b]);
            assert(p2[a] == perm[a] && p2[b] == perm[b]);
        } else if b == j {
            assert(s2[a] == sorted[a]);
            assert(p2[a] == perm[a]);
            assert(sorted[a].1 >= order_score(h, side, cands[i]));
        } else if a < j {
            assert(s2[a] == sorted[a] && s2[b] == sorted[b - 1]);
            assert(p2[a] == perm[a] && p2[b] == perm[b - 1]);
        } else if a == j {
            assert(s2[b] == sorted[b - 1]);
            assert(p2[b] == perm[b - 1]);
            if b - 1 > j {
                assert(sorted[j].1 > sorted[b - 1].1 || sorted[j].1 == sorted[b - 1].1);
            }
        } else {
            assert(s2[a] == sorted[a - 1] && s2[b] == sorted[b - 1]);
            assert(p2[a] == perm[a - 1] && p2[b] == perm[b - 1]);
        }
    }
}

/// Sort `cands` by descending 1-ply evaluation of `side` playing there, keeping equal
/// scores in their order. Better move ordering means earlier alpha-beta cutoffs.
fn order_candidates(board: &mut Board, cands: &mut Vec<Pos>, side: Color) -> (perm: Ghost<Seq<int>>)
    requires
        old(board).wf(),
        forall|k: int| 0 <= k < old(cands)@.len() ==> cell_at(old(board)@, #[trigger] old(cands)@[k]) is None,
    ensures
        final(board).wf(),
        final(board)@ == old(board)@,
        sorted_by_score(old(board)@, side, old(cands)@, final(cands)@, perm@),
{
    let ghost h = board@;
    let ghost cands0 = cands@;
    let n = cands.len();
    let mut scored: Vec<(Pos, i64)> = Vec::new();
    let mut i: usize = 0;
    while i < n
        invariant
            board.wf(),
            board@ == h,
            cands@ == cands0,
            n == cands0.len(),
            forall|k: int| 0 <= k < cands0.len() ==> cell_at(h, #[trigger] cands0[k]) is None,
            i <= n,
            scored@.len() == i,
            forall|k: int|
                0 <= k < i ==> (#[trigger] scored@[k]).0 == cands0[k] && scored@[k].1 == order_score(
                    h,
                    side,
                    cands0[k],
                ),
        decreases n - i,
    {
        let p = cands[i];
        board.place(p, side);
        let s = evaluate(board, side);
        board.unplace_last();
        proof {
            assert(h.push((p, side)).drop_last() =~= h);
        }
        scored.push((p, s));
        i = i + 1;
    }
    let mut sorted: Vec<(Pos, i64)> = Vec::new();
    let ghost mut perm: Seq<int> = Seq::empty();
    let mut i: usize = 0;
    while i < n
        invariant
            n == cands0.len(),
            scored@.len() == n,
            forall|k: int|
                0 <= k < n ==> (#[trigger] scored@[k]).0 == cands0[k] && scored@[k].1 == order_score(
                    h,
                    side,
                    cands0[k],
                ),
            i <= n,
            insertion_ok(h, side, cands0, sorted@, perm, i as int),
        decreases n - i,
    {
        let (p, s) = scored[i];
        let mut j: usize = 0;
        while j < sorted.len() && sorted[j].1 >= s
            invariant
                j <= sorted@.len(),
                forall|t: int| 0 <= t < j ==> (#[trigger] sorted@[t]).1 >= s,
            decreases sorted@.len() - j,
        {
            j = j + 1;
        }
        proof {
            lemma_insertion_step(h, side, cands0, sorted@, perm, i as int, j as int);
            perm = perm.insert(j as int, i as int);
        }
        sorted.insert(j, (p, s));
        i = i + 1;
    }
    let mut out: Vec<Pos> = Vec::new();
    let mut k: usize = 0;
    while k < n
        invariant
            n == cands0.len(),
            sorted@.len() == n,
            k <= n,
            out@.len() == k,
            forall|t: int| 0 <= t < k ==> out@[t] == (#[trigger] sorted@[t]).0,
        decreases n - k,
    {
        out.push(sorted[k].0);
        k = k + 1;
    }
    *cands = out;
    proof {
        let after = cands@;
        assert forall|a: int, b: int| 0 <= a < b < after.len() implies order_score(h, side, #[trigger] after[a])
            > order_score(h, side, #[trigger] after[b]) || (order_score(h, side, after[a]) == order_score(
            h,
            side,
            after[b],
        ) && perm[a] < perm[b]) by {
            assert(sorted@[a].1 > sorted@[b].1 || (sorted@[a].1 == sorted@[b].1 && perm[a] < perm[b]));
        }
    }
    Ghost(perm)
}

/// The last move of `h` made five in a row.
pub open spec fn last_move_won(h: Seq<(Pos, Color)>) -> bool {
    h.len() > 0 && five_at(h, h.last().0.col_spec(), h.last().0.row_spec(), h.last().1)
}

/// A position the search scores without looking further.
pub open spec fn is_leaf(h: Seq<(Pos, Color)>, depth: int) -> bool {
    depth <= 0 || last_move_won(h) || candidates_spec(h).len() == 0
}

/// Negamax value of `h` for `side` searched `depth` plies deep: the evaluation at the
/// horizon, a won or lost game when the last move made five, otherwise the best over
/// the candidates of the negated value for the opponent.
pub open spec fn negamax_value(h: Seq<(Pos, Color)>, depth: int, side: Color) -> int
    decreases depth, 1int, 0int,
{
    if depth <= 0 {
        eval_spec(h, side)
    } else if last_move_won(h) {
        if h.last().1 == side {
            win_value(depth)
        } else {
            -win_value(depth)
        }
    } else if candidates_spec(h).len() == 0 {
        eval_spec(h, side)
    } else {
        best_reply(h, depth, side, candidates_spec(h))
    }
}

/// The best, for `side`, of playing one of `cs` and letting the opponent search on.
pub open spec fn best_reply(h: Seq<(Pos, Color)>, depth: int, side: Color, cs: Seq<Pos>) -> int
    decreases depth, 0int, cs.len(),
{
    if depth <= 0 || cs.len() == 0 {
        0
    } else if cs.len() == 1 {
        -negamax_value(h.push((cs[0], side)), depth - 1, side.spec_opp())
    } else {
        let a = best_reply(h, depth, side, cs.drop_last());
        let b = -negamax_value(h.push((cs.last(), side)), depth - 1, side.spec_opp());
        if a >= b {
            a
        } else {
            b
        }
    }
}

/// The value for `side` of playing `p`.
pub open spec fn reply_value(h: Seq<(Pos, Color)>, depth: int, side: Color, p: Pos) -> int {
    -negamax_value(h.push((p, side)), depth - 1, side.spec_opp())
}

/// `v` clamped into [lo, hi].
pub open spec fn clamp(v: int, lo: int, hi: int) -> int {
    if v < lo {
        lo
    } else if v > hi {
        hi
    } else {
        v
    }
}

/// What a fail-hard alpha-beta search with window (alpha, beta) returns: leaf values as
/// they are, inner values clamped into the window.
pub open spec fn window_value(h: Seq<(Pos, Color)>, depth: int, alpha: int, beta: int, side: Color) -> int {
    if is_leaf(h, depth) {
        negamax_value(h, depth, side)
    } else {
        clamp(negamax_value(h, depth, side), alpha, beta)
    }
}

/// Search values never exceed the evaluation's range.
pub proof fn lemma_value_bounds(h: Seq<(Pos, Color)>, depth: int, side: Color)
    requires
        depth <= 255,
    ensures
        -SIDE_SCORE_MAX <= negamax_value(h, depth, side) <= SIDE_SCORE_MAX,
    decreases depth, 1int, 0int,
{
    lemma_eval_bounds(h, side);
    if depth > 0 && !last_move_won(h) && candidates_spec(h).len() > 0 {
        lemma_best_reply_bounds(h, depth, side, candidates_spec(h));
    }
}

proof fn lemma_best_reply_bounds(h: Seq<(Pos, Color)>, depth: int, side: Color, cs: Seq<Pos>)
    requires
        0 < depth <= 255,
    ensures
        -SIDE_SCORE_MAX <= best_reply(h, depth, side, cs) <= SIDE_SCORE_MAX,
    decreases depth, 0int, cs.len(),
{
    if cs.len() == 1 {
        lemma_value_bounds(h.push((cs[0], side)), depth - 1, side.spec_opp());
    } else if cs.len() > 1 {
        lemma_best_reply_bounds(h, depth, side, cs.drop_last());
        lemma_value_bounds(h.push((cs.last(), side)), depth - 1, side.spec_opp());
    }
}

/// The best reply is the value of one of the moves, and no move is better.
pub proof fn lemma_best_reply_is_max(h: Seq<(Pos, Color)>, depth: int, side: Color, cs: Seq<Pos>)
    requires
        depth > 0,
        cs.len() > 0,
    ensures
        forall|k: int| 0 <= k < cs.len() ==> reply_value(h, depth, side, #[trigger] cs[k]) <= best_reply(h, depth, side, cs),
        exists|k: int| 0 <= k < cs.len() && reply_value(h, depth, side, #[trigger] cs[k]) == best_reply(h, depth, side, cs),
    decreases cs.len(),
{
    if cs.len() == 1 {
        assert(reply_value(h, depth, side, cs[0]) == best_reply(h, depth, side, cs));
    } else {
        let d = cs.drop_last();
        lemma_best_reply_is_max(h, depth, side, d);
        assert forall|k: int| 0 <= k < cs.len() implies reply_value(h, depth, side, #[trigger] cs[k]) <= best_reply(h, depth, side, cs) by {
            if k < cs.len() - 1 {
                assert(cs[k] == d[k]);
            }
        }
        if best_reply(h, depth, side, d) >= reply_value(h, depth, side, cs.last()) {
            let k = choose|k: int| 0 <= k < d.len() && reply_value(h, depth, side, #[trigger] d[k]) == best_reply(h, depth, side, d);
            assert(cs[k] == d[k]);
        } else {
            assert(cs[cs.len() - 1] == cs.last());
        }
    }
}

/// The best reply depends only on which moves there are, not on their order.
pub proof fn lemma_best_reply_same_moves(
    h: Seq<(Pos, Color)>,
    depth: int,
    side: Color,
    a: Seq<Pos>,
    b: Seq<Pos>,
)
    requires
        depth > 0,
        a.len() > 0,
        b.len() > 0,
        forall|k: int| 0 <= k < a.len() ==> b.contains(#[trigger] a[k]),
        forall|k: int| 0 <= k < b.len() ==> a.contains(#[trigger] b[k]),
    ensures
        best_reply(h, depth, side, a) == best_reply(h, depth, side, b),
{
    lemma_best_reply_is_max(h, depth, side, a);
    lemma_best_reply_is_max(h, depth, side, b);
    let ka = choose|k: int| 0 <= k < a.len() && reply_value(h, depth, side, #[trigger] a[k]) == best_reply(h, depth, side, a);
    let kb = choose|k: int| 0 <= k < b.len() && reply_value(h, depth, side, #[trigger] b[k]) == best_reply(h, depth, side, b);
    assert(b.contains(a[ka]));
    let ja = choose|j: int| 0 <= j < b.len() && b[j] == a[ka];
    assert(reply_value(h, depth, side, b[ja]) <= best_reply(h, depth, side, b));
    assert(a.contains(b[kb]));
    let jb = choose|j: int| 0 <= j < a.len() && a[j] == b[kb];
    assert(reply_value(h, depth, side, a[jb]) <= best_reply(h, depth, side, a));
}

/// What a child searched with the negated window tells its parent: below the window,
/// above it, or the exact value.
proof fn lemma_child_window(hc: Seq<(Pos, Color)>, d: int, alpha: int, beta: int, side_c: Color, v: int)
    requires
        alpha <= beta,
        v == window_value(hc, d, -beta, -alpha, side_c),
    ensures
        alpha < beta && -v >= beta ==> -negamax_value(hc, d, side_c) >= beta,
        -v < beta ==> -negamax_value(hc, d, side_c) < beta,
        -v < beta && alpha < -v ==> -v == -negamax_value(hc, d, side_c),
        -v < beta && -v <= alpha ==> -negamax_value(hc, d, side_c) <= alpha,
{
}

/// The moves of `a` and `b` are the same, in some order.
pub open spec fn same_moves(a: Seq<Pos>, b: Seq<Pos>) -> bool {
    &&& forall|k: int| 0 <= k < a.len() ==> b.contains(#[trigger] a[k])
    &&& forall|k: int| 0 <= k < b.len() ==> a.contains(#[trigger] b[k])
}

proof fn lemma_sorted_same_moves(h: Seq<(Pos, Color)>, side: Color, before: Seq<Pos>, after: Seq<Pos>, perm: Seq<int>)
    requires
        sorted_by_score(h, side, before, after, perm),
    ensures
        same_moves(before, after),
        same_moves(after, before),
{
    assert forall|k: int| 0 <= k < after.len() implies before.contains(#[trigger] after[k]) by {
        assert(0 <= perm[k] < before.len());
        assert(before[perm[k]] == after[k]);
    }
    assert forall|k: int| 0 <= k < before.len() implies after.contains(#[trigger] before[k]) by {
        assert(covers(perm, k));
        let j = choose|j: int| 0 <= j < perm.len() && perm[j] == k;
        assert(after[j] == before[k]);
    }
}

/// Whether the search must stop: the clock has reached the deadline, if there is one.
fn out_of_time(deadline: &Option<Instant>) -> (r: bool)
    ensures
        deadline is None ==> !r,
{
    match deadline {
        Some(d) => expired(d),
        None => false,
    }
}

/// Negamax with alpha-beta. Returns the score from `side`'s point of view, and whether
/// the clock cut the search (or one below it) short; when it did not, the score is the
/// negamax value, clamped into (alpha, beta) unless the position is a leaf. The clock is
/// read first; `negamax_node` does the rest with its answer.
fn negamax(board: &mut Board, depth: u8, alpha: i64, beta: i64, side: Color, deadline: &Option<Instant>) -> (res: (i64, bool))
    requires
        old(board).wf(),
        i64::MIN < alpha <= beta,
    ensures
        final(board).wf(),
        final(board)@ == old(board)@,
        alpha <= res.0 <= beta || -SIDE_SCORE_MAX <= res.0 <= SIDE_SCORE_MAX,
        !res.1 ==> res.0 == window_value(old(board)@, depth as int, alpha as int, beta as int, side),
        depth == 0 ==> res.0 == eval_spec(old(board)@, side),
        res.1 ==> res.0 == eval_spec(old(board)@, side) || alpha <= res.0 <= beta,
        is_leaf(old(board)@, depth as int) ==> (!res.1 && res.0 == window_value(
            old(board)@,
            depth as int,
            alpha as int,
            beta as int,
            side,
        )) || (res.1 && res.0 == eval_spec(old(board)@, side)),
        deadline is None ==> !res.1,
    decreases depth, 1int,
{
    let stop = out_of_time(deadline);
    negamax_node(board, depth, alpha, beta, side, deadline, stop)
}

/// One node of the search, given whether the clock had run out on reaching it
/// (`stop`): a stopped node is scored by its evaluation and reported as cut short;
/// otherwise the horizon is scored by evaluation, a finished game by `win_value`, and
/// an inner node by searching its candidates in 1-ply order.
fn negamax_node(
    board: &mut Board,
    depth: u8,
    alpha: i64,
    beta: i64,
    side: Color,
    deadline: &Option<Instant>,
    stop: bool,
) -> (res: (i64, bool))
    requires
        old(board).wf(),
        i64::MIN < alpha <= beta,
    ensures
        final(board).wf(),
        final(board)@ == old(board)@,
        alpha <= res.0 <= beta || -SIDE_SCORE_MAX <= res.0 <= SIDE_SCORE_MAX,
        !res.1 ==> res.0 == window_value(old(board)@, depth as int, alpha as int, beta as int, side),
        stop ==> res.0 == eval_spec(old(board)@, side) && res.1,
        !stop && depth == 0 ==> res.0 == eval_spec(old(board)@, side) && !res.1,
        !stop && is_leaf(old(board)@, depth as int) ==> !res.1 && res.0 == window_value(
            old(board)@,
            depth as int,
            alpha as int,
            beta as int,
            side,
        ),
        res.1 ==> res.0 == eval_spec(old(board)@, side) || alpha <= res.0 <= beta,
        deadline is None && !stop ==> !res.1,
    decreases depth, 0int,
{
    let ghost h = board@;
    if stop {
        return (evaluate(board, side), true);
    }
    if depth == 0 {
        return (evaluate(board, side), false);
    }
    // If the opponent's previous move closed a five, whoever made it has won.
    match board.last_move() {
        Some((last_p, last_c)) => {
            if board.check_five_at(last_p, last_c) {
                let win = WIN_SCORE + depth as i64;
                return (
                    if last_c == side {
                        win
                    } else {
                        -win
                    },
                    false,
                );
            }
        },
        None => {},
    }
    let mut cands = candidates(board);
    if cands.len() == 0 {
        return (evaluate(board, side), false);
    }
    proof {
        lemma_candidates(h);
    }
    let ghost cs = cands@;
    let Ghost(perm) = order_candidates(board, &mut cands, side);
    proof {
        lemma_sorted_same_moves(h, side, cs, cands@, perm);
        assert forall|k: int| 0 <= k < cands@.len() implies cell_at(h, #[trigger] cands@[k]) is None by {
            assert(cands@[k] == cs[perm[k]]);
        }
    }
    let ghost alpha0 = alpha as int;
    let mut a = alpha;
    let mut interrupted = false;
    let n = cands.len();
    let mut i: usize = 0;
    while i < n
        invariant
            !stop,
            deadline is None ==> !interrupted,
            board.wf(),
            board@ == h,
            h == old(board)@,
            depth > 0,
            !is_leaf(h, depth as int),
            cs == candidates_spec(h),
            same_moves(cs, cands@),
            same_moves(cands@, cs),
            n == cands@.len(),
            n > 0,
            forall|k: int| 0 <= k < cands@.len() ==> cell_at(h, #[trigger] cands@[k]) is None,
            i <= n,
            i64::MIN < alpha0,
            alpha0 == alpha as int,
            alpha0 <= a <= beta,
            a == beta ==> a == alpha0,
            !interrupted && i == 0 ==> a == alpha0,
            !interrupted && i > 0 ==> a == (if alpha0 >= best_reply(h, depth as int, side, cands@.take(i as int)) {
                alpha0
            } else {
                best_reply(h, depth as int, side, cands@.take(i as int))
            }),
            !interrupted && i > 0 ==> best_reply(h, depth as int, side, cands@.take(i as int)) < beta,
        decreases n - i,
    {
        if out_of_time(deadline) {
            return (a, true);
        }
        let p = cands[i];
        board.place(p, side);
        let (v, sub) = negamax(board, depth - 1, -beta, -a, side.opp(), deadline);
        board.unplace_last();
        let score = -v;
        proof {
            assert(h.push((p, side)).drop_last() =~= h);
            let hc = h.push((p, side));
            if !sub {
                lemma_child_window(hc, depth - 1, a as int, beta as int, side.spec_opp(), v as int);
            }
            let t = cands@.take(i + 1);
            assert(t.drop_last() =~= cands@.take(i as int));
            assert(t.last() == p);
            if i == 0 {
                assert(t.len() == 1);
                assert(t[0] == p);
            }
            assert(reply_value(h, depth as int, side, p) == -negamax_value(hc, depth - 1, side.spec_opp()));
        }
        if sub {
            interrupted = true;
        }
        if score >= beta {
            proof {
                if !interrupted && alpha0 < beta {
                    lemma_best_reply_is_max(h, depth as int, side, cs);
                    assert(cs.contains(p));
                    let j = choose|j: int| 0 <= j < cs.len() && cs[j] == p;
                    assert(reply_value(h, depth as int, side, cs[j]) <= best_reply(h, depth as int, side, cs));
                    assert(reply_value(h, depth as int, side, p) >= beta);
                    assert(negamax_value(h, depth as int, side) == best_reply(h, depth as int, side, cs));
                    assert(best_reply(h, depth as int, side, cs) >= beta);
                    assert(window_value(h, depth as int, alpha0, beta as int, side) == beta);
                }
            }
            return (beta, interrupted);
        }
        if score > a {
            a = score;
        }
        i = i + 1;
    }
    proof {
        if !interrupted {
            assert(cands@.take(n as int) =~= cands@);
            lemma_best_reply_same_moves(h, depth as int, side, cs, cands@);
        }
    }
    (a, interrupted)
}

/// The value for `side` of playing `p` at the root: a win if it makes five, else the
/// negated negamax value of the opponent's reply.
pub open spec fn root_score(h: Seq<(Pos, Color)>, side: Color, depth: int, p: Pos) -> int {
    if five_at(h.push((p, side)), p.col_spec(), p.row_spec(), side) {
        win_value(depth)
    } else {
        -negamax_value(h.push((p, side)), depth - 1, side.spec_opp())
    }
}

/// The best root score over `cs`.
pub open spec fn root_max(h: Seq<(Pos, Color)>, side: Color, depth: int, cs: Seq<Pos>) -> int
    decreases cs.len(),
{
    if cs.len() == 0 {
        i64::MIN + 1
    } else if cs.len() == 1 {
        root_score(h, side, depth, cs[0])
    } else {
        let a = root_max(h, side, depth, cs.drop_last());
        let b = root_score(h, side, depth, cs.last());
        if a >= b {
            a
        } else {
            b
        }
    }
}

/// `(p, v)` is what a completed root search over `cs` finds: `v` is the best root score,
/// `p` the first move of `cs` that reaches it.
pub open spec fn root_result(h: Seq<(Pos, Color)>, side: Color, depth: int, cs: Seq<Pos>, p: Pos, v: int) -> bool {
    &&& v == root_max(h, side, depth, cs)
    &&& exists|i: int|
        0 <= i < cs.len() && cs[i] == p && root_score(h, side, depth, cs[i]) == v && forall|j: int|
            0 <= j < i ==> root_score(h, side, depth, #[trigger] cs[j]) < v
}

proof fn lemma_root_score_bounds(h: Seq<(Pos, Color)>, side: Color, depth: int, p: Pos)
    requires
        1 <= depth <= 255,
    ensures
        -SIDE_SCORE_MAX <= root_score(h, side, depth, p) <= SIDE_SCORE_MAX,
{
    lemma_value_bounds(h.push((p, side)), depth - 1, side.spec_opp());
}

proof fn lemma_root_max_ge(h: Seq<(Pos, Color)>, side: Color, depth: int, cs: Seq<Pos>)
    requires
        cs.len() > 0,
    ensures
        forall|k: int| 0 <= k < cs.len() ==> root_score(h, side, depth, #[trigger] cs[k]) <= root_max(h, side, depth, cs),
    decreases cs.len(),
{
    if cs.len() > 1 {
        lemma_root_max_ge(h, side, depth, cs.drop_last());
        assert forall|k: int| 0 <= k < cs.len() implies root_score(h, side, depth, #[trigger] cs[k]) <= root_max(h, side, depth, cs) by {
            if k < cs.len() - 1 {
                assert(cs[k] == cs.drop_last()[k]);
            }
        }
    }
}

/// Top-level search of `depth` plies over `cands` in their order. Returns the first
/// move with the best score, only if the depth completed: `None` when the clock ran out
/// anywhere in it.
fn root_search(
    board: &mut Board,
    side: Color,
    depth: u8,
    deadline: &Option<Instant>,
    cands: &Vec<Pos>,
) -> (res: Option<(Pos, i64)>)
    requires
        old(board).wf(),
        depth >= 1,
        cands@.len() > 0,
        forall|k: int| 0 <= k < cands@.len() ==> cell_at(old(board)@, #[trigger] cands@[k]) is None,
    ensures
        final(board).wf(),
        final(board)@ == old(board)@,
        res matches Some((p, v)) ==> root_result(old(board)@, side, depth as int, cands@, p, v as int),
        deadline is None ==> res is Some,
{
    let ghost h = board@;
    let mut alpha: i64 = i64::MIN + 1;
    let beta: i64 = i64::MAX - 1;
    let mut best = cands[0];
    let ghost mut best_idx: int = 0;
    let n = cands.len();
    let mut i: usize = 0;
    while i < n
        invariant
            board.wf(),
            board@ == h,
            h == old(board)@,
            depth >= 1,
            n == cands@.len(),
            n > 0,
            forall|k: int| 0 <= k < cands@.len() ==> cell_at(h, #[trigger] cands@[k]) is None,
            i <= n,
            beta == i64::MAX - 1,
            i64::MIN + 1 <= alpha < beta,
            0 <= best_idx < n,
            cands@[best_idx] == best,
            i == 0 ==> alpha == i64::MIN + 1 && best_idx == 0,
            i > 0 ==> alpha == root_max(h, side, depth as int, cands@.take(i as int))
                && best_idx < i && root_score(h, side, depth as int, cands@[best_idx]) == alpha
                && forall|j: int| 0 <= j < best_idx ==> root_score(h, side, depth as int, #[trigger] cands@[j]) < alpha,
        decreases n - i,
    {
        if out_of_time(deadline) {
            return None;
        }
        let p = cands[i];
        if board.is_empty(p) {
            board.place(p, side);
            let ghost hc = h.push((p, side));
            proof {
                assert(hc.drop_last() =~= h);
            }
            // Quick win check before recursing
            let immediate: i64;
            if board.check_five_at(p, side) {
                immediate = WIN_SCORE + depth as i64;
            } else {
                let (v, sub) = negamax(board, depth - 1, -beta, -alpha, side.opp(), deadline);
                if sub {
                    // The clock stopped this depth: it is not kept.
                    board.unplace_last();
                    return None;
                }
                proof {
                    lemma_child_window(hc, depth - 1, alpha as int, beta as int, side.spec_opp(), v as int);
                }
                immediate = -v;
            }
            board.unplace_last();
            proof {
                lemma_root_score_bounds(h, side, depth as int, p);
                let t = cands@.take(i + 1);
                assert(t.drop_last() =~= cands@.take(i as int));
                assert(t.last() == p);
                if i == 0 {
                    assert(t.len() == 1);
                    assert(t[0] == p);
                }
                assert(immediate > alpha ==> immediate == root_score(h, side, depth as int, p));
                assert(immediate <= alpha ==> root_score(h, side, depth as int, p) <= alpha);
                if i > 0 {
                    lemma_root_max_ge(h, side, depth as int, cands@.take(i as int));
                    assert forall|j: int| 0 <= j < i implies root_score(h, side, depth as int, #[trigger] cands@[j]) <= alpha by {
                        assert(cands@.take(i as int)[j] == cands@[j]);
                    }
                }
            }
            if immediate > alpha {
                alpha = immediate;
                best = p;
                proof {
                    best_idx = i as int;
                }
            }
        }
        i = i + 1;
    }
    proof {
        assert(cands@.take(n as int) =~= cands@);
    }
    Some((best, alpha))
}

/// The time the search is given: the budget asked for, but at least 50 ms.
pub fn search_budget(time_budget_ms: u64) -> (r: u64)
    ensures
        r == (if time_budget_ms > 50 {
            time_budget_ms
        } else {
            50
        }),
{
    if time_budget_ms > 50 {
        time_budget_ms
    } else {
        50
    }
}

/// What iterative deepening keeps after searching one more depth, given `best`, the
/// move kept so far, and `res`, that depth's root result (`None` when the clock stopped
/// it): a completed depth's move replaces `best`, and the deepening stops once a depth
/// is stopped or finds a win. Returns the move kept and whether to stop.
pub fn deepening_step(best: Pos, res: Option<(Pos, i64)>) -> (r: (Pos, bool))
    ensures
        r == (match res {
            Some((p, s)) => (p, s >= WIN_SCORE / 2),
            None => (best, true),
        }),
{
    match res {
        Some((p, s)) => (p, s >= WIN_SCORE / 2),
        None => (best, true),
    }
}

/// The move a completed root search of `depth` plies over `cs` finds: the first of
/// `cs` with the best root score.
pub open spec fn root_choice(h: Seq<(Pos, Color)>, side: Color, depth: int, cs: Seq<Pos>) -> Pos {
    (choose|pv: (Pos, int)| #[trigger] root_result(h, side, depth, cs, pv.0, pv.1)).0
}

/// Some depth from 1 to `d` scored a win (at least `WIN_SCORE / 2`) at the root.
pub open spec fn won_by(h: Seq<(Pos, Color)>, side: Color, ord: Seq<Pos>, d: int) -> bool
    decreases d,
{
    if d < 1 {
        false
    } else {
        root_max(h, side, d, ord) >= WIN_SCORE / 2 || won_by(h, side, ord, d - 1)
    }
}

/// The move iterative deepening over `ord` keeps after depths 1 to `d`, when every one
/// of them completes: the first of `ord` before any depth, then each depth's root
/// choice, until a depth scores a win; its move is kept from then on.
pub open spec fn deepened_to(h: Seq<(Pos, Color)>, side: Color, ord: Seq<Pos>, d: int) -> Pos
    decreases d,
{
    if d <= 0 {
        ord[0]
    } else if won_by(h, side, ord, d - 1) {
        deepened_to(h, side, ord, d - 1)
    } else {
        root_choice(h, side, d, ord)
    }
}

/// What the engine answers for `side` on `h` when the clock never stops it: the centre
/// on an empty board, the fallback when no candidate is left, else the move iterative
/// deepening to `max_depth` keeps over the candidates stably sorted by 1-ply score.
pub open spec fn unhurried_choice(h: Seq<(Pos, Color)>, side: Color, max_depth: int, r: Pos) -> bool {
    if h.len() == 0 {
        r == center()
    } else if candidates_spec(h).len() == 0 {
        r == fallback_move(h)
    } else {
        exists|ord: Seq<Pos>, perm: Seq<int>|
            #[trigger] sorted_by_score(h, side, candidates_spec(h), ord, perm) && r == deepened_to(
                h,
                side,
                ord,
                max_depth,
            )
    }
}

/// A completed root search finds one move only.
proof fn lemma_root_result_unique(h: Seq<(Pos, Color)>, side: Color, d: int, cs: Seq<Pos>, p: Pos, v: int, q: Pos, w: int)
    requires
        root_result(h, side, d, cs, p, v),
        root_result(h, side, d, cs, q, w),
    ensures
        p == q,
        v == w,
{
    let i = choose|i: int|
        0 <= i < cs.len() && cs[i] == p && root_score(h, side, d, cs[i]) == v && forall|j: int|
            0 <= j < i ==> root_score(h, side, d, #[trigger] cs[j]) < v;
    let k = choose|k: int|
        0 <= k < cs.len() && cs[k] == q && root_score(h, side, d, cs[k]) == w && forall|j: int|
            0 <= j < k ==> root_score(h, side, d, #[trigger] cs[j]) < w;
    if i < k {
        assert(root_score(h, side, d, cs[i]) < w);
    } else if k < i {
        assert(root_score(h, side, d, cs[k]) < v);
    }
}

/// `root_choice` is the move of any completed root search.
proof fn lemma_root_choice(h: Seq<(Pos, Color)>, side: Color, d: int, cs: Seq<Pos>, p: Pos, v: int)
    requires
        root_result(h, side, d, cs, p, v),
    ensures
        root_choice(h, side, d, cs) == p,
{
    assert(root_result(h, side, d, cs, (p, v).0, (p, v).1));
    let qw = choose|pv: (Pos, int)| #[trigger] root_result(h, side, d, cs, pv.0, pv.1);
    lemma_root_result_unique(h, side, d, cs, p, v, qw.0, qw.1);
}

/// Every non-empty list of moves has a first move reaching the best root score.
proof fn lemma_root_first(h: Seq<(Pos, Color)>, side: Color, d: int, cs: Seq<Pos>) -> (i: int)
    requires
        cs.len() > 0,
    ensures
        0 <= i < cs.len(),
        root_score(h, side, d, cs[i]) == root_max(h, side, d, cs),
        forall|j: int| 0 <= j < i ==> root_score(h, side, d, #[trigger] cs[j]) < root_max(h, side, d, cs),
    decreases cs.len(),
{
    if cs.len() == 1 {
        0
    } else {
        let a = root_max(h, side, d, cs.drop_last());
        let b = root_score(h, side, d, cs.last());
        if a >= b {
            let i = lemma_root_first(h, side, d, cs.drop_last());
            assert(cs[i] == cs.drop_last()[i]);
            assert forall|j: int| 0 <= j < i implies root_score(h, side, d, #[trigger] cs[j]) < root_max(h, side, d, cs) by {
                assert(cs[j] == cs.drop_last()[j]);
            }
            i
        } else {
            lemma_root_max_ge(h, side, d, cs.drop_last());
            assert forall|j: int| 0 <= j < cs.len() - 1 implies root_score(h, side, d, #[trigger] cs[j]) < root_max(h, side, d, cs) by {
                assert(cs[j] == cs.drop_last()[j]);
            }
            cs.len() - 1
        }
    }
}

/// A win at some depth stays won at every deeper one.
proof fn lemma_won_by_mono(h: Seq<(Pos, Color)>, side: Color, ord: Seq<Pos>, e: int, d: int)
    requires
        e <= d,
        won_by(h, side, ord, e),
    ensures
        won_by(h, side, ord, d),
    decreases d - e,
{
    if e < d {
        lemma_won_by_mono(h, side, ord, e, d - 1);
    }
}

/// Once a depth scores a win, deepening further keeps its move.
proof fn lemma_deepened_after_win(h: Seq<(Pos, Color)>, side: Color, ord: Seq<Pos>, e: int, d: int)
    requires
        e <= d,
        e == d || won_by(h, side, ord, e),
    ensures
        deepened_to(h, side, ord, d) == deepened_to(h, side, ord, e),
    decreases d - e,
{
    if e < d {
        lemma_deepened_after_win(h, side, ord, e, d - 1);
        lemma_won_by_mono(h, side, ord, e, d - 1);
    }
}

/// Not having won by depth `d` is every depth from 1 to `d` scoring below a win.
proof fn lemma_won_by_all(h: Seq<(Pos, Color)>, side: Color, ord: Seq<Pos>, d: int)
    ensures
        !won_by(h, side, ord, d) <==> forall|e: int| 1 <= e <= d ==> #[trigger] root_max(h, side, e, ord) < WIN_SCORE / 2,
    decreases d,
{
    if d >= 1 {
        lemma_won_by_all(h, side, ord, d - 1);
    }
}

/// Searched without a clock, iterative deepening ends on the full-depth search: when no
/// depth below `d` scores a win, the move kept after depth `d` is the first move with
/// the best root score at depth `d`.
pub proof fn law_unhurried_deepening_reaches_depth(h: Seq<(Pos, Color)>, side: Color, ord: Seq<Pos>, d: int)
    requires
        ord.len() > 0,
        d >= 1,
        forall|e: int| 1 <= e < d ==> #[trigger] root_max(h, side, e, ord) < WIN_SCORE / 2,
    ensures
        root_result(h, side, d, ord, deepened_to(h, side, ord, d), root_max(h, side, d, ord)),
{
    lemma_won_by_all(h, side, ord, d - 1);
    let i = lemma_root_first(h, side, d, ord);
    assert(root_result(h, side, d, ord, ord[i], root_max(h, side, d, ord)));
    lemma_root_choice(h, side, d, ord, ord[i], root_max(h, side, d, ord));
}

/// Searched without a clock, iterative deepening stops at the first depth that scores a
/// win: deeper searches keep that depth's move.
pub proof fn law_unhurried_deepening_stops_on_win(h: Seq<(Pos, Color)>, side: Color, ord: Seq<Pos>, e: int, d: int)
    requires
        ord.len() > 0,
        1 <= e <= d,
        root_max(h, side, e, ord) >= WIN_SCORE / 2,
        forall|f: int| 1 <= f < e ==> #[trigger] root_max(h, side, f, ord) < WIN_SCORE / 2,
    ensures
        deepened_to(h, side, ord, d) == deepened_to(h, side, ord, e),
        root_result(h, side, e, ord, deepened_to(h, side, ord, d), root_max(h, side, e, ord)),
{
    law_unhurried_deepening_reaches_depth(h, side, ord, e);
    assert(won_by(h, side, ord, e));
    lemma_deepened_after_win(h, side, ord, e, d);
}

/// A move iterative deepening over the ordered candidates `ord` can end on, searching
/// at most `max_depth` plies: the first of `ord` when no depth completed, or the root
/// move of a completed depth `d` whose shallower depths all found no win.
pub open spec fn deepened(h: Seq<(Pos, Color)>, side: Color, max_depth: int, ord: Seq<Pos>, r: Pos) -> bool {
    ||| r == ord[0]
    ||| exists|d: int, v: int|
        1 <= d <= max_depth && #[trigger] root_result(h, side, d, ord, r, v) && forall|e: int|
            1 <= e < d ==> #[trigger] root_max(h, side, e, ord) < WIN_SCORE / 2
}

/// What the alpha-beta engine answers for `side` on `h`, searching at most `max_depth`
/// plies: the centre on an empty board, the fallback when no candidate is left, else a
/// move that iterative deepening over the candidates, stably sorted by their 1-ply
/// score, ends on. Which completed depth it ends on depends on the clock; with
/// `max_depth` 0 it is the best move by the 1-ply ordering.
pub open spec fn search_choice(h: Seq<(Pos, Color)>, side: Color, max_depth: int, r: Pos) -> bool {
    if h.len() == 0 {
        r == center()
    } else if candidates_spec(h).len() == 0 {
        r == fallback_move(h)
    } else {
        exists|ord: Seq<Pos>, perm: Seq<int>|
            #[trigger] sorted_by_score(h, side, candidates_spec(h), ord, perm) && deepened(
                h,
                side,
                max_depth,
                ord,
                r,
            )
    }
}

/// The first empty intersection, column by column (`None` on a full board).
fn first_empty(board: &Board) -> (r: Option<Pos>)
    requires
        board.wf(),
    ensures
        empties_spec(board@).len() == 0 ==> r is None,
        empties_spec(board@).len() > 0 ==> r == Some(empties_spec(board@)[0]),
{
    let ghost pred = empty_pred(board@);
    let mut c: usize = 0;
    while c < BOARD_SIZE
        invariant
            board.wf(),
            pred == empty_pred(board@),
            c <= 19,
            scan_cols(pred, c as int).len() == 0,
        decreases 19 - c,
    {
        let mut r: usize = 0;
        while r < BOARD_SIZE
            invariant
                board.wf(),
                pred == empty_pred(board@),
                c < 19,
                r <= 19,
                scan_cols(pred, c as int).len() == 0,
                scan_col(pred, c as int, r as int).len() == 0,
            decreases 19 - r,
        {
            let p = Pos::new(c, r);
            if board.is_empty(p) {
                proof {
                    assert(scan_col(pred, c as int, r + 1) =~= seq![Pos::at(c as int, r as int)]);
                    lemma_scan_col_first(pred, c as int, r + 1, 19);
                    assert(scan_cols(pred, c + 1) =~= scan_col(pred, c as int, 19));
                    lemma_scan_cols_first(pred, c + 1, 19);
                }
                return Some(p);
            }
            r = r + 1;
        }
        c = c + 1;
    }
    None
}

proof fn lemma_scan_col_first(pred: spec_fn(int, int) -> bool, col: int, a: int, b: int)
    requires
        0 < a <= b,
        scan_col(pred, col, a).len() > 0,
    ensures
        scan_col(pred, col, b).len() > 0,
        scan_col(pred, col, b)[0] == scan_col(pred, col, a)[0],
    decreases b - a,
{
    if a < b {
        lemma_scan_col_first(pred, col, a, b - 1);
    }
}

proof fn lemma_scan_cols_first(pred: spec_fn(int, int) -> bool, a: int, b: int)
    requires
        0 < a <= b,
        scan_cols(pred, a).len() > 0,
    ensures
        scan_cols(pred, b).len() > 0,
        scan_cols(pred, b)[0] == scan_cols(pred, a)[0],
    decreases b - a,
{
    if a < b {
        lemma_scan_cols_first(pred, a, b - 1);
    }
}

pub struct AlphaBetaEngine {
    pub max_depth: u8,
    pub time_budget_ms: u64,
}

impl AlphaBetaEngine {
    pub fn new(max_depth: u8) -> (e: AlphaBetaEngine)
        ensures
            e.max_depth == max_depth,
            e.time_budget_ms == 3000,
    {
        AlphaBetaEngine { max_depth, time_budget_ms: 3000 }
    }

    pub fn with_budget(max_depth: u8, time_budget_ms: u64) -> (e: AlphaBetaEngine)
        ensures
            e.max_depth == max_depth,
            e.time_budget_ms == time_budget_ms,
    {
        AlphaBetaEngine { max_depth, time_budget_ms }
    }
}

impl Engine for AlphaBetaEngine {
    fn name(&self) -> (r: &str)
        ensures
            r@ == "AlphaBeta"@,
    {
        "AlphaBeta"
    }

    /// The move found by iterative deepening within the time budget (at least 50 ms);
    /// see `deepening_search`.
    fn best_move(&mut self, board: &Board, side: Color, time_budget_ms: u64) -> (r: Pos)
        ensures
            final(self).max_depth == old(self).max_depth,
            final(self).time_budget_ms == old(self).time_budget_ms,
            search_choice(board@, side, old(self).max_depth as int, r),
    {
        let budget = search_budget(time_budget_ms);
        // A deadline past the clock's range leaves the search without a time limit.
        let deadline = instant_checked_add(instant_now(), millis(budget));
        deepening_search(board, side, self.max_depth, deadline)
    }
}

/// Iterative deepening to at most `max_depth` plies, stopping when the clock reaches
/// `deadline` (if there is one). The centre on an empty board, any empty intersection
/// when no candidate is left; otherwise the candidates are sorted by 1-ply score, and
/// each depth whose root search completes replaces the move chosen so far (a depth the
/// clock stops is discarded, and ends the deepening); a winning score stops the
/// deepening. Without a deadline the answer is `unhurried_choice`: every depth up to
/// `max_depth` is searched unless a shallower one found a win.
pub fn deepening_search(board: &Board, side: Color, max_depth: u8, deadline: Option<Instant>) -> (r: Pos)
    requires
        board.wf(),
    ensures
        move_ok(board@, r),
        search_choice(board@, side, max_depth as int, r),
        deadline is None ==> unhurried_choice(board@, side, max_depth as int, r),
{
    // Empty board: the centre.
    if board.move_count() == 0 {
        return Pos::new(BOARD_SIZE / 2, BOARD_SIZE / 2);
    }

    let mut work = board.clone();
    let mut cands = candidates(&work);
    if cands.len() == 0 {
        // Safety net: pick any empty intersection.
        return match first_empty(&work) {
            Some(p) => p,
            None => Pos::new(BOARD_SIZE / 2, BOARD_SIZE / 2),
        };
    }
    let ghost h = work@;
    let ghost cs = cands@;
    proof {
        lemma_candidates(h);
    }
    let Ghost(perm) = order_candidates(&mut work, &mut cands, side);
    proof {
        lemma_sorted_same_moves(h, side, cs, cands@, perm);
        assert forall|k: int| 0 <= k < cands@.len() implies cell_at(h, #[trigger] cands@[k]) is None by {
            assert(cands@[k] == cs[perm[k]]);
        }
    }

    let mut best = cands[0];
    let ghost mut kept: int = 0;
    let mut depth: u16 = 1;
    while depth <= max_depth as u16
        invariant_except_break
            kept == depth - 1,
            kept > 0 ==> root_max(h, side, kept, cands@) < WIN_SCORE / 2,
            !won_by(h, side, cands@, kept),
        invariant
            work.wf(),
            work@ == h,
            h == board@,
            cs == candidates_spec(h),
            cands@.len() > 0,
            same_moves(cands@, cs),
            forall|k: int| 0 <= k < cands@.len() ==> cell_at(h, #[trigger] cands@[k]) is None,
            cands@.contains(best),
            1 <= depth <= 256,
            0 <= kept <= depth,
            kept <= max_depth,
            kept == 0 ==> best == cands@[0],
            kept > 0 ==> exists|v: int| root_result(h, side, kept, cands@, best, v),
            forall|e: int| 1 <= e < kept ==> #[trigger] root_max(h, side, e, cands@) < WIN_SCORE / 2,
            !won_by(h, side, cands@, kept - 1),
            best == deepened_to(h, side, cands@, kept),
        ensures
            deadline is None ==> kept == max_depth || won_by(h, side, cands@, kept),
        decreases 256 - depth,
    {
        if out_of_time(&deadline) {
            break;
        }
        let res = root_search(&mut work, side, depth as u8, &deadline, &cands);
        let (next, stop) = deepening_step(best, res);
        proof {
            match res {
                Some((p, v)) => {
                    kept = depth as int;
                    let i = choose|i: int|
                        0 <= i < cands@.len() && cands@[i] == p && root_score(h, side, depth as int, cands@[i]) == v
                            && forall|j: int| 0 <= j < i ==> root_score(h, side, depth as int, #[trigger] cands@[j]) < v;
                    assert(cands@.contains(cands@[i]));
                    lemma_root_choice(h, side, kept, cands@, p, v as int);
                    assert(deepened_to(h, side, cands@, kept) == p);
                },
                None => {},
            }
        }
        best = next;
        if stop {
            break;
        }
        depth = depth + 1;
    }
    proof {
        let k = choose|k: int| 0 <= k < cands@.len() && cands@[k] == best;
        assert(cs.contains(cands@[k]));
        assert(sorted_by_score(h, side, candidates_spec(h), cands@, perm));
        if kept > 0 {
            let v = choose|v: int| root_result(h, side, kept, cands@, best, v);
            assert(root_result(h, side, kept, cands@, best, v));
        }
        if deadline is None {
            lemma_deepened_after_win(h, side, cands@, kept, max_depth as int);
            assert(best == deepened_to(h, side, cands@, max_depth as int));
        }
    }
    best
}

/// An engine's answer is always a legal move when the board has room for one: an
/// empty intersection on the board.
pub proof fn law_engine_move_is_legal(h: Seq<(Pos, Color)>, r: Pos, col: int, row: int)
    requires
        history_ok(h),
        move_ok(h, r),
        in_board(col, row),
        cell_of(h, col, row) is None,
    ensures
        r.valid(),
        cell_at(h, r) is None,
{
    lemma_candidates(h);
    if h.len() == 0 {
    } else if candidates_spec(h).len() > 0 {
        let k = choose|k: int| 0 <= k < candidates_spec(h).len() && candidates_spec(h)[k] == r;
        assert(candidates_spec(h)[k].valid());
    } else {
        lemma_scan_cols(empty_pred(h), 19);
        assert(empties_spec(h).contains(Pos::at(col, row)));
        assert(empties_spec(h).len() > 0);
        assert(fallback_move(h) == empties_spec(h)[0]);
        let p = empties_spec(h)[0];
        assert(empty_pred(h)(p.col_spec(), p.row_spec()));
    }
}

/// With the widest window, alpha-beta gives the plain negamax value: no position's
/// value lies outside it.
pub proof fn law_full_window_is_negamax(h: Seq<(Pos, Color)>, depth: int, side: Color)
    requires
        depth <= 255,
    ensures
        window_value(h, depth, i64::MIN + 1, i64::MAX as int, side) == negamax_value(h, depth, side),
{
    lemma_value_bounds(h, depth, side);
}

/// A game already won is worth more to the winner, and less to the loser, the more
/// search is left when it is reached: the search prefers winning sooner and losing
/// later.
pub proof fn law_sooner_win_scores_higher(h: Seq<(Pos, Color)>, d1: int, d2: int, side: Color)
    requires
        last_move_won(h),
        1 <= d1 < d2,
    ensures
        h.last().1 == side ==> 0 < negamax_value(h, d1, side) < negamax_value(h, d2, side),
        h.last().1 != side ==> negamax_value(h, d2, side) < negamax_value(h, d1, side) < 0,
{
}

/// Chebyshev distance between two intersections.
pub open spec fn cheb(c1: int, r1: int, c2: int, r2: int) -> int {
    let dc = if c1 >= c2 {
        c1 - c2
    } else {
        c2 - c1
    };
    let dr = if r1 >= r2 {
        r1 - r2
    } else {
        r2 - r1
    };
    if dc >= dr {
        dc
    } else {
        dr
    }
}

pub open spec fn step_toward(from: int, to: int) -> int {
    if from < to {
        from + 1
    } else if from > to {
        from - 1
    } else {
        from
    }
}

/// Between a stone and an empty intersection there is always an empty intersection
/// next to a stone.
proof fn lemma_candidate_between(h: Seq<(Pos, Color)>, sc: int, sr: int, ec: int, er: int)
    requires
        in_board(sc, sr),
        cell_of(h, sc, sr) is Some,
        in_board(ec, er),
        cell_of(h, ec, er) is None,
    ensures
        exists|c: int, r: int| is_candidate(h, c, r),
    decreases cheb(sc, sr, ec, er),
{
    if cheb(sc, sr, ec, er) <= 2 {
        assert(cell_of(h, ec + (sc - ec), er + (sr - er)) is Some);
        assert(near_stone(h, ec, er));
        assert(is_candidate(h, ec, er));
    } else {
        let nc = step_toward(ec, sc);
        let nr = step_toward(er, sr);
        if cell_of(h, nc, nr) is None {
            lemma_candidate_between(h, sc, sr, nc, nr);
        } else {
            assert(cell_of(h, ec + (nc - ec), er + (nr - er)) is Some);
            assert(near_stone(h, ec, er));
            assert(is_candidate(h, ec, er));
        }
    }
}

/// While stones are on the board and an intersection is empty, the search has
/// candidates: the fallback move is only ever used on a full board.
pub proof fn law_candidates_until_full(h: Seq<(Pos, Color)>, col: int, row: int)
    requires
        history_ok(h),
        h.len() > 0,
        in_board(col, row),
        cell_of(h, col, row) is None,
    ensures
        candidates_spec(h).len() > 0,
{
    crate::board::lemma_cell_of_entry(h, 0);
    assert(h[0].0.valid());
    lemma_candidate_between(h, h[0].0.col_spec(), h[0].0.row_spec(), col, row);
    let (c, r) = choose|c: int, r: int| is_candidate(h, c, r);
    lemma_candidates(h);
    assert(candidates_spec(h).contains(Pos::at(c, r)));
}

} // verus!
