//! Position evaluation for Gomoku.
//!
//! Scores every line (rows, columns, diagonals, anti-diagonals) for both colours and
//! returns the difference (positive: `side` is better off).
use vstd::prelude::*;
use crate::board::{Board, Color, Pos, BOARD_SIZE, cell_of, group_pos};
use crate::engine::shape::{
    score_spec, score_fits, score_with, Patterns, lemma_score_bounds, law_lone_stone_no_score, MINE, THEIRS,
    EMPTY,
};

verus! {

broadcast use group_pos;

/// Rows, columns, and the diagonals and anti-diagonals of length at least five.
pub const NUM_LINES: usize = 96;

/// Upper bound of one encoded line's score (at most 21 bytes).
pub const LINE_SCORE_MAX: i64 = 24_236_940;

/// Upper bound of a side's total score over all lines.
pub const SIDE_SCORE_MAX: i64 = 2_326_746_240;

pub open spec fn abs_int(x: int) -> int {
    if x < 0 {
        -x
    } else {
        x
    }
}

/// First column of the diagonal r - c == d.
pub open spec fn diag_start(d: int) -> int {
    if d < 0 {
        -d
    } else {
        0
    }
}

/// First column of the anti-diagonal r + c == s.
pub open spec fn anti_start(s: int) -> int {
    if s > 18 {
        s - 18
    } else {
        0
    }
}

/// Last column of the anti-diagonal r + c == s.
pub open spec fn anti_end(s: int) -> int {
    if s < 18 {
        s
    } else {
        18
    }
}

/// The cells of line `k`, in order: rows 0..19 (by column), columns 0..19 (by row),
/// diagonals r - c = -14..=14 and anti-diagonals r + c = 4..=32 (by column).
pub open spec fn line_cells(h: Seq<(Pos, Color)>, k: int) -> Seq<Option<Color>> {
    if k < 19 {
        Seq::new(19, |c: int| cell_of(h, c, k))
    } else if k < 38 {
        Seq::new(19, |r: int| cell_of(h, k - 19, r))
    } else if k < 67 {
        Seq::new(
            (19 - abs_int(k - 52)) as nat,
            |i: int| cell_of(h, diag_start(k - 52) + i, diag_start(k - 52) + i + (k - 52)),
        )
    } else {
        Seq::new(
            (anti_end(k - 63) - anti_start(k - 63) + 1) as nat,
            |i: int| cell_of(h, anti_start(k - 63) + i, (k - 63) - anti_start(k - 63) - i),
        )
    }
}

pub open spec fn encode_cell(c: Option<Color>, me: Color) -> u8 {
    match c {
        None => EMPTY,
        Some(x) => if x == me {
            MINE
        } else {
            THEIRS
        },
    }
}

/// A line as text for the pattern matcher, with the board edges as opponent stones.
pub open spec fn encode_spec(cells: Seq<Option<Color>>, me: Color) -> Seq<u8> {
    seq![THEIRS] + cells.map_values(|c: Option<Color>| encode_cell(c, me)) + seq![THEIRS]
}

/// Scores of the first `n` lines from `me`'s point of view, added up.
pub open spec fn lines_score(h: Seq<(Pos, Color)>, me: Color, n: int) -> int
    decreases n,
{
    if n <= 0 {
        0
    } else {
        lines_score(h, me, n - 1) + score_spec(encode_spec(line_cells(h, n - 1), me))
    }
}

pub open spec fn score_for_spec(h: Seq<(Pos, Color)>, me: Color) -> int {
    lines_score(h, me, NUM_LINES as int)
}

/// `side`'s score minus its opponent's.
pub open spec fn eval_spec(h: Seq<(Pos, Color)>, side: Color) -> int {
    score_for_spec(h, side) - score_for_spec(h, side.spec_opp())
}

pub proof fn lemma_line_len(h: Seq<(Pos, Color)>, k: int)
    requires
        0 <= k < 96,
    ensures
        5 <= line_cells(h, k).len() <= 19,
{
}

pub proof fn lemma_line_score_bounds(h: Seq<(Pos, Color)>, me: Color, k: int)
    requires
        0 <= k < 96,
    ensures
        score_fits(encode_spec(line_cells(h, k), me)),
        0 <= score_spec(encode_spec(line_cells(h, k), me)) <= LINE_SCORE_MAX,
{
    lemma_line_len(h, k);
    let e = encode_spec(line_cells(h, k), me);
    assert(e.len() <= 21);
    lemma_score_bounds(e);
}

pub proof fn lemma_lines_score_bounds(h: Seq<(Pos, Color)>, me: Color, n: int)
    requires
        0 <= n <= 96,
    ensures
        0 <= lines_score(h, me, n) <= n * LINE_SCORE_MAX,
    decreases n,
{
    if n > 0 {
        lemma_lines_score_bounds(h, me, n - 1);
        lemma_line_score_bounds(h, me, n - 1);
    }
}

pub proof fn lemma_eval_bounds(h: Seq<(Pos, Color)>, side: Color)
    ensures
        -SIDE_SCORE_MAX <= eval_spec(h, side) <= SIDE_SCORE_MAX,
{
    lemma_lines_score_bounds(h, side, 96);
    lemma_lines_score_bounds(h, side.spec_opp(), 96);
}

/// Encode a sequence of cells as `O`/`X`/`_` text for the pattern matcher, with `X`
/// padding on both ends to represent the board edge as an opponent.
fn encode_line(cells: &Vec<Option<Color>>, me: Color) -> (s: Vec<u8>)
    ensures
        s@ == encode_spec(cells@, me),
{
    let mut s: Vec<u8> = Vec::new();
    s.push(THEIRS);
    let n = cells.len();
    let mut i: usize = 0;
    while i < n
        invariant
            n == cells@.len(),
            i <= n,
            s@ =~= seq![THEIRS] + cells@.subrange(0, i as int).map_values(
                |c: Option<Color>| encode_cell(c, me),
            ),
        decreases n - i,
    {
        let b = match cells[i] {
            None => EMPTY,
            Some(x) => if x == me {
                MINE
            } else {
                THEIRS
            },
        };
        s.push(b);
        proof {
            assert(cells@.subrange(0, i + 1) =~= cells@.subrange(0, i as int).push(cells@[i as int]));
        }
        i = i + 1;
    }
    s.push(THEIRS);
    assert(cells@.subrange(0, n as int) =~= cells@);
    s
}

/// The cells of column `c` or row `r` (whichever `by_col` says), in board order.
fn straight_line(board: &Board, fixed: usize, by_col: bool) -> (line: Vec<Option<Color>>)
    requires
        board.wf(),
        fixed < 19,
    ensures
        line@.len() == 19,
        by_col ==> forall|i: int| 0 <= i < 19 ==> line@[i] == cell_of(board@, fixed as int, i),
        !by_col ==> forall|i: int| 0 <= i < 19 ==> line@[i] == cell_of(board@, i, fixed as int),
{
    let mut line: Vec<Option<Color>> = Vec::new();
    let mut i: usize = 0;
    while i < BOARD_SIZE
        invariant
            board.wf(),
            fixed < 19,
            i <= 19,
            line@.len() == i,
            by_col ==> forall|j: int| 0 <= j < i ==> line@[j] == cell_of(board@, fixed as int, j),
            !by_col ==> forall|j: int| 0 <= j < i ==> line@[j] == cell_of(board@, j, fixed as int),
        decreases 19 - i,
    {
        let p = if by_col {
            Pos::new(fixed, i)
        } else {
            Pos::new(i, fixed)
        };
        line.push(board.get(p));
        i = i + 1;
    }
    line
}

/// Every contiguous line of length at least five (rows, columns, two diagonals), each
/// as the cells in order.
pub fn collect_lines(board: &Board) -> (lines: Vec<Vec<Option<Color>>>)
    requires
        board.wf(),
    ensures
        lines@.len() == NUM_LINES,
        forall|k: int| 0 <= k < NUM_LINES ==> (#[trigger] lines@[k])@ == line_cells(board@, k),
{
    let n: i32 = 19;
    let mut lines: Vec<Vec<Option<Color>>> = Vec::with_capacity(4 * BOARD_SIZE + 4);
    let ghost h = board@;

    // Rows
    let mut r: usize = 0;
    while r < BOARD_SIZE
        invariant
            board.wf(),
            h == board@,
            r <= 19,
            lines@.len() == r,
            forall|k: int| 0 <= k < lines@.len() ==> (#[trigger] lines@[k])@ == line_cells(h, k),
        decreases 19 - r,
    {
        let row = straight_line(board, r, false);
        assert(row@ =~= line_cells(h, r as int));
        lines.push(row);
        r = r + 1;
    }
    // Columns
    let mut c: usize = 0;
    while c < BOARD_SIZE
        invariant
            board.wf(),
            h == board@,
            c <= 19,
            lines@.len() == 19 + c,
            forall|k: int| 0 <= k < lines@.len() ==> (#[trigger] lines@[k])@ == line_cells(h, k),
        decreases 19 - c,
    {
        let col = straight_line(board, c, true);
        assert(col@ =~= line_cells(h, 19 + c as int));
        lines.push(col);
        c = c + 1;
    }
    // Diagonals (\): for each offset d = r - c in -(n-1)..n
    let mut d: i32 = -(n - 1);
    while d < n
        invariant
            board.wf(),
            h == board@,
            n == 19,
            -18 <= d <= 19,
            lines@.len() == 38 + if d + 14 < 0 {
                0
            } else if d + 14 > 29 {
                29
            } else {
                d + 14
            },
            forall|k: int| 0 <= k < lines@.len() ==> (#[trigger] lines@[k])@ == line_cells(h, k),
        decreases 19 - d,
    {
        let mut diag: Vec<Option<Color>> = Vec::new();
        let mut cc: i32 = 0;
        while cc < n
            invariant
                board.wf(),
                h == board@,
                n == 19,
                -18 <= d < 19,
                0 <= cc <= 19,
                diag@.len() == if cc <= diag_start(d as int) {
                    0
                } else if cc + d >= 19 {
                    19 - d - diag_start(d as int)
                } else {
                    cc - diag_start(d as int)
                },
                forall|i: int|
                    0 <= i < diag@.len() ==> diag@[i] == cell_of(
                        h,
                        diag_start(d as int) + i,
                        diag_start(d as int) + i + d,
                    ),
            decreases 19 - cc,
        {
            let rr = cc + d;
            if 0 <= rr && rr < n {
                diag.push(board.get(Pos::new(cc as usize, rr as usize)));
            }
            cc = cc + 1;
        }
        if diag.len() >= 5 {
            proof {
                let k = d + 52;
                assert(diag@ =~= line_cells(h, k as int));
            }
            lines.push(diag);
        }
        d = d + 1;
    }
    // Anti-diagonals (/): r + c = s, for s in 0..(2n - 1)
    let mut s: i32 = 0;
    while s < 2 * n - 1
        invariant
            board.wf(),
            h == board@,
            n == 19,
            0 <= s <= 37,
            lines@.len() == 67 + if s < 4 {
                0
            } else if s > 33 {
                29
            } else {
                s - 4
            },
            forall|k: int| 0 <= k < lines@.len() ==> (#[trigger] lines@[k])@ == line_cells(h, k),
        decreases 37 - s,
    {
        let mut anti: Vec<Option<Color>> = Vec::new();
        let mut cc: i32 = 0;
        while cc < n
            invariant
                board.wf(),
                h == board@,
                n == 19,
                0 <= s < 37,
                0 <= cc <= 19,
                anti@.len() == if cc <= anti_start(s as int) {
                    0
                } else if cc > anti_end(s as int) {
                    anti_end(s as int) - anti_start(s as int) + 1
                } else {
                    cc - anti_start(s as int)
                },
                forall|i: int|
                    0 <= i < anti@.len() ==> anti@[i] == cell_of(
                        h,
                        anti_start(s as int) + i,
                        s - anti_start(s as int) - i,
                    ),
            decreases 19 - cc,
        {
            let rr = s - cc;
            if 0 <= rr && rr < n {
                anti.push(board.get(Pos::new(cc as usize, rr as usize)));
            }
            cc = cc + 1;
        }
        if anti.len() >= 5 {
            proof {
                let k = s + 63;
                assert(anti@ =~= line_cells(h, k as int));
            }
            lines.push(anti);
        }
        s = s + 1;
    }
    lines
}

/// Sum pattern scores across every line, from `me`'s point of view.
fn score_for(lines: &Vec<Vec<Option<Color>>>, me: Color, pats: &Patterns, Ghost(h): Ghost<Seq<(Pos, Color)>>) -> (r: i64)
    requires
        pats.wf(),
        lines@.len() == NUM_LINES,
        forall|j: int| 0 <= j < NUM_LINES ==> (#[trigger] lines@[j])@ == line_cells(h, j),
    ensures
        r == score_for_spec(h, me),
        0 <= r <= SIDE_SCORE_MAX,
{
    let mut total: i64 = 0;
    let mut k: usize = 0;
    while k < NUM_LINES
        invariant
            pats.wf(),
            lines@.len() == NUM_LINES,
            forall|j: int| 0 <= j < NUM_LINES ==> (#[trigger] lines@[j])@ == line_cells(h, j),
            k <= NUM_LINES,
            total == lines_score(h, me, k as int),
            0 <= total <= k * LINE_SCORE_MAX,
        decreases NUM_LINES - k,
    {
        let encoded = encode_line(&lines[k], me);
        proof {
            lemma_line_score_bounds(h, me, k as int);
        }
        let s = score_with(encoded.as_slice(), pats);
        total = total + s;
        k = k + 1;
    }
    total
}

/// `side`'s score minus the opponent's. Positive: `side` is better off.
pub fn evaluate(board: &Board, side: Color) -> (r: i64)
    requires
        board.wf(),
    ensures
        r == eval_spec(board@, side),
        -SIDE_SCORE_MAX <= r <= SIDE_SCORE_MAX,
{
    let lines = collect_lines(board);
    let pats = Patterns::new();
    score_for(&lines, side, &pats, Ghost(board@)) - score_for(&lines, side.opp(), &pats, Ghost(board@))
}

/// The evaluation is zero-sum: what one side gains, the other loses.
pub proof fn law_evaluate_antisymmetric(h: Seq<(Pos, Color)>, side: Color)
    ensures
        eval_spec(h, side) == -eval_spec(h, side.spec_opp()),
{
    assert(side.spec_opp().spec_opp() == side);
}

/// The empty board is even for both sides.
pub proof fn law_empty_board_even(side: Color)
    ensures
        eval_spec(Seq::<(Pos, Color)>::empty(), side) == 0,
{
    lemma_no_stones_score_zero(side, 96);
    lemma_no_stones_score_zero(side.spec_opp(), 96);
}

proof fn lemma_no_stones_score_zero(me: Color, n: int)
    requires
        0 <= n <= 96,
    ensures
        lines_score(Seq::<(Pos, Color)>::empty(), me, n) == 0,
    decreases n,
{
    if n > 0 {
        lemma_no_stones_score_zero(me, n - 1);
        let h = Seq::<(Pos, Color)>::empty();
        let e = encode_spec(line_cells(h, n - 1), me);
        assert forall|t: int| 0 <= t < e.len() implies e[t] != MINE by {
            if 0 < t < e.len() - 1 {
                assert(line_cells(h, n - 1)[t - 1] == None::<Color>);
            }
        }
        assert(crate::engine::shape::at_most_one_mine(e));
        law_lone_stone_no_score(e);
    }
}

/// Every intersection is read into its row, its column, its diagonal and its
/// anti-diagonal, at the place its coordinates give: line `row` is row `row`, holding
/// the intersection at place `col`; line `19 + col` is column `col`, holding it at place
/// `row`; the diagonal `row - col` and the anti-diagonal `row + col` (where they hold at
/// least five cells) have their own lines, whose cells run from the smallest column.
pub proof fn law_lines_hold_cells(h: Seq<(Pos, Color)>, col: int, row: int)
    requires
        0 <= col < 19,
        0 <= row < 19,
    ensures
        line_cells(h, row).len() == 19,
        line_cells(h, row)[col] == cell_of(h, col, row),
        line_cells(h, 19 + col).len() == 19,
        line_cells(h, 19 + col)[row] == cell_of(h, col, row),
        -14 <= row - col <= 14 ==> {
            &&& line_cells(h, 52 + row - col).len() == 19 - (if row >= col { row - col } else { col - row })
            &&& line_cells(h, 52 + row - col)[if row <= col { row } else { col }] == cell_of(h, col, row)
        },
        4 <= row + col <= 32 ==> {
            &&& line_cells(h, 63 + row + col).len() == 19 - (if row + col >= 18 { row + col - 18 } else { 18 - row - col })
            &&& line_cells(h, 63 + row + col)[col - (if row + col > 18 { row + col - 18 } else { 0 })] == cell_of(h, col, row)
        },
{
}

} // verus!
