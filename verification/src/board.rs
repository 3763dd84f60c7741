//! 19×19 Gomoku board: stones, move history, side to move, five-in-a-row.
use vstd::prelude::*;

verus! {

pub const BOARD_SIZE: usize = 19;

/// Number of intersections on the board.
pub const NUM_CELLS: usize = 361;

#[derive(Clone, Copy, PartialEq, Eq, Debug, Hash, Structural)]
pub enum Color {
    Black,
    White,
}

impl Color {
    pub open spec fn spec_opp(self) -> Color {
        match self {
            Color::Black => Color::White,
            Color::White => Color::Black,
        }
    }

    /// The other colour.
    pub fn opp(self) -> (r: Color)
        ensures
            r == self.spec_opp(),
    {
        match self {
            Color::Black => Color::White,
            Color::White => Color::Black,
        }
    }
}

/// A board intersection; always on the board.
#[derive(Clone, Copy, PartialEq, Eq, Debug, Hash, Structural)]
pub struct Pos {
    col: u8,
    row: u8,
}

impl Pos {
    #[verifier::type_invariant]
    spec fn on_board(self) -> bool {
        self.col < 19 && self.row < 19
    }

    pub closed spec fn col_spec(self) -> int {
        self.col as int
    }

    pub closed spec fn row_spec(self) -> int {
        self.row as int
    }

    /// The intersection at the given coordinates (meaningful on the board).
    pub closed spec fn at(col: int, row: int) -> Pos {
        Pos { col: col as u8, row: row as u8 }
    }

    pub open spec fn valid(self) -> bool {
        0 <= self.col_spec() < 19 && 0 <= self.row_spec() < 19
    }

    pub broadcast proof fn lemma_at(col: int, row: int)
        requires
            0 <= col < 19,
            0 <= row < 19,
        ensures
            (#[trigger] Pos::at(col, row)).col_spec() == col,
            Pos::at(col, row).row_spec() == row,
    {
    }

    /// Two positions are equal exactly when their coordinates are.
    pub proof fn lemma_eq(p: Pos, q: Pos)
        ensures
            same_cell(p, q) <==> p == q,
    {
    }

    /// The coordinates of a position are never negative.
    pub proof fn lemma_nonneg(p: Pos)
        ensures
            0 <= p.col_spec(),
            0 <= p.row_spec(),
    {
    }

    pub fn new(col: usize, row: usize) -> (p: Pos)
        requires
            col < BOARD_SIZE,
            row < BOARD_SIZE,
        ensures
            p.col_spec() == col,
            p.row_spec() == row,
            p == Pos::at(col as int, row as int),
    {
        Pos { col: col as u8, row: row as u8 }
    }

    pub fn col(&self) -> (r: usize)
        ensures
            r == self.col_spec(),
            r < BOARD_SIZE,
            self.valid(),
    {
        proof {
            use_type_invariant(self);
        }
        self.col as usize
    }

    pub fn row(&self) -> (r: usize)
        ensures
            r == self.row_spec(),
            r < BOARD_SIZE,
            self.valid(),
    {
        proof {
            use_type_invariant(self);
        }
        self.row as usize
    }
}

pub broadcast group group_pos {
    Pos::lemma_at,
}

pub open spec fn same_cell(p: Pos, q: Pos) -> bool {
    p.col_spec() == q.col_spec() && p.row_spec() == q.row_spec()
}

/// What stands at (col, row) after the moves of `h`.
pub open spec fn cell_of(h: Seq<(Pos, Color)>, col: int, row: int) -> Option<Color>
    decreases h.len(),
{
    if h.len() == 0 {
        None
    } else if h.last().0.col_spec() == col && h.last().0.row_spec() == row {
        Some(h.last().1)
    } else {
        cell_of(h.drop_last(), col, row)
    }
}

pub open spec fn cell_at(h: Seq<(Pos, Color)>, p: Pos) -> Option<Color> {
    cell_of(h, p.col_spec(), p.row_spec())
}

pub open spec fn in_board(col: int, row: int) -> bool {
    0 <= col < 19 && 0 <= row < 19
}

/// A history of moves that could have been played: every move on the board, no
/// intersection used twice.
pub open spec fn history_ok(h: Seq<(Pos, Color)>) -> bool {
    &&& forall|i: int| 0 <= i < h.len() ==> (#[trigger] h[i]).0.valid()
    &&& forall|i: int, j: int|
        0 <= i < j < h.len() ==> !same_cell(#[trigger] h[i].0, #[trigger] h[j].0)
}

/// The empty cells are exactly those no move of `h` has used.
pub proof fn lemma_cell_of_none(h: Seq<(Pos, Color)>, col: int, row: int)
    ensures
        (cell_of(h, col, row) is None) <==> (forall|i: int|
            0 <= i < h.len() ==> !((#[trigger] h[i]).0.col_spec() == col && h[i].0.row_spec()
                == row)),
    decreases h.len(),
{
    if h.len() > 0 {
        lemma_cell_of_none(h.drop_last(), col, row);
        if cell_of(h, col, row) is None {
            assert forall|i: int| 0 <= i < h.len() implies !((#[trigger] h[i]).0.col_spec() == col
                && h[i].0.row_spec() == row) by {
                if i < h.len() - 1 {
                    assert(h[i] == h.drop_last()[i]);
                }
            }
        } else {
            if !(h.last().0.col_spec() == col && h.last().0.row_spec() == row) {
                let i = choose|i: int|
                    0 <= i < h.drop_last().len() && (#[trigger] h.drop_last()[i]).0.col_spec()
                        == col && h.drop_last()[i].0.row_spec() == row;
                assert(h[i] == h.drop_last()[i]);
            } else {
                assert(h[h.len() - 1] == h.last());
            }
        }
    }
}

/// A stone at (col, row) was put there by the last move of `h` at that intersection.
pub proof fn lemma_cell_of_entry(h: Seq<(Pos, Color)>, i: int)
    requires
        history_ok(h),
        0 <= i < h.len(),
    ensures
        cell_of(h, h[i].0.col_spec(), h[i].0.row_spec()) == Some(h[i].1),
    decreases h.len(),
{
    if i < h.len() - 1 {
        assert(!same_cell(h[i].0, h[h.len() - 1].0));
        assert(h.drop_last()[i] == h[i]);
        assert forall|a: int| 0 <= a < h.drop_last().len() implies (#[trigger] h.drop_last()[a]).0.valid() by {
            assert(h.drop_last()[a] == h[a]);
        }
        assert forall|a: int, b: int| 0 <= a < b < h.drop_last().len() implies !same_cell(
            #[trigger] h.drop_last()[a].0,
            #[trigger] h.drop_last()[b].0,
        ) by {
            assert(h.drop_last()[a] == h[a]);
            assert(h.drop_last()[b] == h[b]);
        }
        lemma_cell_of_entry(h.drop_last(), i);
    }
}

/// Cell (col, row) lies at index col * 19 + row of the flat cell vector.
pub open spec fn cell_index(col: int, row: int) -> int {
    col * 19 + row
}

/// The four line directions: horizontal, vertical, diagonal, anti-diagonal.
pub open spec fn dir_col(dir: int) -> int {
    if dir == 0 {
        1
    } else if dir == 1 {
        0
    } else if dir == 2 {
        1
    } else {
        1
    }
}

pub open spec fn dir_row(dir: int) -> int {
    if dir == 0 {
        0
    } else if dir == 1 {
        1
    } else if dir == 2 {
        1
    } else {
        -1
    }
}

/// The cell `t` steps from (col, row) in direction `dir`.
pub open spec fn step_col(col: int, dir: int, t: int) -> int {
    if dir == 1 {
        col
    } else {
        col + t
    }
}

pub open spec fn step_row(row: int, dir: int, t: int) -> int {
    if dir == 0 {
        row
    } else if dir == 3 {
        row - t
    } else {
        row + t
    }
}

/// Cell number `i` of the window that puts (col, row) at place `k` along `dir` holds a
/// stone of colour `c`.
pub open spec fn window_cell(h: Seq<(Pos, Color)>, col: int, row: int, c: Color, dir: int, k: int, i: int) -> bool {
    in_board(step_col(col, dir, i - k), step_row(row, dir, i - k))
        && cell_of(h, step_col(col, dir, i - k), step_row(row, dir, i - k)) == Some(c)
}

/// The five cells (col, row) + (i - k)·dir, for i in 0..5, all hold stones of colour `c`.
pub open spec fn window_five(h: Seq<(Pos, Color)>, col: int, row: int, c: Color, dir: int, k: int) -> bool {
    forall|i: int| 0 <= i < 5 ==> #[trigger] window_cell(h, col, row, c, dir, k, i)
}

/// Five stones of colour `c` in a row, horizontally, vertically or diagonally, pass
/// through (col, row).
pub open spec fn five_at(h: Seq<(Pos, Color)>, col: int, row: int, c: Color) -> bool {
    exists|dir: int, k: int| 0 <= dir < 4 && 0 <= k < 5 && #[trigger] window_five(h, col, row, c, dir, k)
}

/// The colour whose last move completed five in a row, if any.
pub open spec fn winner_of(h: Seq<(Pos, Color)>) -> Option<Color> {
    if h.len() > 0 && five_at(h, h.last().0.col_spec(), h.last().0.row_spec(), h.last().1) {
        Some(h.last().1)
    } else {
        None
    }
}

/// Black plays first; sides alternate after.
pub open spec fn side_to_move(h: Seq<(Pos, Color)>) -> Color {
    if h.len() % 2 == 0 {
        Color::Black
    } else {
        Color::White
    }
}

pub struct Board {
    cells: Vec<Option<Color>>,
    pub history: Vec<(Pos, Color)>,
}

impl View for Board {
    type V = Seq<(Pos, Color)>;

    closed spec fn view(&self) -> Seq<(Pos, Color)> {
        self.history@
    }
}

impl Board {
    pub closed spec fn cells_ok(&self) -> bool {
        &&& self.cells@.len() == NUM_CELLS
        &&& forall|c: int, r: int|
            0 <= c < 19 && 0 <= r < 19 ==> self.cells@[cell_index(c, r)] == #[trigger] cell_of(
                self.history@,
                c,
                r,
            )
    }

    /// Well-formed: the history is playable and the cells show its stones.
    pub open spec fn wf(&self) -> bool {
        &&& history_ok(self@)
        &&& self.cells_ok()
    }

    pub fn new() -> (b: Board)
        ensures
            b.wf(),
            b@ == Seq::<(Pos, Color)>::empty(),
    {
        let mut cells: Vec<Option<Color>> = Vec::new();
        let mut i: usize = 0;
        while i < NUM_CELLS
            invariant
                i <= NUM_CELLS,
                cells@.len() == i,
                forall|j: int| 0 <= j < i ==> cells@[j] == None::<Color>,
            decreases NUM_CELLS - i,
        {
            cells.push(None);
            i = i + 1;
        }
        let b = Board { cells, history: Vec::with_capacity(NUM_CELLS) };
        assert forall|c: int, r: int| 0 <= c < 19 && 0 <= r < 19 implies b.cells@[cell_index(c, r)]
            == #[trigger] cell_of(b.history@, c, r) by {
            assert(0 <= cell_index(c, r) < 361);
        }
        b
    }

    /// What stands at `p`.
    pub fn get(&self, p: Pos) -> (r: Option<Color>)
        requires
            self.wf(),
        ensures
            r == cell_at(self@, p),
    {
        let c = p.col();
        let rw = p.row();
        let r = self.cells[c * 19 + rw];
        assert(r == cell_of(self.history@, c as int, rw as int));
        r
    }

    pub fn is_empty(&self, p: Pos) -> (r: bool)
        requires
            self.wf(),
        ensures
            r == (cell_at(self@, p) is None),
            p.valid(),
    {
        proof {
            use_type_invariant(&p);
        }
        self.get(p).is_none()
    }

    /// Puts a stone of colour `c` on `p` if `p` is empty; reports whether it did.
    pub fn place(&mut self, p: Pos, c: Color) -> (placed: bool)
        requires
            old(self).wf(),
        ensures
            final(self).wf(),
            placed == (cell_at(old(self)@, p) is None),
            placed ==> final(self)@ == old(self)@.push((p, c)),
            !placed ==> final(self)@ == old(self)@,
    {
        if !self.is_empty(p) {
            return false;
        }
        let col = p.col();
        let row = p.row();
        let ghost h = self.history@;
        let ghost old_cells = self.cells@;
        proof {
            lemma_cell_of_none(h, col as int, row as int);
        }
        self.cells.set(col * 19 + row, Some(c));
        self.history.push((p, c));
        proof {
            let h2 = self.history@;
            assert(h2.drop_last() =~= h);
            assert forall|i: int| 0 <= i < h2.len() implies (#[trigger] h2[i]).0.valid() by {
                if i < h.len() {
                    assert(h2[i] == h[i]);
                }
            }
            assert forall|i: int, j: int| 0 <= i < j < h2.len() implies !same_cell(
                #[trigger] h2[i].0,
                #[trigger] h2[j].0,
            ) by {
                assert(h2[i] == h[i]);
                if j < h.len() {
                    assert(h2[j] == h[j]);
                }
            }
            assert forall|cc: int, rr: int| 0 <= cc < 19 && 0 <= rr < 19 implies self.cells@[cell_index(
                cc,
                rr,
            )] == #[trigger] cell_of(self.history@, cc, rr) by {
                assert(0 <= cell_index(cc, rr) < 361);
                assert(h2.last() == (p, c));
                if cc != col || rr != row {
                    assert(cell_index(cc, rr) != cell_index(col as int, row as int));
                    assert(old_cells[cell_index(cc, rr)] == cell_of(h, cc, rr));
                    assert(cell_of(h2, cc, rr) == cell_of(h, cc, rr));
                }
            }
        }
        true
    }

    /// Takes back the last move, if there is one, and returns it.
    pub fn unplace_last(&mut self) -> (r: Option<(Pos, Color)>)
        requires
            old(self).wf(),
        ensures
            final(self).wf(),
            old(self)@.len() == 0 ==> r is None && final(self)@ == old(self)@,
            old(self)@.len() > 0 ==> r == Some(old(self)@.last()) && final(self)@ == old(
                self,
            )@.drop_last(),
    {
        let ghost h = self.history@;
        match self.history.pop() {
            None => None,
            Some((p, c)) => {
                let col = p.col();
                let row = p.row();
                self.cells.set(col * 19 + row, None);
                proof {
                    let h2 = self.history@;
                    assert(h2 =~= h.drop_last());
                    assert(h[h.len() - 1] == (p, c));
                    assert forall|i: int| 0 <= i < h2.len() implies (#[trigger] h2[i]).0.valid() by {
                        assert(h2[i] == h[i]);
                    }
                    assert forall|i: int, j: int| 0 <= i < j < h2.len() implies !same_cell(
                        #[trigger] h2[i].0,
                        #[trigger] h2[j].0,
                    ) by {
                        assert(h2[i] == h[i]);
                        assert(h2[j] == h[j]);
                    }
                    lemma_cell_of_none(h2, col as int, row as int);
                    assert forall|i: int| 0 <= i < h2.len() implies !((#[trigger] h2[i]).0.col_spec()
                        == col && h2[i].0.row_spec() == row) by {
                        assert(h2[i] == h[i]);
                        assert(!same_cell(h[i].0, h[h.len() - 1].0));
                    }
                    assert forall|cc: int, rr: int| 0 <= cc < 19 && 0 <= rr < 19 implies self.cells@[cell_index(
                        cc,
                        rr,
                    )] == #[trigger] cell_of(self.history@, cc, rr) by {
                        assert(0 <= cell_index(cc, rr) < 361);
                        if cc != col || rr != row {
                            assert(cell_index(cc, rr) != cell_index(col as int, row as int));
                            assert(cell_of(h, cc, rr) == cell_of(h2, cc, rr));
                        }
                    }
                }
                Some((p, c))
            },
        }
    }

    /// Black plays first; sides alternate after.
    pub fn current_side(&self) -> (r: Color)
        ensures
            r == side_to_move(self@),
    {
        if self.history.len() % 2 == 0 {
            Color::Black
        } else {
            Color::White
        }
    }

    /// The stones on the board, in the order they were played.
    pub fn stones(&self) -> (r: Vec<(Pos, Color)>)
        ensures
            r@ == self@,
    {
        let mut out: Vec<(Pos, Color)> = Vec::new();
        let n = self.history.len();
        let mut i: usize = 0;
        while i < n
            invariant
                n == self.history@.len(),
                i <= n,
                out@ =~= self.history@.subrange(0, i as int),
            decreases n - i,
        {
            out.push(self.history[i]);
            i = i + 1;
        }
        out
    }

    /// Number of moves played so far.
    pub fn move_count(&self) -> (r: usize)
        ensures
            r == self@.len(),
    {
        self.history.len()
    }

    /// The most recent move, if any.
    pub fn last_move(&self) -> (r: Option<(Pos, Color)>)
        ensures
            self@.len() == 0 ==> r is None,
            self@.len() > 0 ==> r == Some(self@.last()),
    {
        let n = self.history.len();
        if n == 0 {
            None
        } else {
            Some(self.history[n - 1])
        }
    }

    /// Whether the five cells of the window that puts (col, row) at place `k` along
    /// `dir` all hold stones of colour `c`.
    fn window_is_five(&self, col: i32, row: i32, c: Color, dir: u8, k: i32) -> (r: bool)
        requires
            self.wf(),
            0 <= col < 19,
            0 <= row < 19,
            dir < 4,
            0 <= k < 5,
        ensures
            r == window_five(self@, col as int, row as int, c, dir as int, k as int),
    {
        let mut i: i32 = 0;
        while i < 5
            invariant
                self.wf(),
                0 <= col < 19,
                0 <= row < 19,
                dir < 4,
                0 <= k < 5,
                0 <= i <= 5,
                forall|j: int| 0 <= j < i ==> #[trigger] window_cell(self@, col as int, row as int, c, dir as int, k as int, j),
            decreases 5 - i,
        {
            let t = i - k;
            let cc = if dir == 1 {
                col
            } else {
                col + t
            };
            let rr = if dir == 0 {
                row
            } else if dir == 3 {
                row - t
            } else {
                row + t
            };
            assert(cc == step_col(col as int, dir as int, i - k));
            assert(rr == step_row(row as int, dir as int, i - k));
            if cc < 0 || cc >= 19 || rr < 0 || rr >= 19 {
                assert(!window_cell(self@, col as int, row as int, c, dir as int, k as int, i as int));
                return false;
            }
            let q = Pos::new(cc as usize, rr as usize);
            let here = self.get(q);
            let same = match here {
                Some(x) => x == c,
                None => false,
            };
            if !same {
                assert(!window_cell(self@, col as int, row as int, c, dir as int, k as int, i as int));
                return false;
            }
            assert(window_cell(self@, col as int, row as int, c, dir as int, k as int, i as int));
            i = i + 1;
        }
        true
    }

    /// Whether `p` lies on five (or more) stones of colour `c` in a row.
    pub fn check_five_at(&self, p: Pos, c: Color) -> (r: bool)
        requires
            self.wf(),
        ensures
            r == five_at(self@, p.col_spec(), p.row_spec(), c),
    {
        let col = p.col() as i32;
        let row = p.row() as i32;
        let mut dir: u8 = 0;
        while dir < 4
            invariant
                self.wf(),
                col == p.col_spec(),
                row == p.row_spec(),
                0 <= col < 19,
                0 <= row < 19,
                dir <= 4,
                forall|d: int, k: int|
                    0 <= d < dir && 0 <= k < 5 ==> !#[trigger] window_five(self@, col as int, row as int, c, d, k),
            decreases 4 - dir,
        {
            let mut k: i32 = 0;
            while k < 5
                invariant
                    self.wf(),
                    col == p.col_spec(),
                    row == p.row_spec(),
                    0 <= col < 19,
                    0 <= row < 19,
                    dir < 4,
                    0 <= k <= 5,
                    forall|d: int, kk: int|
                        0 <= d < dir && 0 <= kk < 5 ==> !#[trigger] window_five(self@, col as int, row as int, c, d, kk),
                    forall|kk: int| 0 <= kk < k ==> !#[trigger] window_five(self@, col as int, row as int, c, dir as int, kk),
                decreases 5 - k,
            {
                if self.window_is_five(col, row, c, dir, k) {
                    return true;
                }
                k = k + 1;
            }
            dir = dir + 1;
        }
        false
    }

    /// The colour whose last move made five in a row, if any.
    pub fn winner(&self) -> (r: Option<Color>)
        requires
            self.wf(),
        ensures
            r == winner_of(self@),
    {
        let n = self.history.len();
        if n == 0 {
            return None;
        }
        let (p, c) = self.history[n - 1];
        if self.check_five_at(p, c) {
            Some(c)
        } else {
            None
        }
    }

    /// Clears the board for a new game.
    pub fn reset(&mut self)
        ensures
            final(self).wf(),
            final(self)@ == Seq::<(Pos, Color)>::empty(),
    {
        *self = Board::new();
    }
}

impl Default for Board {
    fn default() -> (b: Board)
        ensures
            b.wf(),
            b@ == Seq::<(Pos, Color)>::empty(),
    {
        Board::new()
    }
}

impl Clone for Board {
    fn clone(&self) -> (b: Board)
        ensures
            self.wf() ==> b.wf(),
            b@ == self@,
    {
        let mut cells: Vec<Option<Color>> = Vec::new();
        let n = self.cells.len();
        let mut i: usize = 0;
        while i < n
            invariant
                n == self.cells@.len(),
                i <= n,
                cells@ =~= self.cells@.subrange(0, i as int),
            decreases n - i,
        {
            cells.push(self.cells[i]);
            i = i + 1;
        }
        Board { cells, history: self.stones() }
    }
}

/// Playing a move on an empty intersection and then taking it back restores the
/// board; in between, the intersection holds the stone, every other intersection is
/// unchanged, and the side to move has passed to the other colour.
pub proof fn law_place_then_undo(h: Seq<(Pos, Color)>, p: Pos, c: Color)
    requires
        history_ok(h),
        p.valid(),
        cell_at(h, p) is None,
    ensures
        history_ok(h.push((p, c))),
        h.push((p, c)).drop_last() == h,
        h.push((p, c)).last() == (p, c),
        cell_at(h.push((p, c)), p) == Some(c),
        forall|col: int, row: int|
            !(col == p.col_spec() && row == p.row_spec()) ==> #[trigger] cell_of(h.push((p, c)), col, row)
                == cell_of(h, col, row),
        side_to_move(h.push((p, c))) == side_to_move(h).spec_opp(),
{
    let h2 = h.push((p, c));
    assert(h2.drop_last() =~= h);
    lemma_cell_of_none(h, p.col_spec(), p.row_spec());
    assert forall|i: int| 0 <= i < h2.len() implies (#[trigger] h2[i]).0.valid() by {
        if i < h.len() {
            assert(h2[i] == h[i]);
        }
    }
    assert forall|i: int, j: int| 0 <= i < j < h2.len() implies !same_cell(
        #[trigger] h2[i].0,
        #[trigger] h2[j].0,
    ) by {
        assert(h2[i] == h[i]);
        if j < h.len() {
            assert(h2[j] == h[j]);
        }
    }
}

/// A stone is never part of five in a row of the other colour, and five in a row through
/// an intersection needs a stone of that colour there.
pub proof fn law_five_needs_own_stone(h: Seq<(Pos, Color)>, col: int, row: int, c: Color)
    requires
        five_at(h, col, row, c),
    ensures
        cell_of(h, col, row) == Some(c),
{
    let (dir, k) = choose|dir: int, k: int| 0 <= dir < 4 && 0 <= k < 5 && #[trigger] window_five(h, col, row, c, dir, k);
    assert(window_cell(h, col, row, c, dir, k, k));
}

/// The five cells (col, row) + (t - k)·(dc, dr), for t in 0..5, are on the board and
/// hold stones of colour `c`: a run of five through (col, row), which is its `k`-th cell.
pub open spec fn run_of_five(h: Seq<(Pos, Color)>, col: int, row: int, c: Color, dc: int, dr: int, k: int) -> bool {
    &&& 0 <= k < 5
    &&& forall|t: int|
        0 <= t < 5 ==> in_board(col + (t - k) * dc, row + (t - k) * dr) && #[trigger] cell_of(
            h,
            col + (t - k) * dc,
            row + (t - k) * dr,
        ) == Some(c)
}

/// Five in a row through (col, row) is exactly a run of five stones of that colour
/// through it along a row, a column, a diagonal or an anti-diagonal.
pub proof fn law_five_is_a_run(h: Seq<(Pos, Color)>, col: int, row: int, c: Color)
    ensures
        five_at(h, col, row, c) <==> exists|k: int|
            run_of_five(h, col, row, c, 1, 0, k) || run_of_five(h, col, row, c, 0, 1, k)
                || run_of_five(h, col, row, c, 1, 1, k) || run_of_five(h, col, row, c, 1, -1, k),
{
    assert forall|dir: int, k: int| 0 <= dir < 4 && 0 <= k < 5 implies (#[trigger] window_five(h, col, row, c, dir, k)
        <==> run_of_five(h, col, row, c, dir_col(dir), dir_row(dir), k)) by {
        assert forall|u: int| #[trigger] step_col(col, dir, u) == col + u * dir_col(dir)
            && step_row(row, dir, u) == row + u * dir_row(dir) by {
            if dir == 0 {
                assert(u * 1 == u);
                assert(u * 0 == 0);
            } else if dir == 1 {
                assert(u * 1 == u);
                assert(u * 0 == 0);
            } else if dir == 2 {
                assert(u * 1 == u);
            } else {
                assert(u * 1 == u);
                assert(u * -1 == -u);
            }
        }
        if window_five(h, col, row, c, dir, k) {
            assert forall|t: int| 0 <= t < 5 implies in_board(col + (t - k) * dir_col(dir), row + (t - k) * dir_row(dir))
                && #[trigger] cell_of(h, col + (t - k) * dir_col(dir), row + (t - k) * dir_row(dir)) == Some(c) by {
                assert(window_cell(h, col, row, c, dir, k, t));
            }
        }
        if run_of_five(h, col, row, c, dir_col(dir), dir_row(dir), k) {
            assert forall|t: int| 0 <= t < 5 implies #[trigger] window_cell(h, col, row, c, dir, k, t) by {
                assert(cell_of(h, col + (t - k) * dir_col(dir), row + (t - k) * dir_row(dir)) == Some(c));
            }
        }
    }
    if five_at(h, col, row, c) {
        let (dir, k) = choose|dir: int, k: int| 0 <= dir < 4 && 0 <= k < 5 && #[trigger] window_five(h, col, row, c, dir, k);
        assert(run_of_five(h, col, row, c, dir_col(dir), dir_row(dir), k));
        if dir == 0 {
            assert(run_of_five(h, col, row, c, 1, 0, k));
        } else if dir == 1 {
            assert(run_of_five(h, col, row, c, 0, 1, k));
        } else if dir == 2 {
            assert(run_of_five(h, col, row, c, 1, 1, k));
        } else {
            assert(run_of_five(h, col, row, c, 1, -1, k));
        }
    }
    if exists|k: int|
        run_of_five(h, col, row, c, 1, 0, k) || run_of_five(h, col, row, c, 0, 1, k)
            || run_of_five(h, col, row, c, 1, 1, k) || run_of_five(h, col, row, c, 1, -1, k) {
        let k = choose|k: int|
            run_of_five(h, col, row, c, 1, 0, k) || run_of_five(h, col, row, c, 0, 1, k)
                || run_of_five(h, col, row, c, 1, 1, k) || run_of_five(h, col, row, c, 1, -1, k);
        if run_of_five(h, col, row, c, 1, 0, k) {
            assert(window_five(h, col, row, c, 0, k));
        } else if run_of_five(h, col, row, c, 0, 1, k) {
            assert(window_five(h, col, row, c, 1, k));
        } else if run_of_five(h, col, row, c, 1, 1, k) {
            assert(window_five(h, col, row, c, 2, k));
        } else {
            assert(window_five(h, col, row, c, 3, k));
        }
    }
}

} // verus!
