//! The rules engine: a 15 by 15 board that validates placements, enforces
//! turn order and detects five in a row around the last stone.
use vstd::prelude::*;

verus! {

/// The number of lines in each direction.
pub const LINE_COUNT: usize = 15;

/// The colour of a stone.
#[derive(PartialEq, Eq, Structural, Clone, Copy, Debug)]
pub enum Chessman {
    Black,
    White,
}

/// Why a placement was rejected.
#[derive(PartialEq, Eq, Structural, Clone, Copy, Debug)]
pub enum Error {
    OutOfBounds,
    InvalidPos,
    OpNotAllowed,
    NotYourTurn,
}

pub type Result<T> = core::result::Result<T, Error>;

/// The state of a game board.
pub struct Board {
    pub states: [[Option<Chessman>; 15]; 15],
    last: Chessman,
}

/// The mathematical content of a board: the cells by line, and the colour
/// of the most recently accepted stone.
pub struct BoardView {
    pub cells: Seq<Seq<Option<Chessman>>>,
    pub last: Chessman,
}

pub open spec fn in_bounds(x: int, y: int) -> bool {
    0 <= x < LINE_COUNT && 0 <= y < LINE_COUNT
}

impl BoardView {
    /// The cell at `(x, y)`; every position off the board reads as empty.
    pub open spec fn cell(self, x: int, y: int) -> Option<Chessman> {
        if in_bounds(x, y) {
            self.cells[x][y]
        } else {
            None
        }
    }

    pub open spec fn well_formed(self) -> bool {
        &&& self.cells.len() == LINE_COUNT
        &&& forall|i: int| 0 <= i < LINE_COUNT ==> #[trigger] self.cells[i].len() == LINE_COUNT
    }

    /// The board with a stone of colour `c` at `(x, y)`, `c` being the last colour.
    pub open spec fn placed(self, c: Chessman, x: int, y: int) -> BoardView {
        BoardView { cells: self.cells.update(x, self.cells[x].update(y, Some(c))), last: c }
    }

    /// What a placement of `c` at `(x, y)` reports, with the checks in their order.
    pub open spec fn check(self, c: Chessman, x: int, y: int) -> Result<()> {
        if !in_bounds(x, y) {
            Err(Error::OutOfBounds)
        } else if c == self.last {
            Err(Error::NotYourTurn)
        } else if self.cell(x, y).is_some() {
            Err(Error::InvalidPos)
        } else {
            Ok(())
        }
    }

    /// Whether five consecutive cells on one axis, one of them `(x, y)`,
    /// all hold a stone of colour `c`.
    pub open spec fn five_through(self, c: Chessman, x: int, y: int) -> bool {
        exists|d: int, s: int|
            0 <= d < 4 && 0 <= s < 5 && #[trigger] self.five_from(c, x, y, d, s)
    }

    /// The five cells at offsets `-s .. 5 - s` from `(x, y)` along axis `d`
    /// all hold `c`.
    pub open spec fn five_from(self, c: Chessman, x: int, y: int, d: int, s: int) -> bool {
        forall|i: int|
            0 <= i < 5 ==> #[trigger] self.cell(x + step_x(d, i - s), y + step_y(d, i - s))
                == Some(c)
    }

    /// What `put_piece` of `c` at `(x, y)` returns on this board.
    pub open spec fn put_result(self, c: Chessman, x: int, y: int) -> Result<bool> {
        match self.check(c, x, y) {
            Err(e) => Err(e),
            Ok(_) => Ok(self.placed(c, x, y).five_through(c, x, y)),
        }
    }

    /// The board after `put_piece` of `c` at `(x, y)`: unchanged on a rejection.
    pub open spec fn put_board(self, c: Chessman, x: int, y: int) -> BoardView {
        if self.check(c, x, y) is Ok {
            self.placed(c, x, y)
        } else {
            self
        }
    }
}

/// The horizontal offset of `k` steps along axis `d`
/// (0: along x, 1: along y, 2: the diagonal, 3: the anti-diagonal).
pub open spec fn step_x(d: int, k: int) -> int {
    if d == 1 {
        0
    } else {
        k
    }
}

/// The vertical offset of `k` steps along axis `d`.
pub open spec fn step_y(d: int, k: int) -> int {
    if d == 0 {
        0
    } else if d == 3 {
        -k
    } else {
        k
    }
}

/// The empty board, on which Black moves first.
pub open spec fn empty_view() -> BoardView {
    BoardView {
        cells: Seq::new(LINE_COUNT as nat, |i: int| Seq::new(LINE_COUNT as nat, |j: int| None)),
        last: Chessman::White,
    }
}

impl View for Board {
    type V = BoardView;

    closed spec fn view(&self) -> BoardView {
        BoardView { cells: Seq::new(15, |i: int| self.states[i]@), last: self.last }
    }
}

impl Board {
    /// Every board has 15 lines of 15 cells.
    pub proof fn lemma_well_formed(&self)
        ensures
            self@.well_formed(),
    {
    }
}

impl Default for Board {
    /// An empty board, on which Black moves first.
    fn default() -> (b: Board)
        ensures
            b@ == empty_view(),
    {
        let b = Board { last: Chessman::White, states: [[None; 15]; 15] };
        assert(b@.cells =~= empty_view().cells) by {
            assert forall|i: int| 0 <= i < 15 implies b@.cells[i] =~= empty_view().cells[i] by {}
        }
        b
    }
}


/// The code of a cell in a dump: 0 for an empty cell, 1 for black, 2 for white.
pub open spec fn cell_code(s: Option<Chessman>) -> u8 {
    match s {
        None => 0,
        Some(Chessman::Black) => 1,
        Some(Chessman::White) => 2,
    }
}

/// The offset of `k` steps forward, or backward, along an axis.
pub open spec fn signed(forward: bool, k: int) -> int {
    if forward {
        k
    } else {
        -k
    }
}

fn step(d: usize, k: i64) -> (r: (i64, i64))
    requires
        d < 4,
        -5 <= k <= 5,
    ensures
        r.0 == step_x(d as int, k as int),
        r.1 == step_y(d as int, k as int),
{
    let sx: i64 = if d == 1 {
        0
    } else {
        k
    };
    let sy: i64 = if d == 0 {
        0
    } else if d == 3 {
        -k
    } else {
        k
    };
    (sx, sy)
}

impl Board {
    /// Dump states of all chessmen
    /// None mapped to 0, black mapped to 1,
    /// and white mapped to 2
    pub fn dump_states(&self) -> (r: Vec<Vec<u8>>)
        ensures
            r@.len() == LINE_COUNT,
            forall|i: int| 0 <= i < LINE_COUNT ==> #[trigger] r@[i]@.len() == LINE_COUNT,
            forall|i: int, j: int|
                0 <= i < LINE_COUNT && 0 <= j < LINE_COUNT ==> #[trigger] r@[i]@[j] == cell_code(
                    self@.cell(i, j),
                ),
    {
        let mut out: Vec<Vec<u8>> = Vec::new();
        let mut i: usize = 0;
        while i < LINE_COUNT
            invariant
                i <= LINE_COUNT,
                out@.len() == i,
                forall|a: int| 0 <= a < i ==> #[trigger] out@[a]@.len() == LINE_COUNT,
                forall|a: int, b: int|
                    0 <= a < i && 0 <= b < LINE_COUNT ==> #[trigger] out@[a]@[b] == cell_code(
                        self@.cell(a, b),
                    ),
            decreases LINE_COUNT - i,
        {
            let mut line: Vec<u8> = Vec::new();
            let mut j: usize = 0;
            while j < LINE_COUNT
                invariant
                    i < LINE_COUNT,
                    j <= LINE_COUNT,
                    line@.len() == j,
                    forall|b: int| 0 <= b < j ==> #[trigger] line@[b] == cell_code(self@.cell(i as int, b)),
                decreases LINE_COUNT - j,
            {
                let code: u8 = match self.states[i][j] {
                    None => 0,
                    Some(Chessman::Black) => 1,
                    Some(Chessman::White) => 2,
                };
                line.push(code);
                j = j + 1;
            }
            out.push(line);
            i = i + 1;
        }
        out
    }

    /// Put a chessman on the board
    pub fn put_piece(&mut self, c: Chessman, x: usize, y: usize) -> (r: Result<bool>)
        ensures
            r == old(self)@.put_result(c, x as int, y as int),
            final(self)@ == old(self)@.put_board(c, x as int, y as int),
    {
        match self.check(c, x, y) {
            Err(e) => {
                return Err(e);
            },
            Ok(_) => {},
        }
        let ghost before = self@;
        self.states[x][y] = Some(c);
        self.last = c;
        assert(self@.cells =~= before.placed(c, x as int, y as int).cells) by {
            assert forall|i: int| 0 <= i < LINE_COUNT implies #[trigger] self@.cells[i]
                =~= before.placed(c, x as int, y as int).cells[i] by {}
        }
        let w = self.wins(x, y);
        Ok(w)
    }

    /// Checks, in order, that `(x, y)` is on the board, that it is `c`'s turn
    /// and that the cell is empty.
    pub fn check(&self, c: Chessman, x: usize, y: usize) -> (r: Result<()>)
        ensures
            r == self@.check(c, x as int, y as int),
    {
        if x >= LINE_COUNT || y >= LINE_COUNT {
            return Err(Error::OutOfBounds);
        }
        if self.last == c {
            return Err(Error::NotYourTurn);
        }
        if self.states[x][y].is_some() {
            return Err(Error::InvalidPos);
        }
        Ok(())
    }

    fn stone_at(&self, x: i64, y: i64) -> (r: Option<Chessman>)
        ensures
            r == self@.cell(x as int, y as int),
    {
        if 0 <= x && x < 15 && 0 <= y && y < 15 {
            self.states[x as usize][y as usize]
        } else {
            None
        }
    }

    /// How many stones of colour `c` follow `(x, y)` without a gap along
    /// axis `d`, in one sense, counting at most four.
    fn arm(&self, c: Chessman, x: usize, y: usize, d: usize, forward: bool) -> (n: i64)
        requires
            x < LINE_COUNT,
            y < LINE_COUNT,
            d < 4,
        ensures
            0 <= n <= 4,
            forall|k: int|
                1 <= k <= n ==> #[trigger] self@.cell(
                    x + step_x(d as int, signed(forward, k)),
                    y + step_y(d as int, signed(forward, k)),
                ) == Some(c),
            n < 4 ==> self@.cell(
                x + step_x(d as int, signed(forward, n + 1)),
                y + step_y(d as int, signed(forward, n + 1)),
            ) != Some(c),
    {
        let mut n: i64 = 0;
        while n < 4
            invariant
                x < LINE_COUNT,
                y < LINE_COUNT,
                d < 4,
                0 <= n <= 4,
                forall|k: int|
                    1 <= k <= n ==> #[trigger] self@.cell(
                        x + step_x(d as int, signed(forward, k)),
                        y + step_y(d as int, signed(forward, k)),
                    ) == Some(c),
            decreases 4 - n,
        {
            let k: i64 = if forward {
                n + 1
            } else {
                -(n + 1)
            };
            let (sx, sy) = step(d, k);
            match self.stone_at(x as i64 + sx, y as i64 + sy) {
                Some(s) => {
                    if s != c {
                        return n;
                    }
                },
                None => {
                    return n;
                },
            }
            n = n + 1;
        }
        n
    }

    /// Whether the stone at `(x, y)` stands in five in a row: the run along
    /// one of the four axes through it, the stone included, is five or more.
    pub fn wins(&self, x: usize, y: usize) -> (r: bool)
        requires
            x < LINE_COUNT,
            y < LINE_COUNT,
        ensures
            r == match self@.cell(x as int, y as int) {
                Some(c) => self@.five_through(c, x as int, y as int),
                None => false,
            },
    {
        let c = match self.states[x][y] {
            Some(c) => c,
            None => {
                return false;
            },
        };
        let ghost v = self@;
        let ghost (xi, yi) = (x as int, y as int);
        let mut d: usize = 0;
        while d < 4
            invariant
                x < LINE_COUNT,
                y < LINE_COUNT,
                v == self@,
                xi == x,
                yi == y,
                v.cell(xi, yi) == Some(c),
                d <= 4,
                forall|dd: int, s: int|
                    0 <= dd < d && 0 <= s < 5 ==> !#[trigger] v.five_from(c, xi, yi, dd, s),
            decreases 4 - d,
        {
            let f = self.arm(c, x, y, d, true);
            let b = self.arm(c, x, y, d, false);
            let ghost di = d as int;
            if f + b >= 4 {
                let ghost s: int = if b >= 4 {
                    4
                } else {
                    b as int
                };
                assert forall|i: int| 0 <= i < 5 implies #[trigger] v.cell(
                    xi + step_x(di, i - s),
                    yi + step_y(di, i - s),
                ) == Some(c) by {
                    if i - s > 0 {
                        assert(signed(true, i - s) == i - s);
                        assert(v.cell(
                            xi + step_x(di, signed(true, i - s)),
                            yi + step_y(di, signed(true, i - s)),
                        ) == Some(c));
                    } else if i - s < 0 {
                        assert(signed(false, s - i) == i - s);
                        assert(v.cell(
                            xi + step_x(di, signed(false, s - i)),
                            yi + step_y(di, signed(false, s - i)),
                        ) == Some(c));
                    }
                }
                assert(v.five_from(c, xi, yi, di, s));
                return true;
            }
            assert forall|s: int| 0 <= s < 5 implies !#[trigger] v.five_from(c, xi, yi, di, s) by {
                if v.five_from(c, xi, yi, di, s) {
                    if f < 4 - s {
                        let i = s + f + 1;
                        assert(signed(true, f + 1) == i - s);
                        assert(v.cell(xi + step_x(di, i - s), yi + step_y(di, i - s)) == Some(c));
                    } else {
                        let i = s - b - 1;
                        assert(signed(false, b + 1) == i - s);
                        assert(v.cell(xi + step_x(di, i - s), yi + step_y(di, i - s)) == Some(c));
                    }
                }
            }
            d = d + 1;
        }
        false
    }
}


/// A placement as the history of a match records it: colour, x, y.
pub type Move = (Chessman, usize, usize);

/// The board that placing the moves of `h` in order, from an empty board, leaves.
pub open spec fn replay(h: Seq<Move>) -> BoardView
    decreases h.len(),
{
    if h.len() == 0 {
        empty_view()
    } else {
        let m = h.last();
        replay(h.drop_last()).put_board(m.0, m.1 as int, m.2 as int)
    }
}

/// Each move of `h` is accepted on the board that the moves before it leave.
pub open spec fn all_accepted(h: Seq<Move>) -> bool {
    forall|k: int|
        0 <= k < h.len() ==> (#[trigger] replay(h.take(k))).check(h[k].0, h[k].1 as int, h[k].2 as int)
            is Ok
}

/// Colours alternate from Black, every move is on the board, and no two
/// moves share a cell.
pub open spec fn alternating_distinct(h: Seq<Move>) -> bool {
    &&& forall|k: int|
        0 <= k < h.len() ==> (#[trigger] h[k]).0 == (if k % 2 == 0 {
            Chessman::Black
        } else {
            Chessman::White
        })
    &&& forall|k: int| 0 <= k < h.len() ==> in_bounds((#[trigger] h[k]).1 as int, h[k].2 as int)
    &&& forall|k: int, l: int|
        0 <= k < l < h.len() ==> ((#[trigger] h[k]).1 != (#[trigger] h[l]).1 || h[k].2 != h[l].2)
}

proof fn lemma_placed_cell(v: BoardView, c: Chessman, x: int, y: int, i: int, j: int)
    requires
        v.well_formed(),
        in_bounds(x, y),
    ensures
        v.placed(c, x, y).well_formed(),
        v.placed(c, x, y).cell(i, j) == if i == x && j == y {
            Some(c)
        } else {
            v.cell(i, j)
        },
{
    let w = v.placed(c, x, y);
    assert forall|a: int| 0 <= a < LINE_COUNT implies #[trigger] w.cells[a].len() == LINE_COUNT by {
        if a == x {
        } else {
        }
    }
}

/// On a replayed board of alternating, distinct moves, Black is to move after
/// an even number of moves, and a cell holds a stone only where a move was made.
proof fn lemma_replay_alternating(h: Seq<Move>)
    requires
        alternating_distinct(h),
    ensures
        replay(h).well_formed(),
        replay(h).last == (if h.len() % 2 == 0 {
            Chessman::White
        } else {
            Chessman::Black
        }),
        forall|i: int, j: int|
            (#[trigger] replay(h).cell(i, j)) is Some ==> exists|k: int|
                0 <= k < h.len() && (#[trigger] h[k]).1 == i && h[k].2 == j,
        all_accepted(h),
    decreases h.len(),
{
    if h.len() == 0 {
        let e = empty_view();
        assert forall|a: int| 0 <= a < LINE_COUNT implies #[trigger] e.cells[a].len()
            == LINE_COUNT by {}
    } else {
        let p = h.drop_last();
        let n = h.len() - 1;
        assert(alternating_distinct(p)) by {
            assert forall|k: int| 0 <= k < p.len() implies #[trigger] p[k] == h[k] by {}
        }
        lemma_replay_alternating(p);
        let v = replay(p);
        let m = h[n];
        assert(h.last() == m);
        assert(v.cell(m.1 as int, m.2 as int) is None) by {
            if v.cell(m.1 as int, m.2 as int) is Some {
                let k = choose|k: int| 0 <= k < p.len() && (#[trigger] p[k]).1 == m.1 && p[k].2 == m.2;
                assert(h[k] == p[k]);
            }
        }
        assert(v.check(m.0, m.1 as int, m.2 as int) is Ok);
        assert forall|i: int, j: int| (#[trigger] replay(h).cell(i, j)) is Some implies exists|k: int|
            0 <= k < h.len() && (#[trigger] h[k]).1 == i && h[k].2 == j by {
            lemma_placed_cell(v, m.0, m.1 as int, m.2 as int, i, j);
            if i == m.1 && j == m.2 {
                assert(h[n].1 == i);
            } else {
                let k = choose|k: int| 0 <= k < p.len() && (#[trigger] p[k]).1 == i && p[k].2 == j;
                assert(h[k] == p[k]);
            }
        }
        lemma_placed_cell(v, m.0, m.1 as int, m.2 as int, 0, 0);
        assert forall|k: int| 0 <= k < h.len() implies (#[trigger] replay(h.take(k))).check(
            h[k].0,
            h[k].1 as int,
            h[k].2 as int,
        ) is Ok by {
            if k < n {
                assert(h.take(k) =~= p.take(k));
                assert(h[k] == p[k]);
            } else {
                assert(h.take(k) =~= p);
            }
        }
    }
}

/// Any sequence of placements that alternates colours from Black, stays on
/// the board and never repeats a cell is accepted move after move.
pub proof fn lemma_alternating_moves_accepted(h: Seq<Move>)
    requires
        alternating_distinct(h),
    ensures
        all_accepted(h),
        forall|k: int|
            0 <= k < h.len() ==> (#[trigger] replay(h.take(k))).put_result(
                h[k].0,
                h[k].1 as int,
                h[k].2 as int,
            ) is Ok,
{
    lemma_replay_alternating(h);
}

/// A placement of the colour that moved last is rejected as out of turn,
/// wherever on the board it is aimed, and changes nothing.
pub proof fn lemma_same_colour_out_of_turn(v: BoardView, x: int, y: int)
    requires
        in_bounds(x, y),
    ensures
        v.put_result(v.last, x, y) == Err::<bool, Error>(Error::NotYourTurn),
        v.put_board(v.last, x, y) == v,
{
}

/// A placement on an occupied cell, in turn, is rejected as an invalid
/// position, whatever it would have completed, and changes nothing.
pub proof fn lemma_occupied_cell_rejected(v: BoardView, c: Chessman, x: int, y: int)
    requires
        in_bounds(x, y),
        c != v.last,
        v.cell(x, y) is Some,
    ensures
        v.put_result(c, x, y) == Err::<bool, Error>(Error::InvalidPos),
        v.put_board(c, x, y) == v,
{
}

/// An accepted placement that completes five consecutive stones of its
/// colour on an axis wins.
pub proof fn lemma_five_in_a_row_wins(v: BoardView, c: Chessman, x: int, y: int, d: int, s: int)
    requires
        v.check(c, x, y) is Ok,
        0 <= d < 4,
        0 <= s < 5,
        v.placed(c, x, y).five_from(c, x, y, d, s),
    ensures
        v.put_result(c, x, y) == Ok::<bool, Error>(true),
{
}

/// An accepted placement does not win when, on every axis, the run of its
/// colour through it is at most four: it ends `fwd[d] + 1` steps forward and
/// `back[d] + 1` steps backward on a cell without such a stone (or off the
/// board), with `fwd[d] + back[d] <= 3`.
pub proof fn lemma_four_in_a_row_does_not_win(
    v: BoardView,
    c: Chessman,
    x: int,
    y: int,
    fwd: Seq<int>,
    back: Seq<int>,
)
    requires
        v.check(c, x, y) is Ok,
        fwd.len() == 4,
        back.len() == 4,
        forall|d: int|
            0 <= d < 4 ==> {
                &&& 0 <= #[trigger] fwd[d]
                &&& 0 <= back[d]
                &&& fwd[d] + back[d] <= 3
                &&& v.placed(c, x, y).cell(x + step_x(d, fwd[d] + 1), y + step_y(d, fwd[d] + 1))
                    != Some(c)
                &&& v.placed(c, x, y).cell(
                    x + step_x(d, -(back[d] + 1)),
                    y + step_y(d, -(back[d] + 1)),
                ) != Some(c)
            },
    ensures
        v.put_result(c, x, y) == Ok::<bool, Error>(false),
{
    let w = v.placed(c, x, y);
    assert forall|d: int, s: int| 0 <= d < 4 && 0 <= s < 5 implies !#[trigger] w.five_from(
        c,
        x,
        y,
        d,
        s,
    ) by {
        if w.five_from(c, x, y, d, s) {
            let f = fwd[d];
            let b = back[d];
            if f + 1 <= 4 - s {
                let i = s + f + 1;
                assert(w.cell(x + step_x(d, i - s), y + step_y(d, i - s)) == Some(c));
            } else {
                let i = s - b - 1;
                assert(w.cell(x + step_x(d, i - s), y + step_y(d, i - s)) == Some(c));
            }
        }
    }
}

} // verus!
