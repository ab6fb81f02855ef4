//! The puzzle state: a 3x3 grid holding each of the values 0..=8 once,
//! where 0 is the blank, and the moves of the blank.
use vstd::prelude::*;

verus! {

/// The way the blank moves.
#[derive(Clone, Copy, Debug, PartialEq, Eq, Hash, Structural)]
pub enum Direction {
    Up,
    Down,
    Left,
    Right,
}

/// The direction that undoes a move in direction `d`.
pub open spec fn opposite_of(d: Direction) -> Direction {
    match d {
        Direction::Up => Direction::Down,
        Direction::Down => Direction::Up,
        Direction::Left => Direction::Right,
        Direction::Right => Direction::Left,
    }
}

impl Direction {
    pub fn opposite(&self) -> (r: Direction)
        ensures
            r == opposite_of(*self),
    {
        match self {
            Direction::Up => Direction::Down,
            Direction::Down => Direction::Up,
            Direction::Left => Direction::Right,
            Direction::Right => Direction::Left,
        }
    }
}

/// Each value of 0..9 stands in exactly one of the nine cells.
pub open spec fn is_tiles(c: Seq<u8>) -> bool {
    &&& c.len() == 9
    &&& forall|i: int| 0 <= i < 9 ==> c[i] < 9
    &&& forall|i: int, j: int| 0 <= i < j < 9 ==> c[i] != c[j]
    &&& forall|v: u8| v < 9 ==> #[trigger] holds_value(c, v)
}

/// Some cell of `c` holds `v`.
pub open spec fn holds_value(c: Seq<u8>, v: u8) -> bool {
    exists|i: int| 0 <= i < 9 && c[i] == v
}

/// The solved grid, row-major: 1 2 3 / 4 5 6 / 7 8 blank.
pub open spec fn goal_cells() -> Seq<u8> {
    seq![1u8, 2, 3, 4, 5, 6, 7, 8, 0]
}

/// The cell (row-major index) that holds the blank.
pub open spec fn blank_index(c: Seq<u8>) -> int {
    choose|i: int| 0 <= i < 9 && c[i] == 0
}

/// The cell whose tile the blank at cell `b` swaps with when moving in
/// direction `d`, if the blank does not stand on that edge.
pub open spec fn neighbour(b: int, d: Direction) -> Option<int> {
    match d {
        Direction::Up => if b >= 3 { Some(b - 3) } else { None },
        Direction::Down => if b < 6 { Some(b + 3) } else { None },
        Direction::Left => if b % 3 != 0 { Some(b - 1) } else { None },
        Direction::Right => if b % 3 != 2 { Some(b + 1) } else { None },
    }
}

/// The grid after moving the blank in direction `d`, if the move exists.
pub open spec fn moved(c: Seq<u8>, d: Direction) -> Option<Seq<u8>> {
    let b = blank_index(c);
    match neighbour(b, d) {
        Some(t) => Some(c.update(b, c[t]).update(t, 0)),
        None => None,
    }
}

/// The grid after the moves of `plan` in order, if every one of them exists.
pub open spec fn run_plan(c: Seq<u8>, plan: Seq<Direction>) -> Option<Seq<u8>>
    decreases plan.len(),
{
    if plan.len() == 0 {
        Some(c)
    } else {
        match moved(c, plan[0]) {
            Some(n) => run_plan(n, plan.drop_first()),
            None => None,
        }
    }
}

/// `plan` leads from `c` to the solved grid.
pub open spec fn solves(c: Seq<u8>, plan: Seq<Direction>) -> bool {
    run_plan(c, plan) == Some(goal_cells())
}

/// Some plan leads from `c` to the solved grid.
pub open spec fn reachable(c: Seq<u8>) -> bool {
    exists|plan: Seq<Direction>| solves(c, plan)
}

/// The map key of a grid.
pub open spec fn key_of(c: Seq<u8>) -> u64 {
    code_of(c) as u64
}

/// The number whose hexadecimal digits are the cells, cell 0 lowest.
pub open spec fn code_of(c: Seq<u8>) -> int {
    c[0] + 16 * (c[1] + 16 * (c[2] + 16 * (c[3] + 16 * (c[4] + 16 * (c[5] + 16 * (c[6]
        + 16 * (c[7] + 16 * c[8])))))))
}

/// Every key lies below this bound.
pub const KEY_SPACE: u64 = 68719476736;

proof fn lemma_digit(a: int, x: int, b: int, y: int)
    requires
        0 <= a < 16,
        0 <= b < 16,
        a + 16 * x == b + 16 * y,
    ensures
        a == b,
        x == y,
{
}

/// The code of a grid lies below `KEY_SPACE`.
pub proof fn lemma_code_range(c: Seq<u8>)
    requires
        is_tiles(c),
    ensures
        0 <= code_of(c) < KEY_SPACE,
        key_of(c) == code_of(c),
{
}

/// Two grids of the same key are the same grid.
pub proof fn lemma_key_injective(c: Seq<u8>, e: Seq<u8>)
    requires
        is_tiles(c),
        is_tiles(e),
        key_of(c) == key_of(e),
    ensures
        c == e,
{
    lemma_code_range(c);
    lemma_code_range(e);
    let c8 = c[8] as int;
    let c7 = c[7] + 16 * c8;
    let c6 = c[6] + 16 * c7;
    let c5 = c[5] + 16 * c6;
    let c4 = c[4] + 16 * c5;
    let c3 = c[3] + 16 * c4;
    let c2 = c[2] + 16 * c3;
    let c1 = c[1] + 16 * c2;
    let e8 = e[8] as int;
    let e7 = e[7] + 16 * e8;
    let e6 = e[6] + 16 * e7;
    let e5 = e[5] + 16 * e6;
    let e4 = e[4] + 16 * e5;
    let e3 = e[3] + 16 * e4;
    let e2 = e[2] + 16 * e3;
    let e1 = e[1] + 16 * e2;
    lemma_digit(c[0] as int, c1, e[0] as int, e1);
    lemma_digit(c[1] as int, c2, e[1] as int, e2);
    lemma_digit(c[2] as int, c3, e[2] as int, e3);
    lemma_digit(c[3] as int, c4, e[3] as int, e4);
    lemma_digit(c[4] as int, c5, e[4] as int, e5);
    lemma_digit(c[5] as int, c6, e[5] as int, e6);
    lemma_digit(c[6] as int, c7, e[6] as int, e7);
    lemma_digit(c[7] as int, c8, e[7] as int, e8);
    assert(c =~= e);
}

/// A grid of the puzzle.
#[derive(Clone, Copy, Debug, PartialEq, Eq, Hash)]
pub struct Board {
    cells: [u8; 9],
}

impl View for Board {
    type V = Seq<u8>;

    closed spec fn view(&self) -> Seq<u8> {
        self.cells@
    }
}

impl Board {
    /// Builds a board from its rows; `grid` must hold each of 0..=8 once.
    pub fn new(grid: [[u8; 3]; 3]) -> (r: Board)
        requires
            is_tiles(seq![grid[0][0], grid[0][1], grid[0][2], grid[1][0], grid[1][1],
                grid[1][2], grid[2][0], grid[2][1], grid[2][2]]),
        ensures
            r@ == seq![grid[0][0], grid[0][1], grid[0][2], grid[1][0], grid[1][1],
                grid[1][2], grid[2][0], grid[2][1], grid[2][2]],
    {
        let r = Board {
            cells: [grid[0][0], grid[0][1], grid[0][2], grid[1][0], grid[1][1],
                grid[1][2], grid[2][0], grid[2][1], grid[2][2]],
        };
        assert(r@ =~= seq![grid[0][0], grid[0][1], grid[0][2], grid[1][0], grid[1][1],
                grid[1][2], grid[2][0], grid[2][1], grid[2][2]]);
        r
    }

    /// The solved board.
    pub fn goal() -> (r: Board)
        ensures
            r@ == goal_cells(),
            is_tiles(r@),
    {
        let r = Board { cells: [1, 2, 3, 4, 5, 6, 7, 8, 0] };
        assert(r@ =~= goal_cells());
        assert forall|v: u8| v < 9 implies #[trigger] holds_value(r@, v) by {
            if v == 0 {
                assert(r@[8] == v);
            } else {
                assert(r@[v - 1] == v);
            }
        }
        r
    }

    /// The tile at `row`, `col`; 0 for the blank.
    pub fn value_at(&self, row: usize, col: usize) -> (r: u8)
        requires
            row < 3,
            col < 3,
        ensures
            r == self@[3 * row + col],
    {
        self.cells[3 * row + col]
    }

    /// The map key of this board.
    pub fn key(&self) -> (r: u64)
        requires
            is_tiles(self@),
        ensures
            r == key_of(self@),
            r < KEY_SPACE,
    {
        proof { lemma_code_range(self@); }
        let c = &self.cells;
        c[0] as u64 + 16 * (c[1] as u64 + 16 * (c[2] as u64 + 16 * (c[3] as u64 + 16 * (
        c[4] as u64 + 16 * (c[5] as u64 + 16 * (c[6] as u64 + 16 * (c[7] as u64 + 16
            * c[8] as u64)))))))
    }

    /// The cell that holds the blank.
    fn blank(&self) -> (r: usize)
        requires
            is_tiles(self@),
        ensures
            r == blank_index(self@),
            r < 9,
            self@[r as int] == 0,
    {
        let mut i: usize = 0;
        while i < 9
            invariant
                i <= 9,
                forall|j: int| 0 <= j < i ==> self@[j] != 0,
                is_tiles(self@),
            decreases 9 - i,
        {
            if self.cells[i] == 0 {
                proof { lemma_blank_unique(self@, i as int); }
                return i;
            }
            i = i + 1;
        }
        assert(holds_value(self@, 0u8));
        proof { assert(false); }
        0
    }

    /// The board after the blank moves in direction `d`, or `None` where the
    /// blank stands on that edge.
    pub fn apply(&self, d: Direction) -> (r: Option<Board>)
        requires
            is_tiles(self@),
        ensures
            r matches Some(n) ==> moved(self@, d) == Some(n@) && is_tiles(n@),
            r is None ==> moved(self@, d) is None,
    {
        let b = self.blank();
        let t: usize = match d {
            Direction::Up => if b >= 3 { b - 3 } else { return None },
            Direction::Down => if b < 6 { b + 3 } else { return None },
            Direction::Left => if b % 3 != 0 { b - 1 } else { return None },
            Direction::Right => if b % 3 != 2 { b + 1 } else { return None },
        };
        let mut cells = self.cells;
        let tile = cells[t];
        cells[b] = tile;
        cells[t] = 0;
        let n = Board { cells };
        proof { lemma_swap_tiles(self@, b as int, t as int); }
        Some(n)
    }

    /// Whether the moves of `plan`, in order, all exist and lead from this
    /// board to the solved one.
    pub fn is_valid_plan(&self, plan: &Vec<Direction>) -> (r: bool)
        requires
            is_tiles(self@),
        ensures
            r == solves(self@, plan@),
    {
        let mut cur = *self;
        let mut i: usize = 0;
        assert(plan@.skip(0) =~= plan@);
        while i < plan.len()
            invariant
                i <= plan.len(),
                is_tiles(cur@),
                run_plan(self@, plan@) == run_plan(cur@, plan@.skip(i as int)),
            decreases plan.len() - i,
        {
            assert(plan@.skip(i as int).drop_first() =~= plan@.skip(i + 1));
            match cur.apply(plan[i]) {
                Some(n) => {
                    cur = n;
                },
                None => {
                    return false;
                },
            }
            i = i + 1;
        }
        let g = Board::goal();
        cur.same_as(&g)
    }

    /// Whether two boards hold the same tiles in the same cells.
    pub fn same_as(&self, other: &Board) -> (r: bool)
        ensures
            r == (self@ == other@),
    {
        let mut i: usize = 0;
        while i < 9
            invariant
                i <= 9,
                forall|j: int| 0 <= j < i ==> self@[j] == other@[j],
            decreases 9 - i,
        {
            if self.cells[i] != other.cells[i] {
                return false;
            }
            i = i + 1;
        }
        assert(self@ =~= other@);
        true
    }
}

/// A move keeps each value of 0..9 in exactly one cell, and changes the grid.
pub proof fn lemma_moved_tiles(c: Seq<u8>, d: Direction)
    requires
        is_tiles(c),
        moved(c, d) is Some,
    ensures
        is_tiles(moved(c, d).unwrap()),
        moved(c, d).unwrap() != c,
{
    assert(holds_value(c, 0u8));
    let b = blank_index(c);
    let t = neighbour(b, d).unwrap();
    lemma_swap_tiles(c, b, t);
    let n = moved(c, d).unwrap();
    assert(c[t] != c[b]);
    assert(n[t] != c[t]);
}

/// Moving the blank back the way it came restores the grid.
pub proof fn lemma_move_round_trip(c: Seq<u8>, d: Direction)
    requires
        is_tiles(c),
        moved(c, d) is Some,
    ensures
        moved(moved(c, d).unwrap(), opposite_of(d)) == Some(c),
{
    assert(holds_value(c, 0u8));
    let b = blank_index(c);
    let t = neighbour(b, d).unwrap();
    lemma_swap_tiles(c, b, t);
    let n = moved(c, d).unwrap();
    assert(neighbour(t, opposite_of(d)) == Some(b));
    assert(n.update(t, n[b]).update(b, 0) =~= c);
}

/// 1 where tile `a` stands before the smaller tile `b`; the blank counts for
/// nothing.
pub open spec fn inverted(a: u8, b: u8) -> int {
    if b != 0 && a > b { 1 } else { 0 }
}

/// Inversions between the tile in cell `i` and the tiles in cells `j..9`.
pub open spec fn inversions_after(c: Seq<u8>, i: int, j: int) -> int
    decreases 9 - j,
{
    if j >= 9 { 0 } else { inverted(c[i], c[j]) + inversions_after(c, i, j + 1) }
}

/// Inversions among the tiles in cells `i..9`.
pub open spec fn inversions_from(c: Seq<u8>, i: int) -> int
    decreases 9 - i,
{
    if i >= 9 { 0 } else { inversions_after(c, i, i + 1) + inversions_from(c, i + 1) }
}

/// The number of pairs of tiles, blank aside, that stand in the opposite
/// order to the solved grid's.
pub open spec fn inversions(c: Seq<u8>) -> int {
    inversions_from(c, 0)
}

/// The inversions of the grid `x0 .. x8`, pair by pair.
spec fn inversions_of(x0: u8, x1: u8, x2: u8, x3: u8, x4: u8, x5: u8, x6: u8, x7: u8, x8: u8) -> int {
        inverted(x0, x1) + inverted(x0, x2) + inverted(x0, x3) + inverted(x0, x4) +
        inverted(x0, x5) + inverted(x0, x6) + inverted(x0, x7) + inverted(x0, x8) +
        inverted(x1, x2) + inverted(x1, x3) + inverted(x1, x4) + inverted(x1, x5) +
        inverted(x1, x6) + inverted(x1, x7) + inverted(x1, x8) + inverted(x2, x3) +
        inverted(x2, x4) + inverted(x2, x5) + inverted(x2, x6) + inverted(x2, x7) +
        inverted(x2, x8) + inverted(x3, x4) + inverted(x3, x5) + inverted(x3, x6) +
        inverted(x3, x7) + inverted(x3, x8) + inverted(x4, x5) + inverted(x4, x6) +
        inverted(x4, x7) + inverted(x4, x8) + inverted(x5, x6) + inverted(x5, x7) +
        inverted(x5, x8) + inverted(x6, x7) + inverted(x6, x8) + inverted(x7, x8)
}

proof fn lemma_inversions_pairwise(c: Seq<u8>)
    requires
        c.len() == 9,
    ensures
        inversions(c) == inversions_of(c[0], c[1], c[2], c[3], c[4], c[5], c[6], c[7], c[8]),
{
    reveal_with_fuel(inversions_from, 10);
    reveal_with_fuel(inversions_after, 10);
}

/// Swapping the blank with a tile in the same row, or in the same column
/// one row away, keeps the parity of the inversions.
proof fn lemma_swap_parity(c: Seq<u8>, b: int, t: int)
    requires
        is_tiles(c),
        0 <= b < 9,
        0 <= t < 9,
        c[b] == 0,
        (t == b + 1 && b % 3 != 2) || (t == b - 1 && b % 3 != 0) || t == b + 3 || t == b - 3,
    ensures
        inversions(c.update(b, c[t]).update(t, 0)) % 2 == inversions(c) % 2,
{
    let n = c.update(b, c[t]).update(t, 0);
    let lo = if b < t { b } else { t };
    let hi = if b < t { t } else { b };
    assert(c[lo] != c[hi]);
    if hi == lo + 3 {
        assert(c[lo] != c[lo + 1] && c[lo] != c[lo + 2]);
        assert(c[lo + 1] != c[hi] && c[lo + 2] != c[hi]);
        assert(c[lo + 1] != c[b] && c[lo + 2] != c[b]);
    }
    if b == 0 && t == 1 {
        lemma_exchange_parity_0_1(c);
        assert(n =~= c.update(0, c[1]).update(1, c[0]));
    } else if b == 1 && t == 0 {
        lemma_exchange_parity_0_1(c);
        assert(n =~= c.update(0, c[1]).update(1, c[0]));
    } else if b == 0 && t == 3 {
        lemma_exchange_parity_0_3(c);
        assert(n =~= c.update(0, c[3]).update(3, c[0]));
    } else if b == 3 && t == 0 {
        lemma_exchange_parity_0_3(c);
        assert(n =~= c.update(0, c[3]).update(3, c[0]));
    } else if b == 1 && t == 2 {
        lemma_exchange_parity_1_2(c);
        assert(n =~= c.update(1, c[2]).update(2, c[1]));
    } else if b == 2 && t == 1 {
        lemma_exchange_parity_1_2(c);
        assert(n =~= c.update(1, c[2]).update(2, c[1]));
    } else if b == 1 && t == 4 {
        lemma_exchange_parity_1_4(c);
        assert(n =~= c.update(1, c[4]).update(4, c[1]));
    } else if b == 4 && t == 1 {
        lemma_exchange_parity_1_4(c);
        assert(n =~= c.update(1, c[4]).update(4, c[1]));
    } else if b == 2 && t == 5 {
        lemma_exchange_parity_2_5(c);
        assert(n =~= c.update(2, c[5]).update(5, c[2]));
    } else if b == 5 && t == 2 {
        lemma_exchange_parity_2_5(c);
        assert(n =~= c.update(2, c[5]).update(5, c[2]));
    } else if b == 3 && t == 4 {
        lemma_exchange_parity_3_4(c);
        assert(n =~= c.update(3, c[4]).update(4, c[3]));
    } else if b == 4 && t == 3 {
        lemma_exchange_parity_3_4(c);
        assert(n =~= c.update(3, c[4]).update(4, c[3]));
    } else if b == 3 && t == 6 {
        lemma_exchange_parity_3_6(c);
        assert(n =~= c.update(3, c[6]).update(6, c[3]));
    } else if b == 6 && t == 3 {
        lemma_exchange_parity_3_6(c);
        assert(n =~= c.update(3, c[6]).update(6, c[3]));
    } else if b == 4 && t == 5 {
        lemma_exchange_parity_4_5(c);
        assert(n =~= c.update(4, c[5]).update(5, c[4]));
    } else if b == 5 && t == 4 {
        lemma_exchange_parity_4_5(c);
        assert(n =~= c.update(4, c[5]).update(5, c[4]));
    } else if b == 4 && t == 7 {
        lemma_exchange_parity_4_7(c);
        assert(n =~= c.update(4, c[7]).update(7, c[4]));
    } else if b == 7 && t == 4 {
        lemma_exchange_parity_4_7(c);
        assert(n =~= c.update(4, c[7]).update(7, c[4]));
    } else if b == 5 && t == 8 {
        lemma_exchange_parity_5_8(c);
        assert(n =~= c.update(5, c[8]).update(8, c[5]));
    } else if b == 8 && t == 5 {
        lemma_exchange_parity_5_8(c);
        assert(n =~= c.update(5, c[8]).update(8, c[5]));
    } else if b == 6 && t == 7 {
        lemma_exchange_parity_6_7(c);
        assert(n =~= c.update(6, c[7]).update(7, c[6]));
    } else if b == 7 && t == 6 {
        lemma_exchange_parity_6_7(c);
        assert(n =~= c.update(6, c[7]).update(7, c[6]));
    } else if b == 7 && t == 8 {
        lemma_exchange_parity_7_8(c);
        assert(n =~= c.update(7, c[8]).update(8, c[7]));
    } else if b == 8 && t == 7 {
        lemma_exchange_parity_7_8(c);
        assert(n =~= c.update(7, c[8]).update(8, c[7]));
    }
}

proof fn lemma_exchange_parity_0_1(c: Seq<u8>)
    requires
        c.len() == 9,
        c[0] == 0 || c[1] == 0,
    ensures
        inversions(c.update(0, c[1]).update(1, c[0])) % 2 == inversions(c) % 2,
{
    lemma_inversions_pairwise(c);
    lemma_inversions_pairwise(c.update(0, c[1]).update(1, c[0]));
}

proof fn lemma_exchange_parity_0_3(c: Seq<u8>)
    requires
        c.len() == 9,
        c[0] == 0 || c[3] == 0,
        c[0] != c[3],
        c[1] != 0,
        c[2] != 0,
        c[1] != c[0] && c[1] != c[3],
        c[2] != c[0] && c[2] != c[3],
    ensures
        inversions(c.update(0, c[3]).update(3, c[0])) % 2 == inversions(c) % 2,
{
    let n = c.update(0, c[3]).update(3, c[0]);
    lemma_inversions_pairwise(c);
    lemma_inversions_pairwise(n);
    let tile = if c[0] == 0 { c[3] } else { c[0] };
    assert(inverted(tile, c[1]) + inverted(c[1], tile) == 1);
    assert(inverted(tile, c[2]) + inverted(c[2], tile) == 1);
}

proof fn lemma_exchange_parity_1_2(c: Seq<u8>)
    requires
        c.len() == 9,
        c[1] == 0 || c[2] == 0,
    ensures
        inversions(c.update(1, c[2]).update(2, c[1])) % 2 == inversions(c) % 2,
{
    lemma_inversions_pairwise(c);
    lemma_inversions_pairwise(c.update(1, c[2]).update(2, c[1]));
}

proof fn lemma_exchange_parity_1_4(c: Seq<u8>)
    requires
        c.len() == 9,
        c[1] == 0 || c[4] == 0,
        c[1] != c[4],
        c[2] != 0,
        c[3] != 0,
        c[2] != c[1] && c[2] != c[4],
        c[3] != c[1] && c[3] != c[4],
    ensures
        inversions(c.update(1, c[4]).update(4, c[1])) % 2 == inversions(c) % 2,
{
    let n = c.update(1, c[4]).update(4, c[1]);
    lemma_inversions_pairwise(c);
    lemma_inversions_pairwise(n);
    let tile = if c[1] == 0 { c[4] } else { c[1] };
    assert(inverted(tile, c[2]) + inverted(c[2], tile) == 1);
    assert(inverted(tile, c[3]) + inverted(c[3], tile) == 1);
}

proof fn lemma_exchange_parity_2_5(c: Seq<u8>)
    requires
        c.len() == 9,
        c[2] == 0 || c[5] == 0,
        c[2] != c[5],
        c[3] != 0,
        c[4] != 0,
        c[3] != c[2] && c[3] != c[5],
        c[4] != c[2] && c[4] != c[5],
    ensures
        inversions(c.update(2, c[5]).update(5, c[2])) % 2 == inversions(c) % 2,
{
    let n = c.update(2, c[5]).update(5, c[2]);
    lemma_inversions_pairwise(c);
    lemma_inversions_pairwise(n);
    let tile = if c[2] == 0 { c[5] } else { c[2] };
    assert(inverted(tile, c[3]) + inverted(c[3], tile) == 1);
    assert(inverted(tile, c[4]) + inverted(c[4], tile) == 1);
}

proof fn lemma_exchange_parity_3_4(c: Seq<u8>)
    requires
        c.len() == 9,
        c[3] == 0 || c[4] == 0,
    ensures
        inversions(c.update(3, c[4]).update(4, c[3])) % 2 == inversions(c) % 2,
{
    lemma_inversions_pairwise(c);
    lemma_inversions_pairwise(c.update(3, c[4]).update(4, c[3]));
}

proof fn lemma_exchange_parity_3_6(c: Seq<u8>)
    requires
        c.len() == 9,
        c[3] == 0 || c[6] == 0,
        c[3] != c[6],
        c[4] != 0,
        c[5] != 0,
        c[4] != c[3] && c[4] != c[6],
        c[5] != c[3] && c[5] != c[6],
    ensures
        inversions(c.update(3, c[6]).update(6, c[3])) % 2 == inversions(c) % 2,
{
    let n = c.update(3, c[6]).update(6, c[3]);
    lemma_inversions_pairwise(c);
    lemma_inversions_pairwise(n);
    let tile = if c[3] == 0 { c[6] } else { c[3] };
    assert(inverted(tile, c[4]) + inverted(c[4], tile) == 1);
    assert(inverted(tile, c[5]) + inverted(c[5], tile) == 1);
}

proof fn lemma_exchange_parity_4_5(c: Seq<u8>)
    requires
        c.len() == 9,
        c[4] == 0 || c[5] == 0,
    ensures
        inversions(c.update(4, c[5]).update(5, c[4])) % 2 == inversions(c) % 2,
{
    lemma_inversions_pairwise(c);
    lemma_inversions_pairwise(c.update(4, c[5]).update(5, c[4]));
}

proof fn lemma_exchange_parity_4_7(c: Seq<u8>)
    requires
        c.len() == 9,
        c[4] == 0 || c[7] == 0,
        c[4] != c[7],
        c[5] != 0,
        c[6] != 0,
        c[5] != c[4] && c[5] != c[7],
        c[6] != c[4] && c[6] != c[7],
    ensures
        inversions(c.update(4, c[7]).update(7, c[4])) % 2 == inversions(c) % 2,
{
    let n = c.update(4, c[7]).update(7, c[4]);
    lemma_inversions_pairwise(c);
    lemma_inversions_pairwise(n);
    let tile = if c[4] == 0 { c[7] } else { c[4] };
    assert(inverted(tile, c[5]) + inverted(c[5], tile) == 1);
    assert(inverted(tile, c[6]) + inverted(c[6], tile) == 1);
}

proof fn lemma_exchange_parity_5_8(c: Seq<u8>)
    requires
        c.len() == 9,
        c[5] == 0 || c[8] == 0,
        c[5] != c[8],
        c[6] != 0,
        c[7] != 0,
        c[6] != c[5] && c[6] != c[8],
        c[7] != c[5] && c[7] != c[8],
    ensures
        inversions(c.update(5, c[8]).update(8, c[5])) % 2 == inversions(c) % 2,
{
    let n = c.update(5, c[8]).update(8, c[5]);
    lemma_inversions_pairwise(c);
    lemma_inversions_pairwise(n);
    let tile = if c[5] == 0 { c[8] } else { c[5] };
    assert(inverted(tile, c[6]) + inverted(c[6], tile) == 1);
    assert(inverted(tile, c[7]) + inverted(c[7], tile) == 1);
}

proof fn lemma_exchange_parity_6_7(c: Seq<u8>)
    requires
        c.len() == 9,
        c[6] == 0 || c[7] == 0,
    ensures
        inversions(c.update(6, c[7]).update(7, c[6])) % 2 == inversions(c) % 2,
{
    lemma_inversions_pairwise(c);
    lemma_inversions_pairwise(c.update(6, c[7]).update(7, c[6]));
}

proof fn lemma_exchange_parity_7_8(c: Seq<u8>)
    requires
        c.len() == 9,
        c[7] == 0 || c[8] == 0,
    ensures
        inversions(c.update(7, c[8]).update(8, c[7])) % 2 == inversions(c) % 2,
{
    lemma_inversions_pairwise(c);
    lemma_inversions_pairwise(c.update(7, c[8]).update(8, c[7]));
}

/// A move keeps the parity of the inversions.
pub proof fn lemma_move_parity(c: Seq<u8>, d: Direction)
    requires
        is_tiles(c),
        moved(c, d) is Some,
    ensures
        inversions(moved(c, d).unwrap()) % 2 == inversions(c) % 2,
{
    assert(holds_value(c, 0u8));
    let b = blank_index(c);
    let t = neighbour(b, d).unwrap();
    lemma_swap_parity(c, b, t);
}

/// Where a plan leads from `c` to `e`, the two have inversions of one parity.
pub proof fn lemma_run_parity(c: Seq<u8>, plan: Seq<Direction>)
    requires
        is_tiles(c),
        run_plan(c, plan) is Some,
    ensures
        inversions(run_plan(c, plan).unwrap()) % 2 == inversions(c) % 2,
    decreases plan.len(),
{
    if plan.len() > 0 {
        lemma_move_parity(c, plan[0]);
        lemma_moved_tiles(c, plan[0]);
        lemma_run_parity(moved(c, plan[0]).unwrap(), plan.drop_first());
    }
}

/// A grid whose inversions are odd in number, unlike the solved grid's,
/// has no plan.
pub proof fn lemma_odd_parity_unsolvable(c: Seq<u8>)
    requires
        is_tiles(c),
        inversions(c) % 2 == 1,
    ensures
        !reachable(c),
{
    reveal_with_fuel(inversions_from, 10);
    reveal_with_fuel(inversions_after, 10);
    assert(inversions(goal_cells()) == 0);
    assert forall|plan: Seq<Direction>| !solves(c, plan) by {
        if solves(c, plan) {
            lemma_run_parity(c, plan);
        }
    }
}

/// Row plus column of cell `i`.
pub open spec fn cell_rank(i: int) -> int {
    i / 3 + i % 3
}

/// Each move takes the blank to a neighbouring cell, so the length of a plan
/// that solves `c` has the parity of the blank's distance from its home cell.
pub proof fn lemma_plan_length_parity(c: Seq<u8>, plan: Seq<Direction>)
    requires
        is_tiles(c),
        solves(c, plan),
    ensures
        plan.len() % 2 == (4 - cell_rank(blank_index(c))) % 2,
    decreases plan.len(),
{
    assert(holds_value(c, 0u8));
    let b = blank_index(c);
    if plan.len() == 0 {
        assert(goal_cells()[8] == 0);
        lemma_blank_unique(c, 8);
    } else {
        let t = neighbour(b, plan[0]).unwrap();
        lemma_swap_tiles(c, b, t);
        let n = moved(c, plan[0]).unwrap();
        lemma_plan_length_parity(n, plan.drop_first());
        assert(cell_rank(t) == cell_rank(b) + 1 || cell_rank(t) == cell_rank(b) - 1);
    }
}

/// The blank of a grid is the one cell that holds 0.
proof fn lemma_blank_unique(c: Seq<u8>, i: int)
    requires
        is_tiles(c),
        0 <= i < 9,
        c[i] == 0,
    ensures
        blank_index(c) == i,
{
    let b = blank_index(c);
    assert(0 <= b < 9 && c[b] == 0);
    if b < i {
        assert(c[b] != c[i]);
    } else if i < b {
        assert(c[i] != c[b]);
    }
}

/// Swapping the blank at `b` with the tile at `t` keeps a grid well formed,
/// and leaves the blank at `t`.
proof fn lemma_swap_tiles(c: Seq<u8>, b: int, t: int)
    requires
        is_tiles(c),
        0 <= b < 9,
        0 <= t < 9,
        b != t,
        c[b] == 0,
    ensures
        is_tiles(c.update(b, c[t]).update(t, 0)),
        blank_index(c.update(b, c[t]).update(t, 0)) == t,
{
    let n = c.update(b, c[t]).update(t, 0);
    assert forall|i: int, j: int| 0 <= i < j < 9 implies n[i] != n[j] by {
        assert(c[i] != c[j]);
        assert(c[b] != c[t]);
        if i == b || j == b || i == t || j == t {
            if i != b && i != t {
                assert(c[i] != c[b] && c[i] != c[t]);
            }
            if j != b && j != t {
                assert(c[j] != c[b] && c[j] != c[t]);
            }
        }
    }
    assert forall|v: u8| v < 9 implies #[trigger] holds_value(n, v) by {
        assert(holds_value(c, v));
        let i = choose|i: int| 0 <= i < 9 && c[i] == v;
        if i == b {
            assert(n[t] == v);
        } else if i == t {
            assert(n[b] == v);
        } else {
            assert(n[i] == v);
        }
    }
    lemma_blank_unique(n, t);
}

} // verus!
