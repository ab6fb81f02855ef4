//! Estimates of the number of moves left before a board is solved.
use vstd::prelude::*;

use crate::board::{
    blank_index, goal_cells, holds_value, is_tiles, lemma_moved_tiles, moved, neighbour, run_plan,
    solves, Board, Direction,
};

verus! {

/// A way to estimate the moves left from a board to the solved one.
#[derive(Debug, Clone, Copy, PartialEq, Eq, Structural)]
pub enum Heuristic {
    /// Always 0.
    Blind,
    /// The number of cells whose value differs from the solved board's.
    Hamming,
    /// The sum over all nine values, blank included, of the row and column
    /// distance between the value's cell and its cell in the solved board.
    Manhattan,
}

/// The cell of the solved board that holds `v`; the blank's is the last.
pub open spec fn home_of(v: int) -> int {
    if v == 0 { 8 } else { v - 1 }
}

pub open spec fn abs_diff(a: int, b: int) -> int {
    if a >= b { a - b } else { b - a }
}

/// Row and column distance between cells `i` and `j` (row-major indices).
pub open spec fn grid_distance(i: int, j: int) -> int {
    abs_diff(i / 3, j / 3) + abs_diff(i % 3, j % 3)
}

/// Number of cells among the first `n` whose value is not the solved board's.
pub open spec fn misplaced(c: Seq<u8>, n: int) -> int
    decreases n,
{
    if n <= 0 {
        0
    } else {
        misplaced(c, n - 1) + if c[n - 1] != goal_cells()[n - 1] { 1int } else { 0 }
    }
}

/// Sum of the distances to their home cells of the values in the first `n` cells.
pub open spec fn displacement(c: Seq<u8>, n: int) -> int
    decreases n,
{
    if n <= 0 {
        0
    } else {
        displacement(c, n - 1) + grid_distance(n - 1, home_of(c[n - 1] as int))
    }
}

pub proof fn lemma_misplaced_nonneg(c: Seq<u8>, n: int)
    ensures
        misplaced(c, n) >= 0,
    decreases n,
{
    if n > 0 {
        lemma_misplaced_nonneg(c, n - 1);
    }
}

pub proof fn lemma_displacement_nonneg(c: Seq<u8>, n: int)
    ensures
        displacement(c, n) >= 0,
    decreases n,
{
    if n > 0 {
        lemma_displacement_nonneg(c, n - 1);
    }
}

/// The estimate of heuristic `h` for grid `c`.
pub open spec fn estimate_of(h: Heuristic, c: Seq<u8>) -> int {
    match h {
        Heuristic::Blind => 0,
        Heuristic::Hamming => misplaced(c, 9),
        Heuristic::Manhattan => displacement(c, 9),
    }
}

/// The displacement of the grid `x0 .. x8`, cell by cell.
spec fn displacement_of(x0: u8, x1: u8, x2: u8, x3: u8, x4: u8, x5: u8, x6: u8, x7: u8, x8: u8) -> int {
        grid_distance(0, home_of(x0 as int)) + grid_distance(1, home_of(x1 as int)) + grid_distance(2, home_of(x2 as int)) +
        grid_distance(3, home_of(x3 as int)) + grid_distance(4, home_of(x4 as int)) + grid_distance(5, home_of(x5 as int)) +
        grid_distance(6, home_of(x6 as int)) + grid_distance(7, home_of(x7 as int)) + grid_distance(8, home_of(x8 as int))
}

proof fn lemma_displacement_cellwise(c: Seq<u8>)
    requires
        c.len() == 9,
    ensures
        displacement(c, 9) == displacement_of(c[0], c[1], c[2], c[3], c[4], c[5], c[6], c[7], c[8]),
{
    reveal_with_fuel(displacement, 10);
}

proof fn lemma_exchange_displacement_0_1(c: Seq<u8>)
    requires
        c.len() == 9,
        c[0] == 0 || c[1] == 0,
        c[0] < 9,
        c[1] < 9,
    ensures
        displacement(c, 9) <= displacement(c.update(0, c[1]).update(1, c[0]), 9) + 2,
{
    lemma_displacement_cellwise(c);
    lemma_displacement_cellwise(c.update(0, c[1]).update(1, c[0]));
}

proof fn lemma_exchange_displacement_0_3(c: Seq<u8>)
    requires
        c.len() == 9,
        c[0] == 0 || c[3] == 0,
        c[0] < 9,
        c[3] < 9,
    ensures
        displacement(c, 9) <= displacement(c.update(0, c[3]).update(3, c[0]), 9) + 2,
{
    lemma_displacement_cellwise(c);
    lemma_displacement_cellwise(c.update(0, c[3]).update(3, c[0]));
}

proof fn lemma_exchange_displacement_1_2(c: Seq<u8>)
    requires
        c.len() == 9,
        c[1] == 0 || c[2] == 0,
        c[1] < 9,
        c[2] < 9,
    ensures
        displacement(c, 9) <= displacement(c.update(1, c[2]).update(2, c[1]), 9) + 2,
{
    lemma_displacement_cellwise(c);
    lemma_displacement_cellwise(c.update(1, c[2]).update(2, c[1]));
}

proof fn lemma_exchange_displacement_1_4(c: Seq<u8>)
    requires
        c.len() == 9,
        c[1] == 0 || c[4] == 0,
        c[1] < 9,
        c[4] < 9,
    ensures
        displacement(c, 9) <= displacement(c.update(1, c[4]).update(4, c[1]), 9) + 2,
{
    lemma_displacement_cellwise(c);
    lemma_displacement_cellwise(c.update(1, c[4]).update(4, c[1]));
}

proof fn lemma_exchange_displacement_2_5(c: Seq<u8>)
    requires
        c.len() == 9,
        c[2] == 0 || c[5] == 0,
        c[2] < 9,
        c[5] < 9,
    ensures
        displacement(c, 9) <= displacement(c.update(2, c[5]).update(5, c[2]), 9) + 2,
{
    lemma_displacement_cellwise(c);
    lemma_displacement_cellwise(c.update(2, c[5]).update(5, c[2]));
}

proof fn lemma_exchange_displacement_3_4(c: Seq<u8>)
    requires
        c.len() == 9,
        c[3] == 0 || c[4] == 0,
        c[3] < 9,
        c[4] < 9,
    ensures
        displacement(c, 9) <= displacement(c.update(3, c[4]).update(4, c[3]), 9) + 2,
{
    lemma_displacement_cellwise(c);
    lemma_displacement_cellwise(c.update(3, c[4]).update(4, c[3]));
}

proof fn lemma_exchange_displacement_3_6(c: Seq<u8>)
    requires
        c.len() == 9,
        c[3] == 0 || c[6] == 0,
        c[3] < 9,
        c[6] < 9,
    ensures
        displacement(c, 9) <= displacement(c.update(3, c[6]).update(6, c[3]), 9) + 2,
{
    lemma_displacement_cellwise(c);
    lemma_displacement_cellwise(c.update(3, c[6]).update(6, c[3]));
}

proof fn lemma_exchange_displacement_4_5(c: Seq<u8>)
    requires
        c.len() == 9,
        c[4] == 0 || c[5] == 0,
        c[4] < 9,
        c[5] < 9,
    ensures
        displacement(c, 9) <= displacement(c.update(4, c[5]).update(5, c[4]), 9) + 2,
{
    lemma_displacement_cellwise(c);
    lemma_displacement_cellwise(c.update(4, c[5]).update(5, c[4]));
}

proof fn lemma_exchange_displacement_4_7(c: Seq<u8>)
    requires
        c.len() == 9,
        c[4] == 0 || c[7] == 0,
        c[4] < 9,
        c[7] < 9,
    ensures
        displacement(c, 9) <= displacement(c.update(4, c[7]).update(7, c[4]), 9) + 2,
{
    lemma_displacement_cellwise(c);
    lemma_displacement_cellwise(c.update(4, c[7]).update(7, c[4]));
}

proof fn lemma_exchange_displacement_5_8(c: Seq<u8>)
    requires
        c.len() == 9,
        c[5] == 0 || c[8] == 0,
        c[5] < 9,
        c[8] < 9,
    ensures
        displacement(c, 9) <= displacement(c.update(5, c[8]).update(8, c[5]), 9) + 2,
{
    lemma_displacement_cellwise(c);
    lemma_displacement_cellwise(c.update(5, c[8]).update(8, c[5]));
}

proof fn lemma_exchange_displacement_6_7(c: Seq<u8>)
    requires
        c.len() == 9,
        c[6] == 0 || c[7] == 0,
        c[6] < 9,
        c[7] < 9,
    ensures
        displacement(c, 9) <= displacement(c.update(6, c[7]).update(7, c[6]), 9) + 2,
{
    lemma_displacement_cellwise(c);
    lemma_displacement_cellwise(c.update(6, c[7]).update(7, c[6]));
}

proof fn lemma_exchange_displacement_7_8(c: Seq<u8>)
    requires
        c.len() == 9,
        c[7] == 0 || c[8] == 0,
        c[7] < 9,
        c[8] < 9,
    ensures
        displacement(c, 9) <= displacement(c.update(7, c[8]).update(8, c[7]), 9) + 2,
{
    lemma_displacement_cellwise(c);
    lemma_displacement_cellwise(c.update(7, c[8]).update(8, c[7]));
}

/// One move lowers the displacement by at most 2: the blank and one tile each
/// move to a neighbouring cell.
pub proof fn lemma_move_displacement(c: Seq<u8>, d: Direction)
    requires
        is_tiles(c),
        moved(c, d) is Some,
    ensures
        displacement(c, 9) <= displacement(moved(c, d).unwrap(), 9) + 2,
{
    assert(holds_value(c, 0u8));
    let b = blank_index(c);
    let t = neighbour(b, d).unwrap();
    let n = c.update(b, c[t]).update(t, 0);
    if b == 0 && t == 1 {
        lemma_exchange_displacement_0_1(c);
        assert(n =~= c.update(0, c[1]).update(1, c[0]));
    } else if b == 1 && t == 0 {
        lemma_exchange_displacement_0_1(c);
        assert(n =~= c.update(0, c[1]).update(1, c[0]));
    } else if b == 0 && t == 3 {
        lemma_exchange_displacement_0_3(c);
        assert(n =~= c.update(0, c[3]).update(3, c[0]));
    } else if b == 3 && t == 0 {
        lemma_exchange_displacement_0_3(c);
        assert(n =~= c.update(0, c[3]).update(3, c[0]));
    } else if b == 1 && t == 2 {
        lemma_exchange_displacement_1_2(c);
        assert(n =~= c.update(1, c[2]).update(2, c[1]));
    } else if b == 2 && t == 1 {
        lemma_exchange_displacement_1_2(c);
        assert(n =~= c.update(1, c[2]).update(2, c[1]));
    } else if b == 1 && t == 4 {
        lemma_exchange_displacement_1_4(c);
        assert(n =~= c.update(1, c[4]).update(4, c[1]));
    } else if b == 4 && t == 1 {
        lemma_exchange_displacement_1_4(c);
        assert(n =~= c.update(1, c[4]).update(4, c[1]));
    } else if b == 2 && t == 5 {
        lemma_exchange_displacement_2_5(c);
        assert(n =~= c.update(2, c[5]).update(5, c[2]));
    } else if b == 5 && t == 2 {
        lemma_exchange_displacement_2_5(c);
        assert(n =~= c.update(2, c[5]).update(5, c[2]));
    } else if b == 3 && t == 4 {
        lemma_exchange_displacement_3_4(c);
        assert(n =~= c.update(3, c[4]).update(4, c[3]));
    } else if b == 4 && t == 3 {
        lemma_exchange_displacement_3_4(c);
        assert(n =~= c.update(3, c[4]).update(4, c[3]));
    } else if b == 3 && t == 6 {
        lemma_exchange_displacement_3_6(c);
        assert(n =~= c.update(3, c[6]).update(6, c[3]));
    } else if b == 6 && t == 3 {
        lemma_exchange_displacement_3_6(c);
        assert(n =~= c.update(3, c[6]).update(6, c[3]));
    } else if b == 4 && t == 5 {
        lemma_exchange_displacement_4_5(c);
        assert(n =~= c.update(4, c[5]).update(5, c[4]));
    } else if b == 5 && t == 4 {
        lemma_exchange_displacement_4_5(c);
        assert(n =~= c.update(4, c[5]).update(5, c[4]));
    } else if b == 4 && t == 7 {
        lemma_exchange_displacement_4_7(c);
        assert(n =~= c.update(4, c[7]).update(7, c[4]));
    } else if b == 7 && t == 4 {
        lemma_exchange_displacement_4_7(c);
        assert(n =~= c.update(4, c[7]).update(7, c[4]));
    } else if b == 5 && t == 8 {
        lemma_exchange_displacement_5_8(c);
        assert(n =~= c.update(5, c[8]).update(8, c[5]));
    } else if b == 8 && t == 5 {
        lemma_exchange_displacement_5_8(c);
        assert(n =~= c.update(5, c[8]).update(8, c[5]));
    } else if b == 6 && t == 7 {
        lemma_exchange_displacement_6_7(c);
        assert(n =~= c.update(6, c[7]).update(7, c[6]));
    } else if b == 7 && t == 6 {
        lemma_exchange_displacement_6_7(c);
        assert(n =~= c.update(6, c[7]).update(7, c[6]));
    } else if b == 7 && t == 8 {
        lemma_exchange_displacement_7_8(c);
        assert(n =~= c.update(7, c[8]).update(8, c[7]));
    } else if b == 8 && t == 7 {
        lemma_exchange_displacement_7_8(c);
        assert(n =~= c.update(7, c[8]).update(8, c[7]));
    }
}

/// Where a plan leads from `c` to the solved grid, the Manhattan estimate of
/// `c` is at most twice the plan's length. (It may exceed the length itself:
/// the blank counts too, so a grid one move from the goal has estimate 2.)
pub proof fn lemma_manhattan_within_twice(c: Seq<u8>, plan: Seq<Direction>)
    requires
        is_tiles(c),
        solves(c, plan),
    ensures
        estimate_of(Heuristic::Manhattan, c) <= 2 * plan.len(),
    decreases plan.len(),
{
    if plan.len() == 0 {
        reveal_with_fuel(displacement, 10);
    } else {
        let n = moved(c, plan[0]).unwrap();
        lemma_move_displacement(c, plan[0]);
        lemma_moved_tiles(c, plan[0]);
        lemma_manhattan_within_twice(n, plan.drop_first());
    }
}

/// The largest estimate any heuristic gives.
pub const MAX_ESTIMATE: u32 = 36;

impl Heuristic {
    /// The estimate of this heuristic for `board`.
    pub fn estimate(&self, board: &Board) -> (r: u32)
        requires
            is_tiles(board@),
        ensures
            r == estimate_of(*self, board@),
            r <= MAX_ESTIMATE,
    {
        match self {
            Heuristic::Blind => 0,
            Heuristic::Hamming => {
                let goal = Board::goal();
                let mut dist: u32 = 0;
                let mut i: usize = 0;
                while i < 9
                    invariant
                        i <= 9,
                        goal@ == goal_cells(),
                        dist == misplaced(board@, i as int),
                        dist <= i,
                    decreases 9 - i,
                {
                    if board.value_at(i / 3, i % 3) != goal.value_at(i / 3, i % 3) {
                        dist = dist + 1;
                    }
                    i = i + 1;
                }
                dist
            },
            Heuristic::Manhattan => {
                let mut dist: u32 = 0;
                let mut i: usize = 0;
                while i < 9
                    invariant
                        i <= 9,
                        is_tiles(board@),
                        dist == displacement(board@, i as int),
                        dist <= 4 * i,
                    decreases 9 - i,
                {
                    let v = board.value_at(i / 3, i % 3);
                    let home: usize = if v == 0 { 8 } else { v as usize - 1 };
                    let dr: usize = if i / 3 >= home / 3 { i / 3 - home / 3 } else { home / 3 - i / 3 };
                    let dc: usize = if i % 3 >= home % 3 { i % 3 - home % 3 } else { home % 3 - i % 3 };
                    dist = dist + (dr + dc) as u32;
                    i = i + 1;
                }
                dist
            },
        }
    }
}

} // verus!
