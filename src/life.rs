//! The cellular automaton shown while a scan runs: Conway's rule on a
//! board whose outer ring stays dead.

use vstd::prelude::*;

verus! {

#[derive(Debug, Clone, Copy, PartialEq, Eq, Structural)]
pub enum Cell {
    Dead,
    /// Born in the last step.
    Newborn,
    Alive,
}

/// 1 when `(y, x)` lies on the board and its cell lives, else 0.
pub open spec fn live(b: Seq<Vec<Cell>>, y: int, x: int) -> nat {
    if 0 <= y < b.len() && 0 <= x < b[y]@.len() && b[y]@[x] != Cell::Dead {
        1
    } else {
        0
    }
}

/// Number of living cells among the eight around `(y, x)`.
pub open spec fn neighbours(b: Seq<Vec<Cell>>, y: int, x: int) -> nat {
    live(b, y - 1, x - 1) + live(b, y - 1, x) + live(b, y - 1, x + 1) + live(b, y, x - 1) + live(
        b,
        y,
        x + 1,
    ) + live(b, y + 1, x - 1) + live(b, y + 1, x) + live(b, y + 1, x + 1)
}

/// Conway's rule: a living cell with two or three living neighbours
/// lives on, a dead one with exactly three is born.
pub open spec fn next_cell(c: Cell, n: nat) -> Cell {
    match c {
        Cell::Dead => if n == 3 {
            Cell::Newborn
        } else {
            Cell::Dead
        },
        _ => if 2 <= n <= 3 {
            Cell::Alive
        } else {
            Cell::Dead
        },
    }
}

/// The cell at `(y, x)` after one step; the outer ring is dead.
pub open spec fn stepped(b: Seq<Vec<Cell>>, y: int, x: int) -> Cell {
    if 1 <= y < b.len() - 1 && 1 <= x < b[y]@.len() - 1 {
        next_cell(b[y]@[x], neighbours(b, y, x))
    } else {
        Cell::Dead
    }
}

fn live_at(board: &Vec<Vec<Cell>>, y: usize, x: usize) -> (r: u8)
    ensures
        r == live(board@, y as int, x as int),
{
    if y < board.len() && x < board[y].len() && board[y][x] != Cell::Dead {
        1
    } else {
        0
    }
}

/// One step of the automaton.
pub fn life_step(board: &Vec<Vec<Cell>>) -> (r: Vec<Vec<Cell>>)
    ensures
        r@.len() == board@.len(),
        forall|y: int| 0 <= y < r@.len() ==> (#[trigger] r@[y])@.len() == board@[y]@.len(),
        forall|y: int, x: int|
            0 <= y < r@.len() && 0 <= x < r@[y]@.len() ==> (#[trigger] r@[y]@[x]) == stepped(
                board@,
                y,
                x,
            ),
{
    let h = board.len();
    let mut next: Vec<Vec<Cell>> = Vec::new();
    let mut y: usize = 0;
    while y < h
        invariant
            h == board@.len(),
            y <= h,
            next@.len() == y,
            forall|j: int| 0 <= j < y ==> (#[trigger] next@[j])@.len() == board@[j]@.len(),
            forall|j: int, x: int|
                0 <= j < y && 0 <= x < next@[j]@.len() ==> (#[trigger] next@[j]@[x]) == stepped(
                    board@,
                    j,
                    x,
                ),
        decreases h - y,
    {
        let w = board[y].len();
        let mut row: Vec<Cell> = Vec::new();
        let mut x: usize = 0;
        while x < w
            invariant
                h == board@.len(),
                y < h,
                w == board@[y as int]@.len(),
                x <= w,
                row@.len() == x,
                forall|i: int| 0 <= i < x ==> #[trigger] row@[i] == stepped(board@, y as int, i),
            decreases w - x,
        {
            let cell = if y >= 1 && y + 1 < h && x >= 1 && x + 1 < w {
                let n = live_at(board, y - 1, x - 1) + live_at(board, y - 1, x) + live_at(
                    board,
                    y - 1,
                    x + 1,
                ) + live_at(board, y, x - 1) + live_at(board, y, x + 1) + live_at(
                    board,
                    y + 1,
                    x - 1,
                ) + live_at(board, y + 1, x) + live_at(board, y + 1, x + 1);
                match board[y][x] {
                    Cell::Dead => if n == 3 {
                        Cell::Newborn
                    } else {
                        Cell::Dead
                    },
                    _ => if 2 <= n && n <= 3 {
                        Cell::Alive
                    } else {
                        Cell::Dead
                    },
                }
            } else {
                Cell::Dead
            };
            row.push(cell);
            x = x + 1;
        }
        next.push(row);
        y = y + 1;
    }
    next
}

} // verus!
