use vstd::prelude::*;

verus! {

/// Life's birth and survival rule: a live cell with two or three live
/// neighbors lives on, a dead cell with exactly three comes alive, and every
/// other cell is dead in the next generation.
pub open spec fn life_rule(alive: bool, n: int) -> bool {
    (alive && (n == 2 || n == 3)) || (!alive && n == 3)
}

/// Whether a cell is alive in the next generation, given whether it is alive
/// now and how many of its neighbors are.
pub fn next_status(alive: bool, alive_neighbors: usize) -> (r: bool)
    ensures
        r == life_rule(alive, alive_neighbors as int),
{
    if alive && (alive_neighbors == 2 || alive_neighbors == 3) {
        true
    } else if !alive && alive_neighbors == 3 {
        true
    } else {
        false
    }
}

} // verus!
