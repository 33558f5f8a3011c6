use vstd::prelude::*;
use crate::loc::{adjacent, neighbor, lemma_neighbor_adjacent};
use crate::rule::life_rule;
use crate::world::{
    alive_in, count_upto, neighbor_count, frontier_closed, step_model, evaluated, next_to_birth,
    rule_at, lemma_step_closed,
};

verus! {

/// The current mapping after `k` steps from current mapping `c`, with nothing
/// written to the next mapping between steps.
pub open spec fn run(c: Map<(int, int), bool>, k: nat) -> Map<(int, int), bool>
    decreases k,
{
    if k == 0 {
        c
    } else {
        step_model(run(c, (k - 1) as nat), Map::empty())
    }
}

/// Some cell next to `q` is alive in `m`.
pub open spec fn touches_live(m: Map<(int, int), bool>, q: (int, int)) -> bool {
    exists|p: (int, int)| #[trigger] alive_in(m, p) && adjacent(p, q)
}

/// 1 if `p` is alive in `m`, else 0.
pub open spec fn live(m: Map<(int, int), bool>, p: (int, int)) -> nat {
    if alive_in(m, p) {
        1
    } else {
        0
    }
}

/// The neighbor count written out over the eight neighbors.
pub proof fn lemma_neighbor_count_expand(m: Map<(int, int), bool>, p: (int, int))
    ensures
        neighbor_count(m, p) == live(m, neighbor(p, 0)) + live(m, neighbor(p, 1)) + live(
            m,
            neighbor(p, 2),
        ) + live(m, neighbor(p, 3)) + live(m, neighbor(p, 4)) + live(m, neighbor(p, 5)) + live(
            m,
            neighbor(p, 6),
        ) + live(m, neighbor(p, 7)),
{
    reveal_with_fuel(count_upto, 9);
}

/// The neighbor count is positive exactly when a neighbor is alive.
pub proof fn lemma_count_positive(m: Map<(int, int), bool>, p: (int, int))
    ensures
        neighbor_count(m, p) > 0 <==> touches_live(m, p),
{
    lemma_neighbor_count_expand(m, p);
    if touches_live(m, p) {
        let a = choose|a: (int, int)| #[trigger] alive_in(m, a) && adjacent(a, p);
        assert(adjacent(p, a));
        lemma_neighbor_adjacent(p, a);
        let j = choose|j: int| 0 <= j < 8 && #[trigger] neighbor(p, j) == a;
        assert(live(m, neighbor(p, j)) == 1);
    }
    if neighbor_count(m, p) > 0 {
        let j: int = if alive_in(m, neighbor(p, 0)) {
            0
        } else if alive_in(m, neighbor(p, 1)) {
            1
        } else if alive_in(m, neighbor(p, 2)) {
            2
        } else if alive_in(m, neighbor(p, 3)) {
            3
        } else if alive_in(m, neighbor(p, 4)) {
            4
        } else if alive_in(m, neighbor(p, 5)) {
            5
        } else if alive_in(m, neighbor(p, 6)) {
            6
        } else {
            7
        };
        let a = neighbor(p, j);
        assert(alive_in(m, a));
        lemma_neighbor_adjacent(p, a);
        assert(adjacent(a, p));
    }
}

/// Simultaneity: from a world whose live cells have their neighbors tracked
/// and with nothing pending, a step gives every cell, tracked or not, the
/// value that the rule gives it from its aliveness and its live neighbors
/// counted in the generation before the step.
pub proof fn lemma_step_follows_rule(c: Map<(int, int), bool>)
    requires
        frontier_closed(c),
    ensures
        forall|q: (int, int)|
            #[trigger] alive_in(step_model(c, Map::empty()), q) == life_rule(
                alive_in(c, q),
                neighbor_count(c, q) as int,
            ),
{
    let n = Map::<(int, int), bool>::empty();
    assert forall|q: (int, int)|
        #[trigger] alive_in(step_model(c, n), q) == life_rule(
            alive_in(c, q),
            neighbor_count(c, q) as int,
        ) by {
        lemma_count_positive(c, q);
        if !c.contains_key(q) && touches_live(c, q) {
            let a = choose|a: (int, int)| #[trigger] alive_in(c, a) && adjacent(a, q);
            assert(c.contains_key(q));
        }
    }
}

/// Sparseness: after a step with nothing pending, every tracked cell is next
/// to a live cell of the new generation or of the one before it.
pub proof fn lemma_step_sparse(c: Map<(int, int), bool>)
    ensures
        forall|q: (int, int)| #[trigger]
            step_model(c, Map::empty()).contains_key(q) ==> touches_live(
                step_model(c, Map::empty()),
                q,
            ) || touches_live(c, q),
{
    let m = step_model(c, Map::empty());
    assert forall|q: (int, int)| #[trigger] m.contains_key(q) implies touches_live(m, q)
        || touches_live(c, q) by {
        if evaluated(c, c.dom(), q) {
            lemma_count_positive(c, q);
        } else {
            assert(next_to_birth(c, c.dom(), q));
            let p = choose|p: (int, int)| #[trigger]
                evaluated(c, c.dom(), p) && rule_at(c, p) && adjacent(p, q);
            assert(alive_in(m, p));
        }
    }
}

/// Sparseness over any number of steps: after at least one step, every
/// tracked cell is next to a live cell of the latest generation or of the
/// one before it.
pub proof fn lemma_run_sparse(c: Map<(int, int), bool>, k: nat)
    requires
        k > 0,
    ensures
        forall|q: (int, int)| #[trigger]
            run(c, k).contains_key(q) ==> touches_live(run(c, k), q) || touches_live(
                run(c, (k - 1) as nat),
                q,
            ),
{
    lemma_step_sparse(run(c, (k - 1) as nat));
}

/// A world with no live cell and nothing pending is left with no tracked
/// cell by a step.
pub proof fn lemma_step_empty(c: Map<(int, int), bool>)
    requires
        forall|p: (int, int)| !#[trigger] alive_in(c, p),
    ensures
        step_model(c, Map::empty()) == Map::<(int, int), bool>::empty(),
{
    let m = step_model(c, Map::empty());
    assert forall|q: (int, int)| !#[trigger] evaluated(c, c.dom(), q) by {
        lemma_count_positive(c, q);
    }
    assert(m =~= Map::<(int, int), bool>::empty());
}

/// Emptiness lasts: a world with no live cell keeps none over any number of
/// steps, and tracks no cell at all after the first.
pub proof fn lemma_run_empty(c: Map<(int, int), bool>, k: nat)
    requires
        forall|p: (int, int)| !#[trigger] alive_in(c, p),
    ensures
        forall|p: (int, int)| !#[trigger] alive_in(run(c, k), p),
        k > 0 ==> run(c, k) == Map::<(int, int), bool>::empty(),
    decreases k,
{
    if k > 0 {
        lemma_run_empty(c, (k - 1) as nat);
        lemma_step_empty(run(c, (k - 1) as nat));
    }
}

/// `q` is one of the four cells of the 2x2 block whose top-left cell is `(r, c)`.
pub open spec fn in_block(r: int, c: int, q: (int, int)) -> bool {
    r <= q.0 <= r + 1 && c <= q.1 <= c + 1
}

/// `q` is one of the three cells of the horizontal row centred on `(r, c)`.
pub open spec fn in_row3(r: int, c: int, q: (int, int)) -> bool {
    q.0 == r && c - 1 <= q.1 <= c + 1
}

/// `q` is one of the three cells of the vertical column centred on `(r, c)`.
pub open spec fn in_col3(r: int, c: int, q: (int, int)) -> bool {
    q.1 == c && r - 1 <= q.0 <= r + 1
}

proof fn lemma_block_step(m: Map<(int, int), bool>, r: int, c: int)
    requires
        frontier_closed(m),
        forall|q: (int, int)| #[trigger] alive_in(m, q) <==> in_block(r, c, q),
    ensures
        forall|q: (int, int)| #[trigger] alive_in(step_model(m, Map::empty()), q) <==> in_block(r, c, q),
        frontier_closed(step_model(m, Map::empty())),
{
    lemma_step_follows_rule(m);
    lemma_step_closed(m, Map::empty());
    assert forall|q: (int, int)| #[trigger] alive_in(step_model(m, Map::empty()), q) <==> in_block(r, c, q) by {
        lemma_neighbor_count_expand(m, q);
    }
}

/// Still life: a 2x2 block, with every other cell dead, stays as it is over
/// any number of steps.
pub proof fn lemma_block_still(m: Map<(int, int), bool>, r: int, c: int, k: nat)
    requires
        frontier_closed(m),
        forall|q: (int, int)| #[trigger] alive_in(m, q) <==> in_block(r, c, q),
    ensures
        forall|q: (int, int)| #[trigger] alive_in(run(m, k), q) <==> in_block(r, c, q),
        frontier_closed(run(m, k)),
    decreases k,
{
    if k > 0 {
        lemma_block_still(m, r, c, (k - 1) as nat);
        lemma_block_step(run(m, (k - 1) as nat), r, c);
    }
}

proof fn lemma_blinker_step(m: Map<(int, int), bool>, r: int, c: int)
    requires
        frontier_closed(m),
        (forall|q: (int, int)| #[trigger] alive_in(m, q) <==> in_row3(r, c, q)) || (forall|
            q: (int, int),
        | #[trigger] alive_in(m, q) <==> in_col3(r, c, q)),
    ensures
        (forall|q: (int, int)| #[trigger] alive_in(m, q) <==> in_row3(r, c, q)) ==> (forall|
            q: (int, int),
        | #[trigger] alive_in(step_model(m, Map::empty()), q) <==> in_col3(r, c, q)),
        (forall|q: (int, int)| #[trigger] alive_in(m, q) <==> in_col3(r, c, q)) ==> (forall|
            q: (int, int),
        | #[trigger] alive_in(step_model(m, Map::empty()), q) <==> in_row3(r, c, q)),
        frontier_closed(step_model(m, Map::empty())),
{
    lemma_step_follows_rule(m);
    lemma_step_closed(m, Map::empty());
    if forall|q: (int, int)| #[trigger] alive_in(m, q) <==> in_row3(r, c, q) {
        assert forall|q: (int, int)| #[trigger] alive_in(step_model(m, Map::empty()), q) <==> in_col3(r, c, q) by {
            lemma_neighbor_count_expand(m, q);
        }
    }
    if forall|q: (int, int)| #[trigger] alive_in(m, q) <==> in_col3(r, c, q) {
        assert forall|q: (int, int)| #[trigger] alive_in(step_model(m, Map::empty()), q) <==> in_row3(r, c, q) by {
            lemma_neighbor_count_expand(m, q);
        }
    }
}

/// Oscillator: a horizontal row of three live cells, with every other cell
/// dead, turns into the vertical column of three through its centre after
/// one step and back into the row after the next, and so on: after an even
/// number of steps it is the row, after an odd number the column.
pub proof fn lemma_blinker(m: Map<(int, int), bool>, r: int, c: int, k: nat)
    requires
        frontier_closed(m),
        forall|q: (int, int)| #[trigger] alive_in(m, q) <==> in_row3(r, c, q),
    ensures
        k % 2 == 0 ==> forall|q: (int, int)| #[trigger] alive_in(run(m, k), q) <==> in_row3(r, c, q),
        k % 2 == 1 ==> forall|q: (int, int)| #[trigger] alive_in(run(m, k), q) <==> in_col3(r, c, q),
        frontier_closed(run(m, k)),
    decreases k,
{
    if k > 0 {
        lemma_blinker(m, r, c, (k - 1) as nat);
        lemma_blinker_step(run(m, (k - 1) as nat), r, c);
    }
}

} // verus!
