use vstd::prelude::*;
use vstd::arithmetic::div_mod::lemma_fundamental_div_mod_converse;
use std::collections::HashMap;
use vstd::std_specs::hash::spec_keys_iter;
use vstd::std_specs::iter::IteratorSpec;
use crate::loc::{Loc, neighbor, adjacent, interior, in_range, lemma_neighbor_adjacent};
use crate::rule::{life_rule, next_status};
use crate::laws::lemma_step_follows_rule;

verus! {

/// Whether `p` is alive in `m`; a cell that `m` does not hold is dead.
pub open spec fn alive_in(m: Map<(int, int), bool>, p: (int, int)) -> bool {
    m.contains_key(p) && m[p]
}

/// How many of the first `i` listed neighbors of `p` are alive in `m`.
pub open spec fn count_upto(m: Map<(int, int), bool>, p: (int, int), i: int) -> nat
    decreases i,
{
    if i <= 0 {
        0
    } else {
        count_upto(m, p, i - 1) + if alive_in(m, neighbor(p, i - 1)) {
            1nat
        } else {
            0nat
        }
    }
}

/// How many of the eight neighbors of `p` are alive in `m`.
pub open spec fn neighbor_count(m: Map<(int, int), bool>, p: (int, int)) -> nat {
    count_upto(m, p, 8)
}

/// Every live cell of `m` has all eight of its neighbors tracked in `m`.
pub open spec fn frontier_closed(m: Map<(int, int), bool>) -> bool {
    forall|p: (int, int), q: (int, int)|
        #![trigger alive_in(m, p), m.contains_key(q)]
        alive_in(m, p) && adjacent(p, q) ==> m.contains_key(q)
}

/// The mapping `m` after `set(p, alive)`: `p` takes the value `alive`, and when
/// `alive` holds, each neighbor of `p` that `m` lacks is added as dead.
pub open spec fn apply_set(m: Map<(int, int), bool>, p: (int, int), alive: bool) -> Map<
    (int, int),
    bool,
> {
    let m1 = m.insert(p, alive);
    if alive {
        Map::new(
            |q: (int, int)| m1.contains_key(q) || adjacent(p, q),
            |q: (int, int)|
                if m1.contains_key(q) {
                    m1[q]
                } else {
                    false
                },
        )
    } else {
        m1
    }
}

/// The next-generation value of a tracked cell `q` of `c`.
pub open spec fn rule_at(c: Map<(int, int), bool>, q: (int, int)) -> bool {
    life_rule(alive_in(c, q), neighbor_count(c, q) as int)
}

/// Whether a step writes `q`, once it has gone through the cells `keys`: `q`
/// is among them, tracked in `c`, and has a live neighbor there.
pub open spec fn evaluated(c: Map<(int, int), bool>, keys: Set<(int, int)>, q: (int, int)) -> bool {
    keys.contains(q) && c.contains_key(q) && neighbor_count(c, q) > 0
}

/// Whether `q` neighbors a cell among `keys` that a step writes as alive.
pub open spec fn next_to_birth(c: Map<(int, int), bool>, keys: Set<(int, int)>, q: (int, int)) -> bool {
    exists|p: (int, int)| #[trigger] evaluated(c, keys, p) && rule_at(c, p) && adjacent(p, q)
}

/// The next mapping after a step has written the cells `keys` of the current
/// mapping `c` into the next mapping `n`.
pub open spec fn advance(
    c: Map<(int, int), bool>,
    n: Map<(int, int), bool>,
    keys: Set<(int, int)>,
) -> Map<(int, int), bool> {
    Map::new(
        |q: (int, int)| evaluated(c, keys, q) || n.contains_key(q) || next_to_birth(c, keys, q),
        |q: (int, int)|
            if evaluated(c, keys, q) {
                rule_at(c, q)
            } else if n.contains_key(q) {
                n[q]
            } else {
                false
            },
    )
}

/// The current mapping after one step from current mapping `c` and next
/// mapping `n`: every tracked cell with a live neighbor is written with its
/// next-generation value, counted in `c` alone.
pub open spec fn step_model(c: Map<(int, int), bool>, n: Map<(int, int), bool>) -> Map<
    (int, int),
    bool,
> {
    advance(c, n, c.dom())
}

/// Writing one more cell `q` of `c` extends the next mapping as `advance` says.
proof fn lemma_advance_insert(
    c: Map<(int, int), bool>,
    n: Map<(int, int), bool>,
    keys: Set<(int, int)>,
    q: (int, int),
)
    requires
        c.contains_key(q),
        !keys.contains(q),
    ensures
        neighbor_count(c, q) > 0 ==> apply_set(advance(c, n, keys), q, rule_at(c, q)) == advance(
            c,
            n,
            keys.insert(q),
        ),
        neighbor_count(c, q) == 0 ==> advance(c, n, keys) == advance(c, n, keys.insert(q)),
{
    let k2 = keys.insert(q);
    assert forall|p: (int, int)| #[trigger] evaluated(c, k2, p) <==> (evaluated(c, keys, p) || (p
        == q && neighbor_count(c, q) > 0)) by {}
    if neighbor_count(c, q) > 0 {
        let lhs = apply_set(advance(c, n, keys), q, rule_at(c, q));
        let rhs = advance(c, n, k2);
        assert forall|r: (int, int)| #[trigger] next_to_birth(c, k2, r) <==> (next_to_birth(c, keys, r)
            || (rule_at(c, q) && adjacent(q, r))) by {
            if rule_at(c, q) && adjacent(q, r) {
                assert(evaluated(c, k2, q));
            }
            if next_to_birth(c, keys, r) {
                let p = choose|p: (int, int)| #[trigger] evaluated(c, keys, p) && rule_at(c, p) && adjacent(p, r);
                assert(evaluated(c, k2, p));
            }
        }
        assert(lhs =~= rhs);
    } else {
        assert forall|r: (int, int)| #[trigger] next_to_birth(c, k2, r) <==> next_to_birth(c, keys, r) by {
            if next_to_birth(c, k2, r) {
                let p = choose|p: (int, int)| #[trigger] evaluated(c, k2, p) && rule_at(c, p) && adjacent(p, r);
                assert(evaluated(c, keys, p));
            }
            if next_to_birth(c, keys, r) {
                let p = choose|p: (int, int)| #[trigger] evaluated(c, keys, p) && rule_at(c, p) && adjacent(p, r);
                assert(evaluated(c, k2, p));
            }
        }
        assert(advance(c, n, keys) =~= advance(c, n, k2));
    }
}

// The hash maps are keyed by a `u128` that packs the two coordinates, each
// shifted to be non-negative: the row in the high half, the column in the low.
spec fn key_of(p: (int, int)) -> int {
    (p.0 - i64::MIN) * 0x1_0000_0000_0000_0000 + (p.1 - i64::MIN)
}

spec fn loc_of_key(k: int) -> (int, int) {
    (k / 0x1_0000_0000_0000_0000 + i64::MIN, k % 0x1_0000_0000_0000_0000 + i64::MIN)
}

proof fn lemma_key_of(p: (int, int))
    requires
        in_range(p),
    ensures
        0 <= key_of(p) <= u128::MAX,
        loc_of_key(key_of(p)) == p,
{
    let a = p.0 - i64::MIN;
    let b = p.1 - i64::MIN;
    assert(0 <= a * 0x1_0000_0000_0000_0000 <= 0xffff_ffff_ffff_ffff * 0x1_0000_0000_0000_0000)
        by (nonlinear_arith)
        requires
            0 <= a <= 0xffff_ffff_ffff_ffff,
    ;
    lemma_fundamental_div_mod_converse(key_of(p), 0x1_0000_0000_0000_0000, a, b);
}

proof fn lemma_loc_of_key(k: int)
    requires
        0 <= k <= u128::MAX,
    ensures
        in_range(loc_of_key(k)),
        key_of(loc_of_key(k)) == k,
{
    let d: int = 0x1_0000_0000_0000_0000;
    let q = k / d;
    let r = k % d;
    assert(k == q * d + r && 0 <= r < d && 0 <= q < d) by (nonlinear_arith)
        requires
            d == 0x1_0000_0000_0000_0000,
            q == k / d,
            r == k % d,
            0 <= k < d * d,
    ;
}

/// What a hash map of packed keys holds, by coordinate.
spec fn cells(b: HashMap<u128, bool>) -> Map<(int, int), bool> {
    Map::new(
        |p: (int, int)| in_range(p) && b@.contains_key(key_of(p) as u128),
        |p: (int, int)| b@[key_of(p) as u128],
    )
}

proof fn lemma_cells_insert(b: Map<u128, bool>, b2: Map<u128, bool>, p: (int, int), v: bool)
    requires
        in_range(p),
        b2 == b.insert(key_of(p) as u128, v),
    ensures
        Map::new(
            |q: (int, int)| in_range(q) && b2.contains_key(key_of(q) as u128),
            |q: (int, int)| b2[key_of(q) as u128],
        ) == Map::new(
            |q: (int, int)| in_range(q) && b.contains_key(key_of(q) as u128),
            |q: (int, int)| b[key_of(q) as u128],
        ).insert(p, v),
{
    lemma_key_of(p);
    let lhs = Map::new(
        |q: (int, int)| in_range(q) && b2.contains_key(key_of(q) as u128),
        |q: (int, int)| b2[key_of(q) as u128],
    );
    let rhs = Map::new(
        |q: (int, int)| in_range(q) && b.contains_key(key_of(q) as u128),
        |q: (int, int)| b[key_of(q) as u128],
    ).insert(p, v);
    assert forall|q: (int, int)| in_range(q) implies (key_of(q) as u128 == key_of(p) as u128
        <==> q == p) by {
        lemma_key_of(q);
    }
    assert(lhs =~= rhs);
}

/// Packs a coordinate into its hash map key.
fn key(loc: &Loc) -> (k: u128)
    ensures
        k as int == key_of(loc@),
{
    proof {
        lemma_key_of(loc@);
    }
    let hi = (loc.row as i128 + 0x8000_0000_0000_0000) as u128;
    let lo = (loc.col as i128 + 0x8000_0000_0000_0000) as u128;
    hi * 0x1_0000_0000_0000_0000 + lo
}

/// Unpacks a hash map key into its coordinate.
fn loc_from_key(k: u128) -> (loc: Loc)
    ensures
        loc@ == loc_of_key(k as int),
{
    proof {
        lemma_loc_of_key(k as int);
    }
    let hi = (k / 0x1_0000_0000_0000_0000) as i128;
    let lo = (k % 0x1_0000_0000_0000_0000) as i128;
    Loc::new((hi - 0x8000_0000_0000_0000) as i64, (lo - 0x8000_0000_0000_0000) as i64)
}

/// Whether `loc` is alive in `buffer`.
fn is_alive(buffer: &HashMap<u128, bool>, loc: &Loc) -> (r: bool)
    ensures
        r == alive_in(cells(*buffer), loc@),
{
    let k = key(loc);
    match buffer.get(&k) {
        Some(v) => *v,
        None => false,
    }
}

/// How many neighbors of `loc` are alive in `buffer`.
fn count_alive_neighbors(buffer: &HashMap<u128, bool>, loc: &Loc) -> (r: usize)
    requires
        interior(loc@),
    ensures
        r as int == neighbor_count(cells(*buffer), loc@),
{
    let ns = loc.neighbors();
    let mut count: usize = 0;
    for j in 0..8usize
        invariant
            interior(loc@),
            forall|i: int| 0 <= i < 8 ==> #[trigger] ns[i]@ == neighbor(loc@, i),
            count as int == count_upto(cells(*buffer), loc@, j as int),
            count <= j,
    {
        if is_alive(buffer, &ns[j]) {
            count = count + 1;
        }
    }
    count
}

/// The map `m` with every listed neighbor of `p` before the `j`-th added as
/// dead where it was absent.
spec fn fill_upto(m: Map<(int, int), bool>, p: (int, int), j: int) -> Map<(int, int), bool> {
    Map::new(
        |q: (int, int)| m.contains_key(q) || exists|i: int| 0 <= i < j && #[trigger] neighbor(p, i) == q,
        |q: (int, int)|
            if m.contains_key(q) {
                m[q]
            } else {
                false
            },
    )
}

/// Writes `alive` at `loc` in `buffer`, and tracks the neighbors of a live cell.
fn set_in(buffer: &mut HashMap<u128, bool>, loc: &Loc, alive: bool)
    requires
        alive ==> interior(loc@),
    ensures
        cells(*final(buffer)) == apply_set(cells(*old(buffer)), loc@, alive),
{
    let k = key(loc);
    proof {
        lemma_key_of(loc@);
    }
    let ghost b0 = buffer@;
    buffer.insert(k, alive);
    proof {
        lemma_cells_insert(b0, buffer@, loc@, alive);
    }
    let ghost m1 = cells(*buffer);
    if alive {
        let ns = loc.neighbors();
        assert(fill_upto(m1, loc@, 0) =~= m1);
        for j in 0..8usize
            invariant
                interior(loc@),
                forall|i: int| 0 <= i < 8 ==> #[trigger] ns[i]@ == neighbor(loc@, i),
                cells(*buffer) == fill_upto(m1, loc@, j as int),
        {
            let nk = key(&ns[j]);
            proof {
                lemma_key_of(ns[j as int]@);
            }
            let ghost before = cells(*buffer);
            assert(nk == key_of(ns[j as int]@) as u128);
            if !buffer.contains_key(&nk) {
                let ghost b1 = buffer@;
                buffer.insert(nk, false);
                proof {
                    lemma_cells_insert(b1, buffer@, ns[j as int]@, false);
                }
                assert(!before.contains_key(ns[j as int]@));
            } else {
                assert(before.contains_key(ns[j as int]@));
            }
            assert(cells(*buffer) =~= fill_upto(m1, loc@, j + 1)) by {
                let n = ns[j as int]@;
                assert(neighbor(loc@, j as int) == n);
                assert forall|q: (int, int)|
                    #[trigger] fill_upto(m1, loc@, j + 1).contains_key(q) <==> (fill_upto(
                        m1,
                        loc@,
                        j as int,
                    ).contains_key(q) || q == n) by {
                    if exists|i: int| 0 <= i < j + 1 && #[trigger] neighbor(loc@, i) == q {
                        let i = choose|i: int| 0 <= i < j + 1 && #[trigger] neighbor(loc@, i) == q;
                        if i < j {
                        }
                    }
                }
            }
        }
        assert(cells(*buffer) =~= apply_set(cells(*old(buffer)), loc@, alive)) by {
            assert forall|q: (int, int)| adjacent(loc@, q) <==> exists|i: int|
                0 <= i < 8 && #[trigger] neighbor(loc@, i) == q by {
                lemma_neighbor_adjacent(loc@, q);
            }
        }
    }
}

/// `set` keeps the neighbors of every live cell tracked.
pub proof fn lemma_apply_set_closed(m: Map<(int, int), bool>, p: (int, int), alive: bool)
    requires
        frontier_closed(m),
    ensures
        frontier_closed(apply_set(m, p, alive)),
{
    let m2 = apply_set(m, p, alive);
    assert forall|a: (int, int), q: (int, int)|
        #![trigger alive_in(m2, a), m2.contains_key(q)]
        alive_in(m2, a) && adjacent(a, q) implies m2.contains_key(q) by {
        if a != p {
            assert(alive_in(m, a));
            assert(m.contains_key(q));
        }
    }
}

/// A step keeps the neighbors of every live cell tracked, provided the next
/// mapping did so before it.
pub proof fn lemma_step_closed(c: Map<(int, int), bool>, n: Map<(int, int), bool>)
    requires
        frontier_closed(n),
    ensures
        frontier_closed(step_model(c, n)),
{
    let m = step_model(c, n);
    assert forall|a: (int, int), q: (int, int)|
        #![trigger alive_in(m, a), m.contains_key(q)]
        alive_in(m, a) && adjacent(a, q) implies m.contains_key(q) by {
        if evaluated(c, c.dom(), a) {
            assert(next_to_birth(c, c.dom(), q));
        } else {
            assert(alive_in(n, a));
            assert(n.contains_key(q));
        }
    }
}

/// The cells whose keys stand among the first `i` of `keys`.
spec fn processed(keys: Seq<u128>, i: int) -> Set<(int, int)> {
    Set::new(|q: (int, int)| exists|j: int| 0 <= j < i && #[trigger] loc_of_key(keys[j] as int) == q)
}

/// The keys of `buffer`, each once.
fn tracked_keys(buffer: &HashMap<u128, bool>) -> (r: Vec<u128>)
    ensures
        r@.to_set() == buffer@.dom(),
        r@.no_duplicates(),
{
    let mut r: Vec<u128> = Vec::new();
    let ghost all = spec_keys_iter(buffer).remaining();
    for k in it: buffer.keys()
        invariant
            it.seq() == all,
            r@ == all.take(it.index()).unref(),
    {
        r.push(*k);
        assert(all.take(it.index() + 1).unref() =~= r@);
    }
    assert(r@ =~= all.unref());
    r
}

/// A sparse Life world with two cell mappings: the current generation, read
/// by `get`, and the next one, written by `set` and by `step`.
pub struct World {
    buffer_1: HashMap<u128, bool>,
    buffer_2: HashMap<u128, bool>,
    using_buffer_1: bool,
}

impl World {
    /// The current generation's cells.
    pub closed spec fn current_cells(&self) -> Map<(int, int), bool> {
        if self.using_buffer_1 {
            cells(self.buffer_1)
        } else {
            cells(self.buffer_2)
        }
    }

    /// The cells written for the next generation so far.
    pub closed spec fn next_cells(&self) -> Map<(int, int), bool> {
        if self.using_buffer_1 {
            cells(self.buffer_2)
        } else {
            cells(self.buffer_1)
        }
    }

    /// Both mappings track the neighbors of each of their live cells.
    pub open spec fn wf(&self) -> bool {
        frontier_closed(self.current_cells()) && frontier_closed(self.next_cells())
    }

    /// An empty world: nothing is tracked and every cell is dead.
    pub fn new() -> (w: World)
        ensures
            w.current_cells() == Map::<(int, int), bool>::empty(),
            w.next_cells() == Map::<(int, int), bool>::empty(),
            w.wf(),
    {
        let w = World { buffer_1: HashMap::new(), buffer_2: HashMap::new(), using_buffer_1: true };
        assert(cells(w.buffer_1) =~= Map::<(int, int), bool>::empty());
        assert(cells(w.buffer_2) =~= Map::<(int, int), bool>::empty());
        w
    }

    fn current_buffer_map(&self) -> (r: &HashMap<u128, bool>)
        ensures
            cells(*r) == self.current_cells(),
    {
        if self.using_buffer_1 {
            &self.buffer_1
        } else {
            &self.buffer_2
        }
    }

    /// The current generation's tracked cells, each once, with its aliveness.
    /// Every live cell is among them; a cell that is not is dead.
    pub fn current_buffer(&self) -> (r: Vec<(Loc, bool)>)
        ensures
            forall|i: int, j: int| 0 <= i < j < r@.len() ==> r@[i].0 != r@[j].0,
            forall|i: int| 0 <= i < r@.len() ==> self.current_cells().contains_key(#[trigger] r@[i].0@)
                && self.current_cells()[r@[i].0@] == r@[i].1,
            forall|p: (int, int)| #[trigger] self.current_cells().contains_key(p) ==> exists|i: int|
                0 <= i < r@.len() && #[trigger] r@[i].0@ == p,
    {
        let buffer = self.current_buffer_map();
        let keys = tracked_keys(buffer);
        let mut r: Vec<(Loc, bool)> = Vec::new();
        let mut i: usize = 0;
        while i < keys.len()
            invariant
                cells(*buffer) == self.current_cells(),
                keys@.to_set() == buffer@.dom(),
                keys@.no_duplicates(),
                i <= keys@.len(),
                r@.len() == i,
                forall|j: int| 0 <= j < i ==> #[trigger] r@[j].0@ == loc_of_key(keys@[j] as int),
                forall|j: int| 0 <= j < i ==> self.current_cells().contains_key(#[trigger] r@[j].0@)
                    && self.current_cells()[r@[j].0@] == r@[j].1,
            decreases keys@.len() - i,
        {
            let loc = loc_from_key(keys[i]);
            let alive = is_alive(buffer, &loc);
            proof {
                lemma_loc_of_key(keys@[i as int] as int);
                assert(buffer@.contains_key(keys@[i as int]));
            }
            r.push((loc, alive));
            i = i + 1;
        }
        proof {
            assert forall|a: int, b: int| 0 <= a < b < r@.len() implies r@[a].0 != r@[b].0 by {
                lemma_loc_of_key(keys@[a] as int);
                lemma_loc_of_key(keys@[b] as int);
                if r@[a].0 == r@[b].0 {
                    assert(r@[a].0@ == r@[b].0@);
                    assert(keys@[a] as int == keys@[b] as int);
                }
            }
            assert forall|p: (int, int)| #[trigger] self.current_cells().contains_key(p) implies exists|j: int|
                0 <= j < r@.len() && #[trigger] r@[j].0@ == p by {
                lemma_key_of(p);
                assert(keys@.to_set().contains(key_of(p) as u128));
                let j = choose|j: int| 0 <= j < keys@.len() && keys@[j] == key_of(p) as u128;
                assert(r@[j].0@ == p);
            }
        }
        r
    }

    /// Whether `loc` is alive in the current generation.
    pub fn get(&self, loc: &Loc) -> (r: bool)
        ensures
            r == alive_in(self.current_cells(), loc@),
    {
        is_alive(self.current_buffer_map(), loc)
    }

    /// Writes `alive` at `loc` in the next generation; a live cell also has
    /// each of its untracked neighbors tracked there as dead.
    pub fn set(&mut self, loc: &Loc, alive: bool)
        requires
            alive ==> interior(loc@),
        ensures
            final(self).current_cells() == old(self).current_cells(),
            final(self).next_cells() == apply_set(old(self).next_cells(), loc@, alive),
            old(self).wf() ==> final(self).wf(),
    {
        if self.using_buffer_1 {
            set_in(&mut self.buffer_2, loc, alive);
        } else {
            set_in(&mut self.buffer_1, loc, alive);
        }
        proof {
            if old(self).wf() {
                lemma_apply_set_closed(old(self).next_cells(), loc@, alive);
            }
        }
    }

    /// Makes the next generation current and starts an empty next one.
    pub(crate) fn swap_buffers(&mut self)
        ensures
            final(self).current_cells() == old(self).next_cells(),
            final(self).next_cells() == Map::<(int, int), bool>::empty(),
    {
        self.using_buffer_1 = !self.using_buffer_1;
        if self.using_buffer_1 {
            self.buffer_2.clear();
            assert(cells(self.buffer_2) =~= Map::<(int, int), bool>::empty());
        } else {
            self.buffer_1.clear();
            assert(cells(self.buffer_1) =~= Map::<(int, int), bool>::empty());
        }
    }

    /// Advances one generation. Each tracked cell with a live neighbor is
    /// written to the next mapping with the value that the rule gives it,
    /// counted in the current mapping alone; then the next mapping becomes
    /// current and the new next one starts empty.
    pub fn step(&mut self)
        requires
            forall|p: (int, int)| #[trigger] old(self).current_cells().contains_key(p) ==> interior(p),
        ensures
            final(self).current_cells() == step_model(old(self).current_cells(), old(self).next_cells()),
            final(self).next_cells() == Map::<(int, int), bool>::empty(),
            old(self).wf() ==> final(self).wf(),
            old(self).wf() && old(self).next_cells() == Map::<(int, int), bool>::empty() ==> forall|
                q: (int, int),
            | #[trigger]
                alive_in(final(self).current_cells(), q) == life_rule(
                    alive_in(old(self).current_cells(), q),
                    neighbor_count(old(self).current_cells(), q) as int,
                ),
    {
        let ghost c = self.current_cells();
        let ghost n = self.next_cells();
        let keys = tracked_keys(self.current_buffer_map());
        proof {
            let buffer = if self.using_buffer_1 { self.buffer_1 } else { self.buffer_2 };
            assert forall|q: (int, int)| #[trigger] processed(keys@, keys@.len() as int).contains(q) <==> c.contains_key(q) by {
                if c.contains_key(q) {
                    lemma_key_of(q);
                    assert(keys@.to_set().contains(key_of(q) as u128));
                    let j = choose|j: int| 0 <= j < keys@.len() && keys@[j] == key_of(q) as u128;
                    assert(loc_of_key(keys@[j] as int) == q);
                }
                if processed(keys@, keys@.len() as int).contains(q) {
                    let j = choose|j: int| 0 <= j < keys@.len() && #[trigger] loc_of_key(keys@[j] as int) == q;
                    lemma_loc_of_key(keys@[j] as int);
                    assert(buffer@.contains_key(keys@[j]));
                }
            }
            assert(processed(keys@, keys@.len() as int) =~= c.dom());
            assert(processed(keys@, 0) =~= Set::<(int, int)>::empty());
            assert(advance(c, n, Set::<(int, int)>::empty()) =~= n);
        }
        let mut i: usize = 0;
        while i < keys.len()
            invariant
                forall|p: (int, int)| #[trigger] c.contains_key(p) ==> interior(p),
                self.current_cells() == c,
                processed(keys@, keys@.len() as int) == c.dom(),
                keys@.no_duplicates(),
                i <= keys@.len(),
                self.next_cells() == advance(c, n, processed(keys@, i as int)),
            decreases keys@.len() - i,
        {
            let loc = loc_from_key(keys[i]);
            proof {
                let s = processed(keys@, i as int);
                assert(processed(keys@, keys@.len() as int).contains(loc@));
                lemma_loc_of_key(keys@[i as int] as int);
                if s.contains(loc@) {
                    let j = choose|j: int| 0 <= j < i && #[trigger] loc_of_key(keys@[j] as int) == loc@;
                    lemma_loc_of_key(keys@[j] as int);
                    assert(keys@[j] == keys@[i as int]);
                }
                assert(processed(keys@, i + 1) =~= s.insert(loc@));
                lemma_advance_insert(c, n, s, loc@);
            }
            let alive = self.get(&loc);
            let count = count_alive_neighbors(self.current_buffer_map(), &loc);
            if count > 0 {
                self.set(&loc, next_status(alive, count));
            }
            i = i + 1;
        }
        self.swap_buffers();
        proof {
            if old(self).wf() {
                lemma_step_closed(c, n);
                lemma_step_follows_rule(c);
            }
        }
    }
}

} // verus!
