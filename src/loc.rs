use vstd::prelude::*;

verus! {

/// A cell's coordinate: `row` grows downward, `col` rightward.
#[derive(PartialEq, Eq, Structural, Hash, Clone, Copy, Debug)]
pub struct Loc {
    pub row: i64,
    pub col: i64,
}

impl View for Loc {
    type V = (int, int);

    open spec fn view(&self) -> (int, int) {
        (self.row as int, self.col as int)
    }
}

/// The `j`-th cell of the Moore neighborhood of `p`, in the order that
/// `Loc::neighbors` lists them.
pub open spec fn neighbor(p: (int, int), j: int) -> (int, int) {
    if j == 0 {
        (p.0 + 1, p.1 + 1)
    } else if j == 1 {
        (p.0 + 1, p.1 - 1)
    } else if j == 2 {
        (p.0 - 1, p.1 + 1)
    } else if j == 3 {
        (p.0 - 1, p.1 - 1)
    } else if j == 4 {
        (p.0 + 1, p.1)
    } else if j == 5 {
        (p.0, p.1 + 1)
    } else if j == 6 {
        (p.0 - 1, p.1)
    } else {
        (p.0, p.1 - 1)
    }
}

/// `q` is one of the eight cells that touch `p` by a side or a corner.
pub open spec fn adjacent(p: (int, int), q: (int, int)) -> bool {
    &&& q != p
    &&& -1 <= q.0 - p.0 <= 1
    &&& -1 <= q.1 - p.1 <= 1
}

/// Every neighbor of `p` has coordinates that fit in an `i64`.
pub open spec fn interior(p: (int, int)) -> bool {
    &&& i64::MIN < p.0 < i64::MAX
    &&& i64::MIN < p.1 < i64::MAX
}

/// Both coordinates of `p` fit in an `i64`.
pub open spec fn in_range(p: (int, int)) -> bool {
    &&& i64::MIN <= p.0 <= i64::MAX
    &&& i64::MIN <= p.1 <= i64::MAX
}

/// The eight listed neighbors are exactly the adjacent cells.
pub proof fn lemma_neighbor_adjacent(p: (int, int), q: (int, int))
    ensures
        adjacent(p, q) <==> exists|j: int| 0 <= j < 8 && #[trigger] neighbor(p, j) == q,
{
    if adjacent(p, q) {
        let j: int = if q == (p.0 + 1, p.1 + 1) {
            0
        } else if q == (p.0 + 1, p.1 - 1) {
            1
        } else if q == (p.0 - 1, p.1 + 1) {
            2
        } else if q == (p.0 - 1, p.1 - 1) {
            3
        } else if q == (p.0 + 1, p.1) {
            4
        } else if q == (p.0, p.1 + 1) {
            5
        } else if q == (p.0 - 1, p.1) {
            6
        } else {
            7
        };
        assert(neighbor(p, j) == q);
    }
}

impl Loc {
    pub fn new(row: i64, col: i64) -> (r: Loc)
        ensures
            r.row == row,
            r.col == col,
    {
        Loc { row, col }
    }

    /// The Moore neighborhood: the four orthogonal and four diagonal cells.
    pub fn neighbors(&self) -> (r: [Loc; 8])
        requires
            interior(self@),
        ensures
            forall|j: int| 0 <= j < 8 ==> #[trigger] r[j]@ == neighbor(self@, j),
    {
        let r = [
            Loc::new(self.row + 1, self.col + 1),
            Loc::new(self.row + 1, self.col - 1),
            Loc::new(self.row - 1, self.col + 1),
            Loc::new(self.row - 1, self.col - 1),
            Loc::new(self.row + 1, self.col),
            Loc::new(self.row, self.col + 1),
            Loc::new(self.row - 1, self.col),
            Loc::new(self.row, self.col - 1),
        ];
        assert forall|j: int| 0 <= j < 8 implies #[trigger] r[j]@ == neighbor(self@, j) by {
            if j == 0 {
            } else if j == 1 {
            } else if j == 2 {
            } else if j == 3 {
            } else if j == 4 {
            } else if j == 5 {
            } else if j == 6 {
            } else {
            }
        }
        r
    }
}

} // verus!
