use vstd::arithmetic::div_mod::{lemma_fundamental_div_mod, lemma_fundamental_div_mod_converse};
use vstd::prelude::*;

verus! {

/// Side length of the square playing field.
pub const SIDE: usize = 10;

/// Number of cells on the playing field.
pub const CELLS: usize = 100;

/// Position of a cell: column `x` and row `y`, from the upper left corner.
#[derive(Debug, Clone, Copy, PartialEq, Eq)]
pub struct Coordinates {
    pub x: usize,
    pub y: usize,
}

impl Coordinates {
    /// Column and row of cell `idx`.
    pub fn from_idx(idx: usize) -> (r: Coordinates)
        requires
            idx < 100,
        ensures
            r.x == col(idx as int),
            r.y == row(idx as int),
    {
        Coordinates { x: idx % 10, y: idx / 10 }
    }

    /// The cell index of this position.
    pub fn to_idx(&self) -> (r: usize)
        requires
            self.x < 10,
            self.y < 10,
        ensures
            r == cell(self.y as int, self.x as int),
    {
        self.y * 10 + self.x
    }
}

/// Row of a cell index.
pub open spec fn row(c: int) -> int {
    c / 10
}

/// Column of a cell index.
pub open spec fn col(c: int) -> int {
    c % 10
}

/// Cell index of a (row, column) pair.
pub open spec fn cell(r: int, c: int) -> int {
    r * 10 + c
}

/// Two cells touch: they are equal, or 4- or diagonal neighbours.
pub open spec fn near(a: int, b: int) -> bool {
    -1 <= row(a) - row(b) <= 1 && -1 <= col(a) - col(b) <= 1
}

/// A cell index splits into its row and column.
pub proof fn lemma_split(c: int)
    requires
        0 <= c < 100,
    ensures
        c == cell(row(c), col(c)),
        0 <= row(c) < 10,
        0 <= col(c) < 10,
{
    lemma_fundamental_div_mod(c, 10);
}

/// A (row, column) pair is recovered from its cell index.
pub proof fn lemma_join(r: int, c: int)
    requires
        0 <= r,
        0 <= c < 10,
    ensures
        row(cell(r, c)) == r,
        col(cell(r, c)) == c,
{
    lemma_fundamental_div_mod_converse(r * 10 + c, 10, r, c);
}

/// Appending keeps every element and adds the new one.
pub proof fn lemma_push_contains(s: Seq<usize>, x: usize)
    ensures
        s.push(x).contains(x),
        forall|y: usize| s.contains(y) ==> #[trigger] s.push(x).contains(y),
{
    assert(s.push(x)[s.len() as int] == x);
    assert forall|y: usize| s.contains(y) implies #[trigger] s.push(x).contains(y) by {
        let k = choose|k: int| 0 <= k < s.len() && s[k] == y;
        assert(s.push(x)[k] == y);
    }
}

/// Whether `v` holds `c`.
pub fn contains_cell(v: &Vec<usize>, c: usize) -> (r: bool)
    ensures
        r == v@.contains(c),
{
    let mut i: usize = 0;
    while i < v.len()
        invariant
            i <= v@.len(),
            forall|k: int| 0 <= k < i ==> v@[k] != c,
        decreases v@.len() - i,
    {
        if v[i] == c {
            return true;
        }
        i = i + 1;
    }
    false
}

} // verus!
