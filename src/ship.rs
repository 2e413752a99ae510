use crate::grid::{col, lemma_join, lemma_split, near, row};
use vstd::prelude::*;
use vstd::seq_lib::seq_to_set_is_finite;
use vstd::set::axiom_set_remove_len;
use vstd::set_lib::lemma_len_subset;

verus! {

/// One vessel: a straight run of `size` cells starting at its first deck.
#[derive(Debug)]
pub struct Ship {
    idx_first_deck: usize,
    is_horizontal_pos: bool,
    is_alive: bool,
    size: usize,
    fire_cell_idxes: Vec<usize>,
}

/// A placement that lies wholly on the grid.
pub open spec fn placement_fits(first: int, horizontal: bool, size: int) -> bool {
    &&& 1 <= size <= 4
    &&& 0 <= first < 100
    &&& if horizontal {
        col(first) + size <= 10
    } else {
        row(first) + size <= 10
    }
}

/// Position of a cell in column-major order: the order the ring is listed in.
pub open spec fn ring_order(c: int) -> int {
    col(c) * 10 + row(c)
}

/// Cells listed in strictly increasing column-major order.
pub open spec fn in_ring_order(s: Seq<usize>) -> bool {
    forall|i: int, j: int| 0 <= i < j < s.len() ==> ring_order(s[i] as int) < ring_order(s[j] as int)
}

/// Two lists in column-major order holding the same cells are the same
/// list: the ring of a ship comes out alike whether or not its footprint
/// is handed in.
pub proof fn lemma_ring_order_unique(a: Seq<usize>, b: Seq<usize>)
    requires
        in_ring_order(a),
        in_ring_order(b),
        forall|x: usize| a.contains(x) <==> b.contains(x),
    ensures
        a == b,
    decreases a.len(),
{
    if a.len() == 0 {
        if b.len() > 0 {
            assert(b.contains(b[0]));
        }
        assert(a =~= b);
    } else {
        assert(a.contains(a[0]));
        let j = choose|j: int| 0 <= j < b.len() && b[j] == a[0];
        assert(b.contains(b[0]));
        let i = choose|i: int| 0 <= i < a.len() && a[i] == b[0];
        if i > 0 {
            assert(ring_order(a[0] as int) < ring_order(a[i] as int));
        }
        if j > 0 {
            assert(ring_order(b[0] as int) < ring_order(b[j] as int));
        }
        assert(a[0] == b[0]);
        let ta = a.drop_first();
        let tb = b.drop_first();
        assert forall|x: usize| ta.contains(x) <==> tb.contains(x) by {
            if ta.contains(x) {
                let p = choose|p: int| 0 <= p < ta.len() && ta[p] == x;
                assert(ring_order(a[0] as int) < ring_order(a[p + 1] as int));
                assert(a.contains(x));
                let q = choose|q: int| 0 <= q < b.len() && b[q] == x;
                assert(q != 0);
                assert(tb[q - 1] == x);
            }
            if tb.contains(x) {
                let p = choose|p: int| 0 <= p < tb.len() && tb[p] == x;
                assert(ring_order(b[0] as int) < ring_order(b[p + 1] as int));
                assert(b.contains(x));
                let q = choose|q: int| 0 <= q < a.len() && a[q] == x;
                assert(q != 0);
                assert(ta[q - 1] == x);
            }
        }
        lemma_ring_order_unique(ta, tb);
        assert(a =~= b) by {
            assert forall|k: int| 0 <= k < a.len() implies a[k] == b[k] by {
                if k > 0 {
                    assert(a[k] == ta[k - 1]);
                    assert(b[k] == tb[k - 1]);
                }
            }
        }
    }
}

/// Strictly ascending sequence of cells.
pub open spec fn ascending(s: Seq<usize>) -> bool {
    forall|i: int, j: int| 0 <= i < j < s.len() ==> s[i] < s[j]
}

impl Ship {
    pub closed spec fn first(&self) -> int {
        self.idx_first_deck as int
    }

    pub closed spec fn horizontal(&self) -> bool {
        self.is_horizontal_pos
    }

    pub closed spec fn len(&self) -> int {
        self.size as int
    }

    /// Cells of the footprint that have been hit, in ascending order.
    pub closed spec fn hits(&self) -> Seq<usize> {
        self.fire_cell_idxes@
    }

    pub closed spec fn alive(&self) -> bool {
        self.is_alive
    }

    pub open spec fn last_row(&self) -> int {
        row(self.first()) + if self.horizontal() { 0 } else { self.len() - 1 }
    }

    pub open spec fn last_col(&self) -> int {
        col(self.first()) + if self.horizontal() { self.len() - 1 } else { 0 }
    }

    /// The `i`-th deck of the ship.
    pub open spec fn deck(&self, i: int) -> int {
        if self.horizontal() {
            self.first() + i
        } else {
            self.first() + 10 * i
        }
    }

    /// The footprint, bow first.
    pub open spec fn area(&self) -> Seq<usize> {
        Seq::new(self.len() as nat, |i: int| self.deck(i) as usize)
    }

    /// `c` is one of the ship's own cells.
    pub open spec fn occupies(&self, c: int) -> bool {
        &&& 0 <= c < 100
        &&& row(self.first()) <= row(c) <= self.last_row()
        &&& col(self.first()) <= col(c) <= self.last_col()
    }

    /// `c` lies in the footprint's bounding box grown by one cell on each side.
    pub open spec fn in_box(&self, c: int) -> bool {
        &&& 0 <= c < 100
        &&& row(self.first()) - 1 <= row(c) <= self.last_row() + 1
        &&& col(self.first()) - 1 <= col(c) <= self.last_col() + 1
    }

    /// `c` is in the buffer ring: next to the ship but not part of it.
    pub open spec fn in_ring(&self, c: int) -> bool {
        self.in_box(c) && !self.occupies(c)
    }

    pub open spec fn wf(&self) -> bool {
        &&& placement_fits(self.first(), self.horizontal(), self.len())
        &&& ascending(self.hits())
        &&& forall|k: int| 0 <= k < self.hits().len() ==> self.occupies(#[trigger] self.hits()[k] as int)
        &&& self.alive() == (self.hits().len() < self.len())
    }

    /// No hit yet.
    pub open spec fn intact(&self) -> bool {
        self.hits().len() == 0 && self.alive()
    }

    /// A cell next to one of the ship's cells lies in its grown bounding box.
    pub proof fn lemma_near_in_box(&self, a: int, b: int)
        requires
            self.occupies(a),
            0 <= b < 100,
            near(a, b),
        ensures
            self.in_box(b),
    {
    }

    /// The footprint sequence holds exactly the occupied cells.
    pub proof fn lemma_area(&self, c: int)
        requires
            placement_fits(self.first(), self.horizontal(), self.len()),
            0 <= c <= usize::MAX,
        ensures
            self.occupies(c) <==> self.area().contains(c as usize),
            forall|i: int| 0 <= i < self.len() ==> self.occupies(#[trigger] self.deck(i)),
    {
        let f = self.first();
        lemma_split(f);
        assert forall|i: int| 0 <= i < self.len() implies self.occupies(#[trigger] self.deck(i)) by {
            if self.horizontal() {
                lemma_join(row(f), col(f) + i);
            } else {
                lemma_join(row(f) + i, col(f));
            }
        }
        if self.occupies(c) {
            lemma_split(c);
            let i = if self.horizontal() { col(c) - col(f) } else { row(c) - row(f) };
            assert(self.deck(i) == c);
            assert(self.area()[i] == c as usize);
        }
        if self.area().contains(c as usize) {
            let i = choose|i: int| 0 <= i < self.area().len() && self.area()[i] == c as usize;
            assert(self.occupies(self.deck(i)));
        }
    }

    /// A ship is sunk exactly when every one of its cells has been hit:
    /// hitting each cell once, in any order, sinks it, and the hit that
    /// reaches its size is the one that does.
    pub proof fn lemma_sunk_iff_all_hit(&self)
        requires
            self.wf(),
        ensures
            !self.alive() <==> forall|i: int| 0 <= i < self.len() ==> self.hits().contains(#[trigger] self.deck(i) as usize),
            !self.alive() <==> self.hits().len() == self.len(),
    {
        let h = self.hits();
        let a = self.area();
        assert(h.no_duplicates()) by {
            assert forall|i: int, j: int| 0 <= i < h.len() && 0 <= j < h.len() && i != j implies h[i] != h[j] by {
                if i < j {
                    assert(h[i] < h[j]);
                } else {
                    assert(h[j] < h[i]);
                }
            }
        }
        assert(a.no_duplicates()) by {
            assert forall|i: int, j: int| 0 <= i < a.len() && 0 <= j < a.len() && i != j implies a[i] != a[j] by {}
        }
        h.unique_seq_to_set();
        a.unique_seq_to_set();
        seq_to_set_is_finite(h);
        seq_to_set_is_finite(a);
        assert(h.to_set().subset_of(a.to_set())) by {
            assert forall|x: usize| h.to_set().contains(x) implies a.to_set().contains(x) by {
                let k = choose|k: int| 0 <= k < h.len() && h[k] == x;
                assert(self.occupies(h[k] as int));
                self.lemma_area(x as int);
            }
        }
        lemma_len_subset(h.to_set(), a.to_set());
        if forall|i: int| 0 <= i < self.len() ==> self.hits().contains(#[trigger] self.deck(i) as usize) {
            assert(a.to_set().subset_of(h.to_set())) by {
                assert forall|x: usize| a.to_set().contains(x) implies h.to_set().contains(x) by {
                    let k = choose|k: int| 0 <= k < a.len() && a[k] == x;
                    assert(h.contains(self.deck(k) as usize));
                }
            }
            lemma_len_subset(a.to_set(), h.to_set());
        }
        if h.len() == self.len() {
            assert forall|i: int| 0 <= i < self.len() implies self.hits().contains(#[trigger] self.deck(i) as usize) by {
                let d = self.deck(i) as usize;
                assert(a[i] == d);
                if !h.contains(d) {
                    assert(h.to_set().subset_of(a.to_set().remove(d)));
                    axiom_set_remove_len(a.to_set(), d);
                    lemma_len_subset(h.to_set(), a.to_set().remove(d));
                }
            }
        }
    }

    /// Makes an undamaged ship at the given place.
    pub fn new(idx_first_deck: usize, is_horizontal_pos: bool, size: usize) -> (r: Ship)
        requires
            placement_fits(idx_first_deck as int, is_horizontal_pos, size as int),
        ensures
            r.first() == idx_first_deck,
            r.horizontal() == is_horizontal_pos,
            r.len() == size,
            r.intact(),
            r.wf(),
    {
        Ship { idx_first_deck, is_horizontal_pos, is_alive: true, size, fire_cell_idxes: Vec::new() }
    }

    pub fn get_size(&self) -> (r: usize)
        ensures
            r == self.len(),
    {
        self.size
    }

    pub fn get_first_deck(&self) -> (r: usize)
        ensures
            r == self.first(),
    {
        self.idx_first_deck
    }

    pub fn is_horizontal(&self) -> (r: bool)
        ensures
            r == self.horizontal(),
    {
        self.is_horizontal_pos
    }

    /// Number of hits taken.
    fn get_num_shot(&self) -> (r: usize)
        ensures
            r == self.hits().len(),
    {
        self.fire_cell_idxes.len()
    }

    /// The cells hit so far, ascending.
    pub fn get_fire_cell_idxes(&self) -> (r: &Vec<usize>)
        ensures
            r@ == self.hits(),
    {
        &self.fire_cell_idxes
    }

    pub fn check_is_alive(&self) -> (r: bool)
        ensures
            r == self.alive(),
    {
        self.is_alive
    }

    /// Alive, with at least one hit.
    pub fn check_is_wounded(&self) -> (r: bool)
        ensures
            r == (self.alive() && 0 < self.hits().len() < self.len()),
    {
        self.is_alive && self.get_num_shot() < self.size && self.get_num_shot() != 0
    }

    /// Records a hit on one of the ship's cells; returns whether the ship is still afloat.
    pub fn knock_down(&mut self, idx: usize) -> (r: bool)
        requires
            old(self).wf(),
            old(self).occupies(idx as int),
            !old(self).hits().contains(idx),
        ensures
            final(self).wf(),
            final(self).first() == old(self).first(),
            final(self).horizontal() == old(self).horizontal(),
            final(self).len() == old(self).len(),
            final(self).hits().len() == old(self).hits().len() + 1,
            final(self).hits().to_set() == old(self).hits().to_set().insert(idx),
            r == final(self).alive(),
            r == (final(self).hits().len() < final(self).len()),
    {
        let ghost h = self.fire_cell_idxes@;
        let mut p: usize = 0;
        while p < self.fire_cell_idxes.len() && self.fire_cell_idxes[p] < idx
            invariant
                0 <= p <= h.len(),
                self.fire_cell_idxes@ == h,
                forall|k: int| 0 <= k < p ==> h[k] < idx,
            decreases h.len() - p,
        {
            p = p + 1;
        }
        assert forall|k: int| p <= k < h.len() implies h[k] > idx by {
            assert(h[p as int] >= idx);
            assert(h[p as int] != idx);
        }
        self.fire_cell_idxes.insert(p, idx);
        let ghost n = self.fire_cell_idxes@;
        assert(n == h.insert(p as int, idx));
        assert forall|k: int| 0 <= k < n.len() implies self.occupies(#[trigger] n[k] as int) by {
            if k > p {
                assert(n[k] == h[k - 1]);
            } else if k < p {
                assert(n[k] == h[k]);
            }
        }
        assert(n.to_set() =~= h.to_set().insert(idx)) by {
            assert forall|x: usize| n.to_set().contains(x) implies h.to_set().insert(idx).contains(x) by {
                let k = choose|k: int| 0 <= k < n.len() && n[k] == x;
                if k > p {
                    assert(n[k] == h[k - 1]);
                } else if k < p {
                    assert(n[k] == h[k]);
                }
            }
            assert forall|x: usize| h.to_set().insert(idx).contains(x) implies n.to_set().contains(x) by {
                if x == idx {
                    assert(n[p as int] == idx);
                } else {
                    let k = choose|k: int| 0 <= k < h.len() && h[k] == x;
                    if k >= p {
                        assert(n[k + 1] == x);
                    } else {
                        assert(n[k] == x);
                    }
                }
            }
        }
        if self.fire_cell_idxes.len() >= self.size {
            self.is_alive = false;
        }
        self.is_alive
    }

    /// Whether `idx` is one of the ship's cells.
    pub fn check_idx_for_ship(&self, idx: usize) -> (r: bool)
        requires
            self.wf(),
        ensures
            r == self.occupies(idx as int),
    {
        let area = self.get_area_ship();
        let mut result = false;
        let mut i: usize = 0;
        while i < area.len()
            invariant
                area@ == self.area(),
                i <= area@.len(),
                result == (exists|k: int| 0 <= k < i && area@[k] == idx),
            decreases area@.len() - i,
        {
            if area[i] == idx {
                result = true;
            }
            i = i + 1;
        }
        proof {
            self.lemma_area(idx as int);
        }
        result
    }

    /// The cells the ship occupies, bow first.
    pub fn get_area_ship(&self) -> (r: Vec<usize>)
        requires
            self.wf(),
        ensures
            r@ == self.area(),
    {
        let mut set_idx: Vec<usize> = Vec::new();
        let mut i: usize = 0;
        proof {
            lemma_split(self.first());
        }
        while i < self.size
            invariant
                self.wf(),
                i <= self.size,
                set_idx@.len() == i,
                forall|k: int| 0 <= k < i ==> set_idx@[k] == self.area()[k],
            decreases self.size - i,
        {
            if self.is_horizontal_pos {
                set_idx.push(self.idx_first_deck + i);
            } else {
                set_idx.push(self.idx_first_deck + i * 10);
            }
            i = i + 1;
        }
        assert(set_idx@ =~= self.area());
        set_idx
    }

    /// The buffer ring: cells around the ship, clipped to the grid, without
    /// the footprint. `area_ship`, when given, is the footprint already computed.
    pub fn get_area_near_ship(&self, area_ship: Option<Vec<usize>>) -> (r: Vec<usize>)
        requires
            self.wf(),
            area_ship is Some ==> area_ship->0@ == self.area(),
        ensures
            forall|k: int| 0 <= k < r@.len() ==> self.in_ring(#[trigger] r@[k] as int),
            forall|c: int| #[trigger] self.in_ring(c) ==> r@.contains(c as usize),
            in_ring_order(r@),
            r@.no_duplicates(),
    {
        let set_ship_idx: Vec<usize> = match area_ship {
            None => self.get_area_ship(),
            Some(v) => v,
        };
        let mut set_idx: Vec<usize> = Vec::new();
        let x = self.idx_first_deck % 10;
        let y = self.idx_first_deck / 10;
        let y_start = if y == 0 { y } else { y - 1 };
        let x_start = if x == 0 { x } else { x - 1 };
        let x_end = if self.is_horizontal_pos {
            if x + self.size <= 9 { x + self.size } else { 9 }
        } else {
            if x + 1 <= 9 { x + 1 } else { 9 }
        };
        let y_end = if self.is_horizontal_pos {
            if y + 1 <= 9 { y + 1 } else { 9 }
        } else {
            if y + self.size <= 9 { y + self.size } else { 9 }
        };
        proof {
            lemma_split(self.first());
        }
        let mut i: usize = x_start;
        while i <= x_end
            invariant
                self.wf(),
                set_ship_idx@ == self.area(),
                x == col(self.first()),
                y == row(self.first()),
                x_start <= i <= x_end + 1,
                x_end <= 9,
                y_end <= 9,
                x_start as int == if x == 0 { 0 } else { x - 1 },
                y_start as int == if y == 0 { 0 } else { y - 1 },
                x_end as int == if self.last_col() + 1 <= 9 { self.last_col() + 1 } else { 9 },
                y_end as int == if self.last_row() + 1 <= 9 { self.last_row() + 1 } else { 9 },
                forall|k: int| 0 <= k < set_idx@.len() ==> self.in_ring(#[trigger] set_idx@[k] as int),
                forall|c: int| #[trigger] self.in_ring(c) && col(c) < i ==> set_idx@.contains(c as usize),
                forall|k: int| 0 <= k < set_idx@.len() ==> col(#[trigger] set_idx@[k] as int) < i,
                forall|a: int, b: int| 0 <= a < b < set_idx@.len() ==> ring_order(set_idx@[a] as int) < ring_order(set_idx@[b] as int),
            decreases x_end + 1 - i,
        {
            let mut j: usize = y_start;
            while j <= y_end
                invariant
                    self.wf(),
                    set_ship_idx@ == self.area(),
                    x == col(self.first()),
                    y == row(self.first()),
                    x_start <= i <= x_end,
                    y_start <= j <= y_end + 1,
                    x_end <= 9,
                    y_end <= 9,
                    x_start as int == if x == 0 { 0 } else { x - 1 },
                    y_start as int == if y == 0 { 0 } else { y - 1 },
                    x_end as int == if self.last_col() + 1 <= 9 { self.last_col() + 1 } else { 9 },
                    y_end as int == if self.last_row() + 1 <= 9 { self.last_row() + 1 } else { 9 },
                    forall|k: int| 0 <= k < set_idx@.len() ==> self.in_ring(#[trigger] set_idx@[k] as int),
                    forall|c: int| #[trigger] self.in_ring(c) && (col(c) < i || (col(c) == i && row(c) < j))
                        ==> set_idx@.contains(c as usize),
                    forall|k: int| 0 <= k < set_idx@.len() ==> col(#[trigger] set_idx@[k] as int) < i
                        || (col(set_idx@[k] as int) == i && row(set_idx@[k] as int) < j),
                    forall|a: int, b: int| 0 <= a < b < set_idx@.len() ==> ring_order(set_idx@[a] as int) < ring_order(set_idx@[b] as int),
                decreases y_end + 1 - j,
            {
                let c = j * 10 + i;
                proof {
                    lemma_join(j as int, i as int);
                    self.lemma_area(c as int);
                }
                let mut found = false;
                let mut k: usize = 0;
                while k < set_ship_idx.len()
                    invariant
                        found == (exists|m: int| 0 <= m < k && set_ship_idx@[m] == c),
                        k <= set_ship_idx@.len(),
                    decreases set_ship_idx@.len() - k,
                {
                    if set_ship_idx[k] == c {
                        found = true;
                    }
                    k = k + 1;
                }
                let ghost before = set_idx@;
                if !found {
                    set_idx.push(c);
                }
                proof {
                    assert forall|k: int| 0 <= k < before.len() implies ring_order(#[trigger] before[k] as int) < ring_order(c as int) by {
                        lemma_split(before[k] as int);
                    }
                    assert forall|a: int, b: int| 0 <= a < b < set_idx@.len() implies ring_order(set_idx@[a] as int) < ring_order(set_idx@[b] as int) by {
                        if b == before.len() {
                            assert(ring_order(before[a] as int) < ring_order(c as int));
                        }
                    }
                    assert forall|k: int| 0 <= k < set_idx@.len() implies col(#[trigger] set_idx@[k] as int) < i
                        || (col(set_idx@[k] as int) == i && row(set_idx@[k] as int) < j + 1) by {
                        if k < before.len() {
                            assert(set_idx@[k] == before[k]);
                        }
                    }
                    assert forall|d: int| #[trigger] self.in_ring(d) && (col(d) < i || (col(d) == i && row(d) < j + 1))
                        implies set_idx@.contains(d as usize) by {
                        if col(d) == i && row(d) == j {
                            lemma_split(d);
                            assert(d == c);
                            assert(set_idx@.last() == c);
                        } else {
                            assert(before.contains(d as usize));
                            let w = choose|w: int| 0 <= w < before.len() && before[w] == d as usize;
                            assert(set_idx@[w] == d as usize);
                        }
                    }
                }
                j = j + 1;
            }
            proof {
                assert forall|d: int| #[trigger] self.in_ring(d) && col(d) < i + 1 implies set_idx@.contains(d as usize) by {
                    if col(d) == i {
                        assert(row(d) <= y_end);
                    }
                }
            }
            i = i + 1;
        }
        proof {
            assert forall|d: int| #[trigger] self.in_ring(d) implies set_idx@.contains(d as usize) by {
                lemma_split(d);
            }
            assert forall|a: int, b: int| 0 <= a < set_idx@.len() && 0 <= b < set_idx@.len() && a != b
                implies set_idx@[a] != set_idx@[b] by {
                if a < b {
                    assert(ring_order(set_idx@[a] as int) < ring_order(set_idx@[b] as int));
                } else {
                    assert(ring_order(set_idx@[b] as int) < ring_order(set_idx@[a] as int));
                }
            }
        }
        set_idx
    }
}

} // verus!
