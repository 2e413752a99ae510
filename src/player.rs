use crate::fleet::{all_apart, apart, fleet_ok, get_default_fleet, GameError};
use crate::grid::{col, contains_cell, lemma_push_contains, row};
use crate::random::random_below;
use crate::ship::Ship;
use rand::rngs::StdRng;
use vstd::prelude::*;
use vstd::set_lib::{lemma_int_range, lemma_len_subset, set_int_range};

verus! {

/// How many random cells hunting tries before it scans for the first free one.
pub const HUNT_ATTEMPTS: usize = 100;

/// One side of the game: its fleet and every shot fired at it.
pub struct Player {
    name: String,
    ships: Vec<Ship>,
    misses_shots: Vec<usize>,
    fire_shots: Vec<usize>,
    is_manual_control: bool,
}

/// Alive and hit at least once.
pub open spec fn wounded(s: Ship) -> bool {
    s.alive() && 0 < s.hits().len() < s.len()
}

/// Number of ships afloat among the first `n`.
pub open spec fn living(ships: Seq<Ship>, n: int) -> int
    decreases n,
{
    if n <= 0 {
        0
    } else {
        living(ships, n - 1) + if ships[n - 1].alive() { 1int } else { 0int }
    }
}

/// `c` is a 4-neighbour of `h` on the grid.
pub open spec fn orthogonal(h: int, c: int) -> bool {
    ||| (c == h - 10 && row(h) > 0)
    ||| (c == h + 10 && row(h) < 9)
    ||| (c == h - 1 && col(h) > 0)
    ||| (c == h + 1 && col(h) < 9)
}

/// `c` extends the run of hits `hits` (ascending, two or more) by one cell
/// at either end, along the axis the first two hits share.
pub open spec fn extends_run(hits: Seq<usize>, c: int) -> bool {
    let f = hits[0] as int;
    let l = hits.last() as int;
    if col(f) == col(hits[1] as int) {
        (c == f - 10 && row(f) > 0) || (c == l + 10 && row(l) < 9)
    } else {
        (c == f - 1 && col(f) > 0) || (c == l + 1 && col(l) < 9)
    }
}

impl Player {
    pub closed spec fn ships(&self) -> Seq<Ship> {
        self.ships@
    }

    /// Cells shot at this player that hit no ship.
    pub closed spec fn misses(&self) -> Seq<usize> {
        self.misses_shots@
    }

    /// Cells shot at this player that hit a ship.
    pub closed spec fn hits(&self) -> Seq<usize> {
        self.fire_shots@
    }

    pub closed spec fn name_view(&self) -> Seq<char> {
        self.name@
    }

    pub closed spec fn manual(&self) -> bool {
        self.is_manual_control
    }

    pub open spec fn shot(&self, c: int) -> bool {
        self.misses().contains(c as usize) || self.hits().contains(c as usize)
    }

    pub open spec fn covered(&self, c: int) -> bool {
        exists|i: int| 0 <= i < self.ships().len() && (#[trigger] self.ships()[i]).occupies(c)
    }

    pub open spec fn wf(&self) -> bool {
        &&& forall|i: int| 0 <= i < self.ships().len() ==> (#[trigger] self.ships()[i]).wf()
        &&& all_apart(self.ships())
        &&& self.misses().no_duplicates()
        &&& self.hits().no_duplicates()
        &&& forall|k: int| 0 <= k < self.misses().len() ==> (#[trigger] self.misses()[k]) < 100 && !self.covered(self.misses()[k] as int)
        &&& forall|c: usize| #[trigger] self.hits().contains(c) <==>
                exists|i: int| 0 <= i < self.ships().len() && (#[trigger] self.ships()[i]).hits().contains(c)
    }

    /// The buffer ring of every sunk ship is recorded as missed.
    pub open spec fn rings_missed(&self) -> bool {
        forall|i: int, c: int| 0 <= i < self.ships().len() && !self.ships()[i].alive()
            && #[trigger] self.ships()[i].in_ring(c) ==> self.misses().contains(c as usize)
    }

    /// Once a ship is sunk, every cell of its buffer ring is recorded as a
    /// miss, and no ship stands on any of those cells.
    pub proof fn lemma_sunk_ring_missed(&self, i: int, c: int)
        requires
            self.wf(),
            self.rings_missed(),
            0 <= i < self.ships().len(),
            !self.ships()[i].alive(),
            self.ships()[i].in_ring(c),
        ensures
            self.misses().contains(c as usize),
            !self.covered(c),
    {
        if self.covered(c) {
            let j = choose|j: int| 0 <= j < self.ships().len() && (#[trigger] self.ships()[j]).occupies(c);
            assert(j != i);
            assert(apart(self.ships()[j], self.ships()[i]));
        }
    }

    /// At most one shot per cell is recorded: 100 in all.
    pub proof fn lemma_shots_bound(&self)
        requires
            self.wf(),
        ensures
            self.misses().len() + self.hits().len() <= 100,
    {
        let s = self.misses() + self.hits();
        assert forall|k: int| 0 <= k < self.hits().len() implies (#[trigger] self.hits()[k]) < 100
            && self.covered(self.hits()[k] as int) by {
            let h = self.hits()[k];
            assert(self.hits().contains(h));
            let i = choose|i: int| 0 <= i < self.ships().len() && (#[trigger] self.ships()[i]).hits().contains(h);
            let q = choose|q: int| 0 <= q < self.ships()[i].hits().len() && self.ships()[i].hits()[q] == h;
            assert(self.ships()[i].occupies(self.ships()[i].hits()[q] as int));
        }
        let si = s.map_values(|x: usize| x as int);
        assert(si.no_duplicates()) by {
            assert forall|a: int, b: int| 0 <= a < si.len() && 0 <= b < si.len() && a != b implies si[a] != si[b] by {
                let m = self.misses().len();
                if a < m && b < m {
                    assert(self.misses()[a] != self.misses()[b]);
                } else if a >= m && b >= m {
                    assert(self.hits()[a - m] != self.hits()[b - m]);
                } else if a < m {
                    assert(!self.covered(self.misses()[a] as int));
                    assert(self.covered(self.hits()[b - m] as int));
                } else {
                    assert(!self.covered(self.misses()[b] as int));
                    assert(self.covered(self.hits()[a - m] as int));
                }
            }
        }
        si.unique_seq_to_set();
        lemma_int_range(0, 100);
        assert(si.to_set().subset_of(set_int_range(0, 100))) by {
            assert forall|x: int| si.to_set().contains(x) implies set_int_range(0, 100).contains(x) by {
                let k = choose|k: int| 0 <= k < si.len() && si[k] == x;
                let m = self.misses().len();
                if k < m {
                    assert(self.misses()[k] < 100);
                } else {
                    assert(self.hits()[k - m] < 100);
                }
            }
        }
        lemma_len_subset(si.to_set(), set_int_range(0, 100));
    }

    /// A ship still afloat has a cell that has not been shot.
    pub proof fn lemma_living_has_unshot(&self, k: int)
        requires
            self.wf(),
            0 <= k < self.ships().len(),
            self.ships()[k].alive(),
        ensures
            exists|d: int| 0 <= d < 100 && !self.shot(d),
    {
        let ship = self.ships()[k];
        ship.lemma_sunk_iff_all_hit();
        let i = choose|i: int| 0 <= i < ship.len() && !ship.hits().contains(#[trigger] ship.deck(i) as usize);
        let d = ship.deck(i);
        ship.lemma_area(0);
        assert(ship.occupies(d));
        assert(!self.misses().contains(d as usize)) by {
            if self.misses().contains(d as usize) {
                let q = choose|q: int| 0 <= q < self.misses().len() && self.misses()[q] == d as usize;
                assert(!self.covered(self.misses()[q] as int));
            }
        }
        assert(!self.hits().contains(d as usize)) by {
            if self.hits().contains(d as usize) {
                let j = choose|j: int| 0 <= j < self.ships().len() && (#[trigger] self.ships()[j]).hits().contains(d as usize);
                let q = choose|q: int| 0 <= q < self.ships()[j].hits().len() && self.ships()[j].hits()[q] == d as usize;
                assert(self.ships()[j].occupies(self.ships()[j].hits()[q] as int));
                if j != k {
                    assert(apart(self.ships()[j], ship));
                }
            }
        }
        assert(0 <= d < 100 && !self.shot(d));
    }

    /// `w` is the first wounded ship of the fleet.
    pub open spec fn first_wounded(&self, w: int) -> bool {
        &&& 0 <= w < self.ships().len()
        &&& wounded(self.ships()[w])
        &&& forall|k: int| 0 <= k < w ==> !wounded(#[trigger] self.ships()[k])
    }

    /// `c` is a cell that targeting considers next to the first wounded ship.
    pub open spec fn target_cell(&self, c: int) -> bool {
        exists|w: int| {
            &&& #[trigger] self.first_wounded(w)
            &&& 0 <= c < 100
            &&& !self.shot(c)
            &&& if self.ships()[w].hits().len() == 1 {
                orthogonal(self.ships()[w].hits()[0] as int, c)
            } else {
                extends_run(self.ships()[w].hits(), c)
            }
        }
    }

    /// A player with the given fleet and no shots fired at it yet.
    pub fn with_fleet(name: &str, is_manual_control: bool, ships: Vec<Ship>) -> (r: Player)
        requires
            forall|i: int| 0 <= i < ships@.len() ==> (#[trigger] ships@[i]).wf() && ships@[i].intact(),
            all_apart(ships@),
        ensures
            r.wf(),
            r.rings_missed(),
            r.ships() == ships@,
            r.misses().len() == 0,
            r.hits().len() == 0,
            r.name_view() == name@,
            r.manual() == is_manual_control,
    {
        let r = Player {
            name: name.to_string(),
            ships,
            misses_shots: Vec::new(),
            fire_shots: Vec::new(),
            is_manual_control,
        };
        proof {
            assert forall|c: usize| #[trigger] r.hits().contains(c) <==>
                exists|i: int| 0 <= i < r.ships().len() && (#[trigger] r.ships()[i]).hits().contains(c) by {
                if exists|i: int| 0 <= i < r.ships().len() && (#[trigger] r.ships()[i]).hits().contains(c) {
                    let i = choose|i: int| 0 <= i < r.ships().len() && (#[trigger] r.ships()[i]).hits().contains(c);
                    assert(r.ships()[i].intact());
                }
            }
            assert forall|i: int, c: int| 0 <= i < r.ships().len() && !r.ships()[i].alive()
                && #[trigger] r.ships()[i].in_ring(c) implies r.misses().contains(c as usize) by {
                assert(r.ships()[i].intact());
            }
        }
        r
    }

    /// A player with a freshly placed random fleet.
    pub fn create(name: &str, is_manual_control: bool, rng: &mut StdRng) -> (r: Result<Player, GameError>)
        ensures
            match r {
                Ok(p) => p.wf() && p.rings_missed() && fleet_ok(p.ships()) && p.misses().len() == 0 && p.hits().len() == 0
                    && p.name_view() == name@ && p.manual() == is_manual_control,
                Err(e) => e == GameError::PlacementExhausted,
            },
    {
        match get_default_fleet(rng) {
            Ok(ships) => Ok(Player::with_fleet(name, is_manual_control, ships)),
            Err(e) => Err(e),
        }
    }

    pub fn get_name(&self) -> (r: &str)
        ensures
            r@ == self.name_view(),
    {
        self.name.as_str()
    }

    pub fn is_manual(&self) -> (r: bool)
        ensures
            r == self.manual(),
    {
        self.is_manual_control
    }

    pub fn get_ships(&self) -> (r: &Vec<Ship>)
        ensures
            r@ == self.ships(),
    {
        &self.ships
    }

    pub fn get_misses(&self) -> (r: &Vec<usize>)
        ensures
            r@ == self.misses(),
    {
        &self.misses_shots
    }

    pub fn get_hits(&self) -> (r: &Vec<usize>)
        ensures
            r@ == self.hits(),
    {
        &self.fire_shots
    }

    /// The ship at `idx_ship`, if there is one.
    pub fn get_ship_by_idx_as_mut_ref(&self, idx_ship: usize) -> (r: Option<&Ship>)
        ensures
            idx_ship < self.ships().len() ==> r == Some(&self.ships()[idx_ship as int]),
            idx_ship >= self.ships().len() ==> r is None,
    {
        if idx_ship < self.ships.len() {
            Some(&self.ships[idx_ship])
        } else {
            None
        }
    }

    /// Number of ships still afloat.
    pub fn get_num_living_ships(&self) -> (r: usize)
        ensures
            r == living(self.ships(), self.ships().len() as int),
            (r == 0) <==> forall|i: int| 0 <= i < self.ships().len() ==> !(#[trigger] self.ships()[i]).alive(),
    {
        let mut count: usize = 0;
        let mut i: usize = 0;
        while i < self.ships.len()
            invariant
                i <= self.ships@.len(),
                count == living(self.ships@, i as int),
                count <= i,
                (count == 0) <==> forall|k: int| 0 <= k < i ==> !(#[trigger] self.ships@[k]).alive(),
            decreases self.ships@.len() - i,
        {
            if self.ships[i].check_is_alive() {
                count = count + 1;
            }
            i = i + 1;
        }
        count
    }

    /// Whether `c` has been shot at this player already.
    pub fn is_shot(&self, c: usize) -> (r: bool)
        ensures
            r == self.shot(c as int),
    {
        let mut i: usize = 0;
        while i < self.misses_shots.len()
            invariant
                i <= self.misses_shots@.len(),
                forall|k: int| 0 <= k < i ==> self.misses_shots@[k] != c,
            decreases self.misses_shots@.len() - i,
        {
            if self.misses_shots[i] == c {
                return true;
            }
            i = i + 1;
        }
        let mut i: usize = 0;
        while i < self.fire_shots.len()
            invariant
                i <= self.fire_shots@.len(),
                !self.misses_shots@.contains(c),
                forall|k: int| 0 <= k < i ==> self.fire_shots@[k] != c,
            decreases self.fire_shots@.len() - i,
        {
            if self.fire_shots[i] == c {
                return true;
            }
            i = i + 1;
        }
        false
    }

    /// The ship standing on `c`, if any.
    pub fn find_ship(&self, c: usize) -> (r: Option<usize>)
        requires
            self.wf(),
        ensures
            r is None ==> !self.covered(c as int),
            r matches Some(i) ==> i < self.ships().len() && self.ships()[i as int].occupies(c as int),
    {
        let mut i: usize = 0;
        while i < self.ships.len()
            invariant
                self.wf(),
                i <= self.ships@.len(),
                forall|k: int| 0 <= k < i ==> !(#[trigger] self.ships@[k]).occupies(c as int),
            decreases self.ships@.len() - i,
        {
            if self.ships[i].check_idx_for_ship(c) {
                return Some(i);
            }
            i = i + 1;
        }
        None
    }

    /// Resolves a shot at `idx_cell`. Returns the ship hit, whether it was a
    /// hit, and whether the ship is still afloat (`true` on a miss). A cell
    /// shot before is answered as it was and changes nothing.
    #[verifier::spinoff_prover]
    #[verifier::rlimit(80)]
    pub fn process_a_shot(&mut self, idx_cell: usize) -> (r: (Option<usize>, bool, bool))
        requires
            old(self).wf(),
            idx_cell < 100,
        ensures
            final(self).wf(),
            final(self).ships().len() == old(self).ships().len(),
            final(self).name_view() == old(self).name_view(),
            final(self).manual() == old(self).manual(),
            final(self).shot(idx_cell as int),
            forall|c: int| old(self).shot(c) ==> final(self).shot(c),
            forall|x: usize| old(self).misses().contains(x) ==> #[trigger] final(self).misses().contains(x),
            r.0 matches Some(i) ==> i < final(self).ships().len() && r.1 && r.2 == final(self).ships()[i as int].alive(),
            forall|i: int| 0 <= i < old(self).ships().len() ==> {
                &&& (#[trigger] final(self).ships()[i]).first() == old(self).ships()[i].first()
                &&& final(self).ships()[i].horizontal() == old(self).ships()[i].horizontal()
                &&& final(self).ships()[i].len() == old(self).ships()[i].len()
            },
            old(self).shot(idx_cell as int) ==> {
                &&& final(self).ships() == old(self).ships()
                &&& final(self).misses() == old(self).misses()
                &&& final(self).hits() == old(self).hits()
            },
            old(self).misses().contains(idx_cell) ==> r == (None::<usize>, false, true),
            !old(self).covered(idx_cell as int) && !old(self).shot(idx_cell as int) ==> {
                &&& r == (None::<usize>, false, true)
                &&& final(self).ships() == old(self).ships()
                &&& final(self).misses() == old(self).misses().push(idx_cell)
                &&& final(self).hits() == old(self).hits()
            },
            old(self).covered(idx_cell as int) ==> {
                &&& r.1
                &&& r.0 matches Some(i) && i < old(self).ships().len()
                    && old(self).ships()[i as int].occupies(idx_cell as int)
                    && r.2 == final(self).ships()[i as int].alive()
                    && (!old(self).hits().contains(idx_cell) ==> {
                        &&& final(self).ships() == old(self).ships().update(i as int, final(self).ships()[i as int])
                        &&& final(self).ships()[i as int].hits().to_set() == old(self).ships()[i as int].hits().to_set().insert(idx_cell)
                        &&& final(self).misses() == old(self).misses()
                        &&& final(self).hits() == old(self).hits().push(idx_cell)
                    })
            },
    {
        if contains_cell(&self.misses_shots, idx_cell) {
            return (None, false, true);
        }
        match self.find_ship(idx_cell) {
            None => {
                proof {
                    if self.hits().contains(idx_cell) {
                        let i = choose|i: int| 0 <= i < self.ships().len() && (#[trigger] self.ships()[i]).hits().contains(idx_cell);
                        let k = choose|k: int| 0 <= k < self.ships()[i].hits().len() && self.ships()[i].hits()[k] == idx_cell;
                        assert(self.ships()[i].occupies(self.ships()[i].hits()[k] as int));
                    }
                }
                let ghost old_m = self.misses_shots@;
                self.misses_shots.push(idx_cell);
                proof {
                    lemma_push_contains(old_m, idx_cell);
                    assert forall|k: int| 0 <= k < self.misses().len() implies (#[trigger] self.misses()[k]) < 100
                        && !self.covered(self.misses()[k] as int) by {
                        if k < old_m.len() {
                            assert(self.misses()[k] == old_m[k]);
                        }
                    }
                    assert forall|a: int, b: int| 0 <= a < b < self.misses().len()
                        implies self.misses()[a] != self.misses()[b] by {
                        if b < old_m.len() {
                            assert(old_m[a] != old_m[b]);
                        } else {
                            assert(old_m[a] == self.misses()[a]);
                        }
                    }
                    assert(self.wf());
                }
                (None, false, true)
            }
            Some(i) => {
                if contains_cell(&self.fire_shots, idx_cell) {
                    let alive = self.ships[i].check_is_alive();
                    return (Some(i), true, alive);
                }
                let ghost old_ships = self.ships@;
                let ghost old_hits = self.fire_shots@;
                assert(!old_ships[i as int].hits().contains(idx_cell));
                let alive = self.ships[i].knock_down(idx_cell);
                self.fire_shots.push(idx_cell);
                proof {
                    lemma_push_contains(old_hits, idx_cell);
                    let ns = self.ships@;
                    assert(ns == old_ships.update(i as int, ns[i as int]));
                    assert forall|a: int, b: int| 0 <= a < ns.len() && 0 <= b < ns.len() && a != b
                        implies apart(#[trigger] ns[a], #[trigger] ns[b]) by {
                        assert(apart(old_ships[a], old_ships[b]));
                        assert forall|c: int| !(#[trigger] ns[a].occupies(c) && ns[b].in_box(c)) by {
                            assert(!(old_ships[a].occupies(c) && old_ships[b].in_box(c)));
                        }
                        assert forall|c: int| !(#[trigger] ns[b].occupies(c) && ns[a].in_box(c)) by {
                            assert(!(old_ships[b].occupies(c) && old_ships[a].in_box(c)));
                        }
                    }
                    assert forall|k: int| 0 <= k < self.misses().len() implies (#[trigger] self.misses()[k]) < 100
                        && !self.covered(self.misses()[k] as int) by {
                        let m = self.misses()[k] as int;
                        if self.covered(m) {
                            let j = choose|j: int| 0 <= j < ns.len() && (#[trigger] ns[j]).occupies(m);
                            assert(old_ships[j].occupies(m));
                        }
                    }
                    assert forall|c: usize| #[trigger] self.hits().contains(c) <==>
                        exists|j: int| 0 <= j < ns.len() && (#[trigger] ns[j]).hits().contains(c) by {
                        if c == idx_cell {
                            assert(ns[i as int].hits().to_set().contains(c));
                            assert(self.hits().last() == c);
                        } else {
                            if self.hits().contains(c) {
                                assert(old_hits.contains(c));
                                let j = choose|j: int| 0 <= j < old_ships.len() && (#[trigger] old_ships[j]).hits().contains(c);
                                if j == i {
                                    assert(old_ships[j].hits().to_set().contains(c));
                                    assert(ns[j].hits().to_set().contains(c));
                                } else {
                                    assert(ns[j] == old_ships[j]);
                                }
                            }
                            if exists|j: int| 0 <= j < ns.len() && (#[trigger] ns[j]).hits().contains(c) {
                                let j = choose|j: int| 0 <= j < ns.len() && (#[trigger] ns[j]).hits().contains(c);
                                if j == i {
                                    assert(ns[j].hits().to_set().contains(c));
                                    assert(old_ships[j].hits().to_set().contains(c));
                                    assert(old_ships[j].hits().contains(c));
                                } else {
                                    assert(old_ships[j].hits().contains(c));
                                }
                                assert(old_hits.contains(c));
                                let k = choose|k: int| 0 <= k < old_hits.len() && old_hits[k] == c;
                                assert(self.hits()[k] == c);
                            }
                        }
                    }
                    assert forall|j: int| 0 <= j < ns.len() implies (#[trigger] ns[j]).wf() by {
                        if j != i {
                            assert(ns[j] == old_ships[j]);
                        }
                    }
                    assert(self.hits().no_duplicates()) by {
                        assert forall|a: int, b: int| 0 <= a < self.hits().len() && 0 <= b < self.hits().len() && a != b
                            implies self.hits()[a] != self.hits()[b] by {
                            if a < old_hits.len() && b < old_hits.len() {
                                assert(old_hits[a] != old_hits[b]);
                            } else if a < old_hits.len() {
                                assert(old_hits.contains(old_hits[a]));
                            } else {
                                assert(old_hits.contains(old_hits[b]));
                            }
                        }
                    }
                    assert(self.wf());
                }
                (Some(i), true, alive)
            }
        }
    }

    /// Records `c`, a cell that no ship stands on, as a miss, once.
    pub fn mark_miss(&mut self, c: usize)
        requires
            old(self).wf(),
            c < 100,
            !old(self).covered(c as int),
        ensures
            final(self).wf(),
            final(self).ships() == old(self).ships(),
            final(self).hits() == old(self).hits(),
            final(self).name_view() == old(self).name_view(),
            final(self).manual() == old(self).manual(),
            old(self).misses().contains(c) ==> final(self).misses() == old(self).misses(),
            !old(self).misses().contains(c) ==> final(self).misses() == old(self).misses().push(c),
            final(self).misses().contains(c),
            forall|x: usize| old(self).misses().contains(x) ==> #[trigger] final(self).misses().contains(x),
    {
        if !contains_cell(&self.misses_shots, c) {
            proof {
                lemma_push_contains(self.misses_shots@, c);
            }
            self.misses_shots.push(c);
        }
    }

    /// The first wounded ship, if any.
    fn first_wounded_ship(&self) -> (r: Option<usize>)
        ensures
            r matches Some(w) ==> self.first_wounded(w as int),
            r is None ==> forall|k: int| 0 <= k < self.ships().len() ==> !wounded(#[trigger] self.ships()[k]),
    {
        let mut i: usize = 0;
        while i < self.ships.len()
            invariant
                i <= self.ships@.len(),
                forall|k: int| 0 <= k < i ==> !wounded(#[trigger] self.ships@[k]),
            decreases self.ships@.len() - i,
        {
            if self.ships[i].check_is_wounded() {
                return Some(i);
            }
            i = i + 1;
        }
        None
    }

    /// Appends `c` to `v` when it is a cell not shot yet.
    fn push_if_free(&self, v: &mut Vec<usize>, c: usize)
        requires
            c < 100,
            forall|k: int| 0 <= k < old(v)@.len() ==> (#[trigger] old(v)@[k]) < 100 && !self.shot(old(v)@[k] as int),
            old(v)@.no_duplicates(),
            !old(v)@.contains(c),
        ensures
            final(v)@.no_duplicates(),
            forall|x: usize| #[trigger] final(v)@.contains(x) <==> (old(v)@.contains(x) || (x == c && !self.shot(c as int))),
            forall|k: int| 0 <= k < final(v)@.len() ==> (#[trigger] final(v)@[k]) < 100 && !self.shot(final(v)@[k] as int),
    {
        let ghost before = v@;
        if !self.is_shot(c) {
            v.push(c);
            proof {
                assert forall|a: int, b: int| 0 <= a < v@.len() && 0 <= b < v@.len() && a != b implies v@[a] != v@[b] by {
                    if a < before.len() && b < before.len() {
                        assert(before[a] != before[b]);
                    } else if a < before.len() {
                        assert(before.contains(before[a]));
                    } else {
                        assert(before.contains(before[b]));
                    }
                }
                assert forall|x: usize| #[trigger] v@.contains(x) <==> (before.contains(x) || x == c) by {
                    if v@.contains(x) && x != c {
                        let k = choose|k: int| 0 <= k < v@.len() && v@[k] == x;
                        assert(before[k] == x);
                    }
                    if before.contains(x) {
                        let k = choose|k: int| 0 <= k < before.len() && before[k] == x;
                        assert(v@[k] == x);
                    }
                    if x == c {
                        assert(v@[before.len() as int] == x);
                    }
                }
            }
        }
    }

    /// Cells that targeting picks from: around the first wounded ship's
    /// single hit, or at either end of its run of hits. Empty when no ship
    /// is wounded.
    pub fn target_candidates(&self) -> (r: Vec<usize>)
        requires
            self.wf(),
        ensures
            forall|c: usize| r@.contains(c) <==> self.target_cell(c as int),
            forall|k: int| 0 <= k < r@.len() ==> (#[trigger] r@[k]) < 100 && !self.shot(r@[k] as int),
            r@.no_duplicates(),
    {
        let mut v: Vec<usize> = Vec::new();
        match self.first_wounded_ship() {
            None => {
                proof {
                    assert forall|c: usize| !self.target_cell(c as int) by {
                        if self.target_cell(c as int) {
                            let w = choose|w: int| #[trigger] self.first_wounded(w);
                            assert(wounded(self.ships()[w]));
                        }
                    }
                }
                v
            }
            Some(w) => {
                let hits = self.ships[w].get_fire_cell_idxes();
                let ghost ship = self.ships@[w as int];
                proof {
                    assert(ship.wf());
                    assert(ship.occupies(hits@[0] as int));
                    assert(ship.occupies(hits@.last() as int));
                    assert forall|w2: int| #[trigger] self.first_wounded(w2) implies w2 == w by {
                        if w2 < w {
                            assert(!wounded(self.ships()[w2]));
                        } else if w2 > w {
                            assert(!wounded(self.ships()[w as int]));
                        }
                    }
                }
                if hits.len() == 1 {
                    let h = hits[0];
                    if h / 10 > 0 {
                        self.push_if_free(&mut v, h - 10);
                    }
                    if h / 10 < 9 {
                        self.push_if_free(&mut v, h + 10);
                    }
                    if h % 10 > 0 {
                        self.push_if_free(&mut v, h - 1);
                    }
                    if h % 10 < 9 {
                        self.push_if_free(&mut v, h + 1);
                    }
                    proof {
                        assert forall|c: usize| v@.contains(c) <==> self.target_cell(c as int) by {
                            if self.target_cell(c as int) {
                                let w2 = choose|w2: int| #[trigger] self.first_wounded(w2) && 0 <= c < 100 && !self.shot(c as int)
                                    && if self.ships()[w2].hits().len() == 1 {
                                        orthogonal(self.ships()[w2].hits()[0] as int, c as int)
                                    } else {
                                        extends_run(self.ships()[w2].hits(), c as int)
                                    };
                                assert(w2 == w);
                            }
                            if v@.contains(c) {
                                assert(self.first_wounded(w as int));
                            }
                        }
                    }
                } else {
                    let f = hits[0];
                    let l = hits[hits.len() - 1];
                    if f % 10 == hits[1] % 10 {
                        if f / 10 > 0 {
                            self.push_if_free(&mut v, f - 10);
                        }
                        if l / 10 < 9 {
                            self.push_if_free(&mut v, l + 10);
                        }
                    } else {
                        if f % 10 > 0 {
                            self.push_if_free(&mut v, f - 1);
                        }
                        if l % 10 < 9 {
                            self.push_if_free(&mut v, l + 1);
                        }
                    }
                    proof {
                        assert forall|c: usize| v@.contains(c) <==> self.target_cell(c as int) by {
                            if self.target_cell(c as int) {
                                let w2 = choose|w2: int| #[trigger] self.first_wounded(w2) && 0 <= c < 100 && !self.shot(c as int)
                                    && if self.ships()[w2].hits().len() == 1 {
                                        orthogonal(self.ships()[w2].hits()[0] as int, c as int)
                                    } else {
                                        extends_run(self.ships()[w2].hits(), c as int)
                                    };
                                assert(w2 == w);
                            }
                            if v@.contains(c) {
                                assert(self.first_wounded(w as int));
                            }
                        }
                    }
                }
                v
            }
        }
    }

    /// The lowest cell not shot yet, if any.
    pub fn first_unshot_cell(&self) -> (r: Option<usize>)
        ensures
            r matches Some(c) ==> c < 100 && !self.shot(c as int) && forall|d: int| 0 <= d < c ==> self.shot(d),
            r is None ==> forall|d: int| 0 <= d < 100 ==> self.shot(d),
    {
        let mut c: usize = 0;
        while c < 100
            invariant
                c <= 100,
                forall|d: int| 0 <= d < c ==> self.shot(d),
            decreases 100 - c,
        {
            if !self.is_shot(c) {
                return Some(c);
            }
            c = c + 1;
        }
        None
    }

    /// Picks the next cell to fire at this player's field: at random among
    /// the target candidates when there are any, otherwise a random cell not
    /// shot yet, and after a bounded number of tries the lowest such cell.
    pub fn generate_new_auto_shot_idx(&self, rng: &mut StdRng) -> (r: Option<usize>)
        requires
            self.wf(),
        ensures
            r matches Some(c) ==> c < 100 && !self.shot(c as int),
            (exists|c: int| self.target_cell(c)) ==> (r matches Some(c) && self.target_cell(c as int)),
            r is None <==> forall|d: int| 0 <= d < 100 ==> self.shot(d),
    {
        let variant_shot = self.target_candidates();
        if variant_shot.len() != 0 {
            let k = random_below(rng, variant_shot.len());
            let c = variant_shot[k];
            assert(variant_shot@.contains(c));
            assert(self.target_cell(c as int));
            return Some(c);
        }
        proof {
            assert forall|c: int| !self.target_cell(c) by {
                if self.target_cell(c) {
                    assert((c as usize) as int == c);
                    assert(!variant_shot@.contains(c as usize));
                }
            }
        }
        let mut count: usize = 0;
        while count < HUNT_ATTEMPTS
            invariant
                count <= HUNT_ATTEMPTS,
                forall|c: int| !self.target_cell(c),
            decreases HUNT_ATTEMPTS - count,
        {
            let c = random_below(rng, 100);
            if !self.is_shot(c) {
                return Some(c);
            }
            count = count + 1;
        }
        let r = self.first_unshot_cell();
        proof {
            if r is None {
                assert(forall|d: int| 0 <= d < 100 ==> self.shot(d));
            }
        }
        r
    }
}

} // verus!
