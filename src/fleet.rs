use crate::grid::{cell, col, lemma_join, lemma_split, near, row};
use crate::random::{random_below, random_bool};
use crate::ship::Ship;
use rand::rngs::StdRng;
use vstd::prelude::*;

verus! {

/// Errors of the engine.
#[derive(Debug, Clone, Copy, PartialEq, Eq)]
pub enum GameError {
    /// A cell index outside the grid.
    OutOfBounds,
    /// Random placement gave up on a ship; generate the fleet again from scratch.
    PlacementExhausted,
    /// A shot at the field that is not the defender's this turn.
    StaleShot,
    /// The game is already decided.
    GameFinished,
}

/// How many random placements are tried for one ship before giving up.
pub const MAX_PLACEMENT_ATTEMPTS: usize = 10000;

/// Sizes of the fleet's ships, in placement order.
pub open spec fn fleet_sizes() -> Seq<int> {
    seq![4, 3, 3, 2, 2, 2, 1, 1, 1, 1]
}

pub fn fleet_size_at(i: usize) -> (r: usize)
    requires
        i < 10,
    ensures
        r == fleet_sizes()[i as int],
{
    if i == 0 { 4 } else if i < 3 { 3 } else if i < 6 { 2 } else { 1 }
}

/// Neither ship touches the other's grown bounding box: no shared and no neighbouring cell.
pub open spec fn apart(s: Ship, t: Ship) -> bool {
    &&& forall|c: int| !(#[trigger] s.occupies(c) && t.in_box(c))
    &&& forall|c: int| !(#[trigger] t.occupies(c) && s.in_box(c))
}

/// Every two distinct ships of `ships` are apart.
pub open spec fn all_apart(ships: Seq<Ship>) -> bool {
    forall|i: int, j: int| 0 <= i < ships.len() && 0 <= j < ships.len() && i != j ==> apart(#[trigger] ships[i], #[trigger] ships[j])
}

/// A freshly placed standard fleet.
pub open spec fn fleet_ok(ships: Seq<Ship>) -> bool {
    &&& ships.len() == 10
    &&& forall|i: int| 0 <= i < 10 ==> (#[trigger] ships[i]).wf() && ships[i].intact() && ships[i].len() == fleet_sizes()[i]
    &&& all_apart(ships)
}

/// A cell in a ship's grown bounding box is next to one of its cells.
pub proof fn lemma_box_near(s: Ship, a: int)
    requires
        s.wf(),
        s.in_box(a),
    ensures
        exists|b: int| s.occupies(b) && near(a, b),
{
    lemma_split(a);
    lemma_split(s.first());
    let r = if row(a) < row(s.first()) { row(s.first()) } else if row(a) > s.last_row() { s.last_row() } else { row(a) };
    let c = if col(a) < col(s.first()) { col(s.first()) } else if col(a) > s.last_col() { s.last_col() } else { col(a) };
    lemma_join(r, c);
    assert(s.occupies(cell(r, c)) && near(a, cell(r, c)));
}

/// Ships that are apart share no cell and have no neighbouring cells.
pub proof fn lemma_apart_separated(s: Ship, t: Ship, a: int, b: int)
    requires
        s.wf(),
        t.wf(),
        apart(s, t),
        s.occupies(a),
        t.occupies(b),
    ensures
        a != b,
        !near(a, b),
{
    if near(a, b) {
        t.lemma_near_in_box(b, a);
        assert(s.occupies(a) && t.in_box(a));
    }
}

/// Every generated fleet has ten ships of the standard sizes, no two of
/// which share a cell or stand on neighbouring cells.
pub proof fn lemma_generated_fleet(ships: Seq<Ship>, i: int, j: int, a: int, b: int)
    requires
        fleet_ok(ships),
        0 <= i < 10,
        0 <= j < 10,
        i != j,
        ships[i].occupies(a),
        ships[j].occupies(b),
    ensures
        ships.len() == 10,
        ships.map_values(|s: Ship| s.len()) =~= fleet_sizes(),
        a != b,
        !near(a, b),
{
    assert(apart(ships[i], ships[j]));
    lemma_apart_separated(ships[i], ships[j], a, b);
}

/// The cells a ship at `first` would stand on are all unmarked in `busy`.
pub open spec fn footprint_free(busy: Seq<bool>, first: int, horizontal: bool, size: int) -> bool {
    forall|i: int| 0 <= i < size ==> !busy[#[trigger] deck_at(first, horizontal, i)]
}

/// The `i`-th cell of a ship whose first deck is `first`.
pub open spec fn deck_at(first: int, horizontal: bool, i: int) -> int {
    if horizontal { first + i } else { first + 10 * i }
}

/// Places a ship of `size` cells with its first deck at row `r0`, column
/// `c0`, if none of its cells is marked in `busy`; then marks the ship and
/// its buffer ring, so that no later ship can touch it.
pub fn try_place(busy: &mut Vec<bool>, size: usize, horizontal: bool, r0: usize, c0: usize) -> (r: Option<Ship>)
    requires
        old(busy)@.len() == 100,
        1 <= size <= 4,
        r0 < 10,
        c0 < 10,
        horizontal ==> c0 + size <= 10,
        !horizontal ==> r0 + size <= 10,
    ensures
        final(busy)@.len() == 100,
        r is Some <==> footprint_free(old(busy)@, r0 * 10 + c0, horizontal, size as int),
        r is None ==> final(busy)@ == old(busy)@,
        r matches Some(s) ==> {
            &&& s.first() == r0 * 10 + c0
            &&& s.horizontal() == horizontal
            &&& s.len() == size
            &&& s.intact()
            &&& s.wf()
            &&& forall|c: int| 0 <= c < 100 ==> #[trigger] final(busy)@[c] == (old(busy)@[c] || s.in_box(c))
        },
{
    let first = r0 * 10 + c0;
    proof {
        lemma_join(r0 as int, c0 as int);
    }
    let ghost old_busy = busy@;
    let ship = Ship::new(first, horizontal, size);
    let area = ship.get_area_ship();
    let mut k: usize = 0;
    while k < area.len()
        invariant
            area@ == ship.area(),
            ship.wf(),
            ship.first() == first,
            first == r0 * 10 + c0,
            ship.horizontal() == horizontal,
            ship.len() == size,
            busy@ == old_busy,
            busy@.len() == 100,
            k <= area@.len(),
            forall|m: int| 0 <= m < k ==> !busy@[area@[m] as int],
        decreases area@.len() - k,
    {
        proof {
            ship.lemma_area(area@[k as int] as int);
        }
        if busy[area[k]] {
            proof {
                assert(!footprint_free(old_busy, first as int, horizontal, size as int)) by {
                    assert(area@[k as int] == ship.deck(k as int) as usize);
                    assert(ship.deck(k as int) == deck_at(first as int, horizontal, k as int));
                    assert(area@[k as int] as int == deck_at(first as int, horizontal, k as int));
                }
                assert(first as int == r0 * 10 + c0);
                assert(!footprint_free(old(busy)@, r0 * 10 + c0, horizontal, size as int));
            }
            return None;
        }
        k = k + 1;
    }
    proof {
        assert forall|i: int| 0 <= i < size implies !old_busy[#[trigger] deck_at(first as int, horizontal, i)] by {
            assert(area@[i] == ship.deck(i) as usize);
            assert(ship.deck(i) == deck_at(first as int, horizontal, i));
        }
        assert(first as int == r0 * 10 + c0);
    }
    let ring = ship.get_area_near_ship(Some(area.clone()));
    let mut k: usize = 0;
    while k < area.len()
        invariant
            area@ == ship.area(),
            ship.wf(),
            busy@.len() == 100,
            old_busy.len() == 100,
            k <= area@.len(),
            forall|m: int| 0 <= m < k ==> busy@[#[trigger] area@[m] as int],
            forall|c: int| 0 <= c < 100 ==> #[trigger] busy@[c] == (old_busy[c] || (ship.in_box(c) && busy@[c])),
            forall|c: int| 0 <= c < 100 && old_busy[c] ==> #[trigger] busy@[c],
        decreases area@.len() - k,
    {
        proof {
            ship.lemma_area(area@[k as int] as int);
        }
        busy.set(area[k], true);
        k = k + 1;
    }
    let mut k: usize = 0;
    while k < ring.len()
        invariant
            area@ == ship.area(),
            ship.wf(),
            busy@.len() == 100,
            old_busy.len() == 100,
            k <= ring@.len(),
            forall|m: int| 0 <= m < ring@.len() ==> ship.in_ring(#[trigger] ring@[m] as int),
            forall|m: int| 0 <= m < area@.len() ==> busy@[#[trigger] area@[m] as int],
            forall|m: int| 0 <= m < k ==> busy@[#[trigger] ring@[m] as int],
            forall|c: int| 0 <= c < 100 ==> #[trigger] busy@[c] == (old_busy[c] || (ship.in_box(c) && busy@[c])),
            forall|c: int| 0 <= c < 100 && old_busy[c] ==> #[trigger] busy@[c],
        decreases ring@.len() - k,
    {
        busy.set(ring[k], true);
        k = k + 1;
    }
    proof {
        assert forall|c: int| 0 <= c < 100 implies #[trigger] busy@[c] == (old_busy[c] || ship.in_box(c)) by {
            if ship.in_box(c) {
                if ship.occupies(c) {
                    ship.lemma_area(c);
                    let m = choose|m: int| 0 <= m < area@.len() && area@[m] == c as usize;
                    assert(busy@[area@[m] as int]);
                } else {
                    assert(ship.in_ring(c));
                    let m = choose|m: int| 0 <= m < ring@.len() && ring@[m] == c as usize;
                    assert(busy@[ring@[m] as int]);
                }
            }
        }
    }
    Some(ship)
}

/// Places the standard fleet at random, no ship touching another.
pub fn get_default_fleet(rng: &mut StdRng) -> (r: Result<Vec<Ship>, GameError>)
    ensures
        match r {
            Ok(ships) => fleet_ok(ships@),
            Err(e) => e == GameError::PlacementExhausted,
        },
{
    let mut ships: Vec<Ship> = Vec::new();
    let mut busy: Vec<bool> = Vec::new();
    let mut n: usize = 0;
    while n < 100
        invariant
            n <= 100,
            busy@.len() == n,
            forall|c: int| 0 <= c < n ==> !busy@[c],
        decreases 100 - n,
    {
        busy.push(false);
        n = n + 1;
    }
    let mut s: usize = 0;
    while s < 10
        invariant
            s <= 10,
            ships@.len() == s,
            busy@.len() == 100,
            forall|i: int| 0 <= i < s ==> (#[trigger] ships@[i]).wf() && ships@[i].intact() && ships@[i].len() == fleet_sizes()[i],
            all_apart(ships@),
            forall|c: int, k: int| 0 <= k < s && #[trigger] ships@[k].in_box(c) ==> #[trigger] busy@[c],
        decreases 10 - s,
    {
        let size = fleet_size_at(s);
        let mut attempts: usize = 0;
        let mut placed = false;
        while !placed
            invariant
                s < 10,
                size == fleet_sizes()[s as int],
                busy@.len() == 100,
                attempts <= MAX_PLACEMENT_ATTEMPTS,
                !placed ==> ships@.len() == s,
                placed ==> ships@.len() == s + 1,
                forall|i: int| 0 <= i < ships@.len() ==> (#[trigger] ships@[i]).wf() && ships@[i].intact() && ships@[i].len() == fleet_sizes()[i],
                all_apart(ships@),
                forall|c: int, k: int| 0 <= k < ships@.len() && #[trigger] ships@[k].in_box(c) ==> #[trigger] busy@[c],
            decreases MAX_PLACEMENT_ATTEMPTS - attempts,
        {
            if attempts == MAX_PLACEMENT_ATTEMPTS {
                return Err(GameError::PlacementExhausted);
            }
            attempts = attempts + 1;
            let horizontal = random_bool(rng);
            let (r0, c0) = if horizontal {
                let c0 = random_below(rng, 11 - size);
                let r0 = random_below(rng, 10);
                (r0, c0)
            } else {
                let r0 = random_below(rng, 11 - size);
                let c0 = random_below(rng, 10);
                (r0, c0)
            };
            let ghost old_busy = busy@;
            match try_place(&mut busy, size, horizontal, r0, c0) {
                Some(ship) => {
                    proof {
                        assert forall|i: int| 0 <= i < ships@.len() implies apart(#[trigger] ships@[i], ship) by {
                            let t = ships@[i];
                            assert forall|c: int| !(#[trigger] ship.occupies(c) && t.in_box(c)) by {
                                if ship.occupies(c) {
                                    ship.lemma_area(c);
                                    let m = choose|m: int| 0 <= m < ship.area().len() && ship.area()[m] == c as usize;
                                    assert(ship.deck(m) == deck_at(ship.first(), ship.horizontal(), m));
                                    assert(!old_busy[deck_at(ship.first(), ship.horizontal(), m)]);
                                }
                            }
                            assert forall|c: int| !(#[trigger] t.occupies(c) && ship.in_box(c)) by {
                                if t.occupies(c) && ship.in_box(c) {
                                    lemma_box_near(ship, c);
                                    let b = choose|b: int| ship.occupies(b) && near(c, b);
                                    t.lemma_near_in_box(c, b);
                                    assert(!(ship.occupies(b) && t.in_box(b)));
                                }
                            }
                        }
                    }
                    let ghost before = ships@;
                    ships.push(ship);
                    proof {
                        assert forall|i: int, j: int| 0 <= i < ships@.len() && 0 <= j < ships@.len() && i != j
                            implies apart(#[trigger] ships@[i], #[trigger] ships@[j]) by {
                            if i < before.len() && j < before.len() {
                                assert(apart(before[i], before[j]));
                            } else if i < before.len() {
                                assert(apart(before[i], ship));
                            } else {
                                assert(apart(before[j], ship));
                            }
                        }
                        assert forall|c: int, k: int| 0 <= k < ships@.len() && #[trigger] ships@[k].in_box(c) implies #[trigger] busy@[c] by {
                            if k < before.len() {
                                assert(before[k] == ships@[k]);
                                assert(old_busy[c]);
                            }
                        }
                    }
                    placed = true;
                },
                None => {},
            }
        }
        s = s + 1;
    }
    Ok(ships)
}

} // verus!
