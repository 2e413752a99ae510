use crate::fleet::{apart, GameError};
use crate::grid::lemma_push_contains;
use crate::player::Player;
use vstd::prelude::*;
use rand::rngs::StdRng;

verus! {

/// What a cell shows.
#[derive(Debug, Clone, Copy, PartialEq, Eq)]
pub enum State {
    /// Nothing known.
    Blank,
    /// Shot, no ship there.
    Miss,
    /// A ship's deck, not hit.
    Deck,
    /// A ship's deck that was hit.
    Fire,
}

/// A change the view layer is told about.
#[derive(Debug, Clone, PartialEq, Eq)]
pub enum Notification {
    /// Field number (1 or 2), cell index, new state.
    CellChanged(usize, usize, State),
    TurnChanged,
    /// Name of the winner.
    GameOver(String),
}

/// Every ship of `p` is sunk.
pub open spec fn all_sunk(p: Player) -> bool {
    forall|i: int| 0 <= i < p.ships().len() ==> !(#[trigger] p.ships()[i]).alive()
}

/// Two players taking turns to fire at each other's field. Field 1 belongs
/// to the first player, field 2 to the second.
pub struct PlayBoard {
    first_player: Player,
    second_player: Player,
    whose_move: bool,
    game_over: bool,
}

/// The defender's ring cells around ship `r.0`, when the shot `r` sank it.
pub open spec fn sunk_ring(p0: Player, r: (Option<usize>, bool, bool), x: int) -> bool {
    r.0 matches Some(i) && !r.2 && i < p0.ships().len() && p0.ships()[i as int].in_ring(x)
}

/// A shot at `c` turned the defender `p0` into `p1`, with outcome `r` (ship
/// hit, hit, ship still afloat): the shot is resolved as
/// `Player::process_a_shot` does, and the ring of a ship it sank is
/// recorded as missed.
pub open spec fn fired(p0: Player, p1: Player, c: usize, r: (Option<usize>, bool, bool)) -> bool {
    &&& p1.wf()
    &&& p1.rings_missed()
    &&& p1.name_view() == p0.name_view()
    &&& p1.manual() == p0.manual()
    &&& p1.ships().len() == p0.ships().len()
    &&& forall|i: int| 0 <= i < p0.ships().len() ==> {
        &&& (#[trigger] p1.ships()[i]).first() == p0.ships()[i].first()
        &&& p1.ships()[i].horizontal() == p0.ships()[i].horizontal()
        &&& p1.ships()[i].len() == p0.ships()[i].len()
    }
    &&& p1.shot(c as int)
    &&& forall|x: int| p0.shot(x) ==> p1.shot(x)
    &&& p1.misses().len() + p1.hits().len() >= p0.misses().len() + p0.hits().len()
    &&& !p0.shot(c as int) ==> p1.misses().len() + p1.hits().len() > p0.misses().len() + p0.hits().len()
    &&& p0.misses().contains(c) ==> {
        &&& r == (None::<usize>, false, true)
        &&& p1.ships() == p0.ships()
        &&& p1.misses() == p0.misses()
        &&& p1.hits() == p0.hits()
    }
    &&& !p0.covered(c as int) && !p0.shot(c as int) ==> {
        &&& r == (None::<usize>, false, true)
        &&& p1.ships() == p0.ships()
        &&& p1.misses() == p0.misses().push(c)
        &&& p1.hits() == p0.hits()
    }
    &&& p0.covered(c as int) ==> {
        &&& r.1
        &&& r.0 matches Some(i) && i < p0.ships().len() && p0.ships()[i as int].occupies(c as int)
            && r.2 == p1.ships()[i as int].alive()
            && (p0.hits().contains(c) ==> p1.ships() == p0.ships() && p1.hits() == p0.hits())
            && (!p0.hits().contains(c) ==> {
                &&& p1.ships() == p0.ships().update(i as int, p1.ships()[i as int])
                &&& p1.ships()[i as int].hits().to_set() == p0.ships()[i as int].hits().to_set().insert(c)
                &&& p1.hits() == p0.hits().push(c)
            })
        &&& forall|x: usize| #[trigger] p1.misses().contains(x) <==> (p0.misses().contains(x) || sunk_ring(p0, r, x as int))
    }
}

/// The notifications of a shot at `c` on `field`: a Miss for each ring cell
/// of a ship it sank, each once, then the shot cell itself.
pub open spec fn fire_events(p0: Player, c: usize, r: (Option<usize>, bool, bool), field: usize, ev: Seq<Notification>) -> bool {
    &&& ev.len() >= 1
    &&& ev.last() == Notification::CellChanged(field, c, if r.1 { State::Fire } else { State::Miss })
    &&& ev.drop_last().no_duplicates()
    &&& forall|k: int| 0 <= k < ev.len() - 1 ==> (#[trigger] ev[k] matches Notification::CellChanged(f, x, st)
        && f == field && st == State::Miss && sunk_ring(p0, r, x as int))
    &&& forall|x: int| #[trigger] sunk_ring(p0, r, x) ==> ev.drop_last().contains(Notification::CellChanged(field, x as usize, State::Miss))
}

/// Fires at `defender`'s field `field`; on a sinking hit the ring around
/// the ship is recorded as missed. Returns the outcome of the shot.
#[verifier::spinoff_prover]
#[verifier::rlimit(60)]
fn fire_at(defender: &mut Player, idx_cell: usize, field: usize, events: &mut Vec<Notification>) -> (r: (Option<usize>, bool, bool))
    requires
        old(defender).wf(),
        old(defender).rings_missed(),
        idx_cell < 100,
    ensures
        fired(*old(defender), *final(defender), idx_cell, r),
        final(events)@.len() > old(events)@.len(),
        final(events)@.take(old(events)@.len() as int) == old(events)@,
        fire_events(*old(defender), idx_cell, r, field, final(events)@.skip(old(events)@.len() as int)),
{
    let ghost p0 = *defender;
    let ghost ev0 = events@;
    let r = defender.process_a_shot(idx_cell);
    let (number_ship, hit, alive) = r;
    let ghost p1 = *defender;
    proof {
        assert forall|j: int, c: int| 0 <= j < p1.ships().len() && !p1.ships()[j].alive()
            && #[trigger] p1.ships()[j].in_ring(c) && !(number_ship matches Some(i) && i as int == j)
            implies p1.misses().contains(c as usize) by {
            assert(p1.ships()[j] == p0.ships()[j]);
            assert(p0.ships()[j].in_ring(c));
            assert(p0.misses().contains(c as usize));
        }
    }
    let ghost mut ring_g: Seq<usize> = Seq::empty();
    if !alive {
        match number_ship {
            Some(i) => {
                let ring = defender.get_ship_by_idx_as_mut_ref(i).unwrap().get_area_near_ship(None);
                let ghost ship = defender.ships()[i as int];
                let mut k: usize = 0;
                while k < ring.len()
                    invariant
                        defender.wf(),
                        p1.wf(),
                        i < p1.ships().len(),
                        ship == p1.ships()[i as int],
                        defender.ships() == p1.ships(),
                        defender.hits() == p1.hits(),
                        defender.name_view() == p1.name_view(),
                        defender.manual() == p1.manual(),
                        forall|c: int| p1.shot(c) ==> defender.shot(c),
                        forall|x: usize| #[trigger] defender.misses().contains(x) <==>
                            (p1.misses().contains(x) || ring@.take(k as int).contains(x)),
                        defender.misses().len() >= p1.misses().len(),
                        forall|m: int| 0 <= m < ring@.len() ==> ship.in_ring(#[trigger] ring@[m] as int),
                        forall|c: int| #[trigger] ship.in_ring(c) ==> ring@.contains(c as usize),
                        ring@.no_duplicates(),
                        k <= ring@.len(),
                        events@.len() == ev0.len() + k,
                        events@.take(ev0.len() as int) == ev0,
                        forall|m: int| 0 <= m < k ==> #[trigger] events@[ev0.len() + m] == Notification::CellChanged(field, ring@[m], State::Miss),
                    decreases ring@.len() - k,
                {
                    let c = ring[k];
                    proof {
                        assert(ship.in_ring(c as int));
                        assert forall|j: int| 0 <= j < p1.ships().len() implies !(#[trigger] p1.ships()[j]).occupies(c as int) by {
                            if j != i {
                                assert(apart(p1.ships()[j], ship));
                            }
                        }
                    }
                    let ghost before = defender.misses();
                    defender.mark_miss(c);
                    let ghost ev_before = events@;
                    events.push(Notification::CellChanged(field, c, State::Miss));
                    proof {
                        assert(ring@.take(k + 1) =~= ring@.take(k as int).push(c));
                        assert forall|x: usize| #[trigger] defender.misses().contains(x) <==>
                            (p1.misses().contains(x) || ring@.take(k + 1).contains(x)) by {
                            lemma_push_contains(ring@.take(k as int), c);
                            if x != c {
                                if defender.misses().contains(x) && !before.contains(c) {
                                    let q = choose|q: int| 0 <= q < defender.misses().len() && defender.misses()[q] == x;
                                    assert(before[q] == x);
                                }
                                assert(defender.misses().contains(x) <==> before.contains(x));
                                let tk = ring@.take(k + 1);
                                if tk.contains(x) {
                                    let q = choose|q: int| 0 <= q < tk.len() && tk[q] == x;
                                    assert(ring@.take(k as int)[q] == x);
                                }
                                assert(tk.contains(x) <==> ring@.take(k as int).contains(x));
                            }
                        }
                        assert forall|m: int| 0 <= m < k + 1 implies #[trigger] events@[ev0.len() + m] == Notification::CellChanged(field, ring@[m], State::Miss) by {
                            if m < k {
                                assert(ev_before[ev0.len() + m] == events@[ev0.len() + m]);
                            }
                        }
                        assert(events@.take(ev0.len() as int) =~= ev_before.take(ev0.len() as int));
                    }
                    k = k + 1;
                }
                proof {
                    assert(ring@.take(ring@.len() as int) =~= ring@);
                    ring_g = ring@;
                    assert forall|j: int, c: int| 0 <= j < defender.ships().len() && !defender.ships()[j].alive()
                        && #[trigger] defender.ships()[j].in_ring(c) implies defender.misses().contains(c as usize) by {
                        if j != i {
                            assert(p1.misses().contains(c as usize));
                        }
                    }
                    assert forall|x: int| #[trigger] sunk_ring(p0, r, x) implies ring_g.contains(x as usize) by {
                        assert(ship.in_ring(x));
                    }
                    assert forall|m: int| 0 <= m < ring_g.len() implies #[trigger] sunk_ring(p0, r, ring_g[m] as int) by {
                        assert(ship.in_ring(ring_g[m] as int));
                    }
                    assert(forall|x: usize| #[trigger] defender.misses().contains(x) <==> (p1.misses().contains(x) || ring_g.contains(x)));
                    assert(events@.len() == ev0.len() + ring_g.len());
                    assert(forall|m: int| 0 <= m < ring_g.len() ==> #[trigger] events@[ev0.len() + m] == Notification::CellChanged(field, ring_g[m], State::Miss));
                }
            },
            None => {},
        }
    } else {
        proof {
            assert forall|j: int, c: int| 0 <= j < defender.ships().len() && !defender.ships()[j].alive()
                && #[trigger] defender.ships()[j].in_ring(c) implies defender.misses().contains(c as usize) by {
                if number_ship matches Some(i) && i as int == j {
                    assert(*defender == p1);
                }
            }
            assert(events@.take(ev0.len() as int) =~= ev0);
        }
    }
    proof {
        assert(events@.len() == ev0.len() + ring_g.len());
        assert(forall|m: int| 0 <= m < ring_g.len() ==> #[trigger] events@[ev0.len() + m] == Notification::CellChanged(field, ring_g[m], State::Miss));
        assert(forall|x: usize| #[trigger] defender.misses().contains(x) <==> (p1.misses().contains(x) || ring_g.contains(x)));
    }
    let ghost ev_mid = events@;
    events.push(Notification::CellChanged(field, idx_cell, if hit { State::Fire } else { State::Miss }));
    proof {
        let ev = events@.skip(ev0.len() as int);
        assert(events@.take(ev0.len() as int) =~= ev_mid.take(ev0.len() as int));
        assert(ev.drop_last() =~= ev_mid.skip(ev0.len() as int));
        assert forall|m: int| 0 <= m < ring_g.len() implies #[trigger] ev.drop_last()[m] == Notification::CellChanged(field, ring_g[m], State::Miss) by {
            assert(ev_mid[ev0.len() + m] == Notification::CellChanged(field, ring_g[m], State::Miss));
        }
        assert forall|k: int| 0 <= k < ev.len() - 1 implies (#[trigger] ev[k] matches Notification::CellChanged(f, x, st)
            && f == field && st == State::Miss && sunk_ring(p0, r, x as int)) by {
            assert(ev[k] == ev.drop_last()[k]);
            assert(sunk_ring(p0, r, ring_g[k] as int));
        }
        if p0.covered(idx_cell as int) {
        assert forall|x: usize| #[trigger] defender.misses().contains(x) <==> (p0.misses().contains(x) || sunk_ring(p0, r, x as int)) by {
            if sunk_ring(p0, r, x as int) {
                assert(ring_g.contains(x));
            }
            if ring_g.contains(x) {
                let m = choose|m: int| 0 <= m < ring_g.len() && ring_g[m] == x;
                assert(sunk_ring(p0, r, ring_g[m] as int));
            }
        }
        }
        assert forall|x: int| #[trigger] sunk_ring(p0, r, x) implies ev.drop_last().contains(Notification::CellChanged(field, x as usize, State::Miss)) by {
            assert(ring_g.contains(x as usize));
            let m = choose|m: int| 0 <= m < ring_g.len() && ring_g[m] == x as usize;
            assert(ev.drop_last()[m] == Notification::CellChanged(field, x as usize, State::Miss));
        }
        assert forall|a: int, b: int| 0 <= a < ev.drop_last().len() && 0 <= b < ev.drop_last().len() && a != b
            implies ev.drop_last()[a] != ev.drop_last()[b] by {
            assert(ring_g[a] != ring_g[b]);
        }
    }
    r
}

impl PlayBoard {
    pub closed spec fn first(&self) -> Player {
        self.first_player
    }

    pub closed spec fn second(&self) -> Player {
        self.second_player
    }

    /// `true` while it is the first player's turn (firing at field 2).
    pub closed spec fn first_moves(&self) -> bool {
        self.whose_move
    }

    pub closed spec fn over(&self) -> bool {
        self.game_over
    }

    pub open spec fn wf(&self) -> bool {
        &&& self.first().wf()
        &&& self.second().wf()
        &&& self.first().rings_missed()
        &&& self.second().rings_missed()
        &&& self.over() == (all_sunk(self.first()) || all_sunk(self.second()))
    }

    /// A player has no ship afloat exactly when the game is over, and the
    /// other player is then the winner.
    pub proof fn lemma_game_over(&self)
        requires
            self.wf(),
        ensures
            self.over() <==> (all_sunk(self.first()) || all_sunk(self.second())),
            self.over() ==> self.winner() == if all_sunk(self.first()) { self.second().name_view() } else { self.first().name_view() },
    {
    }

    /// Name of the winner, once the game is over.
    pub open spec fn winner(&self) -> Seq<char> {
        if all_sunk(self.first()) { self.second().name_view() } else { self.first().name_view() }
    }

    /// A game between two players; the first one moves first.
    pub fn new(first_player: Player, second_player: Player) -> (r: PlayBoard)
        requires
            first_player.wf(),
            second_player.wf(),
            first_player.rings_missed(),
            second_player.rings_missed(),
        ensures
            r.wf(),
            r.first() == first_player,
            r.second() == second_player,
            r.first_moves(),
    {
        let a = first_player.get_num_living_ships() == 0;
        let b = second_player.get_num_living_ships() == 0;
        PlayBoard { first_player, second_player, whose_move: true, game_over: a || b }
    }

    pub fn get_first_player(&self) -> (r: &Player)
        ensures
            r == self.first(),
    {
        &self.first_player
    }

    pub fn get_second_player(&self) -> (r: &Player)
        ensures
            r == self.second(),
    {
        &self.second_player
    }

    pub fn is_first_player_turn(&self) -> (r: bool)
        ensures
            r == self.first_moves(),
    {
        self.whose_move
    }

    pub fn is_game_over(&self) -> (r: bool)
        ensures
            r == self.over(),
    {
        self.game_over
    }

    /// The field under fire this turn.
    pub open spec fn defender_field(&self) -> usize {
        if self.first_moves() { 2 } else { 1 }
    }

    /// The player whose turn it is.
    pub open spec fn attacker(&self) -> Player {
        if self.first_moves() { self.first() } else { self.second() }
    }

    /// The player being fired at this turn.
    pub open spec fn defender(&self) -> Player {
        if self.first_moves() { self.second() } else { self.first() }
    }

    /// Total number of shots recorded on both fields.
    pub open spec fn shots_total(&self) -> int {
        (self.first().misses().len() + self.first().hits().len() + self.second().misses().len() + self.second().hits().len()) as int
    }

    /// Whether the player whose turn it is plays by hand.
    pub fn mover_is_manual(&self) -> (r: bool)
        ensures
            r == self.attacker().manual(),
    {
        if self.whose_move { self.first_player.is_manual() } else { self.second_player.is_manual() }
    }

    /// One shot at cell `idx_cell` by the player whose turn it is. Returns
    /// the outcome (ship hit, hit, ship afloat) and appends the notifications.
    pub fn step(&mut self, idx_cell: usize, events: &mut Vec<Notification>) -> (r: (Option<usize>, bool, bool))
        requires
            old(self).wf(),
            !old(self).over(),
            idx_cell < 100,
        ensures
            final(events)@.len() > old(events)@.len(),
            final(events)@.take(old(events)@.len() as int) == old(events)@,
            stepped(*old(self), *final(self), idx_cell, r, final(events)@.skip(old(events)@.len() as int)),
    {
        let ghost b0 = *self;
        let ghost ev0 = events@;
        if self.whose_move {
            let r = fire_at(&mut self.second_player, idx_cell, 2, events);
            let ghost ev1 = events@;
            if self.second_player.get_num_living_ships() == 0 {
                self.game_over = true;
                events.push(Notification::GameOver(self.first_player.get_name().to_string()));
            } else if !r.1 {
                self.whose_move = false;
                events.push(Notification::TurnChanged);
            }
            proof {
                assert(events@.take(ev0.len() as int) =~= ev1.take(ev0.len() as int));
                if events@.len() > ev1.len() {
                    assert(events@.skip(ev0.len() as int).drop_last() =~= ev1.skip(ev0.len() as int));
                } else {
                    assert(events@ == ev1);
                }
            }
            r
        } else {
            let r = fire_at(&mut self.first_player, idx_cell, 1, events);
            let ghost ev1 = events@;
            if self.first_player.get_num_living_ships() == 0 {
                self.game_over = true;
                events.push(Notification::GameOver(self.second_player.get_name().to_string()));
            } else if !r.1 {
                self.whose_move = true;
                events.push(Notification::TurnChanged);
            }
            proof {
                assert(events@.take(ev0.len() as int) =~= ev1.take(ev0.len() as int));
                if events@.len() > ev1.len() {
                    assert(events@.skip(ev0.len() as int).drop_last() =~= ev1.skip(ev0.len() as int));
                } else {
                    assert(events@ == ev1);
                }
            }
            r
        }
    }

    /// Fires at cell `idx_cell` of field `field_number`, then lets
    /// computer-controlled players take their turns until the game is over
    /// or a player who plays by hand is to move. Returns what changed.
    #[verifier::spinoff_prover]
    #[verifier::rlimit(80)]
    pub fn shoot(&mut self, idx_cell: usize, field_number: usize, rng: &mut StdRng) -> (r: Result<Vec<Notification>, GameError>)
        requires
            old(self).wf(),
        ensures
            final(self).wf(),
            old(self).over() ==> r == Err::<Vec<Notification>, GameError>(GameError::GameFinished),
            !old(self).over() && idx_cell >= 100 ==> r == Err::<Vec<Notification>, GameError>(GameError::OutOfBounds),
            !old(self).over() && idx_cell < 100 && field_number != old(self).defender_field()
                ==> r == Err::<Vec<Notification>, GameError>(GameError::StaleShot),
            !old(self).over() && idx_cell < 100 && field_number == old(self).defender_field() ==> r is Ok,
            r is Err ==> *final(self) == *old(self),
            r matches Ok(ev) ==> shot_then_chain(*old(self), *final(self), idx_cell, ev@),
            r is Ok ==> final(self).over() || final(self).attacker().manual(),
    {
        if self.game_over {
            return Err(GameError::GameFinished);
        }
        if idx_cell >= 100 {
            return Err(GameError::OutOfBounds);
        }
        let defender_field: usize = if self.whose_move { 2 } else { 1 };
        if field_number != defender_field {
            return Err(GameError::StaleShot);
        }
        let mut events: Vec<Notification> = Vec::new();
        let ghost b0 = *self;
        let o = self.step(idx_cell, &mut events);
        let ghost mid = *self;
        let ghost k0 = events@.len() as int;
        let ghost mut bs: Seq<PlayBoard> = seq![mid];
        let ghost mut cs: Seq<usize> = Seq::empty();
        let ghost mut rs: Seq<(Option<usize>, bool, bool)> = Seq::empty();
        let ghost mut ks: Seq<int> = seq![0int];
        proof {
            assert(events@.skip(k0) =~= Seq::<Notification>::empty());
            self.first().lemma_shots_bound();
            self.second().lemma_shots_bound();
        }
        while !self.game_over && !self.mover_is_manual()
            invariant
                self.wf(),
                stepped(b0, mid, idx_cell, o, events@.take(k0)),
                0 <= k0 <= events@.len(),
                chain_ok(mid, *self, events@.skip(k0), bs, cs, rs, ks),
                self.shots_total() <= 200,
                b0 == *old(self),
            decreases 200 - self.shots_total(),
        {
            let ghost bb = *self;
            let ghost evb = events@;
            proof {
                let d = self.defender();
                assert(!all_sunk(d));
                let k = choose|k: int| 0 <= k < d.ships().len() && (#[trigger] d.ships()[k]).alive();
                d.lemma_living_has_unshot(k);
            }
            let target = if self.whose_move {
                self.second_player.generate_new_auto_shot_idx(rng)
            } else {
                self.first_player.generate_new_auto_shot_idx(rng)
            };
            let c = target.unwrap();
            assert(ai_move(bb, c));
            let o2 = self.step(c, &mut events);
            proof {
                let ev = events@.skip(k0);
                let kk = evb.len() - k0;
                assert(ev.take(kk) =~= evb.skip(k0));
                assert(ev.skip(kk) =~= events@.skip(evb.len() as int));
                assert(events@.take(k0) =~= evb.take(k0));
                assert(stepped(bb, *self, c, o2, ev.skip(kk)));
                let evo = evb.skip(k0);
                assert(chain_ok(mid, bb, evo, bs, cs, rs, ks));
                let n = cs.len() as int;
                let bs2 = bs.push(*self);
                let cs2 = cs.push(c);
                let rs2 = rs.push(o2);
                let ks2 = ks.push(ev.len() as int);
                assert forall|i: int| 0 <= i < n + 1 implies 0 <= #[trigger] ks2[i] <= ks2[i + 1] <= ev.len() by {
                    if i < n {
                        assert(ks[i] == ks2[i]);
                    }
                }
                assert forall|i: int| 0 <= i < n + 1 implies ai_move(bs2[i], #[trigger] cs2[i])
                    && stepped(bs2[i], bs2[i + 1], cs2[i], rs2[i], ev.subrange(ks2[i], ks2[i + 1])) by {
                    if i < n {
                        assert(ai_move(bs[i], cs[i]));
                        assert(0 <= ks[i] <= ks[i + 1] <= evo.len());
                        assert(ev.subrange(ks2[i], ks2[i + 1]) =~= evo.subrange(ks[i], ks[i + 1]));
                    } else {
                        assert(ev.subrange(ks2[i], ks2[i + 1]) =~= ev.skip(kk));
                    }
                }
                assert(chain_ok(mid, *self, ev, bs2, cs2, rs2, ks2));
                bs = bs2;
                cs = cs2;
                rs = rs2;
                ks = ks2;
                self.first().lemma_shots_bound();
                self.second().lemma_shots_bound();
            }
        }
        proof {
            assert(stepped(b0, mid, idx_cell, o, events@.take(k0)));
            assert(stepped(*old(self), mid, idx_cell, o, events@.take(k0)));
            assert(chain_ok(mid, *self, events@.skip(k0), bs, cs, rs, ks));
            assert(auto_chain(mid, *self, events@.skip(k0)));
            assert(shot_then_chain(*old(self), *self, idx_cell, events@));
        }
        Ok(events)
    }
}

/// Cell `c` is a valid choice of the computer in `b`: it is a computer's
/// turn, `c` has not been shot on the defender's field, and it is a target
/// cell whenever there is one.
pub open spec fn ai_move(b: PlayBoard, c: usize) -> bool {
    &&& !b.over()
    &&& !b.attacker().manual()
    &&& c < 100
    &&& !b.defender().shot(c as int)
    &&& (exists|x: int| b.defender().target_cell(x)) ==> b.defender().target_cell(c as int)
}

/// One shot at `c`, outcome `r`, took the game from `b0` to `b1` with
/// notifications `ev`: the defender is fired at, the attacker stays as it
/// was, the game ends exactly when the defender's last ship sinks (the
/// attacker then wins), a miss passes the turn and a hit keeps it.
pub open spec fn stepped(b0: PlayBoard, b1: PlayBoard, c: usize, r: (Option<usize>, bool, bool), ev: Seq<Notification>) -> bool {
    let d1 = if b0.first_moves() { b1.second() } else { b1.first() };
    let a1 = if b0.first_moves() { b1.first() } else { b1.second() };
    &&& b1.wf()
    &&& a1 == b0.attacker()
    &&& fired(b0.defender(), d1, c, r)
    &&& b1.over() == all_sunk(d1)
    &&& b1.first_moves() == if b1.over() || r.1 { b0.first_moves() } else { !b0.first_moves() }
    &&& if b1.over() {
        &&& ev.len() >= 2
        &&& fire_events(b0.defender(), c, r, b0.defender_field(), ev.drop_last())
        &&& ev.last() matches Notification::GameOver(name) && name@ == b0.attacker().name_view()
    } else if !r.1 {
        &&& ev.len() >= 2
        &&& fire_events(b0.defender(), c, r, b0.defender_field(), ev.drop_last())
        &&& ev.last() == Notification::TurnChanged
    } else {
        fire_events(b0.defender(), c, r, b0.defender_field(), ev)
    }
}

/// The shot at `c` took the game from `b0` to some board, giving the first
/// notifications of `ev`; computer shots then took it on to `b1`, giving
/// the rest.
pub open spec fn shot_then_chain(b0: PlayBoard, b1: PlayBoard, c: usize, ev: Seq<Notification>) -> bool {
    exists|mid: PlayBoard, o: (Option<usize>, bool, bool), k: int| {
        &&& 0 <= k <= ev.len()
        &&& #[trigger] stepped(b0, mid, c, o, ev.take(k))
        &&& auto_chain(mid, b1, ev.skip(k))
    }
}

/// The computer fired at cells `cs`, one after the other, taking the game
/// through boards `bs` from `b0` to `b1`; shot `i` had outcome `rs[i]` and
/// produced the notifications between `ks[i]` and `ks[i + 1]` of `ev`.
pub open spec fn chain_ok(
    b0: PlayBoard,
    b1: PlayBoard,
    ev: Seq<Notification>,
    bs: Seq<PlayBoard>,
    cs: Seq<usize>,
    rs: Seq<(Option<usize>, bool, bool)>,
    ks: Seq<int>,
) -> bool {
    let n = cs.len() as int;
    &&& bs.len() == n + 1
    &&& rs.len() == n
    &&& ks.len() == n + 1
    &&& bs[0] == b0
    &&& bs[n] == b1
    &&& ks[0] == 0
    &&& ks[n] == ev.len()
    &&& forall|i: int| 0 <= i < n ==> 0 <= #[trigger] ks[i] <= ks[i + 1] <= ev.len()
    &&& forall|i: int| 0 <= i < n ==> ai_move(bs[i], #[trigger] cs[i])
        && stepped(bs[i], bs[i + 1], cs[i], rs[i], ev.subrange(ks[i], ks[i + 1]))
}

/// Computer shots, none or more, took the game from `b0` to `b1` with notifications `ev`.
pub open spec fn auto_chain(b0: PlayBoard, b1: PlayBoard, ev: Seq<Notification>) -> bool {
    exists|bs: Seq<PlayBoard>, cs: Seq<usize>, rs: Seq<(Option<usize>, bool, bool)>, ks: Seq<int>|
        #[trigger] chain_ok(b0, b1, ev, bs, cs, rs, ks)
}

} // verus!
