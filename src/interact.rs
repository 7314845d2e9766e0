use vstd::prelude::*;
use crate::game_map::{corridor, BridgeAction, Board, GameMap, MapEvent};
use crate::island::Island;
use crate::point::{cell, cell_x, cell_y, contains_point, insert_all, remove_all, Direction2D, Vector2i};

verus! {

/// `b` is `a` with the slot towards `d` set to `v` and the current count
/// moved by `delta`.
pub open spec fn island_changed(a: Island, b: Island, d: Direction2D, v: int, delta: int) -> bool {
    &&& b.pos == a.pos
    &&& b.max_bridge_count == a.max_bridge_count
    &&& b.current_bridge_count == a.current_bridge_count + delta
    &&& b.bridge_state@ == a.bridge_state@.update(d.slot(), v as i32)
}

/// Setting one slot of a well-formed island to `ns` units, and moving the
/// current count by the same amount, keeps it well formed when the count
/// falls or stays within the capacity.
proof fn lemma_island_changed_wf(a: Island, b: Island, e: Direction2D, ns: int)
    requires
        a.wf(),
        island_changed(a, b, e, ns, ns - a.slot(e)),
        0 <= ns <= 2,
        ns == 0 || (ns == a.slot(e) + 1 && a.current_bridge_count != a.max_bridge_count),
    ensures
        b.wf(),
{
    assert(0 <= a.bridge_state@[0] <= 2);
    assert(0 <= a.bridge_state@[1] <= 2);
    assert(0 <= a.bridge_state@[2] <= 2);
    assert(0 <= a.bridge_state@[3] <= 2);
}

/// One step from `p` towards `d`, as integers.
fn step(p: Vector2i, d: Direction2D) -> (r: (i64, i64))
    ensures
        r.0 == cell_x(p, d, 1),
        r.1 == cell_y(p, d, 1),
{
    match d {
        Direction2D::Up => (p.x as i64, p.y as i64 - 1),
        Direction2D::Down => (p.x as i64, p.y as i64 + 1),
        Direction2D::Left => (p.x as i64 - 1, p.y as i64),
        Direction2D::Right => (p.x as i64 + 1, p.y as i64),
    }
}

impl Board {
    /// A player's walk from `src` towards `d` ends empty-handed at step `k`:
    /// the cell is off the board, or lies on another bridge while `src` has
    /// none that way.
    pub open spec fn walk_blocks(&self, src: Vector2i, d: Direction2D, k: int) -> bool {
        ||| !self.cell_in_map(src, d, k)
        ||| (self.user_bridge_points@.contains(cell(src, d, k)) && self.slot_at(src, d) == 0)
    }

    /// The walk goes on past step `k`.
    pub open spec fn walk_passes(&self, src: Vector2i, d: Direction2D, k: int) -> bool {
        !self.walk_blocks(src, d, k) && !self.is_island(cell(src, d, k))
    }

    /// The walk from `src` towards `d` reaches an island at step `k`.
    pub open spec fn walk_hits(&self, src: Vector2i, d: Direction2D, k: int) -> bool {
        &&& 1 <= k
        &&& !self.walk_blocks(src, d, k)
        &&& self.is_island(cell(src, d, k))
        &&& forall|j: int| 1 <= j < k ==> #[trigger] self.walk_passes(src, d, j)
    }

    /// The walk from `src` towards `d` is blocked before it reaches an island.
    pub open spec fn walk_fails(&self, src: Vector2i, d: Direction2D) -> bool {
        exists|k: int|
            1 <= k && #[trigger] self.walk_blocks(src, d, k) && forall|j: int|
                1 <= j < k ==> #[trigger] self.walk_passes(src, d, j)
    }

    /// Everything but the islands' bridges, the players' corridors and the
    /// notifications is the same in `m`.
    pub open spec fn same_layout(&self, m: Board) -> bool {
        &&& m.width == self.width
        &&& m.height == self.height
        &&& m.is_ready == self.is_ready
        &&& m.max_bridge_count == self.max_bridge_count
        &&& m.islands@.len() == self.islands@.len()
        &&& m.islands_pos@ == self.islands_pos@
        &&& m.islands_gate_pos@ == self.islands_gate_pos@
        &&& m.able_to_gen_islands@ == self.able_to_gen_islands@
        &&& m.bridge_points@ == self.bridge_points@
        &&& m.game_mode == self.game_mode
    }

    /// The effect of a toggle from `src` towards `d` whose walk reached the
    /// island `k` steps away: `m` is the board after it and `r` its result.
    ///
    /// When either island is at capacity or the bridge is already double,
    /// the bridge is taken down (or nothing happens if there is none);
    /// otherwise one unit is added on both sides.
    #[verifier::opaque]
    pub open spec fn toggled(&self, m: Board, src: Vector2i, d: Direction2D, k: int, r: BridgeAction) -> bool {
        let t = cell(src, d, k);
        let si = self.islands_pos@.index_of(src);
        let ti = self.islands_pos@.index_of(t);
        let a = self.islands@[si];
        let b = self.islands@[ti];
        let slot = a.slot(d);
        let full = a.current_bridge_count == a.max_bridge_count || b.current_bridge_count
            == b.max_bridge_count || slot == 2;
        let corr = corridor(Some(src), t, true).to_set();
        let action = if full {
            BridgeAction::Remove
        } else if slot == 0 {
            BridgeAction::Single
        } else {
            BridgeAction::Double
        };
        let new_slot = if full { 0 } else { slot + 1 };
        let delta = if full { -slot } else { 1 };
        if full && slot == 0 {
            r == BridgeAction::Pass && m == *self
        } else {
            &&& r == action
            &&& self.same_layout(m)
            &&& forall|j: int|
                0 <= j < self.islands@.len() && j != si && j != ti ==> #[trigger] m.islands@[j]
                    == self.islands@[j]
            &&& island_changed(a, m.islands@[si], d, new_slot, delta)
            &&& island_changed(b, m.islands@[ti], d.spec_opposite(), new_slot, delta)
            &&& m.user_bridge_points@.to_set() == if full {
                self.user_bridge_points@.to_set().difference(corr)
            } else {
                self.user_bridge_points@.to_set().union(corr)
            }
            &&& m.events@ == self.events@ + seq![
                MapEvent::ChangeBridgeCount { pos: src },
                MapEvent::ChangeBridgeCount { pos: t },
                MapEvent::RenderBridge { src, target: t, action },
            ]
        }
    }

    /// Walks from `src` towards `d` to the island that a bridge would reach.
    fn walk_to_target(&self, src: Vector2i, d: Direction2D, src_has_bridge: i32) -> (r: Option<Vector2i>)
        requires
            self.wf(),
            self.is_island(src),
            src_has_bridge == self.slot_at(src, d),
        ensures
            match r {
                None => self.walk_fails(src, d),
                Some(t) => exists|k: int| #[trigger] self.walk_hits(src, d, k) && t == cell(src, d, k),
            },
    {
        let mut target_pos = src;
        let ghost mut k: int = 0;
        assert(self.point_in_map(src));
        assert(cell(src, d, 0) == src);
        loop
            invariant
                self.wf(),
                self.is_island(src),
                src_has_bridge == self.slot_at(src, d),
                0 <= k <= self.width + self.height,
                self.cell_in_map(src, d, k),
                target_pos == cell(src, d, k),
                forall|j: int| 1 <= j <= k ==> #[trigger] self.walk_passes(src, d, j),
            decreases self.width + self.height - k,
        {
            let (nx, ny) = step(target_pos, d);
            proof {
                k = k + 1;
            }
            if !self.is_in_map(nx, ny) {
                assert(self.walk_blocks(src, d, k));
                return None;
            }
            target_pos = Vector2i::new(nx as i32, ny as i32);
            assert(target_pos == cell(src, d, k));
            if src_has_bridge == 0 && contains_point(&self.user_bridge_points, target_pos) {
                assert(self.walk_blocks(src, d, k));
                return None;
            }
            if self.find_island(target_pos).is_some() {
                assert(self.walk_hits(src, d, k));
                return Some(target_pos);
            }
            assert(self.walk_passes(src, d, k));
        }
    }

    /// Applies a player's toggle from the island at `src_pos` towards
    /// `direction` and reports what it did. A walk that leaves the board, or
    /// meets another bridge while `src_pos` has none that way, is a `Pass`
    /// that changes nothing.
    #[verifier::rlimit(50)]
    pub fn user_gen_bridge(&mut self, src_pos: Vector2i, direction: Direction2D) -> (r: BridgeAction)
        requires
            old(self).wf(),
            old(self).is_ready,
            old(self).is_island(src_pos),
        ensures
            final(self).wf(),
            old(self).walk_fails(src_pos, direction) || exists|k: int| #[trigger] old(self).walk_hits(src_pos, direction, k),
            old(self).walk_fails(src_pos, direction) ==> r == BridgeAction::Pass && *final(self)
                == *old(self),
            forall|k: int|
                #[trigger] old(self).walk_hits(src_pos, direction, k) ==> old(self).toggled(
                    *final(self),
                    src_pos,
                    direction,
                    k,
                    r,
                ),
    {
        let si = self.find_island(src_pos).unwrap();
        let d = direction.index();
        let opp = direction.opposite();
        let od = opp.index();
        let src_island = self.islands[si];
        let src_has_bridge = src_island.bridge_state[d];
        let target = self.walk_to_target(src_pos, direction, src_has_bridge);
        let target_pos = match target {
            None => {
                proof {
                    self.lemma_walk_exclusive(src_pos, direction);
                }
                return BridgeAction::Pass;
            },
            Some(t) => t,
        };
        let ghost k = choose|k: int| #[trigger] self.walk_hits(src_pos, direction, k) && target_pos == cell(src_pos, direction, k);
        proof {
            self.lemma_walk_exclusive(src_pos, direction);
        }
        let ti = self.find_island(target_pos).unwrap();
        let target_island = self.islands[ti];
        let ghost m0 = *self;
        proof {
            self.lemma_hit_is_first(src_pos, direction, k);
            self.lemma_facing_slots(src_pos, direction, k);
            assert(self.point_in_map(src_pos));
            assert(si != ti);
            assert(self.user_bridge_points@.no_duplicates()) by {
                reveal(Board::user_wf);
            }
        }
        if src_island.max_bridge_count == src_island.current_bridge_count
            || target_island.max_bridge_count == target_island.current_bridge_count
            || src_has_bridge == 2 {
            if src_has_bridge == 0 {
                assert(m0.toggled(*self, src_pos, direction, k, BridgeAction::Pass)) by {
                    reveal(Board::toggled);
                }
                return BridgeAction::Pass;
            }
            let mut a = src_island;
            a.set_slot(direction, 0);
            a.current_bridge_count = a.current_bridge_count - src_has_bridge;
            let mut b = target_island;
            b.set_slot(opp, 0);
            b.current_bridge_count = b.current_bridge_count - src_has_bridge;
            self.islands.set(si, a);
            self.islands.set(ti, b);
            let pts = GameMap::calc_points(Some(src_pos), target_pos, true);
            remove_all(&mut self.user_bridge_points, &pts);
            self.events.push(MapEvent::ChangeBridgeCount { pos: src_pos });
            self.events.push(MapEvent::ChangeBridgeCount { pos: target_pos });
            self.events.push(MapEvent::RenderBridge { src: src_pos, target: target_pos, action: BridgeAction::Remove });
            proof {
                assert(self.events@ =~= m0.events@ + seq![
                    MapEvent::ChangeBridgeCount { pos: src_pos },
                    MapEvent::ChangeBridgeCount { pos: target_pos },
                    MapEvent::RenderBridge { src: src_pos, target: target_pos, action: BridgeAction::Remove },
                ]);
                assert(m0.toggled(*self, src_pos, direction, k, BridgeAction::Remove)) by {
                    reveal(Board::toggled);
                }
                m0.lemma_toggle_keeps_wf(*self, src_pos, direction, k, BridgeAction::Remove);
            }
            return BridgeAction::Remove;
        }
        let mut a = src_island;
        a.set_slot(direction, src_has_bridge + 1);
        a.current_bridge_count = a.current_bridge_count + 1;
        let mut b = target_island;
        b.set_slot(opp, target_island.bridge_state[od] + 1);
        b.current_bridge_count = b.current_bridge_count + 1;
        self.islands.set(si, a);
        self.islands.set(ti, b);
        let pts = GameMap::calc_points(Some(src_pos), target_pos, true);
        insert_all(&mut self.user_bridge_points, &pts);
        let action = if src_has_bridge == 0 {
            BridgeAction::Single
        } else {
            BridgeAction::Double
        };
        self.events.push(MapEvent::ChangeBridgeCount { pos: src_pos });
        self.events.push(MapEvent::ChangeBridgeCount { pos: target_pos });
        self.events.push(MapEvent::RenderBridge { src: src_pos, target: target_pos, action });
        proof {
            assert(self.events@ =~= m0.events@ + seq![
                MapEvent::ChangeBridgeCount { pos: src_pos },
                MapEvent::ChangeBridgeCount { pos: target_pos },
                MapEvent::RenderBridge { src: src_pos, target: target_pos, action },
            ]);
            assert(m0.toggled(*self, src_pos, direction, k, action)) by {
                reveal(Board::toggled);
            }
            m0.lemma_toggle_keeps_wf(*self, src_pos, direction, k, action);
        }
        action
    }

    /// A walk either reaches one island, at one step only, or is blocked.
    pub proof fn lemma_walk_exclusive(&self, src: Vector2i, d: Direction2D)
        ensures
            forall|k1: int, k2: int|
                #[trigger] self.walk_hits(src, d, k1) && #[trigger] self.walk_hits(src, d, k2) ==> k1 == k2,
            forall|k: int| #[trigger] self.walk_hits(src, d, k) ==> !self.walk_fails(src, d),
    {
        assert forall|k1: int, k2: int|
            #[trigger] self.walk_hits(src, d, k1) && #[trigger] self.walk_hits(src, d, k2) implies k1 == k2 by {
            if k1 < k2 {
                assert(self.walk_passes(src, d, k1));
            } else if k2 < k1 {
                assert(self.walk_passes(src, d, k2));
            }
        }
        assert forall|k: int| #[trigger] self.walk_hits(src, d, k) implies !self.walk_fails(src, d) by {
            if self.walk_fails(src, d) {
                let j = choose|j: int|
                    1 <= j && #[trigger] self.walk_blocks(src, d, j) && forall|i: int|
                        1 <= i < j ==> #[trigger] self.walk_passes(src, d, i);
                if j < k {
                    assert(self.walk_passes(src, d, j));
                } else if k < j {
                    assert(self.walk_passes(src, d, k));
                }
            }
        }
    }

    /// In a list without repeats, the entry at index `i` is found at `i`.
    pub proof fn lemma_index_of_any(&self, i: int)
        requires
            self.islands_pos@.no_duplicates(),
            0 <= i < self.islands_pos@.len(),
        ensures
            self.islands_pos@.index_of(self.islands_pos@[i]) == i,
    {
        let p = self.islands_pos@[i];
        assert(self.islands_pos@.contains(p));
        let j = self.islands_pos@.index_of(p);
        assert(self.islands_pos@[j] == p);
    }

    /// The position of the island at index `i` is found at index `i`.
    pub proof fn lemma_index_of(&self, i: int)
        requires
            self.islands_wf(),
            0 <= i < self.islands_pos@.len(),
        ensures
            self.islands_pos@.index_of(self.islands_pos@[i]) == i,
            self.island_at(self.islands_pos@[i]) == self.islands@[i],
    {
        let p = self.islands_pos@[i];
        assert(self.islands_pos@.contains(p));
        let j = self.islands_pos@.index_of(p);
        assert(self.islands_pos@[j] == p);
    }

    /// There is only one nearest island in a direction.
    pub proof fn lemma_first_unique(&self, p: Vector2i, d: Direction2D, k1: int, k2: int)
        requires
            self.is_first(p, d, k1),
            self.is_first(p, d, k2),
        ensures
            k1 == k2,
    {
        if k1 < k2 {
            assert(!self.is_island(cell(p, d, k1)));
        } else if k2 < k1 {
            assert(!self.is_island(cell(p, d, k2)));
        }
    }

    /// If `t` is the nearest island from `p` towards `d`, then `p` is the
    /// nearest island from `t` back the other way.
    pub proof fn lemma_first_symmetric(&self, p: Vector2i, d: Direction2D, k: int)
        requires
            self.is_first(p, d, k),
            self.point_in_map(p),
            self.is_island(p),
        ensures
            cell(cell(p, d, k), d.spec_opposite(), k) == p,
            self.is_first(cell(p, d, k), d.spec_opposite(), k),
    {
        let t = cell(p, d, k);
        let o = d.spec_opposite();
        assert forall|j: int| 1 <= j < k implies !#[trigger] self.is_island(cell(t, o, j)) by {
            assert(cell(t, o, j) == cell(p, d, k - j));
            assert(!self.is_island(cell(p, d, k - j)));
        }
        assert(cell(t, o, k) == p);
    }

    /// A walk that reaches an island at step `k` reaches the nearest one.
    pub proof fn lemma_hit_is_first(&self, src: Vector2i, d: Direction2D, k: int)
        requires
            self.walk_hits(src, d, k),
        ensures
            self.is_first(src, d, k),
    {
        assert forall|j: int| 1 <= j < k implies !#[trigger] self.is_island(cell(src, d, j)) by {
            assert(self.walk_passes(src, d, j));
        }
    }

    /// The facing slots of two nearest islands hold the same count.
    pub proof fn lemma_facing_slots(&self, p: Vector2i, d: Direction2D, k: int)
        requires
            self.wf(),
            self.is_island(p),
            self.is_first(p, d, k),
        ensures
            self.slot_at(cell(p, d, k), d.spec_opposite()) == self.slot_at(p, d),
    {
        reveal(Board::user_wf);
        let t = cell(p, d, k);
        let o = d.spec_opposite();
        let si = self.islands_pos@.index_of(p);
        let ti = self.islands_pos@.index_of(t);
        assert(self.islands_pos@[si] == p);
        assert(self.islands_pos@[ti] == t);
        assert(self.point_in_map(p));
        if self.slot_at(p, d) > 0 {
            assert(self.islands@[si].slot(d) > 0);
            assert(self.paired(p, d));
            let k2 = choose|k2: int| #[trigger] self.is_first(p, d, k2) && self.slot_at(cell(p, d, k2), o) == self.slot_at(p, d);
            self.lemma_first_unique(p, d, k, k2);
        } else if self.slot_at(t, o) > 0 {
            assert(self.islands@[ti].slot(o) > 0);
            assert(self.paired(t, o));
            let k2 = choose|k2: int| #[trigger] self.is_first(t, o, k2) && self.slot_at(cell(t, o, k2), o.spec_opposite()) == self.slot_at(t, o);
            self.lemma_first_symmetric(p, d, k);
            self.lemma_first_unique(t, o, k, k2);
            assert(o.spec_opposite() == d);
        }
    }

    /// Boards with the same layout agree on which island is nearest.
    proof fn lemma_same_layout_first(&self, m: Board, p: Vector2i, e: Direction2D, k: int)
        requires
            self.same_layout(m),
        ensures
            m.is_first(p, e, k) == self.is_first(p, e, k),
    {
        assert forall|x: Vector2i| m.is_island(x) == self.is_island(x) by {}
    }

    /// Facts shared by the proofs about a toggle that changed something.
    pub proof fn lemma_toggle_facts(&self, m: Board, src: Vector2i, d: Direction2D, k: int, r: BridgeAction)
        requires
            self.wf(),
            self.is_island(src),
            self.walk_hits(src, d, k),
            self.toggled(m, src, d, k, r),
            r != BridgeAction::Pass,
        ensures
            ({
                let t = cell(src, d, k);
                let si = self.islands_pos@.index_of(src);
                let ti = self.islands_pos@.index_of(t);
                &&& 0 <= si < self.islands@.len()
                &&& 0 <= ti < self.islands@.len()
                &&& si != ti
                &&& self.islands_pos@[si] == src
                &&& self.islands_pos@[ti] == t
                &&& self.is_first(src, d, k)
                &&& self.is_first(t, d.spec_opposite(), k)
                &&& cell(t, d.spec_opposite(), k) == src
                &&& self.islands@[ti].slot(d.spec_opposite()) == self.islands@[si].slot(d)
                &&& m.islands@[ti].slot(d.spec_opposite()) == m.islands@[si].slot(d)
                &&& self.same_layout(m)
                &&& forall|j: int|
                    0 <= j < self.islands@.len() && j != si && j != ti ==> #[trigger] m.islands@[j]
                        == self.islands@[j]
                &&& {
                    let a = self.islands@[si];
                    let b = self.islands@[ti];
                    let slot = a.slot(d);
                    let ns = m.islands@[si].slot(d);
                    &&& island_changed(a, m.islands@[si], d, ns, ns - slot)
                    &&& island_changed(b, m.islands@[ti], d.spec_opposite(), ns, ns - slot)
                    &&& (ns == 0 || (ns == slot + 1 && slot < 2 && a.current_bridge_count
                        != a.max_bridge_count && b.current_bridge_count != b.max_bridge_count))
                }
                &&& m.user_bridge_points@.to_set() == self.user_bridge_points@.to_set().difference(
                    corridor(Some(src), t, true).to_set(),
                ) || m.user_bridge_points@.to_set() == self.user_bridge_points@.to_set().union(
                    corridor(Some(src), t, true).to_set(),
                )
            }),
    {
        reveal(Board::toggled);
        let t = cell(src, d, k);
        let si = self.islands_pos@.index_of(src);
        let ti = self.islands_pos@.index_of(t);
        assert(self.islands_pos@[si] == src);
        assert(self.islands_pos@[ti] == t);
        assert(self.point_in_map(src));
        self.lemma_hit_is_first(src, d, k);
        self.lemma_facing_slots(src, d, k);
        self.lemma_first_symmetric(src, d, k);
    }

    /// A toggle that changed something keeps every island well formed.
    proof fn lemma_toggle_keeps_islands(&self, m: Board, src: Vector2i, d: Direction2D, k: int, r: BridgeAction)
        requires
            self.wf(),
            self.is_island(src),
            self.walk_hits(src, d, k),
            self.toggled(m, src, d, k, r),
            r != BridgeAction::Pass,
        ensures
            m.islands_wf(),
    {
        self.lemma_toggle_facts(m, src, d, k, r);
        let t = cell(src, d, k);
        let si = self.islands_pos@.index_of(src);
        let ti = self.islands_pos@.index_of(t);
        lemma_island_changed_wf(self.islands@[si], m.islands@[si], d, m.islands@[si].slot(d));
        lemma_island_changed_wf(self.islands@[ti], m.islands@[ti], d.spec_opposite(), m.islands@[si].slot(d));
        assert forall|i: int| 0 <= i < m.islands@.len() implies {
            &&& (#[trigger] m.islands@[i]).pos == m.islands_pos@[i]
            &&& m.islands@[i].wf()
            &&& 0 <= m.islands@[i].max_bridge_count
            &&& m.islands@[i].max_bridge_count <= 2 * m.adjacent_corridors(m.islands_pos@[i])
        } by {
            if i != si && i != ti {
                assert(m.islands@[i] == self.islands@[i]);
            }
        }
    }

    /// A toggle that changed something keeps every bridge matched by the
    /// facing slot of the nearest island.
    #[verifier::rlimit(100)]
    proof fn lemma_toggle_keeps_pairs(&self, m: Board, src: Vector2i, d: Direction2D, k: int, r: BridgeAction)
        requires
            self.wf(),
            self.is_island(src),
            self.walk_hits(src, d, k),
            self.toggled(m, src, d, k, r),
            r != BridgeAction::Pass,
        ensures
            forall|i: int, e: Direction2D|
                0 <= i < m.islands@.len() && #[trigger] m.islands@[i].slot(e) > 0 ==> m.paired(
                    m.islands_pos@[i],
                    e,
                ),
    {
        self.lemma_toggle_facts(m, src, d, k, r);
        let t = cell(src, d, k);
        let o = d.spec_opposite();
        let si = self.islands_pos@.index_of(src);
        let ti = self.islands_pos@.index_of(t);
        assert(m.islands_pos@.index_of(src) == si);
        assert(m.islands_pos@.index_of(t) == ti);
        assert forall|i: int, e: Direction2D|
            0 <= i < m.islands@.len() && #[trigger] m.islands@[i].slot(e) > 0 implies m.paired(m.islands_pos@[i], e) by {
            let p = m.islands_pos@[i];
            if i == si && e == d {
                self.lemma_same_layout_first(m, src, d, k);
            } else if i == ti && e == o {
                self.lemma_same_layout_first(m, t, o, k);
                assert(o.spec_opposite() == d);
            } else {
                assert(self.islands@[i].slot(e) == m.islands@[i].slot(e));
                assert(self.paired(p, e)) by {
                    reveal(Board::user_wf);
                }
                let k2 = choose|k2: int| #[trigger] self.is_first(p, e, k2) && self.slot_at(cell(p, e, k2), e.spec_opposite()) == self.slot_at(p, e);
                let q = cell(p, e, k2);
                let eo = e.spec_opposite();
                assert(self.point_in_map(p));
                self.lemma_index_of(i);
                self.lemma_first_symmetric(p, e, k2);
                let qi = self.islands_pos@.index_of(q);
                assert(self.islands_pos@.contains(q));
                assert(self.islands_pos@[qi] == q);
                if qi == si && eo == d {
                    assert(cell(q, eo, k2) == p);
                    self.lemma_first_unique(src, d, k, k2);
                    assert(p == t);
                } else if qi == ti && eo == o {
                    assert(cell(q, eo, k2) == p);
                    self.lemma_first_unique(t, o, k, k2);
                    assert(p == src);
                } else {
                    assert(m.islands@[qi].slot(eo) == self.islands@[qi].slot(eo));
                }
                self.lemma_same_layout_first(m, p, e, k2);
            }
        }
    }

    /// A toggle that changed something keeps the board's invariant.
    proof fn lemma_toggle_keeps_wf(&self, m: Board, src: Vector2i, d: Direction2D, k: int, r: BridgeAction)
        requires
            self.wf(),
            self.is_ready,
            self.is_island(src),
            self.walk_hits(src, d, k),
            self.toggled(m, src, d, k, r),
            r != BridgeAction::Pass,
            m.user_bridge_points@.no_duplicates(),
        ensures
            m.wf(),
    {
        self.lemma_toggle_facts(m, src, d, k, r);
        self.lemma_toggle_keeps_islands(m, src, d, k, r);
        self.lemma_toggle_keeps_pairs(m, src, d, k, r);
        let t = cell(src, d, k);
        assert(m.gates_wf()) by {
            reveal(Board::gates_wf);
            assert forall|i: int, e: Direction2D|
                0 <= i < m.islands_pos@.len() && #[trigger] m.cell_in_map(m.islands_pos@[i], e, 1)
                    implies m.islands_gate_pos@.contains(cell(m.islands_pos@[i], e, 1)) by {
                assert(self.cell_in_map(self.islands_pos@[i], e, 1));
            }
        }
        assert(m.corridors_wf()) by {
            reveal(Board::corridors_wf);
            assert forall|i: int| 0 <= i < m.bridge_points@.len() implies {
                &&& m.point_in_map(#[trigger] m.bridge_points@[i])
                &&& !m.is_island(m.bridge_points@[i])
            } by {
                assert(self.point_in_map(self.bridge_points@[i]));
            }
        }
        assert(m.user_wf()) by {
            reveal(Board::user_wf);
            let corr = corridor(Some(src), t, true);
            assert(self.point_in_map(src));
            assert(self.point_in_map(t));
            assert forall|p: Vector2i| #[trigger] m.user_bridge_points@.contains(p) implies m.point_in_map(p) by {
                assert(m.user_bridge_points@.to_set().contains(p));
                if !self.user_bridge_points@.contains(p) {
                    assert(corr.to_set().contains(p));
                    let j = choose|j: int| 0 <= j < corr.len() && corr[j] == p;
                }
            }
        }
    }
}

} // verus!
