use vstd::prelude::*;
use rand::rngs::StdRng;
use crate::game_map::{corridor, lemma_corridor_cells, Board, GameMap, StepResult};
use crate::island::Island;
use crate::progress::lemma_link_progress;
use crate::weights::{
    calc_weights, exp_weight, lemma_weight_sum_ge_first, linear_weight, pick_weighted, weight_sum, MAX_CANDIDATES,
    WEIGHT_SCALE,
};
use crate::point::{
    cell, cell_fits, cell_x, cell_y, contains_point, lemma_cell_injective, lemma_insert_no_dup, lemma_remove_no_dup,
    Direction2D, Vector2i,
};
use crate::random::{random_in, random_ratio};

verus! {

/// A list of candidate cells whose entries past `limit_rng` are kept in
/// random order: an entry added while the list is longer than the bound
/// goes to a random index at or past it.
pub struct RandInsertVec {
    pub value: Vec<Vector2i>,
    pub limit_rng: usize,
}

impl RandInsertVec {
    pub fn new() -> (r: RandInsertVec)
        ensures
            r.value@.len() == 0,
            r.limit_rng == 0,
    {
        RandInsertVec { value: Vec::new(), limit_rng: 0 }
    }

    /// Adds `p`: at the end while the list is within the bound, else at a
    /// random index at or past the bound.
    pub fn insert(&mut self, p: Vector2i, rng: &mut StdRng)
        ensures
            final(self).limit_rng == old(self).limit_rng,
            exists|i: int|
                0 <= i <= old(self).value@.len() && (i < old(self).limit_rng ==> i
                    == old(self).value@.len()) && final(self).value@ == old(self).value@.insert(i, p),
    {
        if self.value.len() <= self.limit_rng {
            self.value.push(p);
            assert(self.value@ =~= old(self).value@.insert(old(self).value@.len() as int, p));
        } else {
            let index = random_in(rng, self.limit_rng as u64, self.value.len() as u64) as usize;
            self.value.insert(index, p);
        }
    }
}

/// Distance of `c` from `p` along the grid.
pub open spec fn grid_distance(p: Vector2i, c: Vector2i) -> int {
    (if c.x >= p.x { c.x - p.x } else { p.x - c.x }) + (if c.y >= p.y { c.y - p.y } else { p.y - c.y })
}

/// The entries of `s` never get nearer to `p` further down the list; those
/// before index `from` are nearer than `lim`, the others exactly at `lim`.
pub open spec fn layered(p: Vector2i, s: Seq<Vector2i>, from: int, lim: int) -> bool {
    &&& forall|i: int|
        0 <= i < s.len() ==> (i < from ==> grid_distance(p, #[trigger] s[i]) < lim) && (i >= from
            ==> grid_distance(p, s[i]) == lim)
    &&& forall|i: int, j: int|
        0 <= i < j < s.len() ==> grid_distance(p, #[trigger] s[i]) <= grid_distance(p, #[trigger] s[j])
}

/// Inserting an entry at distance `lim` at or past `from` keeps a list
/// layered.
proof fn lemma_layered_insert(p: Vector2i, s: Seq<Vector2i>, i: int, c: Vector2i, from: int, lim: int)
    requires
        layered(p, s, from, lim),
        0 <= from <= s.len(),
        0 <= i <= s.len(),
        i < from ==> i == s.len(),
        grid_distance(p, c) == lim,
    ensures
        layered(p, s.insert(i, c), from, lim),
{
    let t = s.insert(i, c);
    assert forall|a: int| 0 <= a < t.len() implies (a < from ==> grid_distance(p, #[trigger] t[a]) < lim) && (a
        >= from ==> grid_distance(p, t[a]) == lim) by {
        if a < i {
            assert(t[a] == s[a]);
        } else if a > i {
            assert(t[a] == s[a - 1]);
        }
    }
    assert forall|a: int, b: int|
        0 <= a < b < t.len() implies grid_distance(p, #[trigger] t[a]) <= grid_distance(p, #[trigger] t[b]) by {
        if a < i {
            assert(t[a] == s[a]);
        } else if a > i {
            assert(t[a] == s[a - 1]);
        }
        if b < i {
            assert(t[b] == s[b]);
        } else if b > i {
            assert(t[b] == s[b - 1]);
        }
    }
}

impl Board {
    /// The generator's ray from `p` towards `d` goes on past step `j`: the
    /// cell is on the board, in no corridor, and is the first step, a gate,
    /// or not an island.
    pub open spec fn gen_passes(&self, p: Vector2i, d: Direction2D, j: int) -> bool {
        &&& self.cell_in_map(p, d, j)
        &&& !self.bridge_points@.contains(cell(p, d, j))
        &&& (j == 1 || self.islands_gate_pos@.contains(cell(p, d, j)) || !self.is_island(cell(p, d, j)))
    }

    /// The ray from `p` towards `d` reaches step `k`.
    pub open spec fn gen_reaches(&self, p: Vector2i, d: Direction2D, k: int) -> bool {
        forall|j: int| 1 <= j < k ==> #[trigger] self.gen_passes(p, d, j)
    }

    /// The cell `k` steps from `p` towards `d` may be linked from `p`: the
    /// ray reaches it, it is at least two steps away, on the board, in no
    /// corridor and no gate.
    pub open spec fn gen_target(&self, p: Vector2i, d: Direction2D, k: int) -> bool {
        &&& 2 <= k
        &&& self.cell_in_map(p, d, k)
        &&& !self.bridge_points@.contains(cell(p, d, k))
        &&& !self.islands_gate_pos@.contains(cell(p, d, k))
        &&& self.gen_reaches(p, d, k)
    }

    /// `c` may be linked from `p` towards `d` at fewer than `lim` steps.
    pub open spec fn found_within(&self, p: Vector2i, d: Direction2D, c: Vector2i, lim: int) -> bool {
        exists|k: int| 1 <= k < lim && #[trigger] self.gen_target(p, d, k) && c == cell(p, d, k)
    }

    /// `c` may be linked from `p`.
    pub open spec fn valid_next(&self, p: Vector2i, c: Vector2i) -> bool {
        exists|d: Direction2D, k: int| #[trigger] self.gen_target(p, d, k) && c == cell(p, d, k)
    }

    /// Looks at the cell `offset` steps from `point` towards `d`, adds it to
    /// `result` if it may be linked, and says whether the ray goes on.
    fn scan_cell(
        &self,
        point: Vector2i,
        d: Direction2D,
        offset: i64,
        result: &mut RandInsertVec,
        rng: &mut StdRng,
    ) -> (open: bool)
        requires
            self.wf(),
            self.point_in_map(point),
            1 <= offset,
            self.gen_reaches(point, d, offset as int),
            old(result).value@.no_duplicates(),
            !old(result).value@.contains(cell(point, d, offset as int)),
            old(result).limit_rng <= old(result).value@.len(),
            layered(point, old(result).value@, old(result).limit_rng as int, offset as int),
        ensures
            open == self.gen_reaches(point, d, offset + 1),
            final(result).limit_rng <= final(result).value@.len(),
            layered(point, final(result).value@, final(result).limit_rng as int, offset as int),
            final(result).limit_rng == old(result).limit_rng,
            final(result).value@.no_duplicates(),
            final(result).value@.len() <= old(result).value@.len() + 1,
            forall|c: Vector2i| #[trigger]
                final(result).value@.contains(c) <==> old(result).value@.contains(c) || (
                self.gen_target(point, d, offset as int) && c == cell(point, d, offset as int)),
    {
        let ghost k = offset as int;
        proof {
            if k > 1 {
                assert(self.gen_passes(point, d, k - 1));
            }
        }
        let (x, y): (i64, i64) = match d {
            Direction2D::Up => (point.x as i64, point.y as i64 - offset),
            Direction2D::Down => (point.x as i64, point.y as i64 + offset),
            Direction2D::Left => (point.x as i64 - offset, point.y as i64),
            Direction2D::Right => (point.x as i64 + offset, point.y as i64),
        };
        assert(x == cell_x(point, d, k) && y == cell_y(point, d, k));
        if !self.is_in_map(x, y) {
            assert(!self.gen_passes(point, d, k));
            return false;
        }
        let p = Vector2i::new(x as i32, y as i32);
        assert(p == cell(point, d, k));
        if contains_point(&self.bridge_points, p) {
            assert(!self.gen_passes(point, d, k));
            return false;
        }
        if contains_point(&self.islands_gate_pos, p) || offset == 1 {
            assert(self.gen_passes(point, d, k));
            return true;
        }
        let is_island = contains_point(&self.islands_pos, p);
        proof {
            assert(grid_distance(point, p) == k);
            assert forall|i: int| 0 <= i <= result.value@.len() && (i < result.limit_rng ==> i == result.value@.len())
                implies layered(point, #[trigger] result.value@.insert(i, p), result.limit_rng as int, k) by {
                lemma_layered_insert(point, result.value@, i, p, result.limit_rng as int, k);
            }
            lemma_insert_no_dup(result.value@, 0, p);
            assert forall|i: int| 0 <= i <= result.value@.len() implies result.value@.insert(i, p).no_duplicates()
                && forall|c: Vector2i| #[trigger] result.value@.insert(i, p).contains(c) <==> result.value@.contains(c) || c == p by {
                lemma_insert_no_dup(result.value@, i, p);
            }
        }
        result.insert(p, rng);
        if is_island {
            assert(!self.gen_passes(point, d, k));
            return false;
        }
        assert(self.gen_passes(point, d, k));
        true
    }

    /// `c` may be linked from `p` at fewer than `lim` steps in some direction.
    pub open spec fn found_any(&self, p: Vector2i, c: Vector2i, lim: int) -> bool {
        ||| self.found_within(p, Direction2D::Up, c, lim)
        ||| self.found_within(p, Direction2D::Down, c, lim)
        ||| self.found_within(p, Direction2D::Left, c, lim)
        ||| self.found_within(p, Direction2D::Right, c, lim)
    }

    /// The cell a reaching ray looks at next is no other cell on the board
    /// along the four rays from `p`.
    proof fn lemma_scan_fresh(&self, p: Vector2i, d: Direction2D, offset: int)
        requires
            self.point_in_map(p),
            1 <= offset,
            self.gen_reaches(p, d, offset),
        ensures
            cell_fits(p, d, offset),
            forall|e: Direction2D, k: int|
                1 <= k && self.cell_in_map(p, e, k) && #[trigger] cell(p, e, k) == cell(p, d, offset)
                    ==> e == d && k == offset,
    {
        if offset > 1 {
            assert(self.gen_passes(p, d, offset - 1));
        }
        assert forall|e: Direction2D, k: int|
            1 <= k && self.cell_in_map(p, e, k) && #[trigger] cell(p, e, k) == cell(p, d, offset)
                implies e == d && k == offset by {
            lemma_cell_injective(p, e, k, d, offset);
        }
    }

    /// Widening the bound by one adds exactly the cell at the old bound, if
    /// it may be linked.
    proof fn lemma_found_step(&self, p: Vector2i, d: Direction2D, c: Vector2i, lim: int)
        requires
            1 <= lim,
        ensures
            self.found_within(p, d, c, lim + 1) == (self.found_within(p, d, c, lim) || (self.gen_target(
                p,
                d,
                lim,
            ) && c == cell(p, d, lim))),
    {
        if self.found_within(p, d, c, lim + 1) {
            let k = choose|k: int| 1 <= k < lim + 1 && #[trigger] self.gen_target(p, d, k) && c == cell(p, d, k);
            if k < lim {
                assert(self.found_within(p, d, c, lim));
            }
        }
        if self.found_within(p, d, c, lim) {
            let k = choose|k: int| 1 <= k < lim && #[trigger] self.gen_target(p, d, k) && c == cell(p, d, k);
            assert(self.found_within(p, d, c, lim + 1));
        }
        if self.gen_target(p, d, lim) && c == cell(p, d, lim) {
            assert(self.found_within(p, d, c, lim + 1));
        }
    }

    /// A ray that does not reach step `lim` finds nothing at or past it.
    proof fn lemma_found_closed(&self, p: Vector2i, d: Direction2D, c: Vector2i, lim: int)
        requires
            !self.gen_reaches(p, d, lim),
        ensures
            forall|m: int| m >= lim ==> self.found_within(p, d, c, m) == self.found_within(p, d, c, lim),
    {
        assert forall|m: int| m >= lim implies self.found_within(p, d, c, m) == self.found_within(p, d, c, lim) by {
            if self.found_within(p, d, c, m) {
                let k = choose|k: int| 1 <= k < m && #[trigger] self.gen_target(p, d, k) && c == cell(p, d, k);
                if k >= lim {
                    let j = choose|j: int| 1 <= j < lim && !#[trigger] self.gen_passes(p, d, j);
                    assert(self.gen_passes(p, d, j));
                }
                assert(self.found_within(p, d, c, lim));
            }
        }
    }

    /// Every cell that may be linked from `point`: nearer cells first, the
    /// cells at one distance in random order.
    pub fn calc_valid_next_point(&self, point: Vector2i, rng: &mut StdRng) -> (r: Vec<Vector2i>)
        requires
            self.wf(),
            self.point_in_map(point),
        ensures
            r@.no_duplicates(),
            forall|c: Vector2i| #[trigger] r@.contains(c) <==> self.valid_next(point, c),
            r@.len() <= 4 * (self.width + self.height),
            forall|i: int, j: int|
                0 <= i < j < r@.len() ==> grid_distance(point, #[trigger] r@[i]) <= grid_distance(
                    point,
                    #[trigger] r@[j],
                ),
    {
        let mut result = RandInsertVec::new();
        let mut has_up = true;
        let mut has_down = true;
        let mut has_left = true;
        let mut has_right = true;
        let mut offset: i64 = 1;
        while has_up || has_down || has_left || has_right
            invariant
                self.wf(),
                self.point_in_map(point),
                1 <= offset <= self.width + self.height + 1,
                has_up == self.gen_reaches(point, Direction2D::Up, offset as int),
                has_down == self.gen_reaches(point, Direction2D::Down, offset as int),
                has_left == self.gen_reaches(point, Direction2D::Left, offset as int),
                has_right == self.gen_reaches(point, Direction2D::Right, offset as int),
                result.value@.no_duplicates(),
                result.value@.len() <= 4 * (offset - 1),
                forall|c: Vector2i| #[trigger]
                    result.value@.contains(c) <==> self.found_any(point, c, offset as int),
                result.limit_rng == result.value@.len(),
                layered(point, result.value@, result.limit_rng as int, offset as int),
            decreases self.width + self.height + 1 - offset,
        {
            let ghost k = offset as int;
            proof {
                assert forall|e: Direction2D| #[trigger] self.gen_reaches(point, e, k) && k > 1 implies self.cell_in_map(point, e, k - 1) by {
                    assert(self.gen_passes(point, e, k - 1));
                }
                if has_up {
                    self.lemma_scan_fresh(point, Direction2D::Up, k);
                }
                if has_down {
                    self.lemma_scan_fresh(point, Direction2D::Down, k);
                }
                if has_left {
                    self.lemma_scan_fresh(point, Direction2D::Left, k);
                }
                if has_right {
                    self.lemma_scan_fresh(point, Direction2D::Right, k);
                }
            }
            if has_up {
                has_up = self.scan_cell(point, Direction2D::Up, offset, &mut result, rng);
            }
            if has_down {
                has_down = self.scan_cell(point, Direction2D::Down, offset, &mut result, rng);
            }
            if has_left {
                has_left = self.scan_cell(point, Direction2D::Left, offset, &mut result, rng);
            }
            if has_right {
                has_right = self.scan_cell(point, Direction2D::Right, offset, &mut result, rng);
            }
            result.limit_rng = result.value.len();
            offset = offset + 1;
            proof {
                assert forall|i: int| 0 <= i < result.value@.len() implies grid_distance(point, #[trigger] result.value@[i]) < k + 1 by {
                }
            }
            proof {
                assert forall|c: Vector2i| #[trigger]
                    result.value@.contains(c) <==> self.found_any(point, c, k + 1) by {
                    self.lemma_found_step(point, Direction2D::Up, c, k);
                    self.lemma_found_step(point, Direction2D::Down, c, k);
                    self.lemma_found_step(point, Direction2D::Left, c, k);
                    self.lemma_found_step(point, Direction2D::Right, c, k);
                }
            }
        }
        proof {
            let k = offset as int;
            assert forall|c: Vector2i| #[trigger] result.value@.contains(c) <==> self.valid_next(point, c) by {
                self.lemma_found_closed(point, Direction2D::Up, c, k);
                self.lemma_found_closed(point, Direction2D::Down, c, k);
                self.lemma_found_closed(point, Direction2D::Left, c, k);
                self.lemma_found_closed(point, Direction2D::Right, c, k);
                if self.valid_next(point, c) {
                    let (e, m) = choose|e: Direction2D, m: int| #[trigger] self.gen_target(point, e, m) && c == cell(point, e, m);
                    assert(self.found_within(point, e, c, m + 1));
                }
                if self.found_any(point, c, k) {
                    if self.found_within(point, Direction2D::Up, c, k) {
                        let m = choose|m: int| 1 <= m < k && #[trigger] self.gen_target(point, Direction2D::Up, m) && c == cell(point, Direction2D::Up, m);
                    }
                    if self.found_within(point, Direction2D::Down, c, k) {
                        let m = choose|m: int| 1 <= m < k && #[trigger] self.gen_target(point, Direction2D::Down, m) && c == cell(point, Direction2D::Down, m);
                    }
                    if self.found_within(point, Direction2D::Left, c, k) {
                        let m = choose|m: int| 1 <= m < k && #[trigger] self.gen_target(point, Direction2D::Left, m) && c == cell(point, Direction2D::Left, m);
                    }
                    if self.found_within(point, Direction2D::Right, c, k) {
                        let m = choose|m: int| 1 <= m < k && #[trigger] self.gen_target(point, Direction2D::Right, m) && c == cell(point, Direction2D::Right, m);
                    }
                }
            }
        }
        result.value
    }

    /// What a link step needs: either the first island on an empty board, or
    /// a valid target `k` steps from an island `s` towards `d`.
    pub open spec fn link_allowed(&self, from: Option<Vector2i>, c: Vector2i, bc: int, d: Direction2D, k: int) -> bool {
        match from {
            None => self.islands_pos@.len() == 0 && self.point_in_map(c) && bc == 0,
            Some(s) => self.is_island(s) && self.gen_target(s, d, k) && c == cell(s, d, k) && 1 <= bc <= 2,
        }
    }

    /// What a link step does to the occupancy lists, spelled out cell by cell.
    pub proof fn lemma_link_facts(&self, m: Board, from: Option<Vector2i>, c: Vector2i, bc: int, d: Direction2D, k: int)
        requires
            self.wf(),
            !self.is_ready,
            self.link_allowed(from, c, bc, d, k),
            self.linked(m, from, c, bc),
        ensures
            self.point_in_map(c),
            forall|q: Vector2i| #[trigger] self.bridge_points@.contains(q) ==> m.bridge_points@.contains(q),
            forall|q: Vector2i| #[trigger] self.islands_gate_pos@.contains(q) ==> m.islands_gate_pos@.contains(q),
            forall|q: Vector2i| #[trigger] m.is_island(q) <==> self.is_island(q) || q == c,
            forall|i: int| 0 <= i < self.islands_pos@.len() ==> m.islands_pos@[i] == self.islands_pos@[i],
            forall|q: Vector2i| #[trigger] m.bridge_points@.contains(q) ==> self.bridge_points@.contains(q)
                || corridor(from, c, true).contains(q),
            forall|q: Vector2i| #[trigger] m.islands_gate_pos@.contains(q) ==> self.islands_gate_pos@.contains(q)
                || self.gate_cells(c).contains(q),
            self.gate_cells(c).len() >= 0,
            match from {
                None => corridor(from, c, true).len() == 0,
                Some(s) => {
                    &&& self.point_in_map(s)
                    &&& s != c
                    &&& !self.bridge_points@.contains(cell(s, d, 1))
                    &&& m.bridge_points@.contains(cell(s, d, 1))
                    &&& !self.bridge_points@.contains(cell(c, d.spec_opposite(), 1))
                    &&& m.bridge_points@.contains(cell(c, d.spec_opposite(), 1))
                    &&& cell_fits(s, d, k)
                    &&& forall|q: Vector2i| #[trigger] corridor(from, c, true).contains(q) ==> exists|j: int|
                        1 <= j < k && q == #[trigger] cell(s, d, j)
                },
            },
    {
        assert forall|q: Vector2i| #[trigger] self.bridge_points@.contains(q) implies m.bridge_points@.contains(q) by {
            assert(self.bridge_points@.to_set().contains(q));
            assert(m.bridge_points@.to_set().contains(q));
        }
        assert forall|q: Vector2i| #[trigger] self.islands_gate_pos@.contains(q) implies m.islands_gate_pos@.contains(q) by {
            assert(self.islands_gate_pos@.to_set().contains(q));
            assert(m.islands_gate_pos@.to_set().contains(q));
        }
        assert forall|q: Vector2i| #[trigger] m.bridge_points@.contains(q) implies self.bridge_points@.contains(q)
            || corridor(from, c, true).contains(q) by {
            assert(m.bridge_points@.to_set().contains(q));
        }
        assert forall|q: Vector2i| #[trigger] m.islands_gate_pos@.contains(q) implies self.islands_gate_pos@.contains(q)
            || self.gate_cells(c).contains(q) by {
            assert(m.islands_gate_pos@.to_set().contains(q));
        }
        assert forall|q: Vector2i| #[trigger] m.is_island(q) <==> self.is_island(q) || q == c by {
            if !self.is_island(c) {
                if m.is_island(q) && q != c {
                    let i = choose|i: int| 0 <= i < m.islands_pos@.len() && m.islands_pos@[i] == q;
                    assert(self.islands_pos@[i] == q);
                }
                if self.is_island(q) {
                    let i = choose|i: int| 0 <= i < self.islands_pos@.len() && self.islands_pos@[i] == q;
                    assert(m.islands_pos@[i] == q);
                }
                assert(m.islands_pos@[self.islands_pos@.len() as int] == c);
            }
        }
        match from {
            None => {},
            Some(s) => {
                assert(self.gen_passes(s, d, 1));
                assert(self.gen_passes(s, d, k - 1));
                assert(self.point_in_map(s));
                lemma_corridor_cells(s, d, k);
                assert(cell(c, d.spec_opposite(), 1) == cell(s, d, k - 1));
                assert(corridor(from, c, true).contains(cell(s, d, 1)));
                assert(corridor(from, c, true).contains(cell(s, d, k - 1)));
                assert(m.bridge_points@.to_set().contains(cell(s, d, 1)));
                assert(m.bridge_points@.to_set().contains(cell(s, d, k - 1)));
            },
        }
    }

    /// A link step keeps the islands well formed and within capacity bounds.
    proof fn lemma_link_keeps_islands(&self, m: Board, from: Option<Vector2i>, c: Vector2i, bc: int, d: Direction2D, k: int)
        requires
            self.wf(),
            !self.is_ready,
            self.link_allowed(from, c, bc, d, k),
            self.linked(m, from, c, bc),
        ensures
            m.islands_wf(),
    {
        self.lemma_link_facts(m, from, c, bc, d, k);
        let n = self.islands@.len();
        assert(m.islands_pos@.no_duplicates()) by {
            if !self.is_island(c) {
                assert forall|a: int, b: int| 0 <= a < m.islands_pos@.len() && 0 <= b < m.islands_pos@.len() && a != b
                    implies m.islands_pos@[a] != m.islands_pos@[b] by {
                    if a == n {
                        assert(self.islands_pos@.contains(m.islands_pos@[b]) || b == n);
                    }
                    if b == n {
                        assert(self.islands_pos@.contains(m.islands_pos@[a]) || a == n);
                    }
                }
            }
        }
        assert forall|i: int| 0 <= i < m.islands@.len() implies {
            &&& (#[trigger] m.islands@[i]).pos == m.islands_pos@[i]
            &&& m.islands@[i].wf()
            &&& 0 <= m.islands@[i].max_bridge_count
            &&& m.islands@[i].max_bridge_count <= 2 * m.adjacent_corridors(m.islands_pos@[i])
        } by {
            assert(self.island_grown(m, i, from, c, bc));
            let p = m.islands_pos@[i];
            let b = m.islands@[i];
            if i < n {
                let a = self.islands@[i];
                assert(a.wf());
                assert(a.current_bridge_count == 0) by {
                    reveal(Board::user_wf);
                }
                assert(b.wf());
                assert(self.adjacent_corridors(p) <= m.adjacent_corridors(p));
                match from {
                    None => {},
                    Some(s) => {
                        if p == s {
                            assert(self.adjacent_corridors(p) + 1 <= m.adjacent_corridors(p));
                        }
                        if p == c {
                            assert(self.adjacent_corridors(p) + 1 <= m.adjacent_corridors(p));
                        }
                    },
                }
            } else {
                assert(b.bridge_state@ =~= seq![0i32, 0i32, 0i32, 0i32]);
                assert(b.wf());
                match from {
                    None => {},
                    Some(s) => {
                        assert(p == c);
                        assert(1 <= m.adjacent_corridors(p));
                    },
                }
            }
        }
        assert forall|i: int| 0 <= i < m.islands_pos@.len() implies m.point_in_map(#[trigger] m.islands_pos@[i]) by {
            if i < n {
                assert(self.point_in_map(self.islands_pos@[i]));
            }
        }
        assert forall|i: int| 0 <= i < m.able_to_gen_islands@.len() implies m.is_island(
            #[trigger] m.able_to_gen_islands@[i],
        ) by {
            let q = m.able_to_gen_islands@[i];
            assert(m.able_to_gen_islands@.to_set().contains(q));
            if q != c {
                assert(self.able_to_gen_islands@.contains(q));
                let j = choose|j: int| 0 <= j < self.able_to_gen_islands@.len() && self.able_to_gen_islands@[j] == q;
                assert(self.is_island(self.able_to_gen_islands@[j]));
            }
        }
    }

    /// A link step keeps the gates exactly the islands' on-board neighbours.
    proof fn lemma_link_keeps_gates(&self, m: Board, from: Option<Vector2i>, c: Vector2i, bc: int, d: Direction2D, k: int)
        requires
            self.wf(),
            !self.is_ready,
            self.link_allowed(from, c, bc, d, k),
            self.linked(m, from, c, bc),
        ensures
            m.gates_wf(),
    {
        reveal(Board::gates_wf);
        self.lemma_link_facts(m, from, c, bc, d, k);
        self.lemma_gate_cells(c);
        let n = self.islands_pos@.len();
        let ci = m.islands_pos@.index_of(c);
        assert(m.is_island(c));
        assert(m.islands_pos@.contains(c));
        assert(m.islands_pos@[ci] == c);
        assert(!self.islands_gate_pos@.contains(c)) by {
            match from {
                None => {
                    if self.islands_gate_pos@.contains(c) {
                        let (i, e) = choose|i: int, e: Direction2D|
                            0 <= i < self.islands_pos@.len() && self.cell_in_map(self.islands_pos@[i], e, 1) && c
                                == #[trigger] cell(self.islands_pos@[i], e, 1);
                    }
                },
                Some(s) => {},
            }
        }
        assert forall|i: int, e: Direction2D|
            0 <= i < m.islands_pos@.len() && #[trigger] m.cell_in_map(m.islands_pos@[i], e, 1)
                implies m.islands_gate_pos@.contains(cell(m.islands_pos@[i], e, 1)) by {
            if i < n {
                assert(self.cell_in_map(self.islands_pos@[i], e, 1));
            } else {
                assert(m.islands_pos@[i] == c);
                assert(self.cell_in_map(c, e, 1));
                assert(m.islands_gate_pos@.to_set().contains(cell(c, e, 1)));
            }
        }
        assert forall|i: int| 0 <= i < m.islands_pos@.len() implies !m.islands_gate_pos@.contains(
            #[trigger] m.islands_pos@[i],
        ) by {
            let p = m.islands_pos@[i];
            if m.islands_gate_pos@.contains(p) {
                if self.islands_gate_pos@.contains(p) {
                    if i < n {
                        assert(!self.islands_gate_pos@.contains(self.islands_pos@[i]));
                    }
                } else {
                    assert(self.gate_cells(c).contains(p));
                    let e = if p == cell(c, Direction2D::Left, 1) && self.cell_in_map(c, Direction2D::Left, 1) {
                        Direction2D::Left
                    } else if p == cell(c, Direction2D::Right, 1) && self.cell_in_map(c, Direction2D::Right, 1) {
                        Direction2D::Right
                    } else if p == cell(c, Direction2D::Up, 1) && self.cell_in_map(c, Direction2D::Up, 1) {
                        Direction2D::Up
                    } else {
                        Direction2D::Down
                    };
                    assert(p == cell(c, e, 1) && self.cell_in_map(c, e, 1));
                    assert(p != c);
                    assert(i < n);
                    assert(self.islands_pos@[i] == p);
                    assert(cell(p, e.spec_opposite(), 1) == c);
                    assert(self.cell_in_map(p, e.spec_opposite(), 1));
                    assert(self.islands_gate_pos@.contains(c));
                }
            }
        }
        assert forall|g: Vector2i| #[trigger] m.islands_gate_pos@.contains(g) implies exists|i: int, e: Direction2D|
            0 <= i < m.islands_pos@.len() && m.cell_in_map(m.islands_pos@[i], e, 1) && g
                == #[trigger] cell(m.islands_pos@[i], e, 1) by {
            if self.islands_gate_pos@.contains(g) {
                let (i, e) = choose|i: int, e: Direction2D|
                    0 <= i < self.islands_pos@.len() && self.cell_in_map(self.islands_pos@[i], e, 1) && g
                        == #[trigger] cell(self.islands_pos@[i], e, 1);
                assert(m.islands_pos@[i] == self.islands_pos@[i]);
                assert(m.cell_in_map(m.islands_pos@[i], e, 1));
            } else {
                assert(self.gate_cells(c).contains(g));
                if g == cell(c, Direction2D::Left, 1) && self.cell_in_map(c, Direction2D::Left, 1) {
                    assert(m.cell_in_map(m.islands_pos@[ci], Direction2D::Left, 1));
                } else if g == cell(c, Direction2D::Right, 1) && self.cell_in_map(c, Direction2D::Right, 1) {
                    assert(m.cell_in_map(m.islands_pos@[ci], Direction2D::Right, 1));
                } else if g == cell(c, Direction2D::Up, 1) && self.cell_in_map(c, Direction2D::Up, 1) {
                    assert(m.cell_in_map(m.islands_pos@[ci], Direction2D::Up, 1));
                } else {
                    assert(m.cell_in_map(m.islands_pos@[ci], Direction2D::Down, 1));
                }
            }
        }
    }

    /// A link step keeps corridor cells distinct, on the board and off the
    /// islands.
    proof fn lemma_link_keeps_corridors(&self, m: Board, from: Option<Vector2i>, c: Vector2i, bc: int, d: Direction2D, k: int)
        requires
            self.wf(),
            !self.is_ready,
            self.link_allowed(from, c, bc, d, k),
            self.linked(m, from, c, bc),
        ensures
            m.corridors_wf(),
    {
        reveal(Board::corridors_wf);
        self.lemma_link_facts(m, from, c, bc, d, k);
        assert forall|i: int| 0 <= i < m.bridge_points@.len() implies {
            &&& m.point_in_map(#[trigger] m.bridge_points@[i])
            &&& !m.is_island(m.bridge_points@[i])
        } by {
            let q = m.bridge_points@[i];
            assert(m.bridge_points@.contains(q));
            if self.bridge_points@.contains(q) {
                let j = choose|j: int| 0 <= j < self.bridge_points@.len() && self.bridge_points@[j] == q;
                assert(self.point_in_map(self.bridge_points@[j]));
            } else {
                match from {
                    None => {},
                    Some(s) => {
                        let j = choose|j: int| 1 <= j < k && q == #[trigger] cell(s, d, j);
                        assert(self.gen_passes(s, d, j));
                        if j == 1 {
                            reveal(Board::gates_wf);
                            let si = self.islands_pos@.index_of(s);
                            assert(self.islands_pos@[si] == s);
                            assert(self.islands_gate_pos@.contains(q));
                            if self.is_island(q) {
                                let qi = choose|qi: int| 0 <= qi < self.islands_pos@.len() && self.islands_pos@[qi] == q;
                                assert(!self.islands_gate_pos@.contains(self.islands_pos@[qi]));
                            }
                        } else if self.islands_gate_pos@.contains(q) {
                            reveal(Board::gates_wf);
                            if self.is_island(q) {
                                let qi = choose|qi: int| 0 <= qi < self.islands_pos@.len() && self.islands_pos@[qi] == q;
                                assert(!self.islands_gate_pos@.contains(self.islands_pos@[qi]));
                            }
                        }
                        if q == c {
                            lemma_cell_injective(s, d, j, d, k);
                        }
                    },
                }
            }
        }
    }

    /// Linking a valid target keeps the board's invariant.
    pub proof fn lemma_link_keeps_wf(&self, m: Board, from: Option<Vector2i>, c: Vector2i, bc: int, d: Direction2D, k: int)
        requires
            self.wf(),
            !self.is_ready,
            self.link_allowed(from, c, bc, d, k),
            self.linked(m, from, c, bc),
        ensures
            m.wf(),
    {
        self.lemma_link_facts(m, from, c, bc, d, k);
        self.lemma_link_keeps_islands(m, from, c, bc, d, k);
        self.lemma_link_keeps_gates(m, from, c, bc, d, k);
        self.lemma_link_keeps_corridors(m, from, c, bc, d, k);
        assert(m.user_wf()) by {
            reveal(Board::user_wf);
            assert forall|i: int| 0 <= i < m.islands@.len() implies (#[trigger] m.islands@[i]).current_bridge_count == 0 by {
                assert(self.island_grown(m, i, from, c, bc));
            }
            assert forall|i: int, e: Direction2D|
                0 <= i < m.islands@.len() && #[trigger] m.islands@[i].slot(e) > 0 implies m.paired(
                    m.islands_pos@[i],
                    e,
                ) by {
                assert(m.islands@[i].wf());
                assert(0 <= m.islands@[i].bridge_state@[0]);
                assert(0 <= m.islands@[i].bridge_state@[1]);
                assert(0 <= m.islands@[i].bridge_state@[2]);
                assert(0 <= m.islands@[i].bridge_state@[3]);
            }
        }
    }
}

} // verus!

verus! {

impl Board {
    /// `m` is this board with some sources dropped: every other field is the
    /// same, and `m`'s sources are distinct sources of this board.
    pub open spec fn pruned(&self, m: Board) -> bool {
        &&& m.width == self.width
        &&& m.height == self.height
        &&& m.is_ready == self.is_ready
        &&& m.max_bridge_count == self.max_bridge_count
        &&& m.islands@ == self.islands@
        &&& m.islands_pos@ == self.islands_pos@
        &&& m.islands_gate_pos@ == self.islands_gate_pos@
        &&& m.bridge_points@ == self.bridge_points@
        &&& m.user_bridge_points@ == self.user_bridge_points@
        &&& m.game_mode == self.game_mode
        &&& m.events@ == self.events@
        &&& m.able_to_gen_islands@.no_duplicates()
        &&& forall|q: Vector2i| #[trigger] m.able_to_gen_islands@.contains(q) ==> self.able_to_gen_islands@.contains(q)
    }

    /// Dropping sources, and possibly stopping generation, keeps the
    /// invariant of a board that is still generating.
    pub proof fn lemma_prune_keeps_wf(&self, m: Board, ready: bool)
        requires
            self.wf(),
            !self.is_ready,
            self.pruned(Board { is_ready: self.is_ready, ..m }),
            m.is_ready == ready,
        ensures
            m.wf(),
    {
        assert forall|i: int| 0 <= i < m.able_to_gen_islands@.len() implies m.is_island(
            #[trigger] m.able_to_gen_islands@[i],
        ) by {
            let q = m.able_to_gen_islands@[i];
            assert(m.able_to_gen_islands@.contains(q));
            let j = choose|j: int| 0 <= j < self.able_to_gen_islands@.len() && self.able_to_gen_islands@[j] == q;
            assert(self.is_island(self.able_to_gen_islands@[j]));
        }
        assert forall|i: int| 0 <= i < m.islands@.len() implies (#[trigger] m.islands@[i]).current_bridge_count == 0 by {
            reveal(Board::user_wf);
        }
        assert(m.islands_wf());
        assert(m.gates_wf()) by {
            reveal(Board::gates_wf);
            assert forall|i: int, e: Direction2D|
                0 <= i < m.islands_pos@.len() && #[trigger] m.cell_in_map(m.islands_pos@[i], e, 1)
                    implies m.islands_gate_pos@.contains(cell(m.islands_pos@[i], e, 1)) by {
                assert(self.cell_in_map(self.islands_pos@[i], e, 1));
            }
            assert forall|g: Vector2i| #[trigger] m.islands_gate_pos@.contains(g) implies exists|i: int, e: Direction2D|
                0 <= i < m.islands_pos@.len() && m.cell_in_map(m.islands_pos@[i], e, 1) && g
                    == #[trigger] cell(m.islands_pos@[i], e, 1) by {
                let (i, e) = choose|i: int, e: Direction2D|
                    0 <= i < self.islands_pos@.len() && self.cell_in_map(self.islands_pos@[i], e, 1) && g
                        == #[trigger] cell(self.islands_pos@[i], e, 1);
                assert(m.cell_in_map(m.islands_pos@[i], e, 1));
            }
        }
        assert(m.corridors_wf()) by {
            reveal(Board::corridors_wf);
            assert forall|i: int| 0 <= i < m.bridge_points@.len() implies {
                &&& m.point_in_map(#[trigger] m.bridge_points@[i])
                &&& !m.is_island(m.bridge_points@[i])
            } by {
                assert(self.point_in_map(self.bridge_points@[i]));
            }
        }
        assert(m.user_wf()) by {
            reveal(Board::user_wf);
            assert forall|i: int, e: Direction2D|
                0 <= i < m.islands@.len() && #[trigger] m.islands@[i].slot(e) > 0 implies m.paired(
                    m.islands_pos@[i],
                    e,
                ) by {
                assert(m.islands@[i].wf());
                assert(0 <= m.islands@[i].bridge_state@[0]);
                assert(0 <= m.islands@[i].bridge_state@[1]);
                assert(0 <= m.islands@[i].bridge_state@[2]);
                assert(0 <= m.islands@[i].bridge_state@[3]);
            }
        }
    }

    /// Boards that agree on the dimensions, islands, gates and corridors
    /// agree on which cells may be linked.
    pub proof fn lemma_valid_next_same(&self, m: Board, p: Vector2i, c: Vector2i)
        requires
            m.width == self.width,
            m.height == self.height,
            m.islands_pos@ == self.islands_pos@,
            m.islands_gate_pos@ == self.islands_gate_pos@,
            m.bridge_points@ == self.bridge_points@,
        ensures
            m.valid_next(p, c) == self.valid_next(p, c),
    {
        assert forall|d: Direction2D, j: int| #[trigger] m.gen_passes(p, d, j) == self.gen_passes(p, d, j) by {}
        assert forall|d: Direction2D, k: int| #[trigger] m.gen_target(p, d, k) == self.gen_target(p, d, k) by {
            if m.gen_reaches(p, d, k) {
                assert forall|j: int| 1 <= j < k implies #[trigger] self.gen_passes(p, d, j) by {
                    assert(m.gen_passes(p, d, j));
                }
            }
            if self.gen_reaches(p, d, k) {
                assert forall|j: int| 1 <= j < k implies #[trigger] m.gen_passes(p, d, j) by {
                    assert(self.gen_passes(p, d, j));
                }
            }
        }
        if m.valid_next(p, c) {
            let (d, k) = choose|d: Direction2D, k: int| #[trigger] m.gen_target(p, d, k) && c == cell(p, d, k);
            assert(self.gen_target(p, d, k));
        }
        if self.valid_next(p, c) {
            let (d, k) = choose|d: Direction2D, k: int| #[trigger] self.gen_target(p, d, k) && c == cell(p, d, k);
            assert(m.gen_target(p, d, k));
        }
    }
}

impl GameMap {
    /// A random index below `n`, favouring the front: with `more_weight` by
    /// exponential decay, else by linear decay.
    fn weighted_random_index(&mut self, n: usize, more_weight: bool) -> (r: usize)
        requires
            1 <= n <= MAX_CANDIDATES as int,
        ensures
            r < n,
            final(self).board == old(self).board,
    {
        let weights = calc_weights(n, more_weight);
        let mut total: u64 = 0;
        let mut i: usize = 0;
        while i < n
            invariant
                i <= n <= MAX_CANDIDATES as int,
                weights@.len() == n,
                forall|j: int| 0 <= j < n ==> weights@[j] <= WEIGHT_SCALE,
                total == weight_sum(weights@, i as int),
                total <= i * WEIGHT_SCALE,
            decreases n - i,
        {
            total = total + weights[i];
            i = i + 1;
        }
        assert(weights@[0] == WEIGHT_SCALE) by {
            assert(exp_weight(0) == 1_000_000);
            assert(linear_weight(0) == 5_000_000nat / 5);
            assert(5_000_000nat / 5 == 1_000_000nat) by (nonlinear_arith);
        }
        assert(total >= WEIGHT_SCALE) by {
            lemma_weight_sum_ge_first(weights@, n as int);
        }
        let v = random_in(&mut self.rng, 0, total - 1);
        pick_weighted(&weights, v)
    }

    /// A random source island and its index among the sources.
    fn select_random_island(&mut self) -> (r: Option<(Vector2i, usize)>)
        ensures
            final(self).board == old(self).board,
            match r {
                None => old(self).board.able_to_gen_islands@.len() == 0,
                Some((p, i)) => i < old(self).board.able_to_gen_islands@.len()
                    && old(self).board.able_to_gen_islands@[i as int] == p,
            },
    {
        if self.board.able_to_gen_islands.len() == 0 {
            return None;
        }
        let index = random_in(&mut self.rng, 0, (self.board.able_to_gen_islands.len() - 1) as u64) as usize;
        Some((self.board.able_to_gen_islands[index], index))
    }
}

} // verus!

verus! {

impl GameMap {
    /// Grows the board by one step: places the first island, or links a
    /// random valid target to a random source island, dropping sources that
    /// have none; marks the board ready when the target is reached or no
    /// source is left.
    pub fn gen_island(&mut self) -> (r: StepResult)
        requires
            old(self).wf(),
        ensures
            final(self).wf(),
            old(self).board.is_ready ==> r == StepResult::Done && final(self).board == old(self).board,
            !old(self).board.is_ready ==> {
                &&& (r == StepResult::Continue <==> !final(self).board.is_ready)
                &&& r == StepResult::Continue ==> final(self).board.progress() > old(self).board.progress()
                &&& r == StepResult::Done ==> final(self).board.islands_pos@.len()
                    >= final(self).board.max_bridge_count
                &&& (r == StepResult::NoSourceAvailable || r == StepResult::NoTargetFromSource) ==> {
                    &&& old(self).board.islands_pos@.len() > 0
                    &&& old(self).board.pruned((Board { is_ready: false, ..final(self).board }))
                    &&& final(self).board.able_to_gen_islands@.len() == 0
                }
                &&& r == StepResult::NoSourceAvailable ==> old(
                    self,
                ).board.able_to_gen_islands@.len() == 0
                &&& r == StepResult::NoTargetFromSource ==> forall|i: int, c: Vector2i|
                    0 <= i < old(self).board.able_to_gen_islands@.len() ==> !#[trigger] old(
                        self,
                    ).board.valid_next(old(self).board.able_to_gen_islands@[i], c)
                &&& (r == StepResult::Continue || r == StepResult::Done) ==> exists|
                    b: Board,
                    from: Option<Vector2i>,
                    c: Vector2i,
                    bc: int,
                    d: Direction2D,
                    k: int,
                |
                    #[trigger] b.link_allowed(from, c, bc, d, k) && old(self).board.pruned(b) && b.linked(
                        final(self).board,
                        from,
                        c,
                        bc,
                    ) && (from.is_some() ==> b.able_to_gen_islands@.contains(from.unwrap()))
            },
    {
        if self.board.is_ready {
            return StepResult::Done;
        }
        let ghost b0 = self.board;
        if self.board.islands_pos.len() == 0 {
            let x = random_in(&mut self.rng, 0, (self.board.width - 1) as u64) as i32;
            let y = random_in(&mut self.rng, 0, (self.board.height - 1) as u64) as i32;
            let first_point = Vector2i::new(x, y);
            let first_island = Island::create(first_point);
            self.link_island(None, first_point, first_island);
            proof {
                let bc = choose|bc: int| (bc == 0) && b0.linked(self.board, None, first_point, bc);
                assert(b0.link_allowed(None, first_point, bc, Direction2D::Up, 0));
                b0.lemma_link_keeps_wf(self.board, None, first_point, bc, Direction2D::Up, 0);
                lemma_link_progress(b0, self.board, None, first_point, bc, Direction2D::Up, 0);
                assert(b0.pruned(b0));
            }
            return if self.board.is_ready {
                StepResult::Done
            } else {
                StepResult::Continue
            };
        }
        if self.board.able_to_gen_islands.len() == 0 {
            self.board.is_ready = true;
            proof {
                b0.lemma_prune_keeps_wf(self.board, true);
            }
            return StepResult::NoSourceAvailable;
        }
        let (mut src_position, mut index) = self.select_random_island().unwrap();
        proof {
            assert(b0.pruned(self.board));
            assert(self.board.is_island(self.board.able_to_gen_islands@[index as int]));
            let si = choose|si: int| 0 <= si < self.board.islands_pos@.len() && self.board.islands_pos@[si] == src_position;
            assert(self.board.point_in_map(self.board.islands_pos@[si]));
        }
        let mut valid_next_points = self.board.calc_valid_next_point(src_position, &mut self.rng);
        while valid_next_points.len() == 0
            invariant
                self.wf(),
                !self.board.is_ready,
                b0.wf(),
                !b0.is_ready,
                old(self).board == b0,
                b0.islands_pos@.len() > 0,
                b0.pruned(self.board),
                index < self.board.able_to_gen_islands@.len(),
                self.board.able_to_gen_islands@[index as int] == src_position,
                self.board.point_in_map(src_position),
                forall|c: Vector2i| #[trigger]
                    valid_next_points@.contains(c) <==> self.board.valid_next(src_position, c),
                valid_next_points@.len() <= 4 * (self.board.width + self.board.height),
                forall|q: Vector2i, c: Vector2i|
                    b0.able_to_gen_islands@.contains(q) && !self.board.able_to_gen_islands@.contains(q)
                        ==> !#[trigger] b0.valid_next(q, c),
            decreases self.board.able_to_gen_islands@.len(),
        {
            let ghost b1 = self.board;
            proof {
                lemma_remove_no_dup(self.board.able_to_gen_islands@, index as int);
            }
            self.board.able_to_gen_islands.remove(index);
            proof {
                assert forall|q: Vector2i| #[trigger] self.board.able_to_gen_islands@.contains(q) implies b0.able_to_gen_islands@.contains(q) by {
                    assert(self.board.able_to_gen_islands@.to_set().contains(q));
                    assert(b1.able_to_gen_islands@.to_set().contains(q));
                }
                assert forall|q: Vector2i, c: Vector2i|
                    b0.able_to_gen_islands@.contains(q) && !self.board.able_to_gen_islands@.contains(q)
                        implies !#[trigger] b0.valid_next(q, c) by {
                    if b1.able_to_gen_islands@.contains(q) {
                        assert(b1.able_to_gen_islands@.to_set().contains(q));
                        assert(!self.board.able_to_gen_islands@.to_set().contains(q));
                        assert(q == src_position);
                        assert(!valid_next_points@.contains(c));
                        b0.lemma_valid_next_same(b1, q, c);
                    }
                }
                b0.lemma_prune_keeps_wf(self.board, false);
            }
            if self.board.able_to_gen_islands.len() == 0 {
                self.board.is_ready = true;
                proof {
                    b0.lemma_prune_keeps_wf(self.board, true);
                    assert forall|i: int, c: Vector2i|
                        0 <= i < b0.able_to_gen_islands@.len() implies !#[trigger] b0.valid_next(
                            b0.able_to_gen_islands@[i],
                            c,
                        ) by {
                        let q = b0.able_to_gen_islands@[i];
                        assert(b0.able_to_gen_islands@.contains(q));
                        assert(!self.board.able_to_gen_islands@.contains(q));
                    }
                }
                return StepResult::NoTargetFromSource;
            }
            let (p, i) = self.select_random_island().unwrap();
            src_position = p;
            index = i;
            proof {
                assert(self.board.is_island(self.board.able_to_gen_islands@[index as int]));
                let si = choose|si: int| 0 <= si < self.board.islands_pos@.len() && self.board.islands_pos@[si] == src_position;
                assert(self.board.point_in_map(self.board.islands_pos@[si]));
            }
            valid_next_points = self.board.calc_valid_next_point(src_position, &mut self.rng);
        }
        let ghost b1 = self.board;
        let n = valid_next_points.len();
        let gm = self.board.game_mode;
        let rindex = if (self.board.islands_pos.len() as u128) * 100 < (self.board.max_bridge_count as u128) * 95 {
            let more_weight = random_ratio(&mut self.rng, 5 * gm, 100);
            self.weighted_random_index(n, more_weight)
        } else {
            random_in(&mut self.rng, 0, (n - 1) as u64) as usize
        };
        let next_point = valid_next_points[rindex];
        proof {
            assert(valid_next_points@.contains(next_point));
            assert(b1.valid_next(src_position, next_point));
        }
        let ghost (d, k) = choose|d: Direction2D, k: int| #[trigger] b1.gen_target(src_position, d, k) && next_point == cell(src_position, d, k);
        proof {
            assert(b1.point_in_map(next_point));
            if k > 1 {
                assert(b1.gen_passes(src_position, d, k - 1));
            }
            lemma_cell_injective(src_position, d, k, d, k);
            assert(src_position != next_point);
            assert(b1.is_island(src_position));
        }
        let next_island = match self.board.island(next_point) {
            Some(v) => v,
            None => Island::create(next_point),
        };
        self.link_island(Some(src_position), next_point, next_island);
        proof {
            let bc = choose|bc: int| (1 <= bc <= 2) && b1.linked(self.board, Some(src_position), next_point, bc);
            assert(b1.link_allowed(Some(src_position), next_point, bc, d, k));
            b1.lemma_link_keeps_wf(self.board, Some(src_position), next_point, bc, d, k);
            lemma_link_progress(b1, self.board, Some(src_position), next_point, bc, d, k);
            assert(b1.able_to_gen_islands@.contains(src_position));
        }
        if self.board.is_ready {
            StepResult::Done
        } else {
            StepResult::Continue
        }
    }
}

} // verus!
