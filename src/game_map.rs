use vstd::prelude::*;
use rand::rngs::StdRng;
use crate::island::Island;
use crate::point::{
    cell, cell_fits, cell_x, cell_y, contains_point, find_point, insert_all, insert_point, Direction2D, Vector2i,
};
use crate::random::random_ratio;
use crate::random::seeded_rng;

verus! {

/// What a bridge toggle did.
#[derive(Clone, Copy, Debug, PartialEq, Eq, Structural, Hash)]
pub enum BridgeAction {
    /// The bridge in that direction was taken down.
    Remove,
    /// Nothing happened.
    Pass,
    /// A single bridge now stands.
    Single,
    /// The single bridge became a double one.
    Double,
}

/// What one generation step did.
#[derive(Clone, Copy, Debug, PartialEq, Eq, Structural, Hash)]
pub enum StepResult {
    /// An island was placed or linked; the target is not reached yet.
    Continue,
    /// No island was left to grow from; the board is now ready.
    NoSourceAvailable,
    /// Every remaining source had no valid target; the board is now ready.
    NoTargetFromSource,
    /// The board is ready.
    Done,
}

/// A notification for whoever draws the board.
#[derive(Clone, Copy, Debug, PartialEq, Eq, Structural, Hash)]
pub enum MapEvent {
    /// The current bridge count of the island at `pos` changed.
    ChangeBridgeCount { pos: Vector2i },
    /// The bridge between two islands has to be redrawn.
    RenderBridge { src: Vector2i, target: Vector2i, action: BridgeAction },
}

/// Number of islands the generator aims for, in percent of the board area.
pub open spec fn target_percent(game_mode: u32) -> int {
    if game_mode > 2 { 25 } else { 18 }
}

/// Number of islands the generator aims for on a `w` by `h` board.
pub open spec fn target_count(game_mode: u32, w: int, h: int) -> int {
    w * h * target_percent(game_mode) / 100
}

/// The cells strictly or inclusively between two points on a common row or
/// column, in increasing coordinate order. Without a start point the
/// segment is the end point alone.
pub open spec fn corridor(from: Option<Vector2i>, current: Vector2i, exclude_endpoint: bool) -> Seq<Vector2i> {
    match from {
        None => if exclude_endpoint { seq![] } else { seq![current] },
        Some(f) => {
            if exclude_endpoint && f == current {
                seq![]
            } else if f.x == current.x {
                let lo = if f.y < current.y { f.y as int } else { current.y as int };
                let hi = if f.y < current.y { current.y as int } else { f.y as int };
                let lo = if exclude_endpoint { lo + 1 } else { lo };
                let hi = if exclude_endpoint { hi - 1 } else { hi };
                if lo > hi {
                    seq![]
                } else {
                    Seq::new((hi - lo + 1) as nat, |i: int| Vector2i { x: f.x, y: (lo + i) as i32 })
                }
            } else if f.y == current.y {
                let lo = if f.x < current.x { f.x as int } else { current.x as int };
                let hi = if f.x < current.x { current.x as int } else { f.x as int };
                let lo = if exclude_endpoint { lo + 1 } else { lo };
                let hi = if exclude_endpoint { hi - 1 } else { hi };
                if lo > hi {
                    seq![]
                } else {
                    Seq::new((hi - lo + 1) as nat, |i: int| Vector2i { x: (lo + i) as i32, y: f.y })
                }
            } else {
                seq![]
            }
        },
    }
}

/// The state of a puzzle board.
///
/// During generation the occupancy lists (`islands_pos`, `islands_gate_pos`,
/// `bridge_points`) grow; once `is_ready` holds, only the players' bridges
/// (`bridge_state`, `current_bridge_count`, `user_bridge_points`) change.
#[derive(Debug)]
pub struct Board {
    pub width: i32,
    pub height: i32,
    /// Generation has stopped.
    pub is_ready: bool,
    /// Number of islands the generator aims for.
    pub max_bridge_count: u64,
    /// The islands, in the order of `islands_pos`.
    pub islands: Vec<Island>,
    /// Island positions, in order of creation.
    pub islands_pos: Vec<Vector2i>,
    /// Cells next to an island: no new island may stand there.
    pub islands_gate_pos: Vec<Vector2i>,
    /// Islands that may still serve as a growth source.
    pub able_to_gen_islands: Vec<Vector2i>,
    /// Cells inside a corridor laid during generation.
    pub bridge_points: Vec<Vector2i>,
    /// Cells inside a corridor of a player's bridge.
    pub user_bridge_points: Vec<Vector2i>,
    /// Difficulty, from 0 to 20.
    pub game_mode: u32,
    /// Notifications not yet taken by the view.
    pub events: Vec<MapEvent>,
}

/// The puzzle board together with the random source that drives its
/// generation.
#[derive(Debug)]
pub struct GameMap {
    pub board: Board,
    /// Source of every random choice of the generator.
    pub rng: StdRng,
}

/// Highest accepted difficulty.
pub const MAX_GAME_MODE: u32 = 20;

impl Board {
    pub open spec fn in_map(&self, x: int, y: int) -> bool {
        0 <= x < self.width && 0 <= y < self.height
    }

    pub open spec fn point_in_map(&self, p: Vector2i) -> bool {
        self.in_map(p.x as int, p.y as int)
    }

    /// The cell `k` steps from `p` towards `d` lies on the board.
    pub open spec fn cell_in_map(&self, p: Vector2i, d: Direction2D, k: int) -> bool {
        self.in_map(cell_x(p, d, k), cell_y(p, d, k))
    }

    pub open spec fn is_island(&self, p: Vector2i) -> bool {
        self.islands_pos@.contains(p)
    }

    /// The island at `p` (meaningful where `is_island(p)`).
    pub open spec fn island_at(&self, p: Vector2i) -> Island {
        self.islands@[self.islands_pos@.index_of(p)]
    }

    /// Units of the players' bridge leaving the island at `p` towards `d`.
    pub open spec fn slot_at(&self, p: Vector2i, d: Direction2D) -> int {
        self.island_at(p).slot(d)
    }

    /// The nearest island from `p` towards `d` is `k` steps away.
    pub open spec fn is_first(&self, p: Vector2i, d: Direction2D, k: int) -> bool {
        &&& 1 <= k
        &&& self.cell_in_map(p, d, k)
        &&& self.is_island(cell(p, d, k))
        &&& forall|j: int| 1 <= j < k ==> !#[trigger] self.is_island(cell(p, d, j))
    }

    /// How many of the four neighbours of `p` lie in a generation corridor.
    pub open spec fn adjacent_corridors(&self, p: Vector2i) -> int {
        (if self.bridge_points@.contains(cell(p, Direction2D::Up, 1)) { 1int } else { 0 })
        + (if self.bridge_points@.contains(cell(p, Direction2D::Right, 1)) { 1int } else { 0 })
        + (if self.bridge_points@.contains(cell(p, Direction2D::Down, 1)) { 1int } else { 0 })
        + (if self.bridge_points@.contains(cell(p, Direction2D::Left, 1)) { 1int } else { 0 })
    }

    /// Islands: one per position, on the board, each well formed, with a
    /// capacity of at most two units per corridor that leaves it.
    pub open spec fn islands_wf(&self) -> bool {
        &&& self.islands@.len() == self.islands_pos@.len()
        &&& self.islands_pos@.no_duplicates()
        &&& forall|i: int| 0 <= i < self.islands@.len() ==> {
            &&& (#[trigger] self.islands@[i]).pos == self.islands_pos@[i]
            &&& self.islands@[i].wf()
            &&& 0 <= self.islands@[i].max_bridge_count
            &&& self.islands@[i].max_bridge_count <= 2 * self.adjacent_corridors(self.islands_pos@[i])
        }
        &&& forall|i: int| 0 <= i < self.islands_pos@.len() ==> self.point_in_map(#[trigger] self.islands_pos@[i])
        &&& forall|i: int| 0 <= i < self.able_to_gen_islands@.len() ==> self.is_island(
            #[trigger] self.able_to_gen_islands@[i],
        )
        &&& self.able_to_gen_islands@.no_duplicates()
    }

    /// Gates: exactly the on-board neighbours of the islands, and no island
    /// stands on one.
    #[verifier::opaque]
    pub open spec fn gates_wf(&self) -> bool {
        &&& forall|i: int, d: Direction2D|
            0 <= i < self.islands_pos@.len() && #[trigger] self.cell_in_map(self.islands_pos@[i], d, 1)
                ==> self.islands_gate_pos@.contains(cell(self.islands_pos@[i], d, 1))
        &&& forall|i: int| 0 <= i < self.islands_pos@.len() ==> !self.islands_gate_pos@.contains(
            #[trigger] self.islands_pos@[i],
        )
        &&& self.islands_gate_pos@.no_duplicates()
        &&& forall|g: Vector2i| #[trigger] self.islands_gate_pos@.contains(g) ==> exists|i: int, d: Direction2D|
            0 <= i < self.islands_pos@.len() && self.cell_in_map(self.islands_pos@[i], d, 1) && g
                == #[trigger] cell(self.islands_pos@[i], d, 1)
    }

    /// Generation corridors: distinct board cells, none of them an island,
    /// and none before the first island.
    #[verifier::opaque]
    pub open spec fn corridors_wf(&self) -> bool {
        &&& self.bridge_points@.no_duplicates()
        &&& forall|i: int| 0 <= i < self.bridge_points@.len() ==> {
            &&& self.point_in_map(#[trigger] self.bridge_points@[i])
            &&& !self.is_island(self.bridge_points@[i])
        }
        &&& self.islands_pos@.len() == 0 ==> self.bridge_points@.len() == 0
    }

    /// The island count stays within the target (a first island is always
    /// placed), and a board that is not ready has not reached it.
    pub open spec fn progress_wf(&self) -> bool {
        &&& self.islands_pos@.len() <= self.max_bridge_count || self.islands_pos@.len() <= 1
        &&& !self.is_ready ==> (self.islands_pos@.len() == 0 || self.islands_pos@.len()
            < self.max_bridge_count)
    }

    /// Players' bridges: none before the board is ready; afterwards every
    /// bridge slot is matched by the same count on the facing slot of the
    /// nearest island in that direction.
    #[verifier::opaque]
    pub open spec fn user_wf(&self) -> bool {
        &&& self.user_bridge_points@.no_duplicates()
        &&& forall|p: Vector2i| #[trigger] self.user_bridge_points@.contains(p) ==> self.point_in_map(p)
        &&& !self.is_ready ==> {
            &&& self.user_bridge_points@.len() == 0
            &&& forall|i: int| 0 <= i < self.islands@.len() ==> (#[trigger] self.islands@[i]).current_bridge_count == 0
        }
        &&& forall|i: int, d: Direction2D|
            0 <= i < self.islands@.len() && #[trigger] self.islands@[i].slot(d) > 0 ==> self.paired(
                self.islands_pos@[i],
                d,
            )
    }

    /// The bridge slot of the island at `p` towards `d` is matched by the
    /// facing slot of the nearest island that way.
    pub open spec fn paired(&self, p: Vector2i, d: Direction2D) -> bool {
        exists|k: int| #[trigger] self.is_first(p, d, k) && self.slot_at(cell(p, d, k), d.spec_opposite()) == self.slot_at(p, d)
    }

    /// The board's invariant.
    pub open spec fn wf(&self) -> bool {
        &&& 1 <= self.width
        &&& 1 <= self.height
        &&& self.game_mode <= MAX_GAME_MODE
        &&& self.max_bridge_count == target_count(self.game_mode, self.width as int, self.height as int)
        &&& self.islands_wf()
        &&& self.gates_wf()
        &&& self.corridors_wf()
        &&& self.progress_wf()
        &&& self.user_wf()
    }

    /// A board with nothing on it.
    pub open spec fn is_empty_board(&self) -> bool {
        &&& !self.is_ready
        &&& self.islands@.len() == 0
        &&& self.islands_pos@.len() == 0
        &&& self.islands_gate_pos@.len() == 0
        &&& self.able_to_gen_islands@.len() == 0
        &&& self.bridge_points@.len() == 0
        &&& self.user_bridge_points@.len() == 0
    }

    /// Whether `(x, y)` lies on the board.
    pub fn is_in_map(&self, x: i64, y: i64) -> (r: bool)
        ensures
            r == self.in_map(x as int, y as int),
    {
        if x < 0 || y < 0 {
            return false;
        }
        if x >= self.width as i64 || y >= self.height as i64 {
            return false;
        }
        true
    }

    /// Index of the island at `p`, if there is one.
    pub fn find_island(&self, p: Vector2i) -> (r: Option<usize>)
        requires
            self.islands_wf(),
        ensures
            match r {
                Some(i) => i < self.islands@.len() && self.islands_pos@[i as int] == p
                    && i == self.islands_pos@.index_of(p) && self.is_island(p),
                None => !self.is_island(p),
            },
    {
        let r = find_point(&self.islands_pos, p);
        if let Some(i) = r {
            proof {
                let j = self.islands_pos@.index_of(p);
                assert(self.islands_pos@[i as int] == p);
                assert(self.islands_pos@.contains(p));
                assert(self.islands_pos@[j] == p);
            }
        }
        r
    }

    /// The island at `p`, if there is one.
    pub fn island(&self, p: Vector2i) -> (r: Option<Island>)
        requires
            self.islands_wf(),
        ensures
            match r {
                Some(a) => self.is_island(p) && a == self.island_at(p),
                None => !self.is_island(p),
            },
    {
        match self.find_island(p) {
            Some(i) => Some(self.islands[i]),
            None => None,
        }
    }

    /// Hands the pending notifications over, oldest first.
    pub fn take_events(&mut self) -> (r: Vec<MapEvent>)
        ensures
            r@ == old(self).events@,
            final(self).events@.len() == 0,
            final(self).width == old(self).width,
            final(self).height == old(self).height,
            final(self).is_ready == old(self).is_ready,
            final(self).max_bridge_count == old(self).max_bridge_count,
            final(self).islands@ == old(self).islands@,
            final(self).islands_pos@ == old(self).islands_pos@,
            final(self).islands_gate_pos@ == old(self).islands_gate_pos@,
            final(self).able_to_gen_islands@ == old(self).able_to_gen_islands@,
            final(self).bridge_points@ == old(self).bridge_points@,
            final(self).user_bridge_points@ == old(self).user_bridge_points@,
            final(self).game_mode == old(self).game_mode,
    {
        let mut r = Vec::new();
        std::mem::swap(&mut r, &mut self.events);
        r
    }
}


impl GameMap {
    /// The board's invariant.
    pub open spec fn wf(&self) -> bool {
        self.board.wf()
    }

    /// Number of islands to aim for on a `w` by `h` board: 18 percent of the
    /// area, 25 percent from difficulty 3 on, rounded down.
    pub fn calc_max_bridge_count(game_mode: u32, w: i32, h: i32) -> (r: u64)
        requires
            0 <= w,
            0 <= h,
        ensures
            r == target_count(game_mode, w as int, h as int),
    {
        let n: u128 = if game_mode > 2 { 25 } else { 18 };
        assert((w as int) * (h as int) <= 0x4000_0000_0000_0000) by (nonlinear_arith)
            requires
                0 <= w <= 0x7fff_ffff,
                0 <= h <= 0x7fff_ffff,
        ;
        let area: u128 = (w as u128) * (h as u128);
        let total: u128 = area * n;
        let r: u128 = total / 100;
        assert(r <= 0x4000_0000_0000_0000);
        r as u64
    }

    /// A new empty board whose random choices are fixed by `seed`, at
    /// difficulty 1.
    pub fn create(width: i32, height: i32, seed: u64) -> (r: GameMap)
        requires
            1 <= width,
            1 <= height,
        ensures
            r.wf(),
            r.board.width == width,
            r.board.height == height,
            r.board.game_mode == 1,
            r.board.max_bridge_count == target_count(1, width as int, height as int),
            r.board.is_empty_board(),
            r.board.events@.len() == 0,
    {
        let board = Board {
            width,
            height,
            is_ready: false,
            max_bridge_count: Self::calc_max_bridge_count(1, width, height),
            islands: Vec::new(),
            islands_pos: Vec::new(),
            islands_gate_pos: Vec::new(),
            able_to_gen_islands: Vec::new(),
            bridge_points: Vec::new(),
            user_bridge_points: Vec::new(),
            game_mode: 1,
            events: Vec::new(),
        };
        proof {
            reveal(Board::gates_wf);
            reveal(Board::corridors_wf);
            reveal(Board::user_wf);
        }
        GameMap { board, rng: seeded_rng(seed) }
    }

    /// Clears the board and sets the difficulty; the target is recomputed.
    pub fn reset(&mut self, game_mode: u32)
        requires
            old(self).wf(),
            game_mode <= MAX_GAME_MODE,
        ensures
            final(self).wf(),
            final(self).board.width == old(self).board.width,
            final(self).board.height == old(self).board.height,
            final(self).board.game_mode == game_mode,
            final(self).board.max_bridge_count == target_count(
                game_mode,
                old(self).board.width as int,
                old(self).board.height as int,
            ),
            final(self).board.is_empty_board(),
            final(self).board.events@ == old(self).board.events@,
    {
        let b = &mut self.board;
        b.is_ready = false;
        b.islands.clear();
        b.able_to_gen_islands.clear();
        b.islands_gate_pos.clear();
        b.bridge_points.clear();
        b.islands_pos.clear();
        b.user_bridge_points.clear();
        b.game_mode = game_mode;
        b.max_bridge_count = Self::calc_max_bridge_count(game_mode, b.width, b.height);
        proof {
            reveal(Board::gates_wf);
            reveal(Board::corridors_wf);
            reveal(Board::user_wf);
        }
    }

    /// The cells from `from` to `current` along their common row or column,
    /// in increasing coordinate order; with `exclude_endpoint` the two ends
    /// are left out. Points on neither a common row nor column give nothing.
    pub fn calc_points(from: Option<Vector2i>, current: Vector2i, exclude_endpoint: bool) -> (r: Vec<
        Vector2i,
    >)
        ensures
            r@ == corridor(from, current, exclude_endpoint),
    {
        let f = match from {
            None => {
                let mut res = Vec::new();
                if !exclude_endpoint {
                    res.push(current);
                }
                assert(res@ =~= corridor(from, current, exclude_endpoint));
                return res;
            },
            Some(f) => f,
        };
        if exclude_endpoint && f == current {
            let res = Vec::new();
            assert(res@ =~= corridor(from, current, exclude_endpoint));
            return res;
        }
        let mut res: Vec<Vector2i> = Vec::new();
        if f.x == current.x {
            let mut lo: i64 = if f.y < current.y { f.y as i64 } else { current.y as i64 };
            let mut hi: i64 = if f.y < current.y { current.y as i64 } else { f.y as i64 };
            if exclude_endpoint {
                lo = lo + 1;
                hi = hi - 1;
            }
            let mut y: i64 = lo;
            while y <= hi
                invariant
                    i32::MIN <= lo,
                    hi <= i32::MAX,
                    lo <= y <= hi + 1 || (y == lo && lo > hi),
                    res@.len() == y - lo,
                    forall|i: int| 0 <= i < res@.len() ==> res@[i] == (Vector2i { x: f.x, y: (lo + i) as i32 }),
                decreases hi + 1 - y,
            {
                res.push(Vector2i::new(f.x, y as i32));
                y = y + 1;
            }
            assert(res@ =~= corridor(from, current, exclude_endpoint));
        } else if f.y == current.y {
            let mut lo: i64 = if f.x < current.x { f.x as i64 } else { current.x as i64 };
            let mut hi: i64 = if f.x < current.x { current.x as i64 } else { f.x as i64 };
            if exclude_endpoint {
                lo = lo + 1;
                hi = hi - 1;
            }
            let mut x: i64 = lo;
            while x <= hi
                invariant
                    i32::MIN <= lo,
                    hi <= i32::MAX,
                    lo <= x <= hi + 1 || (x == lo && lo > hi),
                    res@.len() == x - lo,
                    forall|i: int| 0 <= i < res@.len() ==> res@[i] == (Vector2i { x: (lo + i) as i32, y: f.y }),
                decreases hi + 1 - x,
            {
                res.push(Vector2i::new(x as i32, f.y));
                x = x + 1;
            }
            assert(res@ =~= corridor(from, current, exclude_endpoint));
        } else {
            assert(res@ =~= corridor(from, current, exclude_endpoint));
        }
        res
    }

}

} // verus!

verus! {

impl Board {
    /// The on-board neighbours of `p`: left, right, up, down.
    pub open spec fn gate_cells(&self, p: Vector2i) -> Seq<Vector2i> {
        (if p.x > 0 { seq![cell(p, Direction2D::Left, 1)] } else { seq![] })
        + (if p.x < self.width - 1 { seq![cell(p, Direction2D::Right, 1)] } else { seq![] })
        + (if p.y > 0 { seq![cell(p, Direction2D::Up, 1)] } else { seq![] })
        + (if p.y < self.height - 1 { seq![cell(p, Direction2D::Down, 1)] } else { seq![] })
    }

    /// The gates around `p` are exactly its neighbours on the board.
    pub proof fn lemma_gate_cells(&self, p: Vector2i)
        requires
            self.point_in_map(p),
        ensures
            forall|e: Direction2D| #[trigger] self.cell_in_map(p, e, 1) ==> self.gate_cells(p).contains(cell(p, e, 1)),
            forall|q: Vector2i| #[trigger] self.gate_cells(p).contains(q) ==> {
                ||| (q == cell(p, Direction2D::Left, 1) && self.cell_in_map(p, Direction2D::Left, 1))
                ||| (q == cell(p, Direction2D::Right, 1) && self.cell_in_map(p, Direction2D::Right, 1))
                ||| (q == cell(p, Direction2D::Up, 1) && self.cell_in_map(p, Direction2D::Up, 1))
                ||| (q == cell(p, Direction2D::Down, 1) && self.cell_in_map(p, Direction2D::Down, 1))
            },
    {
        let s = self.gate_cells(p);
        let a = if p.x > 0 { seq![cell(p, Direction2D::Left, 1)] } else { seq![] };
        let b = if p.x < self.width - 1 { seq![cell(p, Direction2D::Right, 1)] } else { seq![] };
        let c = if p.y > 0 { seq![cell(p, Direction2D::Up, 1)] } else { seq![] };
        let d = if p.y < self.height - 1 { seq![cell(p, Direction2D::Down, 1)] } else { seq![] };
        assert(s == a + b + c + d);
        assert forall|e: Direction2D| #[trigger] self.cell_in_map(p, e, 1) implies s.contains(cell(p, e, 1)) by {
            match e {
                Direction2D::Left => {
                    assert(s[0] == cell(p, e, 1));
                },
                Direction2D::Right => {
                    assert(s[a.len() as int] == cell(p, e, 1));
                },
                Direction2D::Up => {
                    assert(s[(a.len() + b.len()) as int] == cell(p, e, 1));
                },
                Direction2D::Down => {
                    assert(s[(a.len() + b.len() + c.len()) as int] == cell(p, e, 1));
                },
            }
        }
        assert forall|q: Vector2i| #[trigger] s.contains(q) implies {
            ||| (q == cell(p, Direction2D::Left, 1) && self.cell_in_map(p, Direction2D::Left, 1))
            ||| (q == cell(p, Direction2D::Right, 1) && self.cell_in_map(p, Direction2D::Right, 1))
            ||| (q == cell(p, Direction2D::Up, 1) && self.cell_in_map(p, Direction2D::Up, 1))
            ||| (q == cell(p, Direction2D::Down, 1) && self.cell_in_map(p, Direction2D::Down, 1))
        } by {
            let i = choose|i: int| 0 <= i < s.len() && s[i] == q;
            if i < a.len() {
                assert(s[i] == a[i]);
            } else if i < a.len() + b.len() {
                assert(s[i] == b[i - a.len()]);
            } else if i < a.len() + b.len() + c.len() {
                assert(s[i] == c[i - a.len() - b.len()]);
            } else {
                assert(s[i] == d[i - a.len() - b.len() - c.len()]);
            }
        }
    }

    /// The gates around `p`: its neighbours on the board.
    pub fn calc_island_gate_pos(&self, p: Vector2i) -> (r: Vec<Vector2i>)
        requires
            self.point_in_map(p),
        ensures
            r@ == self.gate_cells(p),
    {
        let mut res = Vec::new();
        if p.x > 0 {
            res.push(Vector2i::new(p.x - 1, p.y));
        }
        if p.x < self.width - 1 {
            res.push(Vector2i::new(p.x + 1, p.y));
        }
        if p.y > 0 {
            res.push(Vector2i::new(p.x, p.y - 1));
        }
        if p.y < self.height - 1 {
            res.push(Vector2i::new(p.x, p.y + 1));
        }
        assert(res@ =~= self.gate_cells(p));
        res
    }
}

/// The cells strictly between `s` and the cell `k` steps from it towards `d`
/// are exactly the cells one to `k - 1` steps away.
pub proof fn lemma_corridor_cells(s: Vector2i, d: Direction2D, k: int)
    requires
        1 <= k,
        cell_fits(s, d, k),
    ensures
        forall|j: int| 1 <= j < k ==> #[trigger] corridor(Some(s), cell(s, d, k), true).contains(cell(s, d, j)),
        forall|q: Vector2i| #[trigger] corridor(Some(s), cell(s, d, k), true).contains(q) ==> exists|j: int|
            1 <= j < k && q == #[trigger] cell(s, d, j),
        corridor(Some(s), cell(s, d, k), true).len() == k - 1,
{
    let t = cell(s, d, k);
    let c = corridor(Some(s), t, true);
    assert(t != s);
    assert(c.len() == k - 1);
    assert forall|j: int| 1 <= j < k implies #[trigger] c.contains(cell(s, d, j)) by {
        match d {
            Direction2D::Up => {
                assert(c[k - 1 - j] == cell(s, d, j));
            },
            Direction2D::Left => {
                assert(c[k - 1 - j] == cell(s, d, j));
            },
            Direction2D::Down => {
                assert(c[j - 1] == cell(s, d, j));
            },
            Direction2D::Right => {
                assert(c[j - 1] == cell(s, d, j));
            },
        }
    }
    assert forall|q: Vector2i| #[trigger] c.contains(q) implies exists|j: int| 1 <= j < k && q == #[trigger] cell(s, d, j) by {
        let i = choose|i: int| 0 <= i < c.len() && c[i] == q;
        match d {
            Direction2D::Up => {
                assert(q == cell(s, d, k - 1 - i));
            },
            Direction2D::Left => {
                assert(q == cell(s, d, k - 1 - i));
            },
            Direction2D::Down => {
                assert(q == cell(s, d, i + 1));
            },
            Direction2D::Right => {
                assert(q == cell(s, d, i + 1));
            },
        }
    }
}

} // verus!

verus! {

impl Board {
    /// The island at index `i` of `m` is the one of this board at `i`, or a
    /// new one at `c`, with `bc` units more capacity if it is `from` or, when
    /// there is a `from`, if it is `c`.
    pub open spec fn island_grown(&self, m: Board, i: int, from: Option<Vector2i>, c: Vector2i, bc: int) -> bool {
        let p = m.islands_pos@[i];
        let bump = (if from == Some(p) { bc } else { 0 }) + (if from.is_some() && p == c { bc } else { 0 });
        let b = m.islands@[i];
        &&& b.pos == p
        &&& if i < self.islands@.len() {
            let a = self.islands@[i];
            &&& b.current_bridge_count == a.current_bridge_count
            &&& b.bridge_state@ == a.bridge_state@
            &&& b.max_bridge_count == a.max_bridge_count + bump
        } else {
            &&& b.current_bridge_count == 0
            &&& b.bridge_state@ == seq![0i32, 0i32, 0i32, 0i32]
            &&& b.max_bridge_count == bump
        }
    }

    /// `m` is this board with the island at `c` linked from `from` by a
    /// bridge of `bc` units: `c` is recorded as an island and as a source,
    /// the cells strictly between the two become corridor cells, the
    /// neighbours of `c` become gates, both islands gain `bc` units of
    /// capacity, and the board is ready once the target is reached.
    pub open spec fn linked(&self, m: Board, from: Option<Vector2i>, c: Vector2i, bc: int) -> bool {
        &&& m.width == self.width
        &&& m.height == self.height
        &&& m.game_mode == self.game_mode
        &&& m.max_bridge_count == self.max_bridge_count
        &&& m.events@ == self.events@
        &&& m.user_bridge_points@ == self.user_bridge_points@
        &&& m.islands_pos@ == if self.is_island(c) { self.islands_pos@ } else { self.islands_pos@.push(c) }
        &&& m.islands@.len() == m.islands_pos@.len()
        &&& forall|i: int| 0 <= i < m.islands@.len() ==> #[trigger] self.island_grown(m, i, from, c, bc)
        &&& m.able_to_gen_islands@.no_duplicates()
        &&& m.able_to_gen_islands@.to_set() == self.able_to_gen_islands@.to_set().insert(c)
        &&& m.bridge_points@.no_duplicates()
        &&& m.bridge_points@.to_set() == self.bridge_points@.to_set().union(corridor(from, c, true).to_set())
        &&& m.islands_gate_pos@.no_duplicates()
        &&& m.islands_gate_pos@.to_set() == self.islands_gate_pos@.to_set().union(self.gate_cells(c).to_set())
        &&& m.is_ready == (self.is_ready || m.islands_pos@.len() >= self.max_bridge_count)
    }

    /// Records an island at `current` reached from `from`: its position, its
    /// use as a source, the corridor cells and the gates around it; marks the board
    /// ready once the target is reached.
    pub(crate) fn fill_conditions(&mut self, from: Option<Vector2i>, current: Vector2i)
        requires
            old(self).point_in_map(current),
            old(self).able_to_gen_islands@.no_duplicates(),
            old(self).bridge_points@.no_duplicates(),
            old(self).islands_gate_pos@.no_duplicates(),
        ensures
            final(self).width == old(self).width,
            final(self).height == old(self).height,
            final(self).game_mode == old(self).game_mode,
            final(self).max_bridge_count == old(self).max_bridge_count,
            final(self).events@ == old(self).events@,
            final(self).user_bridge_points@ == old(self).user_bridge_points@,
            final(self).islands@ == old(self).islands@,
            final(self).islands_pos@ == if old(self).is_island(current) {
                old(self).islands_pos@
            } else {
                old(self).islands_pos@.push(current)
            },
            final(self).able_to_gen_islands@.no_duplicates(),
            final(self).able_to_gen_islands@.to_set() == old(self).able_to_gen_islands@.to_set().insert(current),
            final(self).bridge_points@.no_duplicates(),
            final(self).bridge_points@.to_set() == old(self).bridge_points@.to_set().union(
                corridor(from, current, true).to_set(),
            ),
            final(self).islands_gate_pos@.no_duplicates(),
            final(self).islands_gate_pos@.to_set() == old(self).islands_gate_pos@.to_set().union(
                old(self).gate_cells(current).to_set(),
            ),
            final(self).is_ready == (old(self).is_ready || final(self).islands_pos@.len()
                >= old(self).max_bridge_count),
    {
        if !contains_point(&self.islands_pos, current) {
            self.islands_pos.push(current);
        }
        insert_point(&mut self.able_to_gen_islands, current);
        let pts = GameMap::calc_points(from, current, true);
        insert_all(&mut self.bridge_points, &pts);
        let gates = self.calc_island_gate_pos(current);
        insert_all(&mut self.islands_gate_pos, &gates);
        if self.islands_pos.len() as u64 >= self.max_bridge_count {
            self.is_ready = true;
        }
    }
}

impl GameMap {
    /// Links the island `island` at `current` to the island at `from`: the
    /// board records it, and each of the two islands gains one or two units
    /// of capacity, two with probability `(55 - 2 * game_mode)` percent.
    /// Without `from` it is the first island and gains nothing.
    pub(crate) fn link_island(&mut self, from: Option<Vector2i>, current: Vector2i, island: Island)
        requires
            old(self).wf(),
            old(self).board.point_in_map(current),
            match from {
                Some(f) => old(self).board.is_island(f) && f != current,
                None => true,
            },
            if old(self).board.is_island(current) {
                island == old(self).board.island_at(current)
            } else {
                &&& island.pos == current
                &&& island.max_bridge_count == 0
                &&& island.current_bridge_count == 0
                &&& island.bridge_state@ == seq![0i32, 0i32, 0i32, 0i32]
            },
        ensures
            exists|bc: int|
                (if from.is_some() { 1 <= bc <= 2 } else { bc == 0 }) && old(self).board.linked(
                    final(self).board,
                    from,
                    current,
                    bc,
                ),
    {
        let ghost b0 = self.board;
        let ghost n = self.board.islands@.len();
        let mut island = island;
        let mut bridge_count: i32 = 0;
        proof {
            reveal(Board::corridors_wf);
            reveal(Board::gates_wf);
            if self.board.is_island(current) {
                let ci = self.board.islands_pos@.index_of(current);
                assert(self.board.islands_pos@[ci] == current);
            }
        }
        if let Some(f) = from {
            let gm = self.board.game_mode;
            bridge_count = if random_ratio(&mut self.rng, 55 - 2 * gm, 100) { 2 } else { 1 };
            let fi = self.board.find_island(f).unwrap();
            let mut fisl = self.board.islands[fi];
            fisl.max_bridge_count = fisl.max_bridge_count + bridge_count;
            self.board.islands.set(fi, fisl);
            island.max_bridge_count = island.max_bridge_count + bridge_count;
        }
        let existing = find_point(&self.board.islands_pos, current);
        self.board.fill_conditions(from, current);
        match existing {
            Some(i) => {
                self.board.islands.set(i, island);
            },
            None => {
                self.board.islands.push(island);
            },
        }
        proof {
            let bc = bridge_count as int;
            assert forall|i: int| 0 <= i < self.board.islands@.len() implies #[trigger] b0.island_grown(self.board, i, from, current, bc) by {
                if i < n {
                    b0.lemma_index_of_any(i);
                }
            }
            assert(b0.linked(self.board, from, current, bc));
        }
    }
}

} // verus!
