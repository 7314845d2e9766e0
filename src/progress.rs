use vstd::prelude::*;
use vstd::relations::injective_on;
use vstd::seq_lib::seq_to_set_is_finite;
use vstd::set_lib::{lemma_len_subset, lemma_int_range, lemma_map_size, lemma_set_disjoint_lens, set_int_range};
use crate::game_map::Board;
use crate::point::{cell, Direction2D, Vector2i};

verus! {

impl Board {
    /// How far generation has come: islands plus corridor cells.
    pub open spec fn progress(&self) -> int {
        self.islands_pos@.len() + self.bridge_points@.len() as int
    }
}

/// The row-major index of a board cell.
pub open spec fn cell_index(w: int, p: Vector2i) -> int {
    p.y * w + p.x
}

/// A list without repeats whose elements all lie in a list without repeats
/// is no longer; shorter still if the second holds an element the first
/// lacks.
proof fn lemma_no_dup_subset_len(a: Seq<Vector2i>, b: Seq<Vector2i>)
    requires
        a.no_duplicates(),
        b.no_duplicates(),
        a.to_set().subset_of(b.to_set()),
    ensures
        a.len() <= b.len(),
        (exists|x: Vector2i| b.contains(x) && !a.contains(x)) ==> a.len() < b.len(),
{
    broadcast use seq_to_set_is_finite;
    a.unique_seq_to_set();
    b.unique_seq_to_set();
    lemma_len_subset(a.to_set(), b.to_set());
    if exists|x: Vector2i| b.contains(x) && !a.contains(x) {
        let x = choose|x: Vector2i| b.contains(x) && !a.contains(x);
        assert(b.to_set().contains(x));
        lemma_len_subset(a.to_set(), b.to_set().remove(x));
    }
}

/// On a well-formed board the islands and the corridor cells are distinct
/// cells of the board, so there are at most `width * height` of them.
/// Since every generation step that leaves the board not ready raises this
/// count, generation stops within `width * height + 1` steps.
pub proof fn lemma_progress_bounded(b: Board)
    requires
        b.wf(),
    ensures
        b.progress() <= b.width * b.height,
{
    broadcast use seq_to_set_is_finite;
    reveal(Board::corridors_wf);
    let s = b.islands_pos@.to_set();
    let t = b.bridge_points@.to_set();
    b.islands_pos@.unique_seq_to_set();
    b.bridge_points@.unique_seq_to_set();
    assert(s.disjoint(t)) by {
        assert forall|p: Vector2i| !(s.contains(p) && t.contains(p)) by {
            if s.contains(p) && t.contains(p) {
                let j = choose|j: int| 0 <= j < b.bridge_points@.len() && b.bridge_points@[j] == p;
                assert(!b.is_island(b.bridge_points@[j]));
            }
        }
    }
    lemma_set_disjoint_lens(s, t);
    let u = s + t;
    let w = b.width as int;
    let h = b.height as int;
    let f = |p: Vector2i| cell_index(w, p);
    assert forall|p: Vector2i| #[trigger] u.contains(p) implies b.point_in_map(p) by {
        if s.contains(p) {
            let j = choose|j: int| 0 <= j < b.islands_pos@.len() && b.islands_pos@[j] == p;
            assert(b.point_in_map(b.islands_pos@[j]));
        } else {
            let j = choose|j: int| 0 <= j < b.bridge_points@.len() && b.bridge_points@[j] == p;
            assert(b.point_in_map(b.bridge_points@[j]));
        }
    }
    assert(injective_on(f, u)) by {
        assert forall|p1: Vector2i, p2: Vector2i|
            u.contains(p1) && u.contains(p2) && #[trigger] f(p1) == #[trigger] f(p2) implies p1 == p2 by {
            let (x1, y1, x2, y2) = (p1.x as int, p1.y as int, p2.x as int, p2.y as int);
            assert(b.point_in_map(p1) && b.point_in_map(p2));
            assert(y1 == y2 && x1 == x2) by (nonlinear_arith)
                requires
                    y1 * w + x1 == y2 * w + x2,
                    0 <= x1 < w,
                    0 <= x2 < w,
                    0 <= y1,
                    0 <= y2,
            ;
        }
    }
    lemma_map_size(u, u.map(f), f);
    lemma_int_range(0, w * h);
    assert(u.map(f).subset_of(set_int_range(0, w * h))) by {
        assert forall|i: int| #[trigger] u.map(f).contains(i) implies set_int_range(0, w * h).contains(i) by {
            let p = choose|p: Vector2i| u.contains(p) && f(p) == i;
            assert(b.point_in_map(p));
            let (x, y) = (p.x as int, p.y as int);
            assert(0 <= y * w + x < w * h) by (nonlinear_arith)
                requires
                    0 <= x < w,
                    0 <= y < h,
            ;
        }
    }
    lemma_len_subset(u.map(f), set_int_range(0, w * h));
}

/// A link step raises the progress count: a new island, or at least the
/// corridor cell next to the source.
pub proof fn lemma_link_progress(b: Board, m: Board, from: Option<Vector2i>, c: Vector2i, bc: int, d: Direction2D, k: int)
    requires
        b.wf(),
        !b.is_ready,
        b.link_allowed(from, c, bc, d, k),
        b.linked(m, from, c, bc),
    ensures
        m.progress() > b.progress(),
{
    b.lemma_link_facts(m, from, c, bc, d, k);
    reveal(Board::corridors_wf);
    assert(b.bridge_points@.to_set().subset_of(m.bridge_points@.to_set()));
    lemma_no_dup_subset_len(b.bridge_points@, m.bridge_points@);
    if b.is_island(c) {
        match from {
            None => {},
            Some(s) => {
                assert(m.bridge_points@.contains(cell(s, d, 1)) && !b.bridge_points@.contains(cell(s, d, 1)));
            },
        }
    }
}

} // verus!
