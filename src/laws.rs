use vstd::prelude::*;
use crate::game_map::{corridor, BridgeAction, Board};
use crate::point::{cell, Direction2D, Vector2i};

verus! {

/// After a toggle that built or took down a bridge, the slot of the source
/// towards the direction and the facing slot of the island it reached hold
/// the same number of units.
pub proof fn lemma_toggle_symmetric(
    m0: Board,
    m1: Board,
    src: Vector2i,
    d: Direction2D,
    k: int,
    r: BridgeAction,
)
    requires
        m0.wf(),
        m0.is_ready,
        m0.is_island(src),
        m0.walk_hits(src, d, k),
        m0.toggled(m1, src, d, k, r),
        r != BridgeAction::Pass,
    ensures
        m1.slot_at(src, d) == m1.slot_at(cell(src, d, k), d.spec_opposite()),
{
    m0.lemma_toggle_facts(m1, src, d, k, r);
    let t = cell(src, d, k);
    let si = m0.islands_pos@.index_of(src);
    let ti = m0.islands_pos@.index_of(t);
    assert(m1.islands_pos@.index_of(src) == si);
    assert(m1.islands_pos@.index_of(t) == ti);
}

/// Toggling twice towards the same direction from an island with no bridge
/// there first builds a single bridge and then, once that bridge has filled
/// one of its two islands, takes it down: both facing slots end empty and
/// no cell of the corridor is left among the players' bridge cells.
pub proof fn lemma_toggle_twice_removes(
    m0: Board,
    m1: Board,
    m2: Board,
    src: Vector2i,
    d: Direction2D,
    k: int,
    r1: BridgeAction,
    r2: BridgeAction,
)
    requires
        m0.wf(),
        m0.is_ready,
        m0.is_island(src),
        m0.walk_hits(src, d, k),
        m0.slot_at(src, d) == 0,
        m0.toggled(m1, src, d, k, r1),
        r1 != BridgeAction::Pass,
        ({
            let a = m1.island_at(src);
            let b = m1.island_at(cell(src, d, k));
            a.current_bridge_count == a.max_bridge_count || b.current_bridge_count == b.max_bridge_count
        }),
        m1.toggled(m2, src, d, k, r2),
    ensures
        r1 == BridgeAction::Single,
        m1.walk_hits(src, d, k),
        r2 == BridgeAction::Remove,
        m2.slot_at(src, d) == 0,
        m2.slot_at(cell(src, d, k), d.spec_opposite()) == 0,
        forall|c: Vector2i|
            #[trigger] corridor(Some(src), cell(src, d, k), true).contains(c)
                ==> !m2.user_bridge_points@.contains(c),
{
    m0.lemma_toggle_facts(m1, src, d, k, r1);
    let t = cell(src, d, k);
    let o = d.spec_opposite();
    let si = m0.islands_pos@.index_of(src);
    let ti = m0.islands_pos@.index_of(t);
    assert(m1.islands_pos@.index_of(src) == si);
    assert(m1.islands_pos@.index_of(t) == ti);
    reveal(Board::toggled);
    assert(r1 == BridgeAction::Single);
    assert(m1.slot_at(src, d) == 1);
    assert forall|j: int| 1 <= j < k implies #[trigger] m1.walk_passes(src, d, j) by {
        assert(m0.walk_passes(src, d, j));
        assert(m1.is_island(cell(src, d, j)) == m0.is_island(cell(src, d, j)));
    }
    assert(m1.walk_hits(src, d, k));
    assert(m2.islands_pos@ == m1.islands_pos@);
    assert(m2.islands_pos@.index_of(src) == si);
    assert(m2.islands_pos@.index_of(t) == ti);
    let corr = corridor(Some(src), t, true);
    assert forall|c: Vector2i| #[trigger] corr.contains(c) implies !m2.user_bridge_points@.contains(c) by {
        assert(corr.to_set().contains(c));
        assert(!m2.user_bridge_points@.to_set().contains(c));
    }
}

} // verus!

verus! {

/// On every well-formed board each island's current bridge count is the sum
/// of its four directional slots, no two islands share a position, no
/// island stands on a gate, and there are no more islands than the target
/// (a first island is placed even when the target is zero).
pub proof fn lemma_board_invariants(b: Board)
    requires
        b.wf(),
    ensures
        forall|i: int| 0 <= i < b.islands@.len() ==> (#[trigger] b.islands@[i]).current_bridge_count
            == b.islands@[i].state_sum(),
        b.islands_pos@.no_duplicates(),
        forall|i: int| 0 <= i < b.islands_pos@.len() ==> !b.islands_gate_pos@.contains(
            #[trigger] b.islands_pos@[i],
        ),
        b.islands_pos@.len() <= b.max_bridge_count || b.islands_pos@.len() <= 1,
{
    reveal(Board::gates_wf);
    assert forall|i: int| 0 <= i < b.islands@.len() implies (#[trigger] b.islands@[i]).current_bridge_count
        == b.islands@[i].state_sum() by {
        assert(b.islands@[i].wf());
    }
}

} // verus!
