use vstd::prelude::*;
use crate::point::{Direction2D, Vector2i};

verus! {

/// A board cell that carries a bridge capacity.
#[derive(Clone, Copy, Debug)]
pub struct Island {
    /// Position on the board; never changes.
    pub pos: Vector2i,
    /// Number of bridge units this island must eventually carry.
    pub max_bridge_count: i32,
    /// Number of bridge units attached at present (a double bridge counts 2).
    pub current_bridge_count: i32,
    /// Bridge units per direction, in the order up, right, down, left.
    pub bridge_state: [i32; 4],
}

impl Island {
    pub open spec fn slot(&self, d: Direction2D) -> int {
        self.bridge_state@[d.slot()] as int
    }

    pub open spec fn state_sum(&self) -> int {
        self.bridge_state@[0] + self.bridge_state@[1] + self.bridge_state@[2] + self.bridge_state@[3]
    }

    /// Slots hold 0, 1 or 2 units, the current count is their sum, and it
    /// stays within the capacity.
    pub open spec fn wf(&self) -> bool {
        &&& forall|i: int| 0 <= i < 4 ==> 0 <= #[trigger] self.bridge_state@[i] <= 2
        &&& self.current_bridge_count == self.state_sum()
        &&& self.current_bridge_count <= self.max_bridge_count
    }

    pub fn create(pos: Vector2i) -> (r: Island)
        ensures
            r.pos == pos,
            r.max_bridge_count == 0,
            r.current_bridge_count == 0,
            r.bridge_state@ == seq![0i32, 0i32, 0i32, 0i32],
            r.wf(),
    {
        let r = Island { pos, max_bridge_count: 0, current_bridge_count: 0, bridge_state: [0, 0, 0, 0] };
        assert(r.bridge_state@ =~= seq![0i32, 0i32, 0i32, 0i32]);
        r
    }

    pub fn set_slot(&mut self, d: Direction2D, v: i32)
        ensures
            final(self).pos == old(self).pos,
            final(self).max_bridge_count == old(self).max_bridge_count,
            final(self).current_bridge_count == old(self).current_bridge_count,
            final(self).bridge_state@ == old(self).bridge_state@.update(d.slot(), v),
    {
        let i = d.index();
        self.bridge_state[i] = v;
    }
}

} // verus!
