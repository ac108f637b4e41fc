use crate::game::field::{FIELD_SIZE, XY};
use vstd::prelude::*;

verus! {

/// Ship type for the game.
#[derive(Copy, Clone, PartialEq, Eq, Structural, Debug)]
pub struct ShipType {
    /// The size of the ship, in cells.
    pub ship_size: u8,
    /// Count of ships of this type in the field.
    pub count: u8,
}

/// Shape of the ship.
#[derive(Copy, Clone, PartialEq, Eq, Structural, Debug)]
pub struct ShipShape {
    /// Ship's direction, i.e. horizontal or vertical.
    pub dxy: XY,
    /// Ship's size.
    pub size: u8,
}

/// A ship with the coordinates of its start in the game field.
#[derive(Copy, Clone, PartialEq, Eq, Structural, Debug)]
pub struct Ship {
    /// Coordinates of the ship start.
    pub xy: XY,
    /// Shape of the ship.
    pub shape: ShipShape,
}

/// A shape the placement logic works with: a unit step along one axis and a
/// size that fits in the grid.
pub open spec fn valid_shape(s: ShipShape) -> bool {
    (s.dxy == XY(1, 0) || s.dxy == XY(0, 1)) && 1 <= s.size <= FIELD_SIZE
}

/// Column of the k-th cell covered by the ship, counting from its start.
pub open spec fn ship_cell_x(s: Ship, k: int) -> int {
    s.xy.0 + k * (s.shape.dxy.0 as int)
}

/// Row of the k-th cell covered by the ship, counting from its start.
pub open spec fn ship_cell_y(s: Ship, k: int) -> int {
    s.xy.1 + k * (s.shape.dxy.1 as int)
}

impl Ship {
    /// The ordered sequence of coordinates the ship covers, from its start
    /// onwards.
    pub fn cells(&self) -> (r: Vec<XY>)
        requires
            self.xy.0 < FIELD_SIZE,
            self.xy.1 < FIELD_SIZE,
            valid_shape(self.shape),
        ensures
            r@.len() == self.shape.size,
            forall|k: int| 0 <= k < self.shape.size ==>
                (#[trigger] r@[k]).0 == ship_cell_x(*self, k) && r@[k].1 == ship_cell_y(*self, k),
    {
        let mut r: Vec<XY> = Vec::new();
        let mut x: usize = self.xy.0;
        let mut y: usize = self.xy.1;
        let mut k: usize = 0;
        let size: usize = self.shape.size as usize;
        while k < size
            invariant
                k <= size,
                size == self.shape.size,
                self.xy.0 < FIELD_SIZE,
                self.xy.1 < FIELD_SIZE,
                valid_shape(self.shape),
                x == ship_cell_x(*self, k as int),
                y == ship_cell_y(*self, k as int),
                x <= FIELD_SIZE + FIELD_SIZE,
                y <= FIELD_SIZE + FIELD_SIZE,
                r@.len() == k,
                forall|j: int| 0 <= j < k ==>
                    (#[trigger] r@[j]).0 == ship_cell_x(*self, j) && r@[j].1 == ship_cell_y(*self, j),
            decreases size - k,
        {
            r.push(XY(x, y));
            proof {
                assert((k as int + 1) * (self.shape.dxy.0 as int) == (k as int) * (self.shape.dxy.0
                    as int) + (self.shape.dxy.0 as int)) by (nonlinear_arith);
                assert((k as int + 1) * (self.shape.dxy.1 as int) == (k as int) * (self.shape.dxy.1
                    as int) + (self.shape.dxy.1 as int)) by (nonlinear_arith);
            }
            x = x + self.shape.dxy.0;
            y = y + self.shape.dxy.1;
            k = k + 1;
        }
        r
    }
}

} // verus!
