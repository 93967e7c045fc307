//! One node structure and its implementation.

use vstd::prelude::*;

verus! {

/// Mathematical image of one node: the four bookkeeping values as
/// unbounded integers.
pub ghost struct NodeModel {
    /// Truncated Euclidean distance to the arrival cell.
    pub heuristic: int,
    /// Accumulated traversal price from the departure; `0` means unpriced.
    pub cost: int,
    /// Whether the cell may be walked on.
    pub usuable: bool,
    /// Signed index offset to this cell's chosen predecessor.
    pub backward_movement: int,
}

/// One node on the grid.
#[derive(Clone, Copy)]
pub struct Node {
    heuristic: u8,
    cost: u16,
    usuable: bool,
    backward_movement: i8,
}

impl View for Node {
    type V = NodeModel;

    closed spec fn view(&self) -> NodeModel {
        NodeModel {
            heuristic: self.heuristic as int,
            cost: self.cost as int,
            usuable: self.usuable,
            backward_movement: self.backward_movement as int,
        }
    }
}

impl Node {
    /// Constructor for a new Node object: walkable, unpriced, with no
    /// heuristic and no predecessor offset.
    pub fn new() -> (r: Node)
        ensures
            r@ == (NodeModel { heuristic: 0, cost: 0, usuable: true, backward_movement: 0 }),
    {
        Node { heuristic: 0, cost: 0, usuable: true, backward_movement: 0 }
    }

    /// Sets the node as not usuable.
    pub fn set_unusuable(&mut self)
        ensures
            final(self)@ == (NodeModel { usuable: false, ..old(self)@ }),
    {
        self.usuable = false;
    }

    /// Indicates if the node is usuable or not.
    pub fn is_usuable(&self) -> (r: bool)
        ensures
            r == self@.usuable,
    {
        self.usuable
    }

    /// Sets the node heuristic.
    pub fn set_heuristic(&mut self, heuristic: u8)
        ensures
            final(self)@ == (NodeModel { heuristic: heuristic as int, ..old(self)@ }),
    {
        self.heuristic = heuristic;
    }

    /// Returns the node heuristic.
    pub fn get_heuristic(&self) -> (r: u8)
        ensures
            r as int == self@.heuristic,
    {
        self.heuristic
    }

    /// Sets the cost.
    pub fn set_cost(&mut self, cost: u16)
        ensures
            final(self)@ == (NodeModel { cost: cost as int, ..old(self)@ }),
    {
        self.cost = cost;
    }

    /// Getter of the cost.
    pub fn get_cost(&self) -> (r: u16)
        ensures
            r as int == self@.cost,
    {
        self.cost
    }

    /// Sets the backward movement offset.
    pub fn set_backward_movement(&mut self, backward_movement: i8)
        ensures
            final(self)@ == (NodeModel {
                backward_movement: backward_movement as int,
                ..old(self)@
            }),
    {
        self.backward_movement = backward_movement;
    }

    /// Returns the backward movement offset.
    pub fn get_backward_movement(&self) -> (r: i8)
        ensures
            r as int == self@.backward_movement,
    {
        self.backward_movement
    }
}

} // verus!
