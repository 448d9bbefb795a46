//! Pins: the input and output points of nodes.
use vstd::prelude::*;
use crate::fractional_number::FractionalNumber;
use crate::rational::qzero;

verus! {

/// Whether a pin consumes or produces items.
#[derive(Debug, Clone, Copy, PartialEq, Eq, Structural, Hash)]
pub enum PinDirection {
    Input,
    Output,
}

/// An input or output point of a node.
#[derive(Debug)]
pub struct Pin {
    pub id: u64,
    pub direction: PinDirection,
    /// The node this pin belongs to.
    pub node_id: u64,
    pub item_name: Option<String>,
    pub base_rate: FractionalNumber,
    pub current_rate: FractionalNumber,
    pub locked: bool,
    pub error: bool,
    /// The link this pin takes part in, if any.
    pub link_id: Option<u64>,
}

impl Pin {
    /// A pin with a zero current rate, no error and no link.
    pub fn new(
        id: u64,
        direction: PinDirection,
        node_id: u64,
        item_name: Option<String>,
        locked: bool,
        base_rate: FractionalNumber,
    ) -> (r: Self)
        ensures
            r.id == id,
            r.direction == direction,
            r.node_id == node_id,
            r.item_name == item_name,
            r.locked == locked,
            r.base_rate == base_rate,
            r.current_rate@ == qzero(),
            !r.error,
            r.link_id is None,
    {
        Pin {
            id,
            direction,
            node_id,
            item_name,
            base_rate,
            current_rate: FractionalNumber::zero(),
            locked,
            error: false,
            link_id: None,
        }
    }

    pub fn set_locked(&mut self, locked: bool)
        ensures
            *final(self) == (Pin { locked, ..*old(self) }),
    {
        self.locked = locked;
    }

    pub fn get_locked(&self) -> (r: bool)
        ensures
            r == self.locked,
    {
        self.locked
    }

    /// An identical copy of this pin.
    pub fn duplicate(&self) -> (r: Self)
        ensures
            r == *self,
    {
        Pin {
            id: self.id,
            direction: self.direction,
            node_id: self.node_id,
            item_name: self.item_name.clone(),
            base_rate: self.base_rate,
            current_rate: self.current_rate,
            locked: self.locked,
            error: self.error,
            link_id: self.link_id,
        }
    }
}

} // verus!
