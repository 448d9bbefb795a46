//! Links: connections from an output pin to an input pin.
use vstd::prelude::*;

verus! {

/// Direction of flow along a link when it is drawn.
#[derive(Debug, Clone, Copy, PartialEq, Eq, Structural)]
pub enum FlowDirection {
    Forward,
    Backward,
}

/// A connection between two pins.
#[derive(Debug, Clone, Copy, PartialEq, Eq, Structural)]
pub struct Link {
    pub id: u64,
    pub start_pin_id: u64,
    pub end_pin_id: u64,
    /// Flow shown along the link, if any.
    pub flow: Option<FlowDirection>,
}

impl Link {
    /// A link with no flow shown.
    pub fn new(id: u64, start_pin_id: u64, end_pin_id: u64) -> (r: Self)
        ensures
            r == (Link { id, start_pin_id, end_pin_id, flow: None }),
    {
        Link { id, start_pin_id, end_pin_id, flow: None }
    }
}

} // verus!
