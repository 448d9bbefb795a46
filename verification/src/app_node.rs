//! The nodes held by the production graph, seen uniformly: an id, input pins
//! and output pins.
use vstd::prelude::*;
use crate::fractional_number::FractionalNumber;
use crate::node::{CraftNode, GroupNode, NodeKind, OrganizerNode, SinkNode};
use crate::pin::{Pin, PinDirection};

verus! {

/// A node of the production graph.
#[derive(Debug)]
pub enum AppNode {
    Craft(CraftNode),
    Organizer(OrganizerNode),
    Group(GroupNode),
    Sink(SinkNode),
}

/// A change to one field of a pin.
#[derive(Debug, Clone, Copy)]
pub enum PinUpdate {
    Rate(FractionalNumber),
    Locked(bool),
    Link(Option<u64>),
    Error(bool),
}

/// The pin after the change.
pub open spec fn updated_pin(p: Pin, u: PinUpdate) -> Pin {
    match u {
        PinUpdate::Rate(r) => Pin { current_rate: r, ..p },
        PinUpdate::Locked(b) => Pin { locked: b, ..p },
        PinUpdate::Link(l) => Pin { link_id: l, ..p },
        PinUpdate::Error(b) => Pin { error: b, ..p },
    }
}

/// Apply a change to a pin.
pub fn apply_update(p: &mut Pin, u: PinUpdate)
    ensures
        *final(p) == updated_pin(*old(p), u),
{
    match u {
        PinUpdate::Rate(r) => p.current_rate = r,
        PinUpdate::Locked(b) => p.locked = b,
        PinUpdate::Link(l) => p.link_id = l,
        PinUpdate::Error(b) => p.error = b,
    }
}

/// The settings of two group nodes (all but their pins) agree.
pub open spec fn group_same_settings(a: GroupNode, b: GroupNode) -> bool {
    &&& a.base.id == b.base.id
    &&& a.base.kind == b.base.kind
    &&& a.base.position == b.base.position
    &&& a.current_rate == b.current_rate
    &&& a.same_clock_power == b.same_clock_power
    &&& a.last_underclock_power == b.last_underclock_power
    &&& a.grouped_nodes@ == b.grouped_nodes@
    &&& a.nodes_base_rate@ == b.nodes_base_rate@
    &&& a.grouped_links@ == b.grouped_links@
    &&& a.inputs@ == b.inputs@
    &&& a.outputs@ == b.outputs@
    &&& a.detailed_sinked_points@ == b.detailed_sinked_points@
    &&& a.name == b.name
    &&& a.variable_power == b.variable_power
    &&& a.total_machines@ == b.total_machines@
    &&& a.built_machines@ == b.built_machines@
    &&& a.loading_error == b.loading_error
}

impl AppNode {
    pub open spec fn id(self) -> u64 {
        match self {
            AppNode::Craft(n) => n.base.id,
            AppNode::Organizer(n) => n.base.id,
            AppNode::Group(n) => n.base.id,
            AppNode::Sink(n) => n.base.id,
        }
    }

    pub open spec fn kind(self) -> NodeKind {
        match self {
            AppNode::Craft(n) => n.base.kind,
            AppNode::Organizer(n) => n.base.kind,
            AppNode::Group(n) => n.base.kind,
            AppNode::Sink(n) => n.base.kind,
        }
    }

    pub open spec fn position(self) -> (u32, u32) {
        match self {
            AppNode::Craft(n) => n.base.position,
            AppNode::Organizer(n) => n.base.position,
            AppNode::Group(n) => n.base.position,
            AppNode::Sink(n) => n.base.position,
        }
    }

    /// The input pins.
    pub open spec fn ins(self) -> Seq<Pin> {
        match self {
            AppNode::Craft(n) => n.base.ins@,
            AppNode::Organizer(n) => n.base.ins@,
            AppNode::Group(n) => n.base.ins@,
            AppNode::Sink(n) => n.base.ins@,
        }
    }

    /// The output pins; a sink has none.
    pub open spec fn outs(self) -> Seq<Pin> {
        match self {
            AppNode::Craft(n) => n.base.outs@,
            AppNode::Organizer(n) => n.base.outs@,
            AppNode::Group(n) => n.base.outs@,
            AppNode::Sink(n) => Seq::empty(),
        }
    }

    /// The inputs or the outputs.
    pub open spec fn side(self, input: bool) -> Seq<Pin> {
        if input {
            self.ins()
        } else {
            self.outs()
        }
    }

    /// All pins, inputs first.
    pub open spec fn pins(self) -> Seq<Pin> {
        self.ins() + self.outs()
    }

    /// Same variant, and everything but the pins agrees.
    pub open spec fn same_settings(self, other: AppNode) -> bool {
        match (self, other) {
            (AppNode::Craft(a), AppNode::Craft(b)) => a.same_settings(b) && a.current_rate
                == b.current_rate,
            (AppNode::Organizer(a), AppNode::Organizer(b)) => a.base.id == b.base.id
                && a.base.kind == b.base.kind && a.base.position == b.base.position
                && a.item_name == b.item_name,
            (AppNode::Group(a), AppNode::Group(b)) => group_same_settings(a, b),
            (AppNode::Sink(a), AppNode::Sink(b)) => a.base.id == b.base.id && a.base.kind
                == b.base.kind && a.base.position == b.base.position && a.item_name
                == b.item_name && a.base.outs@ == b.base.outs@,
            _ => false,
        }
    }

    pub fn node_id(&self) -> (r: u64)
        ensures
            r == self.id(),
    {
        match self {
            AppNode::Craft(n) => n.base.id,
            AppNode::Organizer(n) => n.base.id,
            AppNode::Group(n) => n.base.id,
            AppNode::Sink(n) => n.base.id,
        }
    }

    pub fn node_kind(&self) -> (r: NodeKind)
        ensures
            r == self.kind(),
    {
        match self {
            AppNode::Craft(n) => n.base.kind,
            AppNode::Organizer(n) => n.base.kind,
            AppNode::Group(n) => n.base.kind,
            AppNode::Sink(n) => n.base.kind,
        }
    }

    /// The number of pins on one side.
    pub fn side_len(&self, input: bool) -> (r: usize)
        ensures
            r == self.side(input).len(),
    {
        match self {
            AppNode::Craft(n) => if input { n.base.ins.len() } else { n.base.outs.len() },
            AppNode::Organizer(n) => if input { n.base.ins.len() } else { n.base.outs.len() },
            AppNode::Group(n) => if input { n.base.ins.len() } else { n.base.outs.len() },
            AppNode::Sink(n) => if input { n.base.ins.len() } else { 0 },
        }
    }

    /// The pin at `i` on one side.
    pub fn pin(&self, input: bool, i: usize) -> (r: &Pin)
        requires
            i < self.side(input).len(),
        ensures
            *r == self.side(input)[i as int],
    {
        match self {
            AppNode::Craft(n) => if input { &n.base.ins[i] } else { &n.base.outs[i] },
            AppNode::Organizer(n) => if input { &n.base.ins[i] } else { &n.base.outs[i] },
            AppNode::Group(n) => if input { &n.base.ins[i] } else { &n.base.outs[i] },
            AppNode::Sink(n) => &n.base.ins[i],
        }
    }

    /// Change one field of the pin at `i` on one side.
    pub fn update_pin(&mut self, input: bool, i: usize, u: PinUpdate)
        requires
            i < old(self).side(input).len(),
        ensures
            final(self).same_settings(*old(self)),
            final(self).side(input) == old(self).side(input).update(
                i as int,
                updated_pin(old(self).side(input)[i as int], u),
            ),
            final(self).side(!input) == old(self).side(!input),
    {
        match self {
            AppNode::Craft(n) => if input {
                apply_update(&mut n.base.ins[i], u)
            } else {
                apply_update(&mut n.base.outs[i], u)
            },
            AppNode::Organizer(n) => if input {
                apply_update(&mut n.base.ins[i], u)
            } else {
                apply_update(&mut n.base.outs[i], u)
            },
            AppNode::Group(n) => if input {
                apply_update(&mut n.base.ins[i], u)
            } else {
                apply_update(&mut n.base.outs[i], u)
            },
            AppNode::Sink(n) => apply_update(&mut n.base.ins[i], u),
        }
    }
}

/// The side of a direction: inputs for `Input`.
pub open spec fn is_input(d: PinDirection) -> bool {
    d == PinDirection::Input
}

} // verus!
