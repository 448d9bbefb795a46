//! Adding organizer and sink nodes, and editing the settings of single nodes.
use vstd::prelude::*;
use crate::app_node::AppNode;
use crate::fractional_number::FractionalNumber;
use crate::node::{CraftNode, GroupNode, GroupedNode, GroupedNodeData, NodeKind, OrganizerNode, SinkNode};
use crate::pin::{Pin, PinDirection};
use crate::production_app::{ProductionApp, node_index};
use crate::rate_change::{overflow_text};
use crate::rate_edit::{node_not_found, edit_followed};
use crate::rate_update::craft_rescaled;
use crate::rational::{qeq, qdiv, qlt, qone, qzero};
use crate::text::{concat, int_to_decimal};

verus! {

/// A new pin: the given id, direction, owner and base rate; no item, unlocked,
/// rate zero, no error, no link.
pub open spec fn fresh_pin_ok(p: Pin, id: u64, dir: PinDirection, node_id: u64, base: (int, int)) -> bool {
    &&& p.id == id
    &&& p.direction == dir
    &&& p.node_id == node_id
    &&& p.item_name is None
    &&& !p.locked
    &&& qeq(p.base_rate@, base)
    &&& p.current_rate@ == qzero()
    &&& !p.error
    &&& p.link_id is None
}

/// A new organizer or sink `node` with id `id` (a sink exactly where `kind`
/// is the sink kind): ids `id + 1, id + 2, ...` go to its inputs, then its
/// outputs, whose base rates are `ins_base` and `outs_base`.
pub open spec fn fresh_node_ok(node: AppNode, id: u64, kind: NodeKind, ins_base: Seq<(int, int)>, outs_base: Seq<(int, int)>) -> bool {
    &&& node.id() == id
    &&& node.kind() == kind
    &&& node.position() == (0u32, 0u32)
    &&& match node {
        AppNode::Organizer(o) => o.item_name is None && kind != NodeKind::Sink,
        AppNode::Sink(s) => s.item_name is None && kind == NodeKind::Sink,
        _ => false,
    }
    &&& node.ins().len() == ins_base.len()
    &&& node.outs().len() == outs_base.len()
    &&& forall|j: int| 0 <= j < ins_base.len() ==> fresh_pin_ok(#[trigger] node.ins()[j], (id + 1 + j) as u64, PinDirection::Input, id, ins_base[j])
    &&& forall|j: int| 0 <= j < outs_base.len() ==> fresh_pin_ok(#[trigger] node.outs()[j], (id + 1 + ins_base.len() + j) as u64, PinDirection::Output, id, outs_base[j])
}

/// The number of somersloops a crafting node ends up with: `n`, but at most
/// `1 / mult` where the multiplier is not zero.
pub open spec fn somersloop_capped(n: (int, int), mult: (int, int)) -> (int, int) {
    if mult.0 != 0 && qlt(qdiv(qone(), mult), n) {
        qdiv(qone(), mult)
    } else {
        n
    }
}

/// Crafting nodes counted by `count_craft_nodes`: each crafting entry, and the
/// crafting entries directly inside each nested group.
pub open spec fn craft_counts(nodes: Seq<GroupedNode>) -> (nat, nat)
    decreases nodes.len(),
{
    if nodes.len() == 0 {
        (0, 0)
    } else {
        let rest = craft_counts(nodes.drop_last());
        let here = match nodes.last().node_data {
            GroupedNodeData::Craft { built, .. } => (if built { 1nat } else { 0nat }, 1nat),
            GroupedNodeData::Group { nodes: inner, .. } => direct_craft_counts(inner@),
            _ => (0nat, 0nat),
        };
        ((rest.0 + here.0) as nat, (rest.1 + here.1) as nat)
    }
}

/// The crafting entries of a list, without looking into nested groups.
pub open spec fn direct_craft_counts(nodes: Seq<GroupedNode>) -> (nat, nat)
    decreases nodes.len(),
{
    if nodes.len() == 0 {
        (0, 0)
    } else {
        let rest = direct_craft_counts(nodes.drop_last());
        let here = match nodes.last().node_data {
            GroupedNodeData::Craft { built, .. } => (if built { 1nat } else { 0nat }, 1nat),
            _ => (0nat, 0nat),
        };
        ((rest.0 + here.0) as nat, (rest.1 + here.1) as nat)
    }
}

fn direct_count(nodes: &Vec<GroupedNode>) -> (r: (usize, usize))
    ensures
        r.0 == direct_craft_counts(nodes@).0,
        r.1 == direct_craft_counts(nodes@).1,
        r.0 <= r.1 <= nodes@.len(),
{
    let mut built: usize = 0;
    let mut total: usize = 0;
    let mut i: usize = 0;
    while i < nodes.len()
        invariant
            0 <= i <= nodes@.len(),
            built == direct_craft_counts(nodes@.subrange(0, i as int)).0,
            total == direct_craft_counts(nodes@.subrange(0, i as int)).1,
            built <= total <= i,
        decreases nodes.len() - i,
    {
        proof {
            assert(nodes@.subrange(0, i + 1).drop_last() =~= nodes@.subrange(0, i as int));
        }
        match &nodes[i].node_data {
            GroupedNodeData::Craft { built: b, .. } => {
                total += 1;
                if *b {
                    built += 1;
                }
            },
            _ => {},
        }
        i += 1;
    }
    proof {
        assert(nodes@.subrange(0, nodes@.len() as int) =~= nodes@);
    }
    (built, total)
}

impl GroupNode {
    /// Count (built, total) crafting nodes inside the group, including those
    /// directly inside nested groups.
    pub fn count_craft_nodes(&self) -> (r: Option<(usize, usize)>)
        ensures
            r matches Some((b, t)) ==> b == craft_counts(self.grouped_nodes@).0 && t == craft_counts(self.grouped_nodes@).1,
            r is None ==> craft_counts(self.grouped_nodes@).1 >= usize::MAX,
    {
        let mut built: usize = 0;
        let mut total: usize = 0;
        let mut i: usize = 0;
        let ghost nodes = self.grouped_nodes@;
        while i < self.grouped_nodes.len()
            invariant
                0 <= i <= nodes.len(),
                nodes == self.grouped_nodes@,
                built == craft_counts(nodes.subrange(0, i as int)).0,
                total == craft_counts(nodes.subrange(0, i as int)).1,
                built <= total,
            decreases nodes.len() - i,
        {
            proof {
                assert(nodes.subrange(0, i + 1).drop_last() =~= nodes.subrange(0, i as int));
            }
            let (b, t) = match &self.grouped_nodes[i].node_data {
                GroupedNodeData::Craft { built: b, .. } => (if *b { 1 } else { 0 }, 1),
                GroupedNodeData::Group { nodes: inner, .. } => direct_count(inner),
                _ => (0, 0),
            };
            if total > usize::MAX - t {
                proof {
                    lemma_craft_counts_mono(nodes, i + 1);
                }
                return None;
            }
            total = total + t;
            built = built + b;
            i += 1;
        }
        proof {
            assert(nodes.subrange(0, nodes.len() as int) =~= nodes);
        }
        Some((built, total))
    }
}

/// Counts only grow along a list.
proof fn lemma_craft_counts_mono(nodes: Seq<GroupedNode>, i: int)
    requires
        0 <= i <= nodes.len(),
    ensures
        craft_counts(nodes.subrange(0, i)).1 <= craft_counts(nodes).1,
    decreases nodes.len() - i,
{
    if i < nodes.len() {
        lemma_craft_counts_mono(nodes, i + 1);
        assert(nodes.subrange(0, i + 1).drop_last() =~= nodes.subrange(0, i));
    } else {
        assert(nodes.subrange(0, i) =~= nodes);
    }
}

impl ProductionApp {
    /// A fresh pin for the node `node_id`.
    fn fresh_pin(&mut self, dir: PinDirection, node_id: u64, base: FractionalNumber) -> (p: Pin)
        requires
            old(self).next_id < u64::MAX,
        ensures
            fresh_pin_ok(p, old(self).next_id, dir, node_id, base@),
            p.base_rate == base,
            final(self).next_id == old(self).next_id + 1,
            final(self).nodes@ == old(self).nodes@,
            final(self).links@ == old(self).links@,
    {
        let id = self.get_next_id();
        Pin::new(id, dir, node_id, None, false, base)
    }

    /// Add a merger with two inputs and one output.
    pub fn add_merger_node(&mut self) -> (r: u64)
        requires
            old(self).next_id < u64::MAX - 4,
        ensures
            r == old(self).next_id,
            final(self).next_id == old(self).next_id + 4,
            final(self).links@ == old(self).links@,
            final(self).nodes@.drop_last() == old(self).nodes@,
            final(self).nodes@.len() == old(self).nodes@.len() + 1,
            fresh_node_ok(final(self).nodes@.last(), r, NodeKind::Merger, seq![qzero(), qzero()], seq![qzero()]),
    {
        let node_id = self.get_next_id();
        let mut merger = OrganizerNode::new(node_id, NodeKind::Merger, None);
        let p1 = self.fresh_pin(PinDirection::Input, node_id, FractionalNumber::zero());
        merger.base.ins.push(p1);
        let p2 = self.fresh_pin(PinDirection::Input, node_id, FractionalNumber::zero());
        merger.base.ins.push(p2);
        let p3 = self.fresh_pin(PinDirection::Output, node_id, FractionalNumber::zero());
        merger.base.outs.push(p3);
        let ghost a = self.nodes@;
        self.nodes.push(AppNode::Organizer(merger));
        proof {
            assert(self.nodes@.drop_last() =~= a);
            let n = self.nodes@.last();
            assert(n.ins()[0] == p1 && n.ins()[1] == p2 && n.outs()[0] == p3);
        }
        node_id
    }

    /// Add a custom splitter with one input and two outputs.
    pub fn add_custom_splitter_node(&mut self) -> (r: u64)
        requires
            old(self).next_id < u64::MAX - 4,
        ensures
            r == old(self).next_id,
            final(self).next_id == old(self).next_id + 4,
            final(self).links@ == old(self).links@,
            final(self).nodes@.drop_last() == old(self).nodes@,
            final(self).nodes@.len() == old(self).nodes@.len() + 1,
            fresh_node_ok(final(self).nodes@.last(), r, NodeKind::CustomSplitter, seq![qzero()], seq![qzero(), qzero()]),
    {
        let node_id = self.get_next_id();
        let mut splitter = OrganizerNode::new(node_id, NodeKind::CustomSplitter, None);
        let p1 = self.fresh_pin(PinDirection::Input, node_id, FractionalNumber::zero());
        splitter.base.ins.push(p1);
        let p2 = self.fresh_pin(PinDirection::Output, node_id, FractionalNumber::zero());
        splitter.base.outs.push(p2);
        let p3 = self.fresh_pin(PinDirection::Output, node_id, FractionalNumber::zero());
        splitter.base.outs.push(p3);
        let ghost a = self.nodes@;
        self.nodes.push(AppNode::Organizer(splitter));
        proof {
            assert(self.nodes@.drop_last() =~= a);
            let n = self.nodes@.last();
            assert(n.ins()[0] == p1 && n.outs()[0] == p2 && n.outs()[1] == p3);
        }
        node_id
    }

    /// Add a game splitter: one input of base rate one, two outputs of base
    /// rate one half, so that its single variable splits the flow equally.
    pub fn add_game_splitter_node(&mut self) -> (r: u64)
        requires
            old(self).next_id < u64::MAX - 4,
        ensures
            r == old(self).next_id,
            final(self).next_id == old(self).next_id + 4,
            final(self).links@ == old(self).links@,
            final(self).nodes@.drop_last() == old(self).nodes@,
            final(self).nodes@.len() == old(self).nodes@.len() + 1,
            fresh_node_ok(final(self).nodes@.last(), r, NodeKind::GameSplitter, seq![qone()], seq![(1int, 2int), (1int, 2int)]),
    {
        let node_id = self.get_next_id();
        let mut splitter = OrganizerNode::new(node_id, NodeKind::GameSplitter, None);
        let p1 = self.fresh_pin(PinDirection::Input, node_id, FractionalNumber::one());
        splitter.base.ins.push(p1);
        let half = FractionalNumber::new(1, 2);
        let p2 = self.fresh_pin(PinDirection::Output, node_id, half);
        splitter.base.outs.push(p2);
        let p3 = self.fresh_pin(PinDirection::Output, node_id, half);
        splitter.base.outs.push(p3);
        let ghost a = self.nodes@;
        self.nodes.push(AppNode::Organizer(splitter));
        proof {
            assert(self.nodes@.drop_last() =~= a);
            let n = self.nodes@.last();
            assert(n.ins()[0] == p1 && n.outs()[0] == p2 && n.outs()[1] == p3);
        }
        node_id
    }

    /// Add a sink with one input.
    pub fn add_sink_node(&mut self) -> (r: u64)
        requires
            old(self).next_id < u64::MAX - 2,
        ensures
            r == old(self).next_id,
            final(self).next_id == old(self).next_id + 2,
            final(self).links@ == old(self).links@,
            final(self).nodes@.drop_last() == old(self).nodes@,
            final(self).nodes@.len() == old(self).nodes@.len() + 1,
            fresh_node_ok(final(self).nodes@.last(), r, NodeKind::Sink, seq![qzero()], Seq::empty()),
    {
        let node_id = self.get_next_id();
        let mut sink = SinkNode::new(node_id, None);
        let p1 = self.fresh_pin(PinDirection::Input, node_id, FractionalNumber::zero());
        sink.base.ins.push(p1);
        let ghost a = self.nodes@;
        self.nodes.push(AppNode::Sink(sink));
        proof {
            assert(self.nodes@.drop_last() =~= a);
            let n = self.nodes@.last();
            assert(n.ins()[0] == p1);
        }
        node_id
    }

    /// Set the name of a group.
    pub fn set_group_name(&mut self, node_id: u64, name: String) -> (r: Result<(), String>)
        ensures
            final(self).links@ == old(self).links@,
            final(self).next_id == old(self).next_id,
            node_index(old(self).nodes@, node_id) is None ==> (r matches Err(e) && e@ == "Node "@ + int_to_decimal(
                node_id as int,
            ) + " not found"@ && final(self).nodes@ == old(self).nodes@),
            node_index(old(self).nodes@, node_id) matches Some(i) ==> match old(self).nodes@[i] {
                AppNode::Group(g) => r is Ok && final(self).nodes@ == old(self).nodes@.update(
                    i,
                    AppNode::Group(GroupNode { name, ..g }),
                ),
                _ => r matches Err(e) && e@ == "Node is not a group"@ && final(self).nodes@ == old(self).nodes@,
            },
    {
        let ni = match self.find_node_index(node_id) {
            Some(i) => i,
            None => {
                return Err(node_not_found(node_id));
            },
        };
        match &mut self.nodes[ni] {
            AppNode::Group(g) => {
                g.name = name;
                Ok(())
            },
            _ => Err("Node is not a group".to_owned()),
        }
    }

    /// Set the item of a sink's input pin.
    pub fn set_sink_pin_item(&mut self, node_id: u64, pin_index: usize, item: Option<String>) -> (r: Result<(), String>)
        ensures
            final(self).links@ == old(self).links@,
            final(self).next_id == old(self).next_id,
            node_index(old(self).nodes@, node_id) is None ==> (r matches Err(e) && e@ == "Node "@ + int_to_decimal(
                node_id as int,
            ) + " not found"@ && final(self).nodes@ == old(self).nodes@),
            node_index(old(self).nodes@, node_id) matches Some(i) ==> if !(old(self).nodes@[i] is Sink) {
                r matches Err(e) && e@ == "Node is not a sink"@ && final(self).nodes@ == old(self).nodes@
            } else if pin_index >= old(self).nodes@[i].ins().len() {
                r matches Err(e) && e@ == "Input pin out of range"@ && final(self).nodes@ == old(self).nodes@
            } else {
                r is Ok && final(self).nodes@.len() == old(self).nodes@.len() && (forall|m: int|
                    0 <= m < old(self).nodes@.len() && m != i ==> #[trigger] final(self).nodes@[m] == old(self).nodes@[m])
                    && final(self).nodes@[i].same_settings(old(self).nodes@[i]) && final(self).nodes@[i].ins()
                    == old(self).nodes@[i].ins().update(
                    pin_index as int,
                    Pin { item_name: item, ..old(self).nodes@[i].ins()[pin_index as int] },
                )
            },
    {
        let ni = match self.find_node_index(node_id) {
            Some(i) => i,
            None => {
                return Err(node_not_found(node_id));
            },
        };
        match &mut self.nodes[ni] {
            AppNode::Sink(s) => {
                if pin_index >= s.base.ins.len() {
                    return Err("Input pin out of range".to_owned());
                }
                let ghost before = s.base.ins@;
                let mut p = s.base.ins.remove(pin_index);
                p.item_name = item;
                s.base.ins.insert(pin_index, p);
                proof {
                    assert(s.base.ins@ =~= before.update(pin_index as int, Pin { item_name: item, ..before[pin_index as int] }));
                }
                Ok(())
            },
            _ => Err("Node is not a sink".to_owned()),
        }
    }

    /// Set the item of an organizer and of all its pins.
    pub fn set_node_item_name(&mut self, node_id: u64, item: Option<String>) -> (r: Result<(), String>)
        ensures
            final(self).links@ == old(self).links@,
            final(self).next_id == old(self).next_id,
            node_index(old(self).nodes@, node_id) is None ==> (r matches Err(e) && e@ == "Node "@ + int_to_decimal(
                node_id as int,
            ) + " not found"@ && final(self).nodes@ == old(self).nodes@),
            node_index(old(self).nodes@, node_id) matches Some(i) ==> match (old(self).nodes@[i], final(self).nodes@[i]) {
                (AppNode::Organizer(o), AppNode::Organizer(p)) => r is Ok && final(self).nodes@.len() == old(self).nodes@.len()
                    && (forall|m: int| 0 <= m < old(self).nodes@.len() && m != i ==> #[trigger] final(self).nodes@[m] == old(self).nodes@[m])
                    && p.item_name == item && p.base.id == o.base.id && p.base.kind == o.base.kind && p.base.position == o.base.position
                    && items_set(o.base.ins@, p.base.ins@, item) && items_set(o.base.outs@, p.base.outs@, item),
                (AppNode::Organizer(o), _) => false,
                _ => r matches Err(e) && e@ == "Node is not an organizer"@ && final(self).nodes@ == old(self).nodes@,
            },
    {
        let ni = match self.find_node_index(node_id) {
            Some(i) => i,
            None => {
                return Err(node_not_found(node_id));
            },
        };
        match &mut self.nodes[ni] {
            AppNode::Organizer(o) => {
                o.item_name = clone_item(&item);
                set_items(&mut o.base.ins, &item);
                set_items(&mut o.base.outs, &item);
                Ok(())
            },
            _ => Err("Node is not an organizer".to_owned()),
        }
    }
}

/// `new` is `old` with every pin's item set to `item`.
pub open spec fn items_set(old: Seq<Pin>, new: Seq<Pin>, item: Option<String>) -> bool {
    &&& new.len() == old.len()
    &&& forall|j: int| 0 <= j < old.len() ==> #[trigger] new[j] == (Pin { item_name: item, ..old[j] })
}

pub(crate) fn clone_item(item: &Option<String>) -> (r: Option<String>)
    ensures
        r == *item,
{
    match item {
        Some(s) => Some(s.clone()),
        None => None,
    }
}

fn set_items(pins: &mut Vec<Pin>, item: &Option<String>)
    ensures
        items_set(old(pins)@, final(pins)@, *item),
{
    let ghost before = pins@;
    let mut j: usize = 0;
    while j < pins.len()
        invariant
            0 <= j <= pins@.len(),
            pins@.len() == before.len(),
            forall|q: int| 0 <= q < j ==> #[trigger] pins@[q] == (Pin { item_name: *item, ..before[q] }),
            forall|q: int| j <= q < before.len() ==> #[trigger] pins@[q] == before[q],
        decreases pins.len() - j,
    {
        let mut p = pins.remove(j);
        p.item_name = clone_item(item);
        pins.insert(j, p);
        j += 1;
    }
}

} // verus!
