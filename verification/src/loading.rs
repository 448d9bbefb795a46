//! Building the graph back from a saved production chain.
use vstd::prelude::*;
use crate::app_node::{AppNode, PinUpdate};
use crate::fractional_number::{FractionalNumber, mul_fits};
use crate::link::Link;
use crate::node::{NodeKind, OrganizerNode};
use crate::pin::{Pin, PinDirection};
use crate::production_app::{ProductionApp, pin_loc, pin_updated, dir_of, same_pin_ids, node_index, node_has_pin, side_has_pin, is_pin_loc};
use crate::locking::{nodes_relocked, pins_relocked};
use crate::auto_lock::{lock_grown, pins_grown};
use crate::rate_change::{lemma_ids_trans, propagated, propagation_refused, Propagation};
use crate::rate_update::node_rescaled;
use crate::link_edit::lemma_updated_ids;
use crate::node::scaled_pins;
use crate::serialization::{SerializedLink, SerializedNode, SerializedRate, SerializedPinEntry, SerializedSinkInput, kind_id, ProductionChainFile,
    saved_nodes, saved_options, saved_as, nodes_kept};
use crate::node::{GroupedLink, GroupedNode, GroupedNodeData, GroupedPin, GroupNode, CraftNode, SinkNode};
use crate::game_data::GameData;
use crate::rational::{qeq, qmul, qone, qcanon, lemma_qcanon};
use crate::text::{concat, u64_to_string, int_to_decimal};
use crate::rational::qzero;
use crate::serialization::{saved_links, link_saved, last_node_index};
use crate::group::{grouped_totals, grouped_totals_fit, net_pins_fit};
use crate::assoc::canon_totals;

verus! {

/// The pins an organizer gets when a saved link names pin `idx` beyond its
/// last on one side: fresh pins with ids from `first`, the organizer's item,
/// zero rates, locked as the first pin of the other side (else unlocked).
pub open spec fn organizer_grown(a: OrganizerNode, b: OrganizerNode, input: bool, idx: int, first: int) -> bool {
    let old_side = if input { a.base.ins@ } else { a.base.outs@ };
    let new_side = if input { b.base.ins@ } else { b.base.outs@ };
    let other = if input { a.base.outs@ } else { a.base.ins@ };
    let locked = if other.len() > 0 { other[0].locked } else { false };
    &&& b.base.id == a.base.id
    &&& b.base.kind == a.base.kind
    &&& b.base.position == a.base.position
    &&& b.item_name == a.item_name
    &&& (if input { b.base.outs@ == a.base.outs@ } else { b.base.ins@ == a.base.ins@ })
    &&& new_side.len() == idx + 1
    &&& new_side.subrange(0, old_side.len() as int) == old_side
    &&& forall|j: int| old_side.len() <= j <= idx ==> {
        &&& (#[trigger] new_side[j]).id == first + (j - old_side.len())
        &&& new_side[j].direction == dir_of(input)
        &&& new_side[j].node_id == a.base.id
        &&& new_side[j].item_name == a.item_name
        &&& new_side[j].locked == locked
        &&& new_side[j].base_rate@ == qzero()
        &&& new_side[j].current_rate@ == qzero()
        &&& !new_side[j].error
        &&& new_side[j].link_id is None
    }
}

/// The side a saved link end names on a node: a sink has inputs only.
pub open spec fn named_side(n: AppNode, input: bool) -> Seq<Pin> {
    match n {
        AppNode::Sink(s) => s.base.ins@,
        _ => n.side(input),
    }
}

pub open spec fn pin_index_error(idx: int) -> Seq<char> {
    "Pin index "@ + int_to_decimal(idx) + " out of bounds"@
}

fn pin_index_message(idx: usize) -> (r: String)
    ensures
        r@ == pin_index_error(idx as int),
{
    concat(concat("Pin index ".to_owned(), u64_to_string(idx as u64).as_str()), " out of bounds")
}

/// Fresh pins for an organizer side, ids from `first`.
fn grow_side(pins: &mut Vec<Pin>, idx: usize, first: u64, dir: PinDirection, node_id: u64, item: &Option<String>, locked: bool)
    requires
        old(pins)@.len() <= idx,
        first + (idx - old(pins)@.len()) < u64::MAX,
    ensures
        final(pins)@.len() == idx + 1,
        final(pins)@.subrange(0, old(pins)@.len() as int) == old(pins)@,
        forall|j: int| old(pins)@.len() <= j <= idx ==> {
            &&& (#[trigger] final(pins)@[j]).id == first + (j - old(pins)@.len())
            &&& final(pins)@[j].direction == dir
            &&& final(pins)@[j].node_id == node_id
            &&& final(pins)@[j].item_name == *item
            &&& final(pins)@[j].locked == locked
            &&& final(pins)@[j].base_rate@ == qzero()
            &&& final(pins)@[j].current_rate@ == qzero()
            &&& !final(pins)@[j].error
            &&& final(pins)@[j].link_id is None
        },
{
    let start = pins.len();
    while pins.len() <= idx
        invariant
            start == old(pins)@.len(),
            start <= pins@.len() <= idx + 1,
            first + (idx - start) < u64::MAX,
            pins@.subrange(0, start as int) == old(pins)@,
            forall|j: int| start <= j < pins@.len() ==> {
                &&& (#[trigger] pins@[j]).id == first + (j - start)
                &&& pins@[j].direction == dir
                &&& pins@[j].node_id == node_id
                &&& pins@[j].item_name == *item
                &&& pins@[j].locked == locked
                &&& pins@[j].base_rate@ == qzero()
                &&& pins@[j].current_rate@ == qzero()
                &&& !pins@[j].error
                &&& pins@[j].link_id is None
            },
        decreases idx + 1 - pins@.len(),
    {
        let ghost before = pins@;
        let id = first + ((pins.len() - start) as u64);
        pins.push(Pin::new(id, dir, node_id, crate::node_edit::clone_item(item), locked, FractionalNumber::zero()));
        assert(pins@.subrange(0, start as int) =~= before.subrange(0, start as int));
    }
}

impl ProductionApp {
    /// Record a link on the first pin with the id (inputs before outputs).
    pub fn set_pin_link_id(&mut self, pin_id: u64, link_id: Option<u64>) -> (r: Result<(), String>)
        ensures
            final(self).links@ == old(self).links@,
            final(self).next_id == old(self).next_id,
            pin_loc(old(self).nodes@, pin_id) is None ==> (r matches Err(e) && e@ == "Pin "@ + int_to_decimal(pin_id as int) + " not found"@
                && final(self).nodes@ == old(self).nodes@),
            pin_loc(old(self).nodes@, pin_id) matches Some(l) ==> r is Ok && pin_updated(old(self).nodes@, final(self).nodes@, l, PinUpdate::Link(link_id)),
    {
        match self.locate_pin(pin_id) {
            Some((n, input, i)) => {
                self.update_pin_at(n, input, i, PinUpdate::Link(link_id));
                Ok(())
            },
            None => Err(concat(concat("Pin ".to_owned(), u64_to_string(pin_id).as_str()), " not found")),
        }
    }

    /// The id of the pin a saved link end names: pin `pin_idx` among the
    /// inputs or outputs of node `node_idx` (a sink's inputs either way). An
    /// organizer gets fresh pins up to the index where it has too few.
    pub fn get_pin_id_by_indices(&mut self, node_idx: usize, pin_idx: usize, direction: PinDirection) -> (r: Result<u64, String>)
        requires
            node_idx < old(self).nodes@.len(),
        ensures
            final(self).links@ == old(self).links@,
            final(self).nodes@.len() == old(self).nodes@.len(),
            ({
                let n = old(self).nodes@[node_idx as int];
                let side = named_side(n, direction == PinDirection::Input);
                if pin_idx < side.len() {
                    r == Ok::<u64, String>(side[pin_idx as int].id) && *final(self) == *old(self)
                } else if n is Organizer {
                    match r {
                        Ok(id) => {
                            &&& id == old(self).next_id + (pin_idx - side.len())
                            &&& final(self).next_id == old(self).next_id + (pin_idx + 1 - side.len())
                            &&& forall|m: int| 0 <= m < old(self).nodes@.len() && m != node_idx ==> #[trigger] final(self).nodes@[m] == old(self).nodes@[m]
                            &&& (n matches AppNode::Organizer(a) && final(self).nodes@[node_idx as int] matches AppNode::Organizer(b)
                                && organizer_grown(a, b, direction == PinDirection::Input, pin_idx as int, old(self).next_id as int))
                        },
                        Err(e) => e@ == "Out of ids"@ && *final(self) == *old(self),
                    }
                } else {
                    (r matches Err(e) && e@ == pin_index_error(pin_idx as int)) && *final(self) == *old(self)
                }
            }),
    {
        let input = direction == PinDirection::Input;
        let (len, is_org) = match &self.nodes[node_idx] {
            AppNode::Sink(s) => (s.base.ins.len(), false),
            AppNode::Organizer(o) => (if input { o.base.ins.len() } else { o.base.outs.len() }, true),
            other => (other.side_len(input), false),
        };
        if pin_idx < len {
            let id = match &self.nodes[node_idx] {
                AppNode::Sink(s) => s.base.ins[pin_idx].id,
                other => other.pin(input, pin_idx).id,
            };
            return Ok(id);
        }
        if !is_org {
            return Err(pin_index_message(pin_idx));
        }
        let diff = (pin_idx - len) as u64;
        if (self.next_id as u128) + (diff as u128) + 1 >= 0xffff_ffff_ffff_ffffu128 {
            return Err("Out of ids".to_owned());
        }
        let first = self.next_id;
        let ghost before = self.nodes@;
        let node = self.nodes.remove(node_idx);
        let node = match node {
            AppNode::Organizer(mut o) => {
                let id = o.base.id;
                if input {
                    let locked = if o.base.outs.len() > 0 { o.base.outs[0].locked } else { false };
                    grow_side(&mut o.base.ins, pin_idx, first, PinDirection::Input, id, &o.item_name, locked);
                } else {
                    let locked = if o.base.ins.len() > 0 { o.base.ins[0].locked } else { false };
                    grow_side(&mut o.base.outs, pin_idx, first, PinDirection::Output, id, &o.item_name, locked);
                }
                AppNode::Organizer(o)
            },
            other => other,
        };
        self.nodes.insert(node_idx, node);
        proof {
            assert forall|m: int| 0 <= m < before.len() && m != node_idx implies #[trigger] self.nodes@[m] == before[m] by {
                if m < node_idx {
                    assert(self.nodes@[m] == before.remove(node_idx as int)[m]);
                } else {
                    assert(self.nodes@[m] == before.remove(node_idx as int)[m - 1]);
                }
            }
        }
        self.next_id = first + diff + 1;
        Ok(first + diff)
    }
}


impl ProductionApp {
    /// Adds a saved link: from output pin `start.pin` of node `start.node` to
    /// input pin `end.pin` of node `end.node` (see `get_pin_id_by_indices`),
    /// recorded on both pins, with a fresh id.
    #[verifier::spinoff_prover]
    #[verifier::rlimit(60)]
    fn load_link(&mut self, s: &SerializedLink) -> (r: Result<(), String>)
        ensures
            s.start.node >= old(self).nodes@.len() ==> (r matches Err(e) && e@ == "Invalid start node index: "@ + int_to_decimal(s.start.node as int)
                && *final(self) == *old(self)),
            s.start.node < old(self).nodes@.len() && s.end.node >= old(self).nodes@.len() ==> (r matches Err(e) && e@
                == "Invalid end node index: "@ + int_to_decimal(s.end.node as int) && *final(self) == *old(self)),
            final(self).nodes@.len() == old(self).nodes@.len(),
            forall|n: int| 0 <= n < old(self).nodes@.len() ==> (#[trigger] final(self).nodes@[n]).same_settings(old(self).nodes@[n]),
            r is Ok ==> final(self).links@.len() == old(self).links@.len() + 1 && final(self).links@.drop_last() == old(self).links@,
            r is Err ==> final(self).links@ == old(self).links@,
            s.start.node < old(self).nodes@.len() && s.end.node < old(self).nodes@.len() && s.start.pin < named_side(
                old(self).nodes@[s.start.node as int],
                false,
            ).len() && s.end.pin < named_side(old(self).nodes@[s.end.node as int], true).len() && old(self).next_id < u64::MAX ==> r is Ok
                && final(self).next_id == old(self).next_id + 1 && same_pin_ids(old(self).nodes@, final(self).nodes@)
                && link_placed(old(self).nodes@, *s, final(self).links@.last(), old(self).next_id as int),
    {
        if s.start.node >= self.nodes.len() {
            return Err(concat("Invalid start node index: ".to_owned(), u64_to_string(s.start.node as u64).as_str()));
        }
        if s.end.node >= self.nodes.len() {
            return Err(concat("Invalid end node index: ".to_owned(), u64_to_string(s.end.node as u64).as_str()));
        }
        let ghost a0 = self.nodes@;
        proof {
            assert forall|n: int| 0 <= n < a0.len() implies (#[trigger] a0[n]).same_settings(a0[n]) by {}
        }
        let sp = self.get_pin_id_by_indices(s.start.node, s.start.pin, PinDirection::Output)?;
        let ghost a1 = self.nodes@;
        proof {
            assert forall|n: int| 0 <= n < a0.len() implies (#[trigger] a1[n]).same_settings(a0[n]) by {}
        }
        let ep = self.get_pin_id_by_indices(s.end.node, s.end.pin, PinDirection::Input)?;
        let ghost a2 = self.nodes@;
        proof {
            assert forall|n: int| 0 <= n < a0.len() implies (#[trigger] a2[n]).same_settings(a0[n]) by {
                assert(a1[n].same_settings(a0[n]));
            }
        }
        if self.next_id == u64::MAX {
            return Err("Out of ids".to_owned());
        }
        let lid = self.get_next_id();
        proof {
            if s.start.pin < named_side(a0[s.start.node as int], false).len() && s.end.pin < named_side(a0[s.end.node as int], true).len() {
                let sn = s.start.node as int;
                let sin = a0[sn] is Sink;
                assert(named_side(a0[sn], false) == a0[sn].side(sin));
                lemma_pin_loc_some(self.nodes@, sn, sin, s.start.pin as int);
            }
        }
        self.set_pin_link_id(sp, Some(lid))?;
        let ghost a3 = self.nodes@;
        proof {
            assert forall|n: int| 0 <= n < a0.len() implies (#[trigger] a3[n]).same_settings(a0[n]) by {
                assert(a2[n].same_settings(a0[n]));
            }
        }
        proof {
            if s.start.pin < named_side(a0[s.start.node as int], false).len() && s.end.pin < named_side(a0[s.end.node as int], true).len() {
                let sn = s.start.node as int;
                let sin = a0[sn] is Sink;
                let l = pin_loc(a2, sp)->0;
                lemma_updated_ids(a2, a3, l, PinUpdate::Link(Some(lid)));
                let en = s.end.node as int;
                assert(named_side(a0[en], true) == a0[en].side(true));
                assert(a3[en].side(true)[s.end.pin as int].id == a2[en].side(true)[s.end.pin as int].id);
                lemma_pin_loc_some(a3, en, true, s.end.pin as int);
            }
        }
        self.set_pin_link_id(ep, Some(lid))?;
        proof {
            if s.start.pin < named_side(a0[s.start.node as int], false).len() && s.end.pin < named_side(a0[s.end.node as int], true).len() {
                let l = pin_loc(a3, ep)->0;
                lemma_updated_ids(a3, self.nodes@, l, PinUpdate::Link(Some(lid)));
                let l1 = pin_loc(a2, sp)->0;
                lemma_updated_ids(a2, a3, l1, PinUpdate::Link(Some(lid)));
                crate::rate_change::lemma_ids_trans(a2, a3, self.nodes@);
            }
        }
        proof {
            assert forall|n: int| 0 <= n < a0.len() implies (#[trigger] self.nodes@[n]).same_settings(a0[n]) by {
                assert(a3[n].same_settings(a0[n]));
            }
        }
        let ghost before = self.links@;
        self.links.push(Link::new(lid, sp, ep));
        assert(self.links@.drop_last() =~= before);
        proof {
            if s.start.pin < named_side(a0[s.start.node as int], false).len() && s.end.pin < named_side(a0[s.end.node as int], true).len() {
                assert(a1 == a0);
                assert(link_placed(a0, *s, self.links@.last(), lid as int));
            }
        }
        Ok(())
    }
}


/// The rate a saved rate stands for; refused for a zero denominator (or a
/// value at the edge of `i64`).
/// `link` is the saved link `l` placed among `nodes` with id `id`: it joins
/// output pin `l.start.pin` of node `l.start.node` to input pin `l.end.pin`
/// of node `l.end.node`, all of which exist, and shows no flow.
pub open spec fn link_placed(nodes: Seq<AppNode>, l: SerializedLink, link: Link, id: int) -> bool {
    &&& l.start.node < nodes.len() && l.end.node < nodes.len()
    &&& l.start.pin < named_side(nodes[l.start.node as int], false).len()
    &&& l.end.pin < named_side(nodes[l.end.node as int], true).len()
    &&& link.id == id
    &&& link.start_pin_id == named_side(nodes[l.start.node as int], false)[l.start.pin as int].id
    &&& link.end_pin_id == named_side(nodes[l.end.node as int], true)[l.end.pin as int].id
    &&& link.flow is None
}

/// A placed link stays placed while the pins keep their ids.
proof fn lemma_placed_kept(a: Seq<AppNode>, b: Seq<AppNode>, l: SerializedLink, link: Link, id: int)
    requires
        same_pin_ids(a, b),
        forall|n: int| 0 <= n < a.len() ==> (#[trigger] b[n]).same_settings(a[n]),
        link_placed(a, l, link, id),
    ensures
        link_placed(b, l, link, id),
{
    let sn = l.start.node as int;
    let en = l.end.node as int;
    assert(b[sn].same_settings(a[sn]));
    assert(b[en].same_settings(a[en]));
    assert(a[sn].side(false).len() == b[sn].side(false).len());
    assert(a[sn].side(true).len() == b[sn].side(true).len());
    assert(a[en].side(true).len() == b[en].side(true).len());
    assert(a[sn].side(true)[l.start.pin as int].id == b[sn].side(true)[l.start.pin as int].id ==> true);
    if a[sn] is Sink {
        assert(a[sn].side(true)[l.start.pin as int].id == b[sn].side(true)[l.start.pin as int].id);
    } else {
        assert(a[sn].side(false)[l.start.pin as int].id == b[sn].side(false)[l.start.pin as int].id);
    }
    assert(a[en].side(true)[l.end.pin as int].id == b[en].side(true)[l.end.pin as int].id);
}

/// A saved rate that the library can hold: a non-zero denominator, and no
/// part at `i64::MIN`.
pub open spec fn rate_ok(num: i64, den: i64) -> bool {
    den != 0 && num != i64::MIN && den != i64::MIN
}

/// Every saved organizer entry has a rate that the library can hold.
pub open spec fn saved_entries_ok(es: Option<Vec<SerializedPinEntry>>) -> bool {
    match es {
        Some(v) => forall|i: int| 0 <= i < v@.len() ==> rate_ok((#[trigger] v@[i]).num, v@[i].den),
        None => true,
    }
}

/// The entry at `i` of saved organizer entries.
pub open spec fn entry_at(es: Option<Vec<SerializedPinEntry>>, i: int) -> SerializedPinEntry {
    es->Some_0@[i]
}

/// The item of a saved organizer entry: its own, else the organizer's.
pub open spec fn entry_item(e: SerializedPinEntry, item: Option<String>) -> Option<String> {
    match e.item {
        Some(x) => Some(x),
        None => item,
    }
}

fn rate_from(r: &SerializedRate) -> (f: Result<FractionalNumber, String>)
    ensures
        f is Ok <==> rate_ok(r.num, r.den),
        (match f {
            Ok(v) => r.den != 0 && qeq(v@, (r.num as int, r.den as int)),
            Err(e) => e@ == "Invalid rate"@ && !(r.den != 0 && r.num != i64::MIN && r.den != i64::MIN),
        }),
{
    match r.to_fraction() {
        Some(v) => Ok(v),
        None => Err("Invalid rate".to_owned()),
    }
}

/// The links saved inside a group, by node and pin indices.
pub open spec fn links_loaded(gl: Seq<GroupedLink>, sl: Seq<SerializedLink>) -> bool {
    &&& gl.len() == sl.len()
    &&& forall|i: int| 0 <= i < sl.len() ==> #[trigger] gl[i] == (GroupedLink {
        start_node_idx: sl[i].start.node,
        start_pin_idx: sl[i].start.pin,
        end_node_idx: sl[i].end.node,
        end_pin_idx: sl[i].end.pin,
    })
}

pub open spec fn entries_len(es: Option<Vec<SerializedPinEntry>>) -> nat {
    match es {
        Some(v) => v@.len(),
        None => 0,
    }
}

/// `g` is the stored form of the saved node `s` inside a group.
pub open spec fn grouped_loaded(g: GroupedNode, s: SerializedNode) -> bool {
    match (g.node_data, s) {
        (GroupedNodeData::Craft { recipe_name, current_rate, num_somersloop, built, .. }, SerializedNode::Craft(c)) => {
            &&& g.relative_pos == c.pos
            &&& recipe_name == c.recipe
            &&& qeq(current_rate@, (c.rate.num as int, c.rate.den as int))
            &&& num_somersloop@ == (c.num_somersloop as int, 1int)
            &&& built == c.built
        },
        (GroupedNodeData::Organizer { kind, item_name, ins, outs }, SerializedNode::Organizer(o)) => {
            &&& g.relative_pos == o.pos
            &&& kind_id(kind) == o.kind
            &&& item_name == o.item
            &&& ins@.len() == entries_len(o.ins)
            &&& outs@.len() == entries_len(o.outs)
        },
        (GroupedNodeData::Sink { ins, .. }, SerializedNode::Sink(k)) => {
            &&& g.relative_pos == k.pos
            &&& ins@.len() == k.ins@.len()
        },
        (GroupedNodeData::Group { name, current_rate, nodes, links, .. }, SerializedNode::Group(gs)) => {
            &&& g.relative_pos == gs.pos
            &&& name == gs.name
            &&& qeq(current_rate@, (gs.rate.num as int, gs.rate.den as int))
            &&& nodes@.len() == gs.nodes@.len()
            &&& links_loaded(links@, gs.links@)
        },
        _ => false,
    }
}

fn load_links(sl: &Vec<SerializedLink>) -> (r: Vec<GroupedLink>)
    ensures
        links_loaded(r@, sl@),
{
    let mut out: Vec<GroupedLink> = Vec::new();
    let mut i: usize = 0;
    while i < sl.len()
        invariant
            i <= sl.len(),
            out@.len() == i,
            forall|q: int| 0 <= q < i ==> #[trigger] out@[q] == (GroupedLink {
                start_node_idx: sl@[q].start.node,
                start_pin_idx: sl@[q].start.pin,
                end_node_idx: sl@[q].end.node,
                end_pin_idx: sl@[q].end.pin,
            }),
        decreases sl.len() - i,
    {
        let l = sl[i];
        out.push(GroupedLink { start_node_idx: l.start.node, start_pin_idx: l.start.pin, end_node_idx: l.end.node, end_pin_idx: l.end.pin });
        i += 1;
    }
    out
}

/// The stored pins of saved organizer entries (an entry without an item
/// takes the organizer's).
fn entry_pins(es: &Option<Vec<SerializedPinEntry>>, item: &Option<String>) -> (r: Result<Vec<GroupedPin>, String>)
    ensures
        r matches Ok(v) ==> v@.len() == entries_len(*es),
        r is Ok <==> saved_entries_ok(*es),
        r matches Err(e) ==> e@ == "Invalid rate"@,
        r matches Ok(v) ==> forall|i: int| 0 <= i < v@.len() ==> {
            let e = #[trigger] entry_at(*es, i);
            &&& v@[i].item_name == entry_item(e, *item)
            &&& qeq(v@[i].base_rate@, (e.num as int, e.den as int))
            &&& v@[i].current_rate == v@[i].base_rate
            &&& v@[i].locked == e.locked
        },
{
    let mut out: Vec<GroupedPin> = Vec::new();
    match es {
        Some(v) => {
            let mut i: usize = 0;
            while i < v.len()
                invariant
                    i <= v@.len(),
                    out@.len() == i,
                    *es == Some(*v),
                    forall|j: int| 0 <= j < i ==> rate_ok((#[trigger] v@[j]).num, v@[j].den),
                    forall|j: int| 0 <= j < i ==> {
                        let e = #[trigger] entry_at(*es, j);
                        &&& out@[j].item_name == entry_item(e, *item)
                        &&& qeq(out@[j].base_rate@, (e.num as int, e.den as int))
                        &&& out@[j].current_rate == out@[j].base_rate
                        &&& out@[j].locked == e.locked
                    },
                decreases v.len() - i,
            {
                let e = &v[i];
                let base = match rate_from(&SerializedRate { num: e.num, den: e.den }) {
                    Ok(b) => b,
                    Err(err) => {
                        proof {
                            assert(!rate_ok(v@[i as int].num, v@[i as int].den));
                        }
                        return Err(err);
                    },
                };
                let name = match &e.item {
                    Some(x) => Some(x.clone()),
                    None => crate::node_edit::clone_item(item),
                };
                out.push(GroupedPin { item_name: name, base_rate: base, current_rate: base, locked: e.locked });
                i += 1;
            }
        },
        None => {},
    }
    Ok(out)
}

/// Stored pins for the items of a recipe at a node rate.
fn recipe_grouped_pins(items: &Vec<crate::game_data::CountedItem>, rate: FractionalNumber) -> (r: Option<Vec<GroupedPin>>)
    ensures
        r matches Some(v) ==> v@.len() == items@.len(),
        r is Some <==> forall|i: int| 0 <= i < items@.len() ==> mul_fits((#[trigger] items@[i]).quantity@, rate@),
        r matches Some(v) ==> forall|i: int| 0 <= i < items@.len() ==> {
            &&& (#[trigger] v@[i]).item_name == Some(items@[i].item_name)
            &&& v@[i].base_rate == items@[i].quantity
            &&& qeq(v@[i].current_rate@, qmul(items@[i].quantity@, rate@))
            &&& !v@[i].locked
        },
{
    let mut out: Vec<GroupedPin> = Vec::new();
    let mut i: usize = 0;
    while i < items.len()
        invariant
            i <= items@.len(),
            out@.len() == i,
            forall|j: int| 0 <= j < i ==> mul_fits((#[trigger] items@[j]).quantity@, rate@),
            forall|j: int| 0 <= j < i ==> {
                &&& (#[trigger] out@[j]).item_name == Some(items@[j].item_name)
                &&& out@[j].base_rate == items@[j].quantity
                &&& qeq(out@[j].current_rate@, qmul(items@[j].quantity@, rate@))
                &&& !out@[j].locked
            },
        decreases items.len() - i,
    {
        let it = &items[i];
        let cur = match it.quantity.checked_mul(rate) {
            Some(x) => x,
            None => {
                return None;
            },
        };
        out.push(GroupedPin { item_name: Some(it.item_name.clone()), base_rate: it.quantity, current_rate: cur, locked: false });
        i += 1;
    }
    Some(out)
}

/// The pins of the recipe named `name` (the first of that name), if the game
/// data knows it, can be scaled to `rate` in 64-bit integers.
pub open spec fn recipe_fits(gd: Option<&GameData>, name: Seq<char>, rate: (int, int)) -> bool {
    match gd {
        Some(g) => forall|i: int|
            0 <= i < g.recipes@.len() && (#[trigger] g.recipes@[i]).name@ == name && (forall|j: int| 0 <= j < i ==> g.recipes@[j].name@ != name)
                ==> (forall|k: int| 0 <= k < g.recipes@[i].ins@.len() ==> mul_fits((#[trigger] g.recipes@[i].ins@[k]).quantity@, rate))
                && (forall|k: int| 0 <= k < g.recipes@[i].outs@.len() ==> mul_fits((#[trigger] g.recipes@[i].outs@[k]).quantity@, rate)),
        None => true,
    }
}

/// The number of pins that `gd` gives a crafting node for the recipe `name`:
/// those of the first recipe of that name, none where there is no such recipe.
pub open spec fn recipe_pin_count(gd: Option<&GameData>, name: Seq<char>) -> int {
    match gd {
        Some(g) => if exists|i: int| 0 <= i < g.recipes@.len() && #[trigger] g.recipes@[i].name@ == name {
            let i = choose|i: int|
                0 <= i < g.recipes@.len() && #[trigger] g.recipes@[i].name@ == name && forall|j: int| 0 <= j < i ==> g.recipes@[j].name@ != name;
            (g.recipes@[i].ins@.len() + g.recipes@[i].outs@.len()) as int
        } else {
            0int
        },
        None => 0int,
    }
}

/// The first recipe named `name` is the one `recipe_pin_count` reads.
proof fn lemma_first_recipe(recipes: Seq<crate::game_data::Recipe>, name: Seq<char>, k: int)
    requires
        0 <= k < recipes.len(),
        recipes[k].name@ == name,
        forall|j: int| 0 <= j < k ==> (#[trigger] recipes[j]).name@ != name,
    ensures
        ({
            let i = choose|i: int|
                0 <= i < recipes.len() && #[trigger] recipes[i].name@ == name && forall|j: int| 0 <= j < i ==> recipes[j].name@ != name;
            i == k
        }),
{
    let i = choose|i: int|
        0 <= i < recipes.len() && #[trigger] recipes[i].name@ == name && forall|j: int| 0 <= j < i ==> recipes[j].name@ != name;
    assert(0 <= i < recipes.len() && recipes[i].name@ == name && forall|j: int| 0 <= j < i ==> recipes[j].name@ != name);
    if i < k {
        assert(recipes[i].name@ != name);
    } else if k < i {
        assert(recipes[k].name@ != name);
    }
}

/// The inputs (`input`) or outputs of the first recipe named `name` in `gd`;
/// none where there is no such recipe.
pub open spec fn recipe_side_count(gd: Option<&GameData>, name: Seq<char>, input: bool) -> int {
    match gd {
        Some(g) => if exists|i: int| 0 <= i < g.recipes@.len() && #[trigger] g.recipes@[i].name@ == name {
            let i = choose|i: int|
                0 <= i < g.recipes@.len() && #[trigger] g.recipes@[i].name@ == name && forall|j: int| 0 <= j < i ==> g.recipes@[j].name@ != name;
            if input { g.recipes@[i].ins@.len() as int } else { g.recipes@[i].outs@.len() as int }
        } else {
            0int
        },
        None => 0int,
    }
}

/// How many pins a link can reach on the side `input` of the node loaded
/// from `s` (other than a group): a sink's inputs either way.
pub open spec fn side_count(s: SerializedNode, gd: Option<&GameData>, input: bool) -> int {
    match s {
        SerializedNode::Craft(c) => recipe_side_count(gd, c.recipe@, input),
        SerializedNode::Sink(k) => k.ins@.len() as int,
        SerializedNode::Organizer(o) => if input { entries_len(o.ins) as int } else { entries_len(o.outs) as int },
        SerializedNode::Group(_) => 0int,
    }
}

/// A saved link between pins that the loaded nodes have.
pub open spec fn link_loadable(l: SerializedLink, nodes: Seq<SerializedNode>, gd: Option<&GameData>) -> bool {
    &&& l.start.node < nodes.len()
    &&& l.end.node < nodes.len()
    &&& l.start.pin < side_count(nodes[l.start.node as int], gd, false)
    &&& l.end.pin < side_count(nodes[l.end.node as int], gd, true)
}

/// Keeping every pin in place keeps the side lengths.
proof fn lemma_sides_kept(before: Seq<AppNode>, after: Seq<AppNode>, file_nodes: Seq<SerializedNode>, gd: Option<&GameData>)
    requires
        same_pin_ids(before, after),
        forall|n: int| 0 <= n < before.len() ==> (#[trigger] after[n]).same_settings(before[n]),
        before.len() == file_nodes.len(),
        forall|i: int, b: bool| 0 <= i < file_nodes.len() ==> #[trigger] named_side(before[i], b).len() == side_count(file_nodes[i], gd, b),
    ensures
        forall|i: int, b: bool| 0 <= i < file_nodes.len() ==> #[trigger] named_side(after[i], b).len() == side_count(file_nodes[i], gd, b),
{
    assert forall|i: int, b: bool| 0 <= i < file_nodes.len() implies #[trigger] named_side(after[i], b).len() == side_count(file_nodes[i], gd, b) by {
        assert(before[i].side(b).len() == after[i].side(b).len());
        assert(before[i].side(true).len() == after[i].side(true).len());
        assert(named_side(before[i], b).len() == side_count(file_nodes[i], gd, b));
        assert(after[i].same_settings(before[i]));
    }
}

/// Where a pin is, a search finds it (at its first place).
pub proof fn lemma_pin_loc_some(nodes: Seq<AppNode>, n: int, input: bool, j: int)
    requires
        0 <= n < nodes.len(),
        0 <= j < nodes[n].side(input).len(),
    ensures
        pin_loc(nodes, nodes[n].side(input)[j].id) is Some,
    decreases n, (if input { 0int } else { 1int }), j,
{
    let pid = nodes[n].side(input)[j].id;
    if exists|m: int| 0 <= m < n && node_has_pin(#[trigger] nodes[m], pid) {
        let m = choose|m: int| 0 <= m < n && node_has_pin(#[trigger] nodes[m], pid);
        if side_has_pin(nodes[m], true, pid) {
            let j2 = choose|j2: int| 0 <= j2 < nodes[m].side(true).len() && (#[trigger] nodes[m].side(true)[j2]).id == pid;
            lemma_pin_loc_some(nodes, m, true, j2);
        } else {
            let j2 = choose|j2: int| 0 <= j2 < nodes[m].side(false).len() && (#[trigger] nodes[m].side(false)[j2]).id == pid;
            lemma_pin_loc_some(nodes, m, false, j2);
        }
    } else if !input && side_has_pin(nodes[n], true, pid) {
        let j2 = choose|j2: int| 0 <= j2 < nodes[n].side(true).len() && (#[trigger] nodes[n].side(true)[j2]).id == pid;
        lemma_pin_loc_some(nodes, n, true, j2);
    } else if exists|j2: int| 0 <= j2 < j && (#[trigger] nodes[n].side(input)[j2]).id == pid {
        let j2 = choose|j2: int| 0 <= j2 < j && (#[trigger] nodes[n].side(input)[j2]).id == pid;
        lemma_pin_loc_some(nodes, n, input, j2);
    } else {
        assert(is_pin_loc(nodes, pid, n, input, j));
        crate::production_app::lemma_pin_loc_unique(nodes, pid, n, input, j);
    }
}

/// The ids that loading the saved node (other than a group) takes: one for
/// the node and one per pin.
pub open spec fn node_ids_needed(s: SerializedNode, gd: Option<&GameData>) -> int {
    match s {
        SerializedNode::Craft(c) => 1 + recipe_pin_count(gd, c.recipe@),
        SerializedNode::Sink(k) => 1 + k.ins@.len() as int,
        SerializedNode::Organizer(o) => 1 + entries_len(o.ins) as int + entries_len(o.outs) as int,
        SerializedNode::Group(_) => 0int,
    }
}

/// The ids that loading the saved nodes takes.
pub open spec fn ids_total(nodes: Seq<SerializedNode>, gd: Option<&GameData>) -> int
    decreases nodes.len(),
{
    if nodes.len() == 0 {
        0
    } else {
        ids_total(nodes.drop_last(), gd) + node_ids_needed(nodes.last(), gd)
    }
}

proof fn lemma_ids_total_prefix(nodes: Seq<SerializedNode>, gd: Option<&GameData>, k: int)
    requires
        0 <= k <= nodes.len(),
    ensures
        ids_total(nodes.subrange(0, k), gd) <= ids_total(nodes, gd),
    decreases nodes.len() - k,
{
    if k < nodes.len() {
        lemma_ids_total_prefix(nodes, gd, k + 1);
        assert(nodes.subrange(0, k + 1).drop_last() =~= nodes.subrange(0, k));
        let n = nodes[k];
        assert(node_ids_needed(n, gd) >= 0) by {
            match n {
                SerializedNode::Craft(c) => {
                    assert(recipe_pin_count(gd, c.recipe@) >= 0);
                },
                _ => {},
            }
        }
    } else {
        assert(nodes.subrange(0, k) =~= nodes);
    }
}

/// A file that loads for sure: no group nodes; each node's rates can be
/// held, its kind is known and a crafting node's recipe pins scale to its
/// rate; each link joins pins that the loaded nodes have; and the ids that
/// the nodes and links take fit in 64-bit integers.
pub open spec fn file_loadable(file: ProductionChainFile, gd: Option<&GameData>) -> bool {
    &&& forall|i: int| 0 <= i < file.nodes@.len() ==> !(#[trigger] file.nodes@[i] is Group) && grouped_node_ok(file.nodes@[i], gd)
    &&& forall|t: int| 0 <= t < file.links@.len() ==> link_loadable(#[trigger] file.links@[t], file.nodes@, gd)
    &&& 1 + ids_total(file.nodes@, gd) + file.links@.len() < u64::MAX
}

/// A saved node other than a group can be stored inside a group: its rates
/// can be held, its kind is known, and a crafting node's recipe pins scale to
/// its rate in 64-bit integers.
pub open spec fn grouped_node_ok(s: SerializedNode, gd: Option<&GameData>) -> bool {
    match s {
        SerializedNode::Craft(c) => rate_ok(c.rate.num, c.rate.den) && recipe_fits(
            gd,
            c.recipe@,
            qcanon((c.rate.num as int, c.rate.den as int)),
        ),
        SerializedNode::Organizer(o) => o.kind <= 5 && saved_entries_ok(o.ins) && saved_entries_ok(o.outs),
        SerializedNode::Sink(k) => forall|i: int| 0 <= i < k.ins@.len() ==> rate_ok((#[trigger] k.ins@[i]).num, k.ins@[i].den),
        SerializedNode::Group(_) => true,
    }
}

/// The stored form of a saved node inside a group, and its rate at group rate one.
pub fn load_single_grouped_node(s: &SerializedNode, game_data: Option<&GameData>) -> (r: Result<(GroupedNode, FractionalNumber), String>)
    ensures
        r matches Ok((g, _)) ==> grouped_loaded(g, *s),
        !(*s is Group) ==> (r is Ok <==> grouped_node_ok(*s, game_data)),
        *s matches SerializedNode::Group(gs) ==> (r matches Err(e) ==> {
            ||| !rate_ok(gs.rate.num, gs.rate.den)
            ||| e@ == "Arithmetic overflow while propagating rates"@ && exists|nested: Seq<GroupedNode>|
                nested.len() == gs.nodes@.len() && (forall|i: int| 0 <= i < nested.len() ==> grouped_loaded(#[trigger] nested[i], gs.nodes@[i]))
                    && !(#[trigger] grouped_totals_fit(nested) && net_pins_fit(
                    canon_totals(grouped_totals(nested, true)),
                    canon_totals(grouped_totals(nested, false)),
                    0,
                ))
            ||| exists|i: int| 0 <= i < gs.nodes@.len() && (#[trigger] gs.nodes@[i] is Group || !grouped_node_ok(gs.nodes@[i], game_data))
        }),
    decreases s,
{
    match s {
        SerializedNode::Craft(c) => {
            let rate = rate_from(&c.rate)?;
            proof {
                use_type_invariant(&rate);
                lemma_qcanon(rate@, (c.rate.num as int, c.rate.den as int));
            }
            let mut building_name = String::new();
            let mut recipe_power: u64 = 0;
            let mut power_exponent: u64 = crate::node::F64_ONE_BITS;
            let mut somersloop_power_exponent: u64 = crate::node::F64_ONE_BITS;
            let mut somersloop_mult = FractionalNumber::one();
            let mut variable_power = false;
            let mut ins: Vec<GroupedPin> = Vec::new();
            let mut outs: Vec<GroupedPin> = Vec::new();
            match game_data {
                Some(gd) => match gd.find_recipe(&c.recipe) {
                    Some(k) => {
                        let recipe = &gd.recipes[k];
                        building_name = recipe.building_name.clone();
                        recipe_power = recipe.power;
                        match &recipe.building {
                            Some(b) => {
                                power_exponent = b.power_exponent;
                                somersloop_power_exponent = b.somersloop_power_exponent;
                                somersloop_mult = b.somersloop_mult;
                                variable_power = b.variable_power;
                                if recipe_power == 0 || recipe_power == 0x8000_0000_0000_0000u64 {
                                    recipe_power = b.power;
                                }
                            },
                            None => {},
                        }
                        ins = match recipe_grouped_pins(&recipe.ins, rate) {
                            Some(v) => v,
                            None => {
                                return Err("Arithmetic overflow while propagating rates".to_owned());
                            },
                        };
                        outs = match recipe_grouped_pins(&recipe.outs, rate) {
                            Some(v) => v,
                            None => {
                                return Err("Arithmetic overflow while propagating rates".to_owned());
                            },
                        };
                    },
                    None => {},
                },
                None => {},
            }
            let data = GroupedNodeData::Craft {
                recipe_name: c.recipe.clone(),
                current_rate: rate,
                num_somersloop: FractionalNumber::from_integer(c.num_somersloop as i64),
                built: c.built,
                building_name,
                recipe_power,
                power_exponent,
                somersloop_power_exponent,
                somersloop_mult,
                variable_power,
                ins,
                outs,
            };
            Ok((GroupedNode { node_data: data, relative_pos: c.pos }, rate))
        },
        SerializedNode::Organizer(o) => {
            let kind = match NodeKind::from_kind_id(o.kind) {
                Some(k) => k,
                None => {
                    return Err(concat("Invalid node kind: ".to_owned(), u64_to_string(o.kind as u64).as_str()));
                },
            };
            let ins = entry_pins(&o.ins, &o.item)?;
            let outs = entry_pins(&o.outs, &o.item)?;
            let data = GroupedNodeData::Organizer { kind, item_name: crate::node_edit::clone_item(&o.item), ins, outs };
            Ok((GroupedNode { node_data: data, relative_pos: o.pos }, FractionalNumber::one()))
        },
        SerializedNode::Sink(k) => {
            let mut ins: Vec<GroupedPin> = Vec::new();
            let mut i: usize = 0;
            while i < k.ins.len()
                invariant
                    i <= k.ins@.len(),
                    ins@.len() == i,
                    *s == SerializedNode::Sink(*k),
                    forall|j: int| 0 <= j < i ==> rate_ok((#[trigger] k.ins@[j]).num, k.ins@[j].den),
                decreases k.ins.len() - i,
            {
                let e = &k.ins[i];
                let rate = match rate_from(&SerializedRate { num: e.num, den: e.den }) {
                    Ok(x) => x,
                    Err(err) => {
                        proof {
                            assert(!rate_ok(k.ins@[i as int].num, k.ins@[i as int].den));
                            let kk = s->Sink_0;
                            assert(kk == *k);
                            assert(!rate_ok(kk.ins@[i as int].num, kk.ins@[i as int].den));
                        }
                        return Err(err);
                    },
                };
                ins.push(GroupedPin { item_name: Some(e.item.clone()), base_rate: rate, current_rate: rate, locked: e.locked });
                i += 1;
            }
            let item_name = if ins.len() > 0 { crate::node_edit::clone_item(&ins[0].item_name) } else { None };
            let data = GroupedNodeData::Sink { item_name, ins };
            Ok((GroupedNode { node_data: data, relative_pos: k.pos }, FractionalNumber::one()))
        },
        SerializedNode::Group(gs) => {
            let mut nested: Vec<GroupedNode> = Vec::new();
            let mut i: usize = 0;
            while i < gs.nodes.len()
                invariant
                    i <= gs.nodes@.len(),
                    nested@.len() == i,
                    *s == SerializedNode::Group(*gs),
                    forall|j: int| 0 <= j < i ==> grouped_loaded(#[trigger] nested@[j], gs.nodes@[j]),
                decreases gs.nodes.len() - i,
            {
                proof {
                    assert(s->Group_0 == *gs);
                    assert(decreases_to!(*s => s->Group_0));
                    assert(decreases_to!(*gs => gs.nodes));
                    assert(decreases_to!(gs.nodes => gs.nodes@));
                    assert(decreases_to!(gs.nodes@ => gs.nodes@[i as int]));
                    assert(decreases_to!(*s => gs.nodes@[i as int]));
                }
                let (g, _) = load_single_grouped_node(&gs.nodes[i], game_data)?;
                nested.push(g);
                i += 1;
            }
            let links = load_links(&gs.links);
            let rate = rate_from(&gs.rate)?;
            let mut tmp = GroupNode::new(0);
            tmp.grouped_nodes = nested;
            let ghost nv = tmp.grouped_nodes@;
            if tmp.create_pins_from_grouped_nodes(0).is_none() {
                proof {
                    assert(nv.len() == gs.nodes@.len() && forall|i: int| 0 <= i < nv.len() ==> grouped_loaded(#[trigger] nv[i], gs.nodes@[i]));
                    assert(!(grouped_totals_fit(nv) && net_pins_fit(canon_totals(grouped_totals(nv, true)), canon_totals(grouped_totals(nv, false)), 0)));
                    assert(exists|nested: Seq<GroupedNode>|
                        nested.len() == gs.nodes@.len() && (forall|i: int| 0 <= i < nested.len() ==> grouped_loaded(#[trigger] nested[i], gs.nodes@[i]))
                            && !(#[trigger] grouped_totals_fit(nested) && net_pins_fit(
                            canon_totals(grouped_totals(nested, true)),
                            canon_totals(grouped_totals(nested, false)),
                            0,
                        )));
                }
                return Err("Arithmetic overflow while propagating rates".to_owned());
            }
            let ins = net_grouped_pins(&tmp.base.ins);
            let outs = net_grouped_pins(&tmp.base.outs);
            let mut nodes: Vec<GroupedNode> = Vec::new();
            std::mem::swap(&mut nodes, &mut tmp.grouped_nodes);
            let data = GroupedNodeData::Group { name: gs.name.clone(), current_rate: rate, nodes, links, ins, outs };
            Ok((GroupedNode { node_data: data, relative_pos: gs.pos }, rate))
        },
    }
}

/// Stored pins with the item and net rate of the given pins, unlocked.
fn net_grouped_pins(ps: &Vec<Pin>) -> (r: Vec<GroupedPin>)
    ensures
        r@.len() == ps@.len(),
{
    let mut out: Vec<GroupedPin> = Vec::new();
    let mut i: usize = 0;
    while i < ps.len()
        invariant
            i <= ps@.len(),
            out@.len() == i,
        decreases ps.len() - i,
    {
        let p = &ps[i];
        out.push(GroupedPin { item_name: crate::node_edit::clone_item(&p.item_name), base_rate: p.base_rate, current_rate: p.current_rate, locked: false });
        i += 1;
    }
    out
}


/// `x` is the node loaded from the saved node `s` (its kind, position and
/// settings; pins aside).
pub open spec fn node_loaded(x: AppNode, s: SerializedNode) -> bool {
    match (x, s) {
        (AppNode::Craft(c), SerializedNode::Craft(sc)) => {
            &&& c.base.kind == NodeKind::Craft
            &&& c.base.position == sc.pos
            &&& c.recipe_name == sc.recipe
            &&& qeq(c.current_rate@, (sc.rate.num as int, sc.rate.den as int))
            &&& c.num_somersloop@ == (sc.num_somersloop as int, 1int)
            &&& c.built == sc.built
        },
        (AppNode::Sink(k), SerializedNode::Sink(sk)) => {
            &&& k.base.kind == NodeKind::Sink
            &&& k.base.position == sk.pos
            &&& k.item_name is None
        },
        (AppNode::Organizer(o), SerializedNode::Organizer(so)) => {
            &&& kind_id(o.base.kind) == so.kind
            &&& o.base.position == so.pos
            &&& o.item_name == so.item
        },
        (AppNode::Group(g), SerializedNode::Group(sg)) => {
            &&& g.base.kind == NodeKind::Group
            &&& g.base.position == sg.pos
            &&& g.name == sg.name
            &&& qeq(g.current_rate@, (sg.rate.num as int, sg.rate.den as int))
            &&& g.grouped_nodes@.len() == sg.nodes@.len()
            &&& links_loaded(g.grouped_links@, sg.links@)
        },
        _ => false,
    }
}

pub proof fn lemma_loaded_settings(a: AppNode, b: AppNode, s: SerializedNode)
    requires
        b.same_settings(a),
        node_loaded(a, s),
    ensures
        node_loaded(b, s),
{
}

impl ProductionApp {
    /// Pins for saved organizer entries, with fresh ids.
    fn organizer_pins(&mut self, es: &Option<Vec<SerializedPinEntry>>, item: &Option<String>, dir: PinDirection, node_id: u64) -> (r: Result<Vec<Pin>, String>)
        ensures
            final(self).nodes@ == old(self).nodes@,
            final(self).links@ == old(self).links@,
            r is Ok <==> saved_entries_ok(*es) && old(self).next_id + entries_len(*es) <= u64::MAX,
            r matches Err(e) ==> e@ == "Invalid rate"@ || e@ == "Out of ids"@,
            r matches Ok(v) ==> v@.len() == entries_len(*es) && final(self).next_id == old(self).next_id + v@.len()
                && forall|i: int| 0 <= i < v@.len() ==> {
                    let e = #[trigger] entry_at(*es, i);
                    &&& v@[i].id == old(self).next_id + i
                    &&& v@[i].direction == dir
                    &&& v@[i].node_id == node_id
                    &&& v@[i].item_name == entry_item(e, *item)
                    &&& qeq(v@[i].base_rate@, (e.num as int, e.den as int))
                    &&& v@[i].current_rate == v@[i].base_rate
                    &&& v@[i].locked == e.locked
                    &&& !v@[i].error && v@[i].link_id is None
                },
    {
        let mut out: Vec<Pin> = Vec::new();
        match es {
            Some(v) => {
                let mut i: usize = 0;
                while i < v.len()
                    invariant
                        i <= v@.len(),
                        self.nodes@ == old(self).nodes@,
                        self.links@ == old(self).links@,
                        *es == Some(*v),
                        out@.len() == i,
                        self.next_id == old(self).next_id + i,
                        forall|j: int| 0 <= j < i ==> rate_ok((#[trigger] v@[j]).num, v@[j].den),
                        forall|j: int| 0 <= j < i ==> {
                            let e = #[trigger] entry_at(*es, j);
                            &&& out@[j].id == old(self).next_id + j
                            &&& out@[j].direction == dir
                            &&& out@[j].node_id == node_id
                            &&& out@[j].item_name == entry_item(e, *item)
                            &&& qeq(out@[j].base_rate@, (e.num as int, e.den as int))
                            &&& out@[j].current_rate == out@[j].base_rate
                            &&& out@[j].locked == e.locked
                            &&& !out@[j].error && out@[j].link_id is None
                        },
                    decreases v.len() - i,
                {
                    let e = &v[i];
                    let base = match rate_from(&SerializedRate { num: e.num, den: e.den }) {
                        Ok(b) => b,
                        Err(err) => {
                            proof {
                                assert(!rate_ok(v@[i as int].num, v@[i as int].den));
                            }
                            return Err(err);
                        },
                    };
                    if self.next_id == u64::MAX {
                        return Err("Out of ids".to_owned());
                    }
                    let pid = self.get_next_id();
                    let name = match &e.item {
                        Some(x) => Some(x.clone()),
                        None => crate::node_edit::clone_item(item),
                    };
                    let mut p = Pin::new(pid, dir, node_id, name, e.locked, base);
                    p.current_rate = base;
                    out.push(p);
                    i += 1;
                }
            },
            None => {},
        }
        Ok(out)
    }

    /// Adds the node saved as `s`, with a fresh id (and fresh pin ids).
    #[verifier::spinoff_prover]
    #[verifier::rlimit(30)]
    fn load_node(&mut self, s: &SerializedNode, game_data: Option<&GameData>) -> (r: Result<(), String>)
        ensures
            final(self).links@ == old(self).links@,
            r is Ok ==> final(self).nodes@.len() == old(self).nodes@.len() + 1 && final(self).nodes@.drop_last() == old(self).nodes@
                && final(self).nodes@.last().id() == old(self).next_id && node_loaded(final(self).nodes@.last(), *s),
            r is Err ==> final(self).nodes@ == old(self).nodes@,
            *s matches SerializedNode::Organizer(o) ==> (o.kind > 5 ==> (r matches Err(e) && e@ == "Invalid node kind: "@ + int_to_decimal(o.kind as int))),
            !(*s is Group) && grouped_node_ok(*s, game_data) && old(self).next_id + node_ids_needed(*s, game_data) < u64::MAX ==> r is Ok
                && final(self).next_id == old(self).next_id + node_ids_needed(*s, game_data),
            !(*s is Group) && r is Ok ==> named_side(final(self).nodes@.last(), true).len() == side_count(*s, game_data, true)
                && named_side(final(self).nodes@.last(), false).len() == side_count(*s, game_data, false),
    {
        let ghost before = self.nodes@;
        match s {
            SerializedNode::Craft(c) => {
                if self.next_id == u64::MAX {
                    return Err("Out of ids".to_owned());
                }
                let node_id = self.get_next_id();
                let mut node = CraftNode::new(node_id, c.recipe.clone());
                node.base.position = c.pos;
                let rate = rate_from(&c.rate)?;
                proof {
                    use_type_invariant(&rate);
                    lemma_qcanon(rate@, (c.rate.num as int, c.rate.den as int));
                }
                node.built = c.built;
                node.num_somersloop = FractionalNumber::from_integer(c.num_somersloop as i64);
                let ghost id_after = self.next_id;
                match game_data {
                    Some(gd) => match gd.find_recipe(&c.recipe) {
                        Some(k) => {
                            proof {
                                lemma_first_recipe(gd.recipes@, c.recipe@, k as int);
                            }
                            let recipe = &gd.recipes[k];
                            node.building_name = recipe.building_name.clone();
                            node.recipe_power = recipe.power;
                            match &recipe.building {
                                Some(b) => {
                                    node.power_exponent = b.power_exponent;
                                    node.somersloop_power_exponent = b.somersloop_power_exponent;
                                    node.somersloop_mult = b.somersloop_mult;
                                    node.variable_power = b.variable_power;
                                    if node.recipe_power == 0 || node.recipe_power == 0x8000_0000_0000_0000u64 {
                                        node.recipe_power = b.power;
                                    }
                                },
                                None => {},
                            }
                            let need = (recipe.ins.len() as u128) + (recipe.outs.len() as u128);
                            if (self.next_id as u128) + need >= 0xffff_ffff_ffff_ffffu128 {
                                return Err("Out of ids".to_owned());
                            }
                            node.base.ins = self.recipe_pins(&recipe.ins, PinDirection::Input, node_id);
                            node.base.outs = self.recipe_pins(&recipe.outs, PinDirection::Output, node_id);
                            proof {
                                if grouped_node_ok(*s, game_data) {
                                    assert(recipe_fits(game_data, c.recipe@, rate@));
                                    assert(gd.recipes@[k as int].name@ == c.recipe@);
                                    assert forall|q: int| 0 <= q < node.base.ins@.len() implies mul_fits(#[trigger] node.base.ins@[q].base_rate@, rate@) by {
                                        assert(mul_fits(gd.recipes@[k as int].ins@[q].quantity@, rate@));
                                    }
                                    assert forall|q: int| 0 <= q < node.base.outs@.len() implies mul_fits(#[trigger] node.base.outs@[q].base_rate@, rate@) by {
                                        assert(mul_fits(gd.recipes@[k as int].outs@[q].quantity@, rate@));
                                    }
                                }
                                assert(self.next_id == id_after + recipe_pin_count(game_data, c.recipe@));
                                assert(node.base.ins@.len() == recipe_side_count(game_data, c.recipe@, true));
                                assert(node.base.outs@.len() == recipe_side_count(game_data, c.recipe@, false));
                            }
                        },
                        None => {
                            proof {
                                assert(!exists|i: int| 0 <= i < gd.recipes@.len() && #[trigger] gd.recipes@[i].name@ == c.recipe@);
                            }
                        },
                    },
                    None => {},
                }
                if !node.rate_fits(rate) {
                    return Err("Arithmetic overflow while propagating rates".to_owned());
                }
                node.update_rate(rate);
                self.nodes.push(AppNode::Craft(node));
            },
            SerializedNode::Sink(k) => {
                if self.next_id == u64::MAX {
                    return Err("Out of ids".to_owned());
                }
                let node_id = self.get_next_id();
                let mut node = SinkNode::new(node_id, None);
                node.base.position = k.pos;
                let mut i: usize = 0;
                while i < k.ins.len()
                    invariant
                        i <= k.ins@.len(),
                        before == old(self).nodes@,
                        *s == SerializedNode::Sink(*k),
                        self.nodes@ == before,
                        self.links@ == old(self).links@,
                        node.base.id == node_id,
                        node.base.kind == NodeKind::Sink,
                        node.base.position == k.pos,
                        node.item_name is None,
                        node.base.outs@.len() == 0,
                        node.base.ins@.len() == i,
                        self.next_id == old(self).next_id + 1 + i,
                    decreases k.ins.len() - i,
                {
                    let e = &k.ins[i];
                    proof {
                        assert(*s == SerializedNode::Sink(*k));
                        assert(s->Sink_0 == *k);
                    }
                    let rate = rate_from(&SerializedRate { num: e.num, den: e.den })?;
                    if self.next_id == u64::MAX {
                        return Err("Out of ids".to_owned());
                    }
                    let pid = self.get_next_id();
                    let mut p = Pin::new(pid, PinDirection::Input, node_id, Some(e.item.clone()), e.locked, rate);
                    p.current_rate = rate;
                    node.base.ins.push(p);
                    i += 1;
                }
                self.nodes.push(AppNode::Sink(node));
            },
            SerializedNode::Organizer(o) => {
                let kind = match NodeKind::from_kind_id(o.kind) {
                    Some(k) => k,
                    None => {
                        return Err(concat("Invalid node kind: ".to_owned(), u64_to_string(o.kind as u64).as_str()));
                    },
                };
                if self.next_id == u64::MAX {
                    return Err("Out of ids".to_owned());
                }
                let node_id = self.get_next_id();
                let mut node = OrganizerNode::new(node_id, kind, crate::node_edit::clone_item(&o.item));
                node.base.position = o.pos;
                node.base.ins = self.organizer_pins(&o.ins, &o.item, PinDirection::Input, node_id)?;
                node.base.outs = self.organizer_pins(&o.outs, &o.item, PinDirection::Output, node_id)?;
                self.nodes.push(AppNode::Organizer(node));
            },
            SerializedNode::Group(sg) => {
                if self.next_id == u64::MAX {
                    return Err("Out of ids".to_owned());
                }
                let node_id = self.get_next_id();
                let mut group = GroupNode::new(node_id);
                group.base.position = sg.pos;
                group.name = sg.name.clone();
                let rate = rate_from(&sg.rate)?;
                group.current_rate = rate;
                let mut nested: Vec<GroupedNode> = Vec::new();
                let mut rates: Vec<FractionalNumber> = Vec::new();
                let mut i: usize = 0;
                while i < sg.nodes.len()
                    invariant
                        i <= sg.nodes@.len(),
                        nested@.len() == i,
                        before == old(self).nodes@,
                        *s == SerializedNode::Group(*sg),
                        self.nodes@ == before,
                        self.links@ == old(self).links@,
                        group.base.id == node_id,
                        group.base.kind == NodeKind::Group,
                        group.base.position == sg.pos,
                        group.name == sg.name,
                        group.current_rate == rate,
                        qeq(rate@, (sg.rate.num as int, sg.rate.den as int)),
                    decreases sg.nodes.len() - i,
                {
                    let (g, b) = load_single_grouped_node(&sg.nodes[i], game_data)?;
                    let base = if rate.numerator() != 0 {
                        match b.checked_div(rate) {
                            Some(x) => x,
                            None => {
                                return Err("Arithmetic overflow while propagating rates".to_owned());
                            },
                        }
                    } else {
                        b
                    };
                    nested.push(g);
                    rates.push(base);
                    i += 1;
                }
                group.grouped_nodes = nested;
                group.nodes_base_rate = rates;
                group.grouped_links = load_links(&sg.links);
                let first = self.next_id;
                let next = match group.create_pins_from_grouped_nodes(first) {
                    Some(n) => n,
                    None => {
                        return Err("Arithmetic overflow while propagating rates".to_owned());
                    },
                };
                if rate.numerator() != 0 {
                    let mut j: usize = 0;
                    while j < group.base.ins.len()
                        invariant
                            j <= group.base.ins@.len(),
                            self.nodes@ == before,
                            self.links@ == old(self).links@,
                            before == old(self).nodes@,
                            *s == SerializedNode::Group(*sg),
                            group.base.id == node_id,
                            group.base.kind == NodeKind::Group,
                            group.base.position == sg.pos,
                            group.name == sg.name,
                            group.current_rate == rate,
                            qeq(rate@, (sg.rate.num as int, sg.rate.den as int)),
                            group.grouped_nodes@.len() == sg.nodes@.len(),
                            links_loaded(group.grouped_links@, sg.links@),
                        decreases group.base.ins.len() - j,
                    {
                        match group.base.ins[j].current_rate.checked_div(rate) {
                            Some(x) => {
                                group.base.ins[j].base_rate = x;
                            },
                            None => {
                                return Err("Arithmetic overflow while propagating rates".to_owned());
                            },
                        }
                        j += 1;
                    }
                    let mut j: usize = 0;
                    while j < group.base.outs.len()
                        invariant
                            j <= group.base.outs@.len(),
                            self.nodes@ == before,
                            self.links@ == old(self).links@,
                            before == old(self).nodes@,
                            *s == SerializedNode::Group(*sg),
                            group.base.id == node_id,
                            group.base.kind == NodeKind::Group,
                            group.base.position == sg.pos,
                            group.name == sg.name,
                            group.current_rate == rate,
                            qeq(rate@, (sg.rate.num as int, sg.rate.den as int)),
                            group.grouped_nodes@.len() == sg.nodes@.len(),
                            links_loaded(group.grouped_links@, sg.links@),
                        decreases group.base.outs.len() - j,
                    {
                        match group.base.outs[j].current_rate.checked_div(rate) {
                            Some(x) => {
                                group.base.outs[j].base_rate = x;
                            },
                            None => {
                                return Err("Arithmetic overflow while propagating rates".to_owned());
                            },
                        }
                        j += 1;
                    }
                }
                if !group.update_details() {
                    return Err("Arithmetic overflow while propagating rates".to_owned());
                }
                let mut j: usize = 0;
                while j < group.base.ins.len()
                    invariant
                        j <= group.base.ins@.len(),
                        self.nodes@ == before,
                        self.links@ == old(self).links@,
                        before == old(self).nodes@,
                        *s == SerializedNode::Group(*sg),
                        group.base.id == node_id,
                        group.base.kind == NodeKind::Group,
                        group.base.position == sg.pos,
                        group.name == sg.name,
                        group.current_rate == rate,
                        qeq(rate@, (sg.rate.num as int, sg.rate.den as int)),
                        group.grouped_nodes@.len() == sg.nodes@.len(),
                        links_loaded(group.grouped_links@, sg.links@),
                    decreases group.base.ins.len() - j,
                {
                    group.base.ins[j].locked = sg.locked;
                    j += 1;
                }
                let mut j: usize = 0;
                while j < group.base.outs.len()
                    invariant
                        j <= group.base.outs@.len(),
                        self.nodes@ == before,
                        self.links@ == old(self).links@,
                        before == old(self).nodes@,
                        *s == SerializedNode::Group(*sg),
                        group.base.id == node_id,
                        group.base.kind == NodeKind::Group,
                        group.base.position == sg.pos,
                        group.name == sg.name,
                        group.current_rate == rate,
                        qeq(rate@, (sg.rate.num as int, sg.rate.den as int)),
                        group.grouped_nodes@.len() == sg.nodes@.len(),
                        links_loaded(group.grouped_links@, sg.links@),
                    decreases group.base.outs.len() - j,
                {
                    group.base.outs[j].locked = sg.locked;
                    j += 1;
                }
                self.next_id = next;
                self.nodes.push(AppNode::Group(group));
            },
        }
        assert(self.nodes@.drop_last() =~= before);
        Ok(())
    }
}


pub proof fn lemma_ids_refl(a: Seq<AppNode>)
    ensures
        same_pin_ids(a, a),
{
}

pub proof fn lemma_relocked_ids(a: Seq<AppNode>, b: Seq<AppNode>, sel: spec_fn(u64) -> bool, v: bool)
    requires
        nodes_relocked(a, b, sel, v),
    ensures
        same_pin_ids(a, b),
{
    assert forall|n: int, input: bool| 0 <= n < a.len() implies (#[trigger] a[n].side(input)).len() == b[n].side(input).len() by {
        assert(pins_relocked(a[n].ins(), b[n].ins(), sel, v));
        assert(pins_relocked(a[n].outs(), b[n].outs(), sel, v));
    }
    assert forall|n: int, input: bool, j: int| 0 <= n < a.len() && 0 <= j < a[n].side(input).len() implies (#[trigger] a[n].side(input)[j]).id == b[n].side(input)[j].id by {
        assert(pins_relocked(a[n].ins(), b[n].ins(), sel, v));
        assert(pins_relocked(a[n].outs(), b[n].outs(), sel, v));
        if input {
            assert(b[n].ins()[j] == (if sel(a[n].ins()[j].id) { Pin { locked: v, ..a[n].ins()[j] } } else { a[n].ins()[j] }));
        } else {
            assert(b[n].outs()[j] == (if sel(a[n].outs()[j].id) { Pin { locked: v, ..a[n].outs()[j] } } else { a[n].outs()[j] }));
        }
    }
}

pub proof fn lemma_grown_ids(a: Seq<AppNode>, b: Seq<AppNode>)
    requires
        lock_grown(a, b),
    ensures
        same_pin_ids(a, b),
{
    assert forall|n: int, input: bool| 0 <= n < a.len() implies (#[trigger] a[n].side(input)).len() == b[n].side(input).len() by {
        assert(pins_grown(a[n].ins(), b[n].ins()));
        assert(pins_grown(a[n].outs(), b[n].outs()));
    }
    assert forall|n: int, input: bool, j: int| 0 <= n < a.len() && 0 <= j < a[n].side(input).len() implies (#[trigger] a[n].side(input)[j]).id == b[n].side(input)[j].id by {
        assert(pins_grown(a[n].ins(), b[n].ins()));
        assert(pins_grown(a[n].outs(), b[n].outs()));
        if input {
            let x = a[n].ins()[j];
            assert(b[n].ins()[j] == x || b[n].ins()[j] == (Pin { current_rate: b[n].ins()[j].current_rate, locked: true, ..x }));
        } else {
            let x = a[n].outs()[j];
            assert(b[n].outs()[j] == x || b[n].outs()[j] == (Pin { current_rate: b[n].outs()[j].current_rate, locked: true, ..x }));
        }
    }
}

/// Rescaling the pins of one crafting node keeps every pin in place.
pub proof fn lemma_rescaled_ids(a: Seq<AppNode>, b: Seq<AppNode>, i: int)
    requires
        0 <= i < a.len(),
        b.len() == a.len(),
        forall|m: int| 0 <= m < a.len() && m != i ==> #[trigger] b[m] == a[m],
        a[i] is Craft,
        b[i] is Craft,
        scaled_pins(a[i].ins(), b[i].ins(), b[i]->Craft_0.current_rate@),
        scaled_pins(a[i].outs(), b[i].outs(), b[i]->Craft_0.current_rate@),
    ensures
        same_pin_ids(a, b),
{
    assert forall|n: int, input: bool| 0 <= n < a.len() implies (#[trigger] a[n].side(input)).len() == b[n].side(input).len() by {}
    assert forall|n: int, input: bool, j: int| 0 <= n < a.len() && 0 <= j < a[n].side(input).len() implies (#[trigger] a[n].side(input)[j]).id == b[n].side(input)[j].id by {
        if n == i {
            if input {
                assert(b[n].ins()[j] == (Pin { current_rate: b[n].ins()[j].current_rate, ..a[n].ins()[j] }));
            } else {
                assert(b[n].outs()[j] == (Pin { current_rate: b[n].outs()[j].current_rate, ..a[n].outs()[j] }));
            }
        }
    }
}

/// `x` has the kind, position and settings of the saved node `s`, its rate
/// aside.
pub open spec fn settings_loaded(x: AppNode, s: SerializedNode) -> bool {
    match (x, s) {
        (AppNode::Craft(c), SerializedNode::Craft(sc)) => {
            &&& c.base.kind == NodeKind::Craft
            &&& c.base.position == sc.pos
            &&& c.recipe_name == sc.recipe
            &&& c.num_somersloop@ == (sc.num_somersloop as int, 1int)
            &&& c.built == sc.built
        },
        (AppNode::Sink(k), SerializedNode::Sink(sk)) => {
            &&& k.base.kind == NodeKind::Sink
            &&& k.base.position == sk.pos
            &&& k.item_name is None
        },
        (AppNode::Organizer(o), SerializedNode::Organizer(so)) => {
            &&& kind_id(o.base.kind) == so.kind
            &&& o.base.position == so.pos
            &&& o.item_name == so.item
        },
        (AppNode::Group(g), SerializedNode::Group(sg)) => {
            &&& g.base.kind == NodeKind::Group
            &&& g.base.position == sg.pos
            &&& g.name == sg.name
            &&& g.grouped_nodes@.len() == sg.nodes@.len()
            &&& links_loaded(g.grouped_links@, sg.links@)
        },
        _ => false,
    }
}

/// `b` keeps what `settings_loaded` reads of `a`.
pub open spec fn settings_kept(a: AppNode, b: AppNode) -> bool {
    match (a, b) {
        (AppNode::Craft(x), AppNode::Craft(y)) => y.same_settings(x),
        (AppNode::Sink(x), AppNode::Sink(y)) => y.base.kind == x.base.kind && y.base.position == x.base.position
            && y.item_name == x.item_name,
        (AppNode::Organizer(x), AppNode::Organizer(y)) => y.base.kind == x.base.kind && y.base.position == x.base.position
            && y.item_name == x.item_name,
        (AppNode::Group(x), AppNode::Group(y)) => y.base.kind == x.base.kind && y.base.position == x.base.position
            && y.name == x.name && y.grouped_nodes@.len() == x.grouped_nodes@.len() && y.grouped_links@ == x.grouped_links@,
        _ => false,
    }
}

/// Each node keeps what `settings_loaded` reads.
pub open spec fn all_settings_kept(a: Seq<AppNode>, b: Seq<AppNode>) -> bool {
    &&& b.len() == a.len()
    &&& forall|n: int| 0 <= n < a.len() ==> settings_kept(a[n], #[trigger] b[n])
}

proof fn lemma_kept_from_same(a: AppNode, b: AppNode)
    requires
        b.same_settings(a),
    ensures
        settings_kept(a, b),
{
}

proof fn lemma_kept_from_rescaled(a: AppNode, b: AppNode)
    requires
        node_rescaled(a, b),
    ensures
        settings_kept(a, b),
{
}

proof fn lemma_kept_trans(a: AppNode, b: AppNode, c: AppNode)
    requires
        settings_kept(a, b),
        settings_kept(b, c),
    ensures
        settings_kept(a, c),
{
}

proof fn lemma_all_kept_trans(a: Seq<AppNode>, b: Seq<AppNode>, c: Seq<AppNode>)
    requires
        all_settings_kept(a, b),
        all_settings_kept(b, c),
    ensures
        all_settings_kept(a, c),
{
    assert forall|n: int| 0 <= n < a.len() implies settings_kept(a[n], #[trigger] c[n]) by {
        lemma_kept_trans(a[n], b[n], c[n]);
    }
}

proof fn lemma_all_kept_same(a: Seq<AppNode>, b: Seq<AppNode>)
    requires
        b.len() == a.len(),
        forall|n: int| 0 <= n < a.len() ==> (#[trigger] b[n]).same_settings(a[n]),
    ensures
        all_settings_kept(a, b),
{
    assert forall|n: int| 0 <= n < a.len() implies settings_kept(a[n], #[trigger] b[n]) by {
        lemma_kept_from_same(a[n], b[n]);
    }
}

/// A rate change, done or refused, keeps the settings of every node.
proof fn lemma_rate_change_kept(nodes: Seq<AppNode>, links: Seq<Link>, c: u64, v: FractionalNumber, r: Result<(), String>, result: Seq<AppNode>)
    requires
        r is Ok ==> exists|w: Propagation| #[trigger] propagated(nodes, links, c, v, w, result),
        r matches Err(e) ==> propagation_refused(nodes, links, c, v, e@, result),
    ensures
        all_settings_kept(nodes, result),
{
    match r {
        Ok(_) => {
            let w = choose|w: Propagation| #[trigger] propagated(nodes, links, c, v, w, result);
            lemma_all_kept_same(nodes, w.cleared);
            if w.vars.len() == 0 {
                assert forall|n: int| 0 <= n < w.cleared.len() implies settings_kept(w.cleared[n], #[trigger] result[n]) by {
                    lemma_kept_from_rescaled(w.cleared[n], result[n]);
                }
                lemma_all_kept_trans(nodes, w.cleared, result);
            } else {
                lemma_all_kept_same(w.cleared, w.applied);
                assert forall|n: int| 0 <= n < w.applied.len() implies settings_kept(w.applied[n], #[trigger] result[n]) by {
                    lemma_kept_from_rescaled(w.applied[n], result[n]);
                }
                lemma_all_kept_trans(nodes, w.cleared, w.applied);
                lemma_all_kept_trans(nodes, w.applied, result);
            }
        },
        Err(e) => {
            if result == nodes {
                assert forall|n: int| 0 <= n < nodes.len() implies settings_kept(nodes[n], #[trigger] result[n]) by {
                    lemma_kept_from_same(nodes[n], nodes[n]);
                }
            } else {
                lemma_all_kept_same(nodes, result);
            }
        },
    }
}

proof fn lemma_loaded_settings_kept(a: AppNode, b: AppNode, s: SerializedNode)
    requires
        settings_loaded(a, s),
        settings_kept(a, b),
    ensures
        settings_loaded(b, s),
{
}

/// What a node keeps through saving and loading: a crafting node its
/// position, recipe, built flag and whole somersloop count; an organizer its
/// kind, position and item; a sink its position.
pub open spec fn kept_through_file(a: AppNode, b: AppNode) -> bool {
    match (a, b) {
        (AppNode::Craft(x), AppNode::Craft(y)) => {
            &&& y.base.position == x.base.position
            &&& y.recipe_name == x.recipe_name
            &&& y.built == x.built
            &&& y.num_somersloop@ == ((x.num_somersloop@.0 as u8) as int, 1int)
        },
        (AppNode::Organizer(x), AppNode::Organizer(y)) => {
            &&& y.base.kind == x.base.kind
            &&& y.base.position == x.base.position
            &&& y.item_name == x.item_name
        },
        (AppNode::Sink(x), AppNode::Sink(y)) => y.base.position == x.base.position,
        _ => false,
    }
}

/// Where no entry is left out, the kept entries are all of them.
proof fn lemma_kept_all_some(out: Seq<SerializedNode>, m: Seq<Option<SerializedNode>>)
    requires
        nodes_kept(out, m),
        forall|i: int| 0 <= i < m.len() ==> (#[trigger] m[i]) is Some,
    ensures
        out.len() == m.len(),
        forall|i: int| 0 <= i < m.len() ==> m[i] == Some(#[trigger] out[i]),
    decreases m.len(),
{
    if m.len() > 0 {
        assert(m.last() == m[m.len() - 1]);
        assert forall|i: int| 0 <= i < m.drop_last().len() implies (#[trigger] m.drop_last()[i]) is Some by {
            assert(m.drop_last()[i] == m[i]);
        }
        lemma_kept_all_some(out.drop_last(), m.drop_last());
        assert forall|i: int| 0 <= i < m.len() implies m[i] == Some(#[trigger] out[i]) by {
            if i < m.len() - 1 {
                assert(out[i] == out.drop_last()[i]);
                assert(m[i] == m.drop_last()[i]);
            }
        }
    }
}

/// No two nodes share an id.
pub open spec fn node_ids_distinct(nodes: Seq<AppNode>) -> bool {
    forall|i: int, j: int| 0 <= i < j < nodes.len() ==> #[trigger] nodes[i].id() != #[trigger] nodes[j].id()
}

/// Both ends of every link are pins that some node holds.
pub open spec fn links_found(nodes: Seq<AppNode>, links: Seq<Link>) -> bool {
    forall|q: int| 0 <= q < links.len() ==> pin_loc(nodes, (#[trigger] links[q]).start_pin_id) is Some && pin_loc(
        nodes,
        links[q].end_pin_id,
    ) is Some
}

/// Where ids are distinct, the last node with a node's id is that node.
proof fn lemma_last_index_distinct(nodes: Seq<AppNode>, i: int)
    requires
        node_ids_distinct(nodes),
        0 <= i < nodes.len(),
    ensures
        last_node_index(nodes, nodes[i].id()) == Some(i),
    decreases nodes.len(),
{
    if i < nodes.len() - 1 {
        let d = nodes.drop_last();
        assert(nodes[i].id() != nodes[nodes.len() - 1].id());
        assert(node_ids_distinct(d)) by {
            assert forall|x: int, y: int| 0 <= x < y < d.len() implies #[trigger] d[x].id() != #[trigger] d[y].id() by {
                assert(d[x] == nodes[x] && d[y] == nodes[y]);
            }
        }
        assert(d[i] == nodes[i]);
        lemma_last_index_distinct(d, i);
    }
}

/// A pin that is found is where the search says.
proof fn lemma_loc_found(nodes: Seq<AppNode>, pid: u64)
    requires
        pin_loc(nodes, pid) is Some,
    ensures
        ({
            let l = pin_loc(nodes, pid)->0;
            is_pin_loc(nodes, pid, l.0, l.1, l.2)
        }),
{
}

/// Where node ids are distinct and every link's pins are found, every link
/// is saved, each as the places of its two pins.
proof fn lemma_saved_links_all(nodes: Seq<AppNode>, links: Seq<Link>)
    requires
        node_ids_distinct(nodes),
        links_found(nodes, links),
    ensures
        saved_links(nodes, links).len() == links.len(),
        forall|q: int| 0 <= q < links.len() ==> link_saved(nodes, #[trigger] links[q]) == Some(saved_links(nodes, links)[q]),
    decreases links.len(),
{
    if links.len() > 0 {
        let d = links.drop_last();
        assert(links_found(nodes, d)) by {
            assert forall|q: int| 0 <= q < d.len() implies pin_loc(nodes, (#[trigger] d[q]).start_pin_id) is Some && pin_loc(nodes, d[q].end_pin_id) is Some by {
                assert(d[q] == links[q]);
            }
        }
        lemma_saved_links_all(nodes, d);
        let l = links.last();
        assert(l == links[links.len() - 1]);
        lemma_loc_found(nodes, l.start_pin_id);
        lemma_loc_found(nodes, l.end_pin_id);
        let s = pin_loc(nodes, l.start_pin_id)->0;
        let e = pin_loc(nodes, l.end_pin_id)->0;
        lemma_last_index_distinct(nodes, s.0);
        lemma_last_index_distinct(nodes, e.0);
        assert(link_saved(nodes, l) is Some);
        assert forall|q: int| 0 <= q < links.len() implies link_saved(nodes, #[trigger] links[q]) == Some(saved_links(nodes, links)[q]) by {
            if q < d.len() {
                assert(links[q] == d[q]);
            }
        }
    }
}

/// Saving the links of a graph whose nodes have distinct ids, each link
/// between pins that some node holds, and loading the file back (placing
/// each saved link among the loaded nodes) gives one link per link, in
/// order, each between the pins at the places of the original's pins: the
/// same node index and the same index on the side.
pub proof fn law_links_through_file(a: Seq<AppNode>, links: Seq<Link>, b: Seq<AppNode>, placed: Seq<Link>, first_id: int)
    requires
        node_ids_distinct(a),
        links_found(a, links),
        a.len() <= usize::MAX,
        forall|n: int, input: bool| 0 <= n < a.len() ==> (#[trigger] a[n].side(input)).len() <= usize::MAX,
        placed.len() == saved_links(a, links).len(),
        forall|q: int| 0 <= q < placed.len() ==> link_placed(b, saved_links(a, links)[q], #[trigger] placed[q], first_id + q),
    ensures
        placed.len() == links.len(),
        forall|q: int| 0 <= q < links.len() ==> {
            let s = pin_loc(a, (#[trigger] links[q]).start_pin_id)->0;
            let e = pin_loc(a, links[q].end_pin_id)->0;
            &&& placed[q].start_pin_id == named_side(b[s.0], false)[s.2].id
            &&& placed[q].end_pin_id == named_side(b[e.0], true)[e.2].id
            &&& placed[q].id == first_id + q
        },
{
    lemma_saved_links_all(a, links);
    assert forall|q: int| 0 <= q < links.len() implies {
        let s = pin_loc(a, (#[trigger] links[q]).start_pin_id)->0;
        let e = pin_loc(a, links[q].end_pin_id)->0;
        &&& placed[q].start_pin_id == named_side(b[s.0], false)[s.2].id
        &&& placed[q].end_pin_id == named_side(b[e.0], true)[e.2].id
        &&& placed[q].id == first_id + q
    } by {
        let l = links[q];
        lemma_loc_found(a, l.start_pin_id);
        lemma_loc_found(a, l.end_pin_id);
        let s = pin_loc(a, l.start_pin_id)->0;
        let e = pin_loc(a, l.end_pin_id)->0;
        lemma_last_index_distinct(a, s.0);
        lemma_last_index_distinct(a, e.0);
        assert(link_saved(a, l) == Some(saved_links(a, links)[q]));
        assert(a[s.0].side(s.1).len() <= usize::MAX);
        assert(a[e.0].side(e.1).len() <= usize::MAX);
        let sl = saved_links(a, links)[q];
        assert(sl.start.node as int == s.0 && sl.start.pin as int == s.2);
        assert(sl.end.node as int == e.0 && sl.end.pin as int == e.2);
        assert(link_placed(b, sl, placed[q], first_id + q));
    }
}

/// Saving a graph without group nodes and loading the file back gives one
/// node per node, in order, each with the kind, position and settings it
/// had (see `kept_through_file`).
pub proof fn law_save_then_load(a: Seq<AppNode>, file_nodes: Seq<SerializedNode>, b: Seq<AppNode>)
    requires
        saved_nodes(file_nodes, a),
        forall|n: int| 0 <= n < a.len() ==> !(#[trigger] a[n] is Group),
        b.len() == file_nodes.len(),
        forall|i: int| 0 <= i < file_nodes.len() ==> settings_loaded(#[trigger] b[i], file_nodes[i]),
    ensures
        b.len() == a.len(),
        forall|i: int| 0 <= i < a.len() ==> kept_through_file(#[trigger] a[i], b[i]),
{
    let m = choose|m: Seq<Option<SerializedNode>>| #[trigger] saved_options(m, a) && nodes_kept(file_nodes, m);
    assert forall|i: int| 0 <= i < m.len() implies (#[trigger] m[i]) is Some by {
        assert(saved_as(m[i], a[i]));
        assert(!(a[i] is Group));
    }
    lemma_kept_all_some(file_nodes, m);
    assert forall|i: int| 0 <= i < a.len() implies kept_through_file(#[trigger] a[i], b[i]) by {
        assert(saved_as(m[i], a[i]));
        assert(m[i] == Some(file_nodes[i]));
        assert(settings_loaded(b[i], file_nodes[i]));
        match (a[i], b[i]) {
            (AppNode::Organizer(x), AppNode::Organizer(y)) => {
                assert(kind_id(y.base.kind) == kind_id(x.base.kind));
                match x.base.kind {
                    NodeKind::Craft => {},
                    NodeKind::CustomSplitter => {},
                    NodeKind::Merger => {},
                    NodeKind::Group => {},
                    NodeKind::GameSplitter => {},
                    NodeKind::Sink => {},
                }
            },
            _ => {},
        }
    }
}

/// The graph was loaded from the file: one node per saved node, in order (of
/// the kind, at the position and with the settings saved), and the saved links.
pub open spec fn loaded_from(loaded: Seq<AppNode>, file_nodes: Seq<SerializedNode>) -> bool {
    &&& loaded.len() == file_nodes.len()
    &&& forall|i: int| 0 <= i < loaded.len() ==> node_loaded(#[trigger] loaded[i], file_nodes[i])
}

impl ProductionApp {
    /// Replace the graph by the production chain saved in `file`: its nodes
    /// (crafting nodes get their recipe's pins where `game_data` knows the
    /// recipe) and links; crafting nodes saved as locked get locked; the
    /// organizer locks are completed; the rates of locked pins are
    /// propagated; the saved organizer pins and crafting rates are put back.
    #[verifier::spinoff_prover]
    #[verifier::rlimit(40)]
    pub fn load_from_file(&mut self, file: &ProductionChainFile, game_data: Option<&GameData>) -> (r: Result<(), String>)
        ensures
            r is Ok ==> final(self).nodes@.len() == file.nodes@.len() && final(self).links@.len() == file.links@.len()
                && exists|loaded: Seq<AppNode>| #[trigger] loaded_from(loaded, file.nodes@) && same_pin_ids(loaded, final(self).nodes@)
                    && (file_loadable(*file, game_data) ==> forall|q: int| 0 <= q < file.links@.len() ==> link_placed(loaded,
                        file.links@[q], #[trigger] final(self).links@[q], 1 + ids_total(file.nodes@, game_data) + q)),
            r is Ok ==> forall|i: int| 0 <= i < file.nodes@.len() ==> settings_loaded(#[trigger] final(self).nodes@[i], file.nodes@[i]),
            file_loadable(*file, game_data) ==> r is Ok,
    {
        self.nodes = Vec::new();
        self.links = Vec::new();
        self.next_id = 1;
        let mut locked_idx: Vec<usize> = Vec::new();
        let mut org_saved: Vec<(usize, bool, usize, FractionalNumber, bool)> = Vec::new();
        let mut craft_saved: Vec<(usize, FractionalNumber)> = Vec::new();
        let mut idx: usize = 0;
        while idx < file.nodes.len()
            invariant
                idx <= file.nodes@.len(),
                self.nodes@.len() == idx,
                self.links@.len() == 0,
                forall|i: int| 0 <= i < idx ==> node_loaded(#[trigger] self.nodes@[i], file.nodes@[i]),
                file_loadable(*file, game_data) ==> self.next_id == 1 + ids_total(file.nodes@.subrange(0, idx as int), game_data),
                file_loadable(*file, game_data) ==> forall|i: int, b: bool| 0 <= i < idx ==> #[trigger] named_side(self.nodes@[i], b).len() == side_count(file.nodes@[i], game_data, b),
            decreases file.nodes.len() - idx,
        {
            proof {
                if file_loadable(*file, game_data) {
                    assert(!(file.nodes@[idx as int] is Group) && grouped_node_ok(file.nodes@[idx as int], game_data));
                }
            }
            match &file.nodes[idx] {
                SerializedNode::Organizer(o) => {
                    match &o.ins {
                        Some(v) => {
                            let mut i: usize = 0;
                            while i < v.len()
                                invariant
                                    i <= v@.len(),
                                    file_loadable(*file, game_data) ==> forall|j: int| 0 <= j < v@.len() ==> rate_ok((#[trigger] v@[j]).num, v@[j].den),
                                decreases v.len() - i,
                            {
                                let e = &v[i];
                                let rate = rate_from(&SerializedRate { num: e.num, den: e.den })?;
                                org_saved.push((idx, true, i, rate, e.locked));
                                i += 1;
                            }
                        },
                        None => {},
                    }
                    match &o.outs {
                        Some(v) => {
                            let mut i: usize = 0;
                            while i < v.len()
                                invariant
                                    i <= v@.len(),
                                    file_loadable(*file, game_data) ==> forall|j: int| 0 <= j < v@.len() ==> rate_ok((#[trigger] v@[j]).num, v@[j].den),
                                decreases v.len() - i,
                            {
                                let e = &v[i];
                                let rate = rate_from(&SerializedRate { num: e.num, den: e.den })?;
                                org_saved.push((idx, false, i, rate, e.locked));
                                i += 1;
                            }
                        },
                        None => {},
                    }
                },
                SerializedNode::Craft(c) => {
                    craft_saved.push((idx, rate_from(&c.rate)?));
                    if c.locked {
                        locked_idx.push(idx);
                    }
                },
                _ => {},
            }
            let ghost before = self.nodes@;
            proof {
                if file_loadable(*file, game_data) {
                    lemma_ids_total_prefix(file.nodes@, game_data, idx + 1);
                    assert(file.nodes@.subrange(0, idx + 1).drop_last() =~= file.nodes@.subrange(0, idx as int));
                    assert(file.nodes@.subrange(0, idx + 1).last() == file.nodes@[idx as int]);
                }
            }
            self.load_node(&file.nodes[idx], game_data)?;
            proof {
                assert forall|i: int| 0 <= i < idx + 1 implies node_loaded(#[trigger] self.nodes@[i], file.nodes@[i]) by {
                    if i < idx {
                        assert(self.nodes@[i] == self.nodes@.drop_last()[i]);
                    }
                }
                if file_loadable(*file, game_data) {
                    assert forall|i: int, b: bool| 0 <= i < idx + 1 implies #[trigger] named_side(self.nodes@[i], b).len() == side_count(file.nodes@[i], game_data, b) by {
                        if i < idx {
                            assert(self.nodes@[i] == self.nodes@.drop_last()[i]);
                        } else {
                            assert(self.nodes@[i] == self.nodes@.last());
                        }
                    }
                }
            }
            idx += 1;
        }
        let mut t: usize = 0;
        proof {
            assert(file.nodes@.subrange(0, file.nodes@.len() as int) =~= file.nodes@);
        }
        while t < file.links.len()
            invariant
                t <= file.links@.len(),
                self.nodes@.len() == file.nodes@.len(),
                self.links@.len() == t,
                forall|i: int| 0 <= i < self.nodes@.len() ==> node_loaded(#[trigger] self.nodes@[i], file.nodes@[i]),
                file_loadable(*file, game_data) ==> self.next_id == 1 + ids_total(file.nodes@, game_data) + t,
                file_loadable(*file, game_data) ==> forall|i: int, b: bool| 0 <= i < file.nodes@.len() ==> #[trigger] named_side(self.nodes@[i], b).len() == side_count(file.nodes@[i], game_data, b),
                file_loadable(*file, game_data) ==> forall|q: int| 0 <= q < t ==> link_placed(self.nodes@, file.links@[q],
                    #[trigger] self.links@[q], 1 + ids_total(file.nodes@, game_data) + q),
            decreases file.links.len() - t,
        {
            let ghost links0 = self.links@;
            let ghost before = self.nodes@;
            proof {
                if file_loadable(*file, game_data) {
                    let l = file.links@[t as int];
                    assert(link_loadable(l, file.nodes@, game_data));
                    assert(named_side(self.nodes@[l.start.node as int], false).len() == side_count(file.nodes@[l.start.node as int], game_data, false));
                    assert(named_side(self.nodes@[l.end.node as int], true).len() == side_count(file.nodes@[l.end.node as int], game_data, true));
                }
            }
            self.load_link(&file.links[t])?;
            proof {
                if file_loadable(*file, game_data) {
                    lemma_sides_kept(before, self.nodes@, file.nodes@, game_data);
                    assert forall|q: int| 0 <= q < t + 1 implies link_placed(self.nodes@, file.links@[q],
                        #[trigger] self.links@[q], 1 + ids_total(file.nodes@, game_data) + q) by {
                        if q < t {
                            assert(self.links@[q] == links0[q]);
                            lemma_placed_kept(before, self.nodes@, file.links@[q], links0[q], 1 + ids_total(file.nodes@, game_data) + q);
                        } else {
                            assert(self.links@[q] == self.links@.last());
                            lemma_placed_kept(before, self.nodes@, file.links@[q], self.links@[q], 1 + ids_total(file.nodes@, game_data) + q);
                        }
                    }
                }
            }
            proof {
                assert forall|i: int| 0 <= i < self.nodes@.len() implies node_loaded(#[trigger] self.nodes@[i], file.nodes@[i]) by {
                    lemma_loaded_settings(before[i], self.nodes@[i], file.nodes@[i]);
                }
            }
            t += 1;
        }
        let ghost loaded = self.nodes@;
        let ghost links_len = self.links@.len();
        let ghost loaded_links = self.links@;
        proof {
            lemma_ids_refl(loaded);
            assert forall|n: int| 0 <= n < loaded.len() implies settings_kept(loaded[n], #[trigger] self.nodes@[n]) by {
                lemma_kept_from_same(loaded[n], loaded[n]);
            }
        }
        let mut k: usize = 0;
        while k < locked_idx.len()
            invariant
                k <= locked_idx@.len(),
                self.nodes@.len() == loaded.len(),
                self.links@ == loaded_links,
                same_pin_ids(loaded, self.nodes@),
                all_settings_kept(loaded, self.nodes@),
            decreases locked_idx.len() - k,
        {
            let i = locked_idx[k];
            if i < self.nodes.len() {
                let id = match &self.nodes[i] {
                    AppNode::Craft(c) => Some(c.base.id),
                    _ => None,
                };
                match id {
                    Some(id) => {
                        let ghost b0 = self.nodes@;
                        let _ = self.set_node_locked(id, true);
                        proof {
                            lemma_all_kept_same(b0, self.nodes@);
                            lemma_all_kept_trans(loaded, b0, self.nodes@);
                            if node_index(b0, id) is Some {
                                let ni = node_index(b0, id)->0;
                                lemma_relocked_ids(b0, self.nodes@, |q: u64| crate::locking::node_reaches(b0, self.links@, b0[ni], q), true);
                            } else {
                                lemma_ids_refl(b0);
                            }
                            lemma_ids_trans(loaded, b0, self.nodes@);
                        }
                    },
                    None => {},
                }
            }
            k += 1;
        }
        let ghost b1 = self.nodes@;
        let _ = self.auto_lock_organizer_pins();
        proof {
            lemma_all_kept_same(b1, self.nodes@);
            lemma_all_kept_trans(loaded, b1, self.nodes@);
            lemma_grown_ids(b1, self.nodes@);
            lemma_ids_trans(loaded, b1, self.nodes@);
        }
        let mut locked_pins: Vec<(u64, FractionalNumber)> = Vec::new();
        let mut n: usize = 0;
        while n < self.nodes.len()
            invariant
                n <= self.nodes@.len(),
            decreases self.nodes.len() - n,
        {
            let node = &self.nodes[n];
            let mut input = true;
            loop
                invariant
                    n < self.nodes@.len(),
                    *node == self.nodes@[n as int],
                decreases (if input { 2int } else { 1int }),
            {
                let len = node.side_len(input);
                let mut j: usize = 0;
                while j < len
                    invariant
                        j <= len,
                        len == node.side(input).len(),
                    decreases len - j,
                {
                    let p = node.pin(input, j);
                    if p.locked {
                        locked_pins.push((p.id, p.current_rate));
                    }
                    j += 1;
                }
                if !input {
                    break;
                }
                input = false;
            }
            n += 1;
        }
        let mut q: usize = 0;
        while q < locked_pins.len()
            invariant
                q <= locked_pins@.len(),
                self.nodes@.len() == loaded.len(),
                self.links@ == loaded_links,
                same_pin_ids(loaded, self.nodes@),
                all_settings_kept(loaded, self.nodes@),
            decreases locked_pins.len() - q,
        {
            let (pid, rate) = locked_pins[q];
            let ghost b2 = self.nodes@;
            let ur = self.update_nodes_rate(pid, rate);
            proof {
                lemma_rate_change_kept(b2, self.links@, pid, rate, ur, self.nodes@);
                lemma_all_kept_trans(loaded, b2, self.nodes@);
                lemma_ids_trans(loaded, b2, self.nodes@);
            }
            q += 1;
        }
        let mut q: usize = 0;
        while q < org_saved.len()
            invariant
                q <= org_saved@.len(),
                self.nodes@.len() == loaded.len(),
                self.links@ == loaded_links,
                same_pin_ids(loaded, self.nodes@),
                all_settings_kept(loaded, self.nodes@),
            decreases org_saved.len() - q,
        {
            let (i, is_in, j, rate, locked) = org_saved[q];
            if i < self.nodes.len() {
                let fits = match &self.nodes[i] {
                    AppNode::Organizer(o) => j < (if is_in { o.base.ins.len() } else { o.base.outs.len() }),
                    _ => false,
                };
                if fits {
                    let ghost b3 = self.nodes@;
                    self.update_pin_at(i, is_in, j, PinUpdate::Rate(rate));
                    let ghost b4 = self.nodes@;
                    proof {
                        lemma_updated_ids(b3, b4, (i as int, is_in, j as int), PinUpdate::Rate(rate));
                    }
                    self.update_pin_at(i, is_in, j, PinUpdate::Locked(locked));
                    proof {
                        lemma_all_kept_same(b3, b4);
                        lemma_all_kept_same(b4, self.nodes@);
                        lemma_all_kept_trans(loaded, b3, b4);
                        lemma_all_kept_trans(loaded, b4, self.nodes@);
                        lemma_updated_ids(b4, self.nodes@, (i as int, is_in, j as int), PinUpdate::Locked(locked));
                        lemma_ids_trans(loaded, b3, b4);
                        lemma_ids_trans(loaded, b4, self.nodes@);
                    }
                }
            }
            q += 1;
        }
        let mut q: usize = 0;
        while q < craft_saved.len()
            invariant
                q <= craft_saved@.len(),
                self.nodes@.len() == loaded.len(),
                self.links@ == loaded_links,
                same_pin_ids(loaded, self.nodes@),
                all_settings_kept(loaded, self.nodes@),
            decreases craft_saved.len() - q,
        {
            let (i, rate) = craft_saved[q];
            if i < self.nodes.len() {
                let ghost b5 = self.nodes@;
                match &mut self.nodes[i] {
                    AppNode::Craft(c) => {
                        if c.rate_fits(rate) {
                            c.update_rate(rate);
                        }
                    },
                    _ => {},
                }
                proof {
                    assert forall|n: int| 0 <= n < b5.len() implies settings_kept(b5[n], #[trigger] self.nodes@[n]) by {
                        if n != i {
                            assert(self.nodes@[n] == b5[n]);
                        }
                        lemma_kept_from_same(b5[n], b5[n]);
                    }
                    lemma_all_kept_trans(loaded, b5, self.nodes@);
                    if b5[i as int] is Craft && !(self.nodes@ =~= b5) {
                        lemma_rescaled_ids(b5, self.nodes@, i as int);
                        lemma_ids_trans(loaded, b5, self.nodes@);
                    } else {
                        assert(self.nodes@ =~= b5);
                    }
                }
            }
            q += 1;
        }
        proof {
            assert(loaded_from(loaded, file.nodes@));
            assert forall|i: int| 0 <= i < file.nodes@.len() implies settings_loaded(#[trigger] self.nodes@[i], file.nodes@[i]) by {
                assert(node_loaded(loaded[i], file.nodes@[i]));
                lemma_loaded_settings_kept(loaded[i], self.nodes@[i], file.nodes@[i]);
            }
        }
        Ok(())
    }
}

} // verus!
