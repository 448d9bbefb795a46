//! Ungrouping: a group node gives way to the nodes it holds, restored at its
//! rate, with the links between them.
use vstd::prelude::*;
use crate::app_node::AppNode;
use crate::fractional_number::{FractionalNumber, mul_fits};
use crate::link::Link;
use crate::node::{GroupNode, GroupedNode, GroupedNodeData, GroupedPin, NodeKind};
use crate::pin::{Pin, PinDirection};
use crate::graph_edit::has_link_id;
use crate::group::ids_from;
use crate::rational::{qeq, qmul, qzero, qcanon, lemma_qcanon, lemma_qwf_ops};
use crate::node::scale_fits;
use crate::production_app::ProductionApp;
use crate::game_data::GameData;
use crate::node::{CraftNode, OrganizerNode, SinkNode};
use crate::production_app::{node_index, pin_updated};
use crate::app_node::{PinUpdate, updated_pin};
use crate::text::{concat, u64_to_string, int_to_decimal};

verus! {

/// The ids of a group's outside pins, inputs first.
pub open spec fn outside_pin_ids(g: GroupNode) -> Seq<u64> {
    (g.base.ins@ + g.base.outs@).map_values(|p: Pin| p.id)
}

/// The link ends at one of the pins.
pub open spec fn touches_any(l: Link, pids: Seq<u64>) -> bool {
    pids.contains(l.start_pin_id) || pids.contains(l.end_pin_id)
}

/// The links that touch none of the pins, in order.
pub open spec fn kept_links(links: Seq<Link>, pids: Seq<u64>) -> Seq<Link>
    decreases links.len(),
{
    if links.len() == 0 {
        Seq::empty()
    } else {
        let rest = kept_links(links.drop_last(), pids);
        if touches_any(links.last(), pids) { rest } else { rest.push(links.last()) }
    }
}

/// The pin, forgetting a link that is not among `links`.
pub open spec fn stale_cleared(p: Pin, links: Seq<Link>) -> Pin {
    match p.link_id {
        Some(l) => if has_link_id(links, l) { p } else { Pin { link_id: None, ..p } },
        None => p,
    }
}

/// `b` is `a` with every pin's link that is not among `links` forgotten.
pub open spec fn node_cleared(a: AppNode, b: AppNode, links: Seq<Link>) -> bool {
    &&& b.same_settings(a)
    &&& b.ins().len() == a.ins().len()
    &&& b.outs().len() == a.outs().len()
    &&& forall|j: int| 0 <= j < a.ins().len() ==> #[trigger] b.ins()[j] == stale_cleared(a.ins()[j], links)
    &&& forall|j: int| 0 <= j < a.outs().len() ==> #[trigger] b.outs()[j] == stale_cleared(a.outs()[j], links)
}

/// Pins restored from their stored form at the group rate `rate`, for the node
/// `nid`, with ids from `first`.
pub open spec fn pins_restored(ps: Seq<Pin>, gps: Seq<GroupedPin>, rate: (int, int), dir: PinDirection, nid: u64, first: int) -> bool {
    &&& ps.len() == gps.len()
    &&& ids_from(ps, first)
    &&& forall|j: int| 0 <= j < gps.len() ==> {
        &&& (#[trigger] ps[j]).direction == dir
        &&& ps[j].node_id == nid
        &&& ps[j].item_name == gps[j].item_name
        &&& ps[j].locked == gps[j].locked
        &&& ps[j].base_rate == gps[j].base_rate
        &&& qeq(ps[j].current_rate@, qmul(gps[j].current_rate@, rate))
        &&& !ps[j].error
    }
}

/// Whether the stored node can be restored at the group rate within 64-bit
/// integers: its rate and the rates of its stored pins times the group rate.
pub open spec fn restorable(g: GroupedNode, base: (int, int), rate: (int, int)) -> bool {
    &&& mul_fits(base, rate)
    &&& match g.node_data {
        GroupedNodeData::Craft { .. } => true,
        GroupedNodeData::Organizer { ins, outs, .. } => pins_fit(ins@, rate) && pins_fit(outs@, rate),
        GroupedNodeData::Sink { ins, .. } => pins_fit(ins@, rate),
        GroupedNodeData::Group { current_rate, ins, outs, .. } => mul_fits(current_rate@, rate) && pins_fit(ins@, rate)
            && pins_fit(outs@, rate),
    }
}

pub open spec fn pins_fit(gps: Seq<GroupedPin>, rate: (int, int)) -> bool {
    forall|j: int| 0 <= j < gps.len() ==> mul_fits((#[trigger] gps[j]).current_rate@, rate)
}

/// The stored rate of the `k`-th node, or zero.
pub open spec fn stored_rate(rates: Seq<FractionalNumber>, k: int) -> (int, int) {
    if 0 <= k < rates.len() { rates[k]@ } else { qzero() }
}

fn stored_pins_fit(gps: &Vec<GroupedPin>, rate: FractionalNumber) -> (r: bool)
    ensures
        r == pins_fit(gps@, rate@),
{
    let mut j: usize = 0;
    while j < gps.len()
        invariant
            j <= gps.len(),
            forall|q: int| 0 <= q < j ==> mul_fits((#[trigger] gps@[q]).current_rate@, rate@),
        decreases gps.len() - j,
    {
        if !gps[j].current_rate.fits_mul(&rate) {
            return false;
        }
        j += 1;
    }
    true
}

fn node_restorable(g: &GroupedNode, base: FractionalNumber, rate: FractionalNumber) -> (r: bool)
    ensures
        r == restorable(*g, base@, rate@),
{
    if !base.fits_mul(&rate) {
        return false;
    }
    match &g.node_data {
        GroupedNodeData::Craft { .. } => true,
        GroupedNodeData::Organizer { ins, outs, .. } => stored_pins_fit(ins, rate) && stored_pins_fit(outs, rate),
        GroupedNodeData::Sink { ins, .. } => stored_pins_fit(ins, rate),
        GroupedNodeData::Group { current_rate, ins, outs, .. } => current_rate.fits_mul(&rate) && stored_pins_fit(ins, rate)
            && stored_pins_fit(outs, rate),
    }
}

impl GroupNode {
    /// Whether every node inside can be restored at the group's rate.
    pub fn inside_restorable(&self) -> (r: bool)
        ensures
            r == forall|k: int| 0 <= k < self.grouped_nodes@.len() ==> restorable(#[trigger] self.grouped_nodes@[k], stored_rate(self.nodes_base_rate@, k), self.current_rate@),
    {
        let mut k: usize = 0;
        while k < self.grouped_nodes.len()
            invariant
                k <= self.grouped_nodes@.len(),
                forall|q: int| 0 <= q < k ==> restorable(#[trigger] self.grouped_nodes@[q], stored_rate(self.nodes_base_rate@, q), self.current_rate@),
            decreases self.grouped_nodes.len() - k,
        {
            let base = if k < self.nodes_base_rate.len() { self.nodes_base_rate[k] } else { FractionalNumber::zero() };
            if !node_restorable(&self.grouped_nodes[k], base, self.current_rate) {
                return false;
            }
            k += 1;
        }
        true
    }
}

fn pin_id_listed(g: &GroupNode, pid: u64) -> (r: bool)
    ensures
        r == outside_pin_ids(*g).contains(pid),
{
    let ghost all = g.base.ins@ + g.base.outs@;
    let ghost ids = outside_pin_ids(*g);
    let mut j: usize = 0;
    while j < g.base.ins.len()
        invariant
            j <= g.base.ins@.len(),
            all == g.base.ins@ + g.base.outs@,
            ids == all.map_values(|p: Pin| p.id),
            forall|q: int| 0 <= q < j ==> ids[q] != pid,
        decreases g.base.ins.len() - j,
    {
        if g.base.ins[j].id == pid {
            assert(ids[j as int] == pid);
            return true;
        }
        j += 1;
    }
    let mut j: usize = 0;
    while j < g.base.outs.len()
        invariant
            j <= g.base.outs@.len(),
            all == g.base.ins@ + g.base.outs@,
            ids == all.map_values(|p: Pin| p.id),
            forall|q: int| 0 <= q < g.base.ins@.len() + j ==> ids[q] != pid,
        decreases g.base.outs.len() - j,
    {
        if g.base.outs[j].id == pid {
            assert(ids[g.base.ins@.len() + j] == pid);
            return true;
        }
        j += 1;
    }
    false
}

/// The links that touch none of the group's outside pins.
fn links_kept(links: &Vec<Link>, g: &GroupNode) -> (r: Vec<Link>)
    ensures
        r@ == kept_links(links@, outside_pin_ids(*g)),
{
    let mut out: Vec<Link> = Vec::new();
    let mut k: usize = 0;
    assert(links@.subrange(0, 0) =~= Seq::<Link>::empty());
    while k < links.len()
        invariant
            k <= links.len(),
            out@ == kept_links(links@.subrange(0, k as int), outside_pin_ids(*g)),
        decreases links.len() - k,
    {
        assert(links@.subrange(0, k + 1).drop_last() =~= links@.subrange(0, k as int));
        let l = links[k];
        if !pin_id_listed(g, l.start_pin_id) && !pin_id_listed(g, l.end_pin_id) {
            out.push(l);
        }
        k += 1;
    }
    assert(links@.subrange(0, links.len() as int) =~= links@);
    out
}

fn has_link(links: &Vec<Link>, id: u64) -> (r: bool)
    ensures
        r == has_link_id(links@, id),
{
    let mut k: usize = 0;
    while k < links.len()
        invariant
            k <= links.len(),
            forall|q: int| 0 <= q < k ==> (#[trigger] links@[q]).id != id,
        decreases links.len() - k,
    {
        if links[k].id == id {
            return true;
        }
        k += 1;
    }
    false
}

/// Forget the links of pins that are not among `links`.
fn clear_stale_pins(pins: &mut Vec<Pin>, links: &Vec<Link>)
    ensures
        final(pins)@.len() == old(pins)@.len(),
        forall|j: int| 0 <= j < old(pins)@.len() ==> #[trigger] final(pins)@[j] == stale_cleared(old(pins)@[j], links@),
{
    let ghost before = pins@;
    let mut j: usize = 0;
    while j < pins.len()
        invariant
            j <= pins@.len(),
            pins@.len() == before.len(),
            forall|q: int| 0 <= q < j ==> #[trigger] pins@[q] == stale_cleared(before[q], links@),
            forall|q: int| j <= q < before.len() ==> #[trigger] pins@[q] == before[q],
        decreases pins.len() - j,
    {
        match pins[j].link_id {
            Some(l) => {
                if !has_link(links, l) {
                    pins[j].link_id = None;
                }
            },
            None => {},
        }
        j += 1;
    }
}

impl AppNode {
    /// Forget the links of its pins that are not among `links`.
    pub fn clear_stale_links(&mut self, links: &Vec<Link>)
        ensures
            node_cleared(*old(self), *final(self), links@),
    {
        match self {
            AppNode::Craft(n) => {
                clear_stale_pins(&mut n.base.ins, links);
                clear_stale_pins(&mut n.base.outs, links);
            },
            AppNode::Organizer(n) => {
                clear_stale_pins(&mut n.base.ins, links);
                clear_stale_pins(&mut n.base.outs, links);
            },
            AppNode::Group(n) => {
                clear_stale_pins(&mut n.base.ins, links);
                clear_stale_pins(&mut n.base.outs, links);
            },
            AppNode::Sink(n) => {
                clear_stale_pins(&mut n.base.ins, links);
            },
        }
    }
}


/// `x` is the stored node `g` restored at group rate `rate` at `pos`: a
/// crafting node keeps its recipe, somersloops and built state; an organizer,
/// a sink or a nested group gets its stored settings and pins (pin ids from
/// the node's id plus one, rates scaled by `rate`); a nested group keeps its
/// inside nodes and links and gets its rate scaled by `rate`.
/// Where its pins can take the rate `r`, a crafting node runs at `r` and
/// each of its pins carries its base rate times `r`.
pub open spec fn craft_rate_restored(c: CraftNode, r: (int, int)) -> bool {
    scale_fits(c.base.ins@, r) && scale_fits(c.base.outs@, r) ==> {
        &&& c.current_rate@ == r
        &&& forall|j: int| 0 <= j < c.base.ins@.len() ==> qeq((#[trigger] c.base.ins@[j]).current_rate@, qmul(c.base.ins@[j].base_rate@, r))
        &&& forall|j: int| 0 <= j < c.base.outs@.len() ==> qeq((#[trigger] c.base.outs@[j]).current_rate@, qmul(c.base.outs@[j].base_rate@, r))
    }
}

pub open spec fn restored_from(x: AppNode, g: GroupedNode, base: (int, int), rate: (int, int), pos: (u32, u32)) -> bool {
    &&& x.position() == pos
    &&& match (g.node_data, x) {
        (GroupedNodeData::Craft { recipe_name, num_somersloop, built, .. }, AppNode::Craft(c)) => {
            &&& c.base.kind == NodeKind::Craft
            &&& c.recipe_name@ == recipe_name@
            &&& c.num_somersloop == num_somersloop
            &&& c.built == built
            &&& craft_rate_restored(c, qcanon(qmul(base, rate)))
        },
        (GroupedNodeData::Organizer { kind, item_name, ins, outs }, AppNode::Organizer(o)) => {
            &&& o.base.kind == kind
            &&& o.item_name == item_name
            &&& pins_restored(o.base.ins@, ins@, rate, PinDirection::Input, o.base.id, o.base.id + 1)
            &&& pins_restored(o.base.outs@, outs@, rate, PinDirection::Output, o.base.id, o.base.id + 1 + ins@.len())
        },
        (GroupedNodeData::Sink { item_name, ins }, AppNode::Sink(sk)) => {
            &&& sk.base.kind == NodeKind::Sink
            &&& sk.item_name == item_name
            &&& sk.base.outs@.len() == 0
            &&& pins_restored(sk.base.ins@, ins@, rate, PinDirection::Input, sk.base.id, sk.base.id + 1)
        },
        (GroupedNodeData::Group { name, current_rate, nodes, links, ins, outs }, AppNode::Group(h)) => {
            &&& h.base.kind == NodeKind::Group
            &&& h.name == name
            &&& qeq(h.current_rate@, qmul(current_rate@, rate))
            &&& h.grouped_nodes@ == nodes@
            &&& h.grouped_links@ == links@
            &&& pins_restored(h.base.ins@, ins@, rate, PinDirection::Input, h.base.id, h.base.id + 1)
            &&& pins_restored(h.base.outs@, outs@, rate, PinDirection::Output, h.base.id, h.base.id + 1 + ins@.len())
        },
        _ => false,
    }
}

/// The pins of `y` are those of `x` but for their links.
pub open spec fn links_only_changed(x: AppNode, y: AppNode) -> bool {
    &&& y.same_settings(x)
    &&& y.ins().len() == x.ins().len()
    &&& y.outs().len() == x.outs().len()
    &&& forall|j: int| 0 <= j < x.ins().len() ==> #[trigger] y.ins()[j] == (Pin { link_id: y.ins()[j].link_id, ..x.ins()[j] })
    &&& forall|j: int| 0 <= j < x.outs().len() ==> #[trigger] y.outs()[j] == (Pin { link_id: y.outs()[j].link_id, ..x.outs()[j] })
}

pub proof fn lemma_restored_links_only(x: AppNode, y: AppNode, g: GroupedNode, base: (int, int), rate: (int, int), pos: (u32, u32))
    requires
        links_only_changed(x, y),
        restored_from(x, g, base, rate, pos),
    ensures
        restored_from(y, g, base, rate, pos),
{
    assert forall|j: int| 0 <= j < x.ins().len() implies (#[trigger] y.ins()[j]).id == x.ins()[j].id by {
        assert(y.ins()[j] == (Pin { link_id: y.ins()[j].link_id, ..x.ins()[j] }));
    }
    assert forall|j: int| 0 <= j < x.outs().len() implies (#[trigger] y.outs()[j]).id == x.outs()[j].id by {
        assert(y.outs()[j] == (Pin { link_id: y.outs()[j].link_id, ..x.outs()[j] }));
    }
    if let (AppNode::Craft(c), AppNode::Craft(d)) = (x, y) {
        let r = qcanon(qmul(base, rate));
        assert(x.ins() == c.base.ins@ && x.outs() == c.base.outs@);
        assert(y.ins() == d.base.ins@ && y.outs() == d.base.outs@);
        assert forall|j: int| 0 <= j < c.base.ins@.len() implies (#[trigger] d.base.ins@[j]).base_rate == c.base.ins@[j].base_rate
            && d.base.ins@[j].current_rate == c.base.ins@[j].current_rate by {
            assert(y.ins()[j] == (Pin { link_id: y.ins()[j].link_id, ..x.ins()[j] }));
        }
        assert forall|j: int| 0 <= j < c.base.outs@.len() implies (#[trigger] d.base.outs@[j]).base_rate == c.base.outs@[j].base_rate
            && d.base.outs@[j].current_rate == c.base.outs@[j].current_rate by {
            assert(y.outs()[j] == (Pin { link_id: y.outs()[j].link_id, ..x.outs()[j] }));
        }
        assert(d.base.ins@.len() == c.base.ins@.len() && d.base.outs@.len() == c.base.outs@.len());
        if scale_fits(d.base.ins@, r) && scale_fits(d.base.outs@, r) {
            assert forall|i: int| 0 <= i < c.base.ins@.len() implies mul_fits(#[trigger] c.base.ins@[i].base_rate@, r) by {
                assert(d.base.ins@[i].base_rate == c.base.ins@[i].base_rate);
                assert(mul_fits(d.base.ins@[i].base_rate@, r));
            }
            assert forall|i: int| 0 <= i < c.base.outs@.len() implies mul_fits(#[trigger] c.base.outs@[i].base_rate@, r) by {
                assert(d.base.outs@[i].base_rate == c.base.outs@[i].base_rate);
                assert(mul_fits(d.base.outs@[i].base_rate@, r));
            }
            assert(scale_fits(c.base.ins@, r) && scale_fits(c.base.outs@, r));
            assert(c.current_rate == d.current_rate);
        }
        assert(craft_rate_restored(d, r));
    }
}

/// A crafting node that `ungroup_node` gives back runs at its stored base
/// rate times the group's rate (in lowest terms), and each of its pins
/// carries its base rate times that rate, wherever its pins can take it.
pub proof fn law_ungrouped_craft_rate(
    before: ProductionApp,
    after: ProductionApp,
    gi: int,
    g: GroupNode,
    positions: Seq<(u32, u32)>,
    ids: Seq<u64>,
    i: int,
)
    requires
        ungrouped_into(before, after, gi, g, positions, ids),
        0 <= gi < before.nodes@.len(),
        before.nodes@.len() - 1 <= i < after.nodes@.len(),
        after.nodes@[i] is Craft,
    ensures
        exists|k: int| #![trigger g.grouped_nodes@[k]] 0 <= k < g.grouped_nodes@.len() && g.grouped_nodes@[k].node_data is Craft && {
            let c = after.nodes@[i]->Craft_0;
            let r = qcanon(qmul(stored_rate(g.nodes_base_rate@, k), g.current_rate@));
            scale_fits(c.base.ins@, r) && scale_fits(c.base.outs@, r) ==> {
                &&& c.current_rate@ == r
                &&& forall|j: int| 0 <= j < c.base.ins@.len() ==> qeq((#[trigger] c.base.ins@[j]).current_rate@, qmul(c.base.ins@[j].base_rate@, r))
                &&& forall|j: int| 0 <= j < c.base.outs@.len() ==> qeq((#[trigger] c.base.outs@[j]).current_rate@, qmul(c.base.outs@[j].base_rate@, r))
            }
        },
{
    let x = after.nodes@[i];
    assert(before.nodes@.remove(gi).len() == before.nodes@.len() - 1);
    assert(restored_somewhere(x, g, positions));
    let k = choose|k: int| 0 <= k < g.grouped_nodes@.len() && #[trigger] restored_from(x, g.grouped_nodes@[k], stored_rate(g.nodes_base_rate@, k), g.current_rate@, position_at(positions, k));
    assert(restored_from(x, g.grouped_nodes@[k], stored_rate(g.nodes_base_rate@, k), g.current_rate@, position_at(positions, k)));
    assert(g.grouped_nodes@[k].node_data is Craft);
    let c = x->Craft_0;
    assert(craft_rate_restored(c, qcanon(qmul(stored_rate(g.nodes_base_rate@, k), g.current_rate@))));
}

/// The offset given for the `k`-th stored node, or zero.
pub open spec fn position_at(positions: Seq<(u32, u32)>, k: int) -> (u32, u32) {
    if 0 <= k < positions.len() { positions[k] } else { (0u32, 0u32) }
}

/// Whether `next_id` leaves room for a crafting node of any recipe.
fn ids_suffice(next_id: u64, gd: &GameData) -> (r: bool)
    ensures
        r ==> next_id + 1 < u64::MAX && forall|k: int| 0 <= k < gd.recipes@.len() ==> next_id + 1 + (#[trigger] gd.recipes@[k]).ins@.len()
            + gd.recipes@[k].outs@.len() < u64::MAX,
        r == (next_id < 0xffff_ffff_ffff_fff0u64 && forall|k: int| 0 <= k < gd.recipes@.len() ==> next_id + 1
            + (#[trigger] gd.recipes@[k]).ins@.len() + gd.recipes@[k].outs@.len() < u64::MAX),
{
    if next_id >= 0xffff_ffff_ffff_fff0u64 {
        return false;
    }
    let mut k: usize = 0;
    while k < gd.recipes.len()
        invariant
            k <= gd.recipes@.len(),
            next_id < 0xffff_ffff_ffff_fff0u64,
            forall|q: int| 0 <= q < k ==> next_id + 1 + (#[trigger] gd.recipes@[q]).ins@.len() + gd.recipes@[q].outs@.len() < u64::MAX,
        decreases gd.recipes.len() - k,
    {
        let a = gd.recipes[k].ins.len() as u128;
        let b = gd.recipes[k].outs.len() as u128;
        if (next_id as u128) + 1 + a + b >= 0xffff_ffff_ffff_ffffu128 {
            return false;
        }
        k += 1;
    }
    true
}

impl ProductionApp {
    /// Pins restored from their stored forms, with fresh ids.
    fn unstore_pins(&mut self, gps: Vec<GroupedPin>, dir: PinDirection, nid: u64, rate: FractionalNumber) -> (r: Vec<Pin>)
        requires
            pins_fit(gps@, rate@),
            old(self).next_id + gps@.len() < u64::MAX,
        ensures
            pins_restored(r@, gps@, rate@, dir, nid, old(self).next_id as int),
            final(self).next_id == old(self).next_id + gps@.len(),
            final(self).nodes@ == old(self).nodes@,
            final(self).links@ == old(self).links@,
    {
        let ghost g0 = gps@;
        let mut gs = gps;
        let mut out: Vec<Pin> = Vec::new();
        while gs.len() > 0
            invariant
                out@.len() + gs@.len() == g0.len(),
                forall|j: int| 0 <= j < gs@.len() ==> gs@[j] == g0[out@.len() + j],
                pins_fit(g0, rate@),
                old(self).next_id + g0.len() < u64::MAX,
                self.next_id == old(self).next_id + out@.len(),
                pins_restored(out@, g0.subrange(0, out@.len() as int), rate@, dir, nid, old(self).next_id as int),
                self.nodes@ == old(self).nodes@,
                self.links@ == old(self).links@,
            decreases gs@.len(),
        {
            let ghost m = out@.len() as int;
            let gp = gs.remove(0);
            assert(gp == g0[m]);
            assert(mul_fits(g0[m].current_rate@, rate@));
            let GroupedPin { item_name, base_rate, current_rate, locked } = gp;
            let id = self.get_next_id();
            let mut p = Pin::new(id, dir, nid, item_name, locked, base_rate);
            p.current_rate = current_rate.mul(rate);
            out.push(p);
            proof {
                let sub = g0.subrange(0, m + 1);
                assert forall|j: int| 0 <= j < sub.len() implies {
                    &&& (#[trigger] out@[j]).direction == dir
                    &&& out@[j].node_id == nid
                    &&& out@[j].item_name == sub[j].item_name
                    &&& out@[j].locked == sub[j].locked
                    &&& out@[j].base_rate == sub[j].base_rate
                    &&& qeq(out@[j].current_rate@, qmul(sub[j].current_rate@, rate@))
                    &&& !out@[j].error
                } by {
                    if j < m {
                        assert(g0.subrange(0, m)[j] == sub[j]);
                    }
                }
            }
        }
        assert(g0.subrange(0, g0.len() as int) =~= g0);
        out
    }

    /// Restores one stored node at the group rate as a new last node; `false`
    /// (no node added) where its recipe is not found or ids run out.
    fn restore_one(&mut self, g: GroupedNode, base: FractionalNumber, rate: FractionalNumber, pos: (u32, u32), gd: Option<&GameData>) -> (r: bool)
        requires
            restorable(g, base@, rate@),
        ensures
            final(self).links@ == old(self).links@,
            r ==> final(self).nodes@.len() == old(self).nodes@.len() + 1 && final(self).nodes@.drop_last() == old(self).nodes@
                && final(self).nodes@.last().id() == old(self).next_id && restored_from(final(self).nodes@.last(), g, base@, rate@, pos),
            !r ==> final(self).nodes@ == old(self).nodes@,
            g.node_data matches GroupedNodeData::Organizer { ins, outs, .. } ==> (r <==> old(self).next_id + ins@.len() + outs@.len() + 1
                < u64::MAX),
            g.node_data matches GroupedNodeData::Sink { ins, .. } ==> (r <==> old(self).next_id + ins@.len() + 1 < u64::MAX),
            g.node_data matches GroupedNodeData::Group { ins, outs, .. } ==> (r <==> old(self).next_id + ins@.len() + outs@.len() + 1
                < u64::MAX),
            g.node_data is Craft && gd is None ==> (r <==> old(self).next_id < u64::MAX),
            g.node_data matches GroupedNodeData::Craft { recipe_name, .. } ==> (gd matches Some(d) ==> (r ==> exists|k: int|
                0 <= k < d.recipes@.len() && (#[trigger] d.recipes@[k]).name@ == recipe_name@)),
    {
        let actual = base.mul(rate);
        let GroupedNode { node_data, relative_pos: _ } = g;
        match node_data {
            GroupedNodeData::Craft { recipe_name, num_somersloop, built, .. } => {
                let mut craft = match gd {
                    Some(data) => {
                        if !ids_suffice(self.next_id, data) {
                            return false;
                        }
                        match self.add_craft_node(recipe_name.as_str(), data) {
                            Ok(_) => {},
                            Err(_) => {
                                return false;
                            },
                        }
                        let ghost prev = self.nodes@;
                        let last = self.nodes.pop().unwrap();
                        match last {
                            AppNode::Craft(c) => c,
                            other => {
                                proof {
                                    assert(false);
                                }
                                self.nodes.push(other);
                                return false;
                            },
                        }
                    },
                    None => {
                        if self.next_id == u64::MAX {
                            return false;
                        }
                        let id = self.get_next_id();
                        CraftNode::new(id, recipe_name)
                    },
                };
                craft.base.position = pos;
                craft.num_somersloop = num_somersloop;
                craft.built = built;
                proof {
                    use_type_invariant(&base);
                    use_type_invariant(&rate);
                    use_type_invariant(&actual);
                    lemma_qwf_ops(base@, rate@);
                    lemma_qcanon(actual@, qmul(base@, rate@));
                }
                if craft.rate_fits(actual) {
                    craft.update_rate(actual);
                }
                proof {
                    assert(craft_rate_restored(craft, qcanon(qmul(base@, rate@))));
                }
                self.nodes.push(AppNode::Craft(craft));
                true
            },
            GroupedNodeData::Organizer { kind, item_name, ins, outs } => {
                let need = (ins.len() as u128) + (outs.len() as u128) + 1;
                if (self.next_id as u128) + need >= 0xffff_ffff_ffff_ffffu128 {
                    return false;
                }
                let id = self.get_next_id();
                let mut org = OrganizerNode::new(id, kind, item_name);
                org.base.position = pos;
                org.base.ins = self.unstore_pins(ins, PinDirection::Input, id, rate);
                org.base.outs = self.unstore_pins(outs, PinDirection::Output, id, rate);
                self.nodes.push(AppNode::Organizer(org));
                true
            },
            GroupedNodeData::Sink { item_name, ins } => {
                let need = (ins.len() as u128) + 1;
                if (self.next_id as u128) + need >= 0xffff_ffff_ffff_ffffu128 {
                    return false;
                }
                let id = self.get_next_id();
                let mut sink = SinkNode::new(id, item_name);
                sink.base.position = pos;
                sink.base.ins = self.unstore_pins(ins, PinDirection::Input, id, rate);
                self.nodes.push(AppNode::Sink(sink));
                true
            },
            GroupedNodeData::Group { name, current_rate, nodes, links, ins, outs } => {
                let need = (ins.len() as u128) + (outs.len() as u128) + 1;
                if (self.next_id as u128) + need >= 0xffff_ffff_ffff_ffffu128 {
                    return false;
                }
                let id = self.get_next_id();
                let mut h = GroupNode::new(id);
                h.base.position = pos;
                h.name = name;
                h.current_rate = current_rate.mul(rate);
                h.grouped_nodes = nodes;
                h.grouped_links = links;
                h.base.ins = self.unstore_pins(ins, PinDirection::Input, id, rate);
                h.base.outs = self.unstore_pins(outs, PinDirection::Output, id, rate);
                self.nodes.push(AppNode::Group(h));
                true
            },
        }
    }
}


/// The link joins an output pin and an input pin of nodes at `base` or later.
pub open spec fn restored_link(nodes: Seq<AppNode>, base: int, l: Link) -> bool {
    &&& exists|n: int, i: int|
        base <= n < nodes.len() && 0 <= i < nodes[n].outs().len() && #[trigger] nodes[n].outs()[i].id == l.start_pin_id
    &&& exists|n: int, i: int|
        base <= n < nodes.len() && 0 <= i < nodes[n].ins().len() && #[trigger] nodes[n].ins()[i].id == l.end_pin_id
}

/// The node is restored from the stored node `ks[j]`.
pub open spec fn restored_at(x: AppNode, g0: Seq<GroupedNode>, bases: Seq<FractionalNumber>, ks: Seq<int>, j: int, rate: (int, int), positions: Seq<(u32, u32)>) -> bool {
    0 <= ks[j] < g0.len() && restored_from(x, g0[ks[j]], stored_rate(bases, ks[j]), rate, position_at(positions, ks[j]))
}

/// The node is restored from one of the group's stored nodes.
pub open spec fn restored_somewhere(x: AppNode, g: GroupNode, positions: Seq<(u32, u32)>) -> bool {
    exists|k: int| 0 <= k < g.grouped_nodes@.len() && #[trigger] restored_from(x, g.grouped_nodes@[k], stored_rate(g.nodes_base_rate@, k), g.current_rate@, position_at(positions, k))
}

/// The graph after ungrouping the group `g` at index `gi`: the group leaves
/// with the links at its outside pins; the other nodes forget links that no
/// longer exist; the restored nodes (ids `ids`, each restored from a stored
/// node) follow them; after the kept links come links between restored nodes.
pub open spec fn ungrouped_into(before: ProductionApp, after: ProductionApp, gi: int, g: GroupNode, positions: Seq<(u32, u32)>, ids: Seq<u64>) -> bool {
    let kept = kept_links(before.links@, outside_pin_ids(g));
    let rest = before.nodes@.remove(gi);
    &&& after.nodes@.len() == rest.len() + ids.len()
    &&& forall|i: int| 0 <= i < rest.len() ==> node_cleared(rest[i], #[trigger] after.nodes@[i], kept)
    &&& forall|i: int| rest.len() <= i < after.nodes@.len() ==> (#[trigger] after.nodes@[i]).id() == ids[i - rest.len()]
    &&& forall|i: int| rest.len() <= i < after.nodes@.len() ==> restored_somewhere(#[trigger] after.nodes@[i], g, positions)
    &&& after.links@.len() >= kept.len()
    &&& after.links@.subrange(0, kept.len() as int) == kept
    &&& forall|t: int| kept.len() <= t < after.links@.len() ==> restored_link(after.nodes@, rest.len() as int, #[trigger] after.links@[t])
}

pub proof fn lemma_links_only_trans(x: AppNode, y: AppNode, z: AppNode)
    requires
        links_only_changed(x, y),
        links_only_changed(y, z),
    ensures
        links_only_changed(x, z),
{
    assert forall|j: int| 0 <= j < x.ins().len() implies #[trigger] z.ins()[j] == (Pin { link_id: z.ins()[j].link_id, ..x.ins()[j] }) by {
        assert(y.ins()[j] == (Pin { link_id: y.ins()[j].link_id, ..x.ins()[j] }));
        assert(z.ins()[j] == (Pin { link_id: z.ins()[j].link_id, ..y.ins()[j] }));
    }
    assert forall|j: int| 0 <= j < x.outs().len() implies #[trigger] z.outs()[j] == (Pin { link_id: z.outs()[j].link_id, ..x.outs()[j] }) by {
        assert(y.outs()[j] == (Pin { link_id: y.outs()[j].link_id, ..x.outs()[j] }));
        assert(z.outs()[j] == (Pin { link_id: z.outs()[j].link_id, ..y.outs()[j] }));
    }
}

pub proof fn lemma_links_only_refl(x: AppNode)
    ensures
        links_only_changed(x, x),
{
}

/// A link update of one pin changes only links.
pub proof fn lemma_link_update(a: Seq<AppNode>, b: Seq<AppNode>, l: (int, bool, int), lid: Option<u64>)
    requires
        pin_updated(a, b, l, PinUpdate::Link(lid)),
        0 <= l.0 < a.len(),
        0 <= l.2 < a[l.0].side(l.1).len(),
    ensures
        links_only_changed(a[l.0], b[l.0]),
{
    let x = a[l.0];
    let y = b[l.0];
    assert(y.side(l.1) == x.side(l.1).update(l.2, updated_pin(x.side(l.1)[l.2], PinUpdate::Link(lid))));
    assert(y.side(!l.1) == x.side(!l.1));
    if l.1 {
        assert(y.ins() == x.ins().update(l.2, updated_pin(x.ins()[l.2], PinUpdate::Link(lid))));
        assert(y.outs() == x.outs());
    } else {
        assert(y.outs() == x.outs().update(l.2, updated_pin(x.outs()[l.2], PinUpdate::Link(lid))));
        assert(y.ins() == x.ins());
    }
}

/// Ids of the pins are kept where only links change.
pub proof fn lemma_restored_link_kept(a: Seq<AppNode>, b: Seq<AppNode>, base: int, l: Link)
    requires
        0 <= base,
        a.len() == b.len(),
        forall|n: int| 0 <= n < a.len() ==> links_only_changed(#[trigger] a[n], b[n]),
        restored_link(a, base, l),
    ensures
        restored_link(b, base, l),
{
    let (n, i) = choose|n: int, i: int| base <= n < a.len() && 0 <= i < a[n].outs().len() && #[trigger] a[n].outs()[i].id == l.start_pin_id;
    assert(links_only_changed(a[n], b[n]));
    assert(b[n].outs()[i] == (Pin { link_id: b[n].outs()[i].link_id, ..a[n].outs()[i] }));
    assert(b[n].outs()[i].id == l.start_pin_id);
    let (n2, i2) = choose|n: int, i: int| base <= n < a.len() && 0 <= i < a[n].ins().len() && #[trigger] a[n].ins()[i].id == l.end_pin_id;
    assert(links_only_changed(a[n2], b[n2]));
    assert(b[n2].ins()[i2] == (Pin { link_id: b[n2].ins()[i2].link_id, ..a[n2].ins()[i2] }));
    assert(b[n2].ins()[i2].id == l.end_pin_id);
}

impl ProductionApp {
    /// A new link from output pin `si` of node `sn` to input pin `ei` of node
    /// `en`, recorded on both pins.
    fn join_restored(&mut self, sn: usize, si: usize, en: usize, ei: usize)
        requires
            sn < old(self).nodes@.len(),
            en < old(self).nodes@.len(),
            si < old(self).nodes@[sn as int].outs().len(),
            ei < old(self).nodes@[en as int].ins().len(),
            old(self).next_id < u64::MAX,
        ensures
            final(self).next_id == old(self).next_id + 1,
            final(self).links@ == old(self).links@.push(
                Link {
                    id: old(self).next_id,
                    start_pin_id: old(self).nodes@[sn as int].outs()[si as int].id,
                    end_pin_id: old(self).nodes@[en as int].ins()[ei as int].id,
                    flow: None,
                },
            ),
            final(self).nodes@.len() == old(self).nodes@.len(),
            forall|n: int| 0 <= n < old(self).nodes@.len() ==> links_only_changed(#[trigger] old(self).nodes@[n], final(self).nodes@[n]),
            forall|n: int| 0 <= n < old(self).nodes@.len() && n != sn && n != en ==> #[trigger] final(self).nodes@[n] == old(self).nodes@[n],
    {
        let ghost a = self.nodes@;
        let sp = self.nodes[sn].pin(false, si).id;
        let ep = self.nodes[en].pin(true, ei).id;
        let lid = self.get_next_id();
        self.links.push(Link::new(lid, sp, ep));
        self.update_pin_at(sn, false, si, PinUpdate::Link(Some(lid)));
        let ghost b = self.nodes@;
        proof {
            lemma_link_update(a, b, (sn as int, false, si as int), Some(lid));
        }
        self.update_pin_at(en, true, ei, PinUpdate::Link(Some(lid)));
        proof {
            let c = self.nodes@;
            lemma_link_update(b, c, (en as int, true, ei as int), Some(lid));
            assert forall|n: int| 0 <= n < a.len() implies links_only_changed(#[trigger] a[n], c[n]) by {
                if n == sn && n == en {
                    lemma_links_only_trans(a[n], b[n], c[n]);
                } else if n == sn {
                    assert(c[n] == b[n]);
                } else if n == en {
                    assert(b[n] == a[n]);
                } else {
                    assert(c[n] == a[n]);
                }
            }
        }
    }

    /// Gives the nodes held by a group back to the graph, at the group's
    /// rate, the `k`-th at `positions[k]`, with the links between them; the
    /// group and the links at its outside pins leave. Stored crafting nodes
    /// are rebuilt from their recipes in `game_data` where it is given.
    /// Returns the ids of the restored nodes. A stored node whose recipe is
    /// not found, or for which ids run out, is left out.
    pub fn ungroup_node(&mut self, group_node_id: u64, game_data: Option<&GameData>, positions: &Vec<(u32, u32)>) -> (r: Result<Vec<u64>, String>)
        ensures
            node_index(old(self).nodes@, group_node_id) is None ==> (r matches Err(e) && e@ == "Group node "@ + int_to_decimal(group_node_id as int) + " not found"@),
            node_index(old(self).nodes@, group_node_id) matches Some(gi) && !(old(self).nodes@[gi] is Group) ==> (r matches Err(e) && e@ == "Node is not a group"@),
            r is Err ==> *final(self) == *old(self),
            node_index(old(self).nodes@, group_node_id) matches Some(gi) ==> (old(self).nodes@[gi] matches AppNode::Group(g) ==> {
                &&& (r matches Ok(ids) ==> ungrouped_into(*old(self), *final(self), gi, g, positions@, ids@))
                &&& (r is Err <==> exists|k: int| 0 <= k < g.grouped_nodes@.len() && !restorable(#[trigger] g.grouped_nodes@[k], stored_rate(g.nodes_base_rate@, k), g.current_rate@))
                &&& (r matches Err(e) ==> e@ == "Arithmetic overflow while ungrouping"@)
            }),
    {
        let gi = match self.find_node_index(group_node_id) {
            Some(i) => i,
            None => {
                let msg = concat(concat("Group node ".to_owned(), u64_to_string(group_node_id).as_str()), " not found");
                return Err(msg);
            },
        };
        let (fits, kept) = match &self.nodes[gi] {
            AppNode::Group(g) => (g.inside_restorable(), links_kept(&self.links, g)),
            _ => {
                return Err("Node is not a group".to_owned());
            },
        };
        if !fits {
            return Err("Arithmetic overflow while ungrouping".to_owned());
        }
        let ghost old_nodes = self.nodes@;
        let ghost g_old = match old_nodes[gi as int] { AppNode::Group(g) => g, _ => arbitrary() };
        let mut n: usize = 0;
        while n < self.nodes.len()
            invariant
                n <= self.nodes@.len(),
                self.nodes@.len() == old_nodes.len(),
                gi < old_nodes.len(),
                forall|i: int| 0 <= i < n ==> node_cleared(old_nodes[i], #[trigger] self.nodes@[i], kept@),
                forall|i: int| n <= i < old_nodes.len() ==> #[trigger] self.nodes@[i] == old_nodes[i],
            decreases self.nodes.len() - n,
        {
            self.nodes[n].clear_stale_links(&kept);
            n += 1;
        }
        self.links = kept;
        let ghost cleared = self.nodes@;
        assert(node_cleared(old_nodes[gi as int], cleared[gi as int], kept@));
        let group = match self.nodes.remove(gi) {
            AppNode::Group(g) => g,
            _ => {
                proof {
                    assert(false);
                }
                return Err("Node is not a group".to_owned());
            },
        };
        let ghost g0 = group.grouped_nodes@;
        let ghost base_len = self.nodes@.len() as int;
        assert(group_same_settings_view(group, g_old));
        let rate = group.current_rate;
        let GroupNode { grouped_nodes, nodes_base_rate, grouped_links, .. } = group;
        let mut gs = grouped_nodes;
        let mut new_ids: Vec<u64> = Vec::new();
        let mut placed: Vec<Option<usize>> = Vec::new();
        let ghost mut ks: Seq<int> = Seq::empty();
        let ghost rest_nodes = cleared.remove(gi as int);
        while gs.len() > 0
            invariant
                placed@.len() + gs@.len() == g0.len(),
                forall|j: int| 0 <= j < gs@.len() ==> gs@[j] == g0[placed@.len() + j],
                rest_nodes == cleared.remove(gi as int),
                base_len == rest_nodes.len(),
                forall|q: int| 0 <= q < g0.len() ==> restorable(#[trigger] g0[q], stored_rate(nodes_base_rate@, q), rate@),
                self.nodes@.len() == base_len + new_ids@.len(),
                forall|i: int| 0 <= i < base_len ==> #[trigger] self.nodes@[i] == rest_nodes[i],
                ks.len() == new_ids@.len(),
                forall|i: int| base_len <= i < self.nodes@.len() ==> (#[trigger] self.nodes@[i]).id() == new_ids@[i - base_len],
                forall|i: int| base_len <= i < self.nodes@.len() ==> restored_at(#[trigger] self.nodes@[i], g0, nodes_base_rate@, ks, i - base_len, rate@, positions@),
                forall|q: int| 0 <= q < placed@.len() ==> (#[trigger] placed@[q] matches Some(p) ==> base_len <= p < self.nodes@.len()),
                self.links@ == kept@,
            decreases gs@.len(),
        {
            let k = placed.len();
            let ghost prev = self.nodes@;
            let ghost prev_placed = placed@;
            let g = gs.remove(0);
            let base = if k < nodes_base_rate.len() { nodes_base_rate[k] } else { FractionalNumber::zero() };
            let pos = if k < positions.len() { positions[k] } else { (0u32, 0u32) };
            let id_before = self.next_id;
            assert(g == g0[k as int]);
            assert(restorable(g0[k as int], stored_rate(nodes_base_rate@, k as int), rate@));
            assert(pos == position_at(positions@, k as int));
            if self.restore_one(g, base, rate, pos, game_data) {
                placed.push(Some(self.nodes.len() - 1));
                new_ids.push(id_before);
                proof {
                    ks = ks.push(k as int);
                    assert forall|i: int| 0 <= i < base_len implies #[trigger] self.nodes@[i] == rest_nodes[i] by {
                        assert(self.nodes@.drop_last()[i] == self.nodes@[i]);
                    }
                    assert forall|i: int| base_len <= i < self.nodes@.len() implies (#[trigger] self.nodes@[i]).id() == new_ids@[i - base_len] by {
                        if i < prev.len() {
                            assert(self.nodes@.drop_last()[i] == self.nodes@[i]);
                            assert(prev[i] == self.nodes@[i]);
                        }
                    }
                    assert forall|i: int| base_len <= i < self.nodes@.len() implies restored_at(#[trigger] self.nodes@[i], g0, nodes_base_rate@, ks, i - base_len, rate@, positions@) by {
                        if i < prev.len() {
                            assert(self.nodes@.drop_last()[i] == self.nodes@[i]);
                            assert(prev[i] == self.nodes@[i]);
                            assert(ks[i - base_len] == ks.drop_last()[i - base_len]);
                        } else {
                            assert(ks[i - base_len] == k);
                        }
                    }
                    assert forall|q: int| 0 <= q < placed@.len() implies (#[trigger] placed@[q] matches Some(p) ==> base_len <= p < self.nodes@.len()) by {
                        if q < prev_placed.len() {
                            assert(placed@[q] == prev_placed[q]);
                        }
                    }
                }
            } else {
                placed.push(None);
                proof {
                    assert forall|q: int| 0 <= q < placed@.len() implies (#[trigger] placed@[q] matches Some(p) ==> base_len <= p < self.nodes@.len()) by {
                        if q < prev_placed.len() {
                            assert(placed@[q] == prev_placed[q]);
                        }
                    }
                }
            }
        }
        let mut t: usize = 0;
        while t < grouped_links.len()
            invariant
                t <= grouped_links@.len(),
                placed@.len() == g0.len(),
                self.nodes@.len() == base_len + new_ids@.len(),
                forall|i: int| 0 <= i < base_len ==> #[trigger] self.nodes@[i] == rest_nodes[i],
                rest_nodes == cleared.remove(gi as int),
                base_len == rest_nodes.len(),
                ks.len() == new_ids@.len(),
                forall|i: int| base_len <= i < self.nodes@.len() ==> (#[trigger] self.nodes@[i]).id() == new_ids@[i - base_len],
                forall|i: int| base_len <= i < self.nodes@.len() ==> restored_at(#[trigger] self.nodes@[i], g0, nodes_base_rate@, ks, i - base_len, rate@, positions@),
                forall|q: int| 0 <= q < g0.len() ==> (#[trigger] placed@[q] matches Some(p) ==> base_len <= p < self.nodes@.len()),
                self.links@.len() >= kept@.len(),
                self.links@.subrange(0, kept@.len() as int) == kept@,
                forall|q: int| kept@.len() <= q < self.links@.len() ==> restored_link(self.nodes@, base_len, #[trigger] self.links@[q]),
            decreases grouped_links.len() - t,
        {
            let gl = grouped_links[t];
            if gl.start_node_idx < placed.len() && gl.end_node_idx < placed.len() {
                match (placed[gl.start_node_idx], placed[gl.end_node_idx]) {
                    (Some(sn), Some(en)) => {
                        assert(placed@[gl.start_node_idx as int] matches Some(p) ==> base_len <= p < self.nodes@.len());
                        assert(placed@[gl.end_node_idx as int] matches Some(p) ==> base_len <= p < self.nodes@.len());
                        if gl.start_pin_idx < self.nodes[sn].side_len(false) && gl.end_pin_idx < self.nodes[en].side_len(true)
                            && self.next_id < u64::MAX {
                            let ghost a = self.nodes@;
                            let ghost la = self.links@;
                            self.join_restored(sn, gl.start_pin_idx, en, gl.end_pin_idx);
                            proof {
                                let b = self.nodes@;
                                assert forall|i: int| base_len <= i < b.len() implies restored_at(#[trigger] b[i], g0, nodes_base_rate@, ks, i - base_len, rate@, positions@) by {
                                    assert(links_only_changed(a[i], b[i]));
                                    assert(restored_at(a[i], g0, nodes_base_rate@, ks, i - base_len, rate@, positions@));
                                    lemma_restored_links_only(a[i], b[i], g0[ks[i - base_len]], stored_rate(nodes_base_rate@, ks[i - base_len]), rate@, position_at(positions@, ks[i - base_len]));
                                }
                                assert forall|i: int| base_len <= i < b.len() implies (#[trigger] b[i]).id() == new_ids@[i - base_len] by {
                                    assert(links_only_changed(a[i], b[i]));
                                }
                                assert forall|i: int| 0 <= i < base_len implies #[trigger] b[i] == rest_nodes[i] by {
                                    assert(b[i] == a[i]);
                                }
                                assert(self.links@.subrange(0, kept@.len() as int) =~= la.subrange(0, kept@.len() as int));
                                assert forall|q: int| kept@.len() <= q < self.links@.len() implies restored_link(b, base_len, #[trigger] self.links@[q]) by {
                                    if q < la.len() {
                                        assert(self.links@[q] == la[q]);
                                        lemma_restored_link_kept(a, b, base_len, la[q]);
                                    } else {
                                        let l = self.links@[q];
                                        assert(b[sn as int].outs()[gl.start_pin_idx as int] == (Pin { link_id: b[sn as int].outs()[gl.start_pin_idx as int].link_id, ..a[sn as int].outs()[gl.start_pin_idx as int] }));
                                        assert(b[sn as int].outs()[gl.start_pin_idx as int].id == l.start_pin_id);
                                        assert(b[en as int].ins()[gl.end_pin_idx as int] == (Pin { link_id: b[en as int].ins()[gl.end_pin_idx as int].link_id, ..a[en as int].ins()[gl.end_pin_idx as int] }));
                                        assert(b[en as int].ins()[gl.end_pin_idx as int].id == l.end_pin_id);
                                    }
                                }
                            }
                        }
                    },
                    _ => {},
                }
            }
            t += 1;
        }
        proof {
            let rest = old_nodes.remove(gi as int);
            assert forall|i: int| 0 <= i < rest.len() implies node_cleared(rest[i], #[trigger] self.nodes@[i], kept@) by {
                if i < gi {
                    assert(cleared.remove(gi as int)[i] == cleared[i]);
                } else {
                    assert(cleared.remove(gi as int)[i] == cleared[i + 1]);
                }
            }
            assert forall|i: int| rest.len() <= i < self.nodes@.len() implies restored_somewhere(#[trigger] self.nodes@[i], g_old, positions@) by {
                assert(restored_at(self.nodes@[i], g0, nodes_base_rate@, ks, i - base_len, rate@, positions@));
            }
        }
        Ok(new_ids)
    }
}

/// The fields of two group nodes other than their pins agree.
pub open spec fn group_same_settings_view(a: GroupNode, b: GroupNode) -> bool {
    &&& a.grouped_nodes@ == b.grouped_nodes@
    &&& a.nodes_base_rate@ == b.nodes_base_rate@
    &&& a.current_rate == b.current_rate
}

} // verus!
