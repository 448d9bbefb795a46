//! Grouping a selection of nodes into one group node: which nodes are taken,
//! which links stay inside the group and which cross its border.
use vstd::prelude::*;
use crate::app_node::AppNode;
use crate::link::Link;
use crate::node::{GroupedLink, GroupedNode, GroupedNodeData, GroupedPin};
use crate::pin::Pin;
use crate::production_app::{ProductionApp, is_first_node, node_index, pin_loc};
use crate::node::{GroupNode, NodeKind};
use crate::fractional_number::FractionalNumber;
use crate::group::{counted_side, base_rate_at, grouped_totals, machine_totals, sorted_keys, net_pins, ids_from, grouped_totals_fit, net_pins_fit,
    machine_totals_fit};
use crate::assoc::canon_totals;
use crate::assoc::{assoc_eq, assoc_view};
use crate::pin::PinDirection;
use crate::rational::{qone, qzero};
use crate::node_edit::clone_item;
use crate::graph_edit::{first_with_id, has_link_id, unlinked, link_only, lemma_link_only_refl, lemma_link_only_trans, lemma_unlinked_link_only, link_deleted};

verus! {

/// Node `n` is taken by a selection of ids: it is the first node with its id,
/// and that id is selected.
pub open spec fn chosen(nodes: Seq<AppNode>, ids: Seq<u64>, n: int) -> bool {
    0 <= n < nodes.len() && is_first_node(nodes, nodes[n].id(), n) && ids.contains(nodes[n].id())
}

/// `sel` lists, in increasing order, exactly the nodes taken by `ids`.
pub open spec fn selection(nodes: Seq<AppNode>, ids: Seq<u64>, sel: Seq<usize>) -> bool {
    &&& forall|k: int| 0 <= k < sel.len() ==> chosen(nodes, ids, #[trigger] sel[k] as int)
    &&& forall|k: int, j: int| 0 <= k < j < sel.len() ==> #[trigger] sel[k] < #[trigger] sel[j]
    &&& forall|n: int| chosen(nodes, ids, n) ==> exists|k: int| 0 <= k < sel.len() && #[trigger] sel[k] == n
}

/// Position of the first occurrence of `id` in `ids`.
pub open spec fn first_pos(ids: Seq<u64>, id: u64) -> int
    decreases ids.len(),
{
    if ids.len() == 0 {
        -1
    } else if ids.last() == id {
        let p = first_pos(ids.drop_last(), id);
        if p >= 0 { p } else { ids.len() - 1 }
    } else {
        first_pos(ids.drop_last(), id)
    }
}

/// The id of the node holding a located pin.
pub open spec fn holder_id(nodes: Seq<AppNode>, l: (int, bool, int)) -> u64 {
    nodes[l.0].id()
}

/// Both ends of the link are found and held by selected nodes.
pub open spec fn link_inside(nodes: Seq<AppNode>, ids: Seq<u64>, l: Link) -> bool {
    &&& pin_loc(nodes, l.start_pin_id) is Some
    &&& pin_loc(nodes, l.end_pin_id) is Some
    &&& ids.contains(holder_id(nodes, pin_loc(nodes, l.start_pin_id).unwrap()))
    &&& ids.contains(holder_id(nodes, pin_loc(nodes, l.end_pin_id).unwrap()))
}

/// Both ends of the link are found, and exactly one is held by a selected node.
pub open spec fn link_across(nodes: Seq<AppNode>, ids: Seq<u64>, l: Link) -> bool {
    &&& pin_loc(nodes, l.start_pin_id) is Some
    &&& pin_loc(nodes, l.end_pin_id) is Some
    &&& ids.contains(holder_id(nodes, pin_loc(nodes, l.start_pin_id).unwrap()))
        != ids.contains(holder_id(nodes, pin_loc(nodes, l.end_pin_id).unwrap()))
}

/// A link inside the group, by the positions of its end nodes in `ids` and the
/// indices of its end pins on their sides.
pub open spec fn inner_link(nodes: Seq<AppNode>, ids: Seq<u64>, l: Link) -> GroupedLink {
    let s = pin_loc(nodes, l.start_pin_id).unwrap();
    let e = pin_loc(nodes, l.end_pin_id).unwrap();
    GroupedLink {
        start_node_idx: first_pos(ids, holder_id(nodes, s)) as usize,
        start_pin_idx: s.2 as usize,
        end_node_idx: first_pos(ids, holder_id(nodes, e)) as usize,
        end_pin_idx: e.2 as usize,
    }
}

/// The links inside the group, in link order.
pub open spec fn inner_links(nodes: Seq<AppNode>, ids: Seq<u64>, links: Seq<Link>) -> Seq<GroupedLink>
    decreases links.len(),
{
    if links.len() == 0 {
        Seq::empty()
    } else {
        let rest = inner_links(nodes, ids, links.drop_last());
        if link_inside(nodes, ids, links.last()) {
            rest.push(inner_link(nodes, ids, links.last()))
        } else {
            rest
        }
    }
}

/// The ids of the links that cross the group's border, in link order.
pub open spec fn border_links(nodes: Seq<AppNode>, ids: Seq<u64>, links: Seq<Link>) -> Seq<u64>
    decreases links.len(),
{
    if links.len() == 0 {
        Seq::empty()
    } else {
        let rest = border_links(nodes, ids, links.drop_last());
        if link_across(nodes, ids, links.last()) {
            rest.push(links.last().id)
        } else {
            rest
        }
    }
}

/// The stored form of a pin: its item, rates and lock.
pub open spec fn pins_stored(gp: Seq<GroupedPin>, ps: Seq<Pin>) -> bool {
    &&& gp.len() == ps.len()
    &&& forall|i: int| 0 <= i < ps.len() ==> {
        &&& (#[trigger] gp[i]).item_name == ps[i].item_name
        &&& gp[i].base_rate == ps[i].base_rate
        &&& gp[i].current_rate == ps[i].current_rate
        &&& gp[i].locked == ps[i].locked
    }
}

/// `g` stores node `n` at offset `rel`; where `whole` is false, a stored group
/// does not yet hold the nodes and links inside it.
pub open spec fn stored_as(g: GroupedNode, n: AppNode, rel: (u32, u32), whole: bool) -> bool {
    &&& g.relative_pos == rel
    &&& match (g.node_data, n) {
        (
            GroupedNodeData::Craft {
                recipe_name,
                current_rate,
                num_somersloop,
                built,
                building_name,
                recipe_power,
                power_exponent,
                somersloop_power_exponent,
                somersloop_mult,
                variable_power,
                ins,
                outs,
            },
            AppNode::Craft(c),
        ) => {
            &&& recipe_name == c.recipe_name
            &&& current_rate == c.current_rate
            &&& num_somersloop == c.num_somersloop
            &&& built == c.built
            &&& building_name == c.building_name
            &&& recipe_power == c.recipe_power
            &&& power_exponent == c.power_exponent
            &&& somersloop_power_exponent == c.somersloop_power_exponent
            &&& somersloop_mult == c.somersloop_mult
            &&& variable_power == c.variable_power
            &&& pins_stored(ins@, c.base.ins@)
            &&& pins_stored(outs@, c.base.outs@)
        },
        (GroupedNodeData::Organizer { kind, item_name, ins, outs }, AppNode::Organizer(o)) => {
            &&& kind == o.base.kind
            &&& item_name == o.item_name
            &&& pins_stored(ins@, o.base.ins@)
            &&& pins_stored(outs@, o.base.outs@)
        },
        (GroupedNodeData::Sink { item_name, ins }, AppNode::Sink(s)) => {
            &&& item_name == s.item_name
            &&& pins_stored(ins@, s.base.ins@)
        },
        (GroupedNodeData::Group { name, current_rate, nodes, links, ins, outs }, AppNode::Group(gr)) => {
            &&& name == gr.name
            &&& current_rate == gr.current_rate
            &&& (if whole {
                nodes@ == gr.grouped_nodes@ && links@ == gr.grouped_links@
            } else {
                nodes@.len() == 0 && links@.len() == 0
            })
            &&& pins_stored(ins@, gr.base.ins@)
            &&& pins_stored(outs@, gr.base.outs@)
        },
        _ => false,
    }
}

/// The rate of a node at group rate one: a crafting node's or a group's
/// current rate, zero for the others.
pub open spec fn stored_base_rate(n: AppNode) -> (int, int) {
    match n {
        AppNode::Craft(c) => c.current_rate@,
        AppNode::Group(g) => g.current_rate@,
        _ => (0, 1),
    }
}

impl ProductionApp {
    /// The nodes taken by a selection of ids, in increasing index order.
    pub fn selected_indices(&self, node_ids: &[u64]) -> (r: Vec<usize>)
        ensures
            selection(self.nodes@, node_ids@, r@),
    {
        let ghost nodes = self.nodes@;
        let mut sel: Vec<usize> = Vec::new();
        let mut n: usize = 0;
        while n < self.nodes.len()
            invariant
                n <= self.nodes.len(),
                nodes == self.nodes@,
                forall|k: int| 0 <= k < sel@.len() ==> chosen(nodes, node_ids@, #[trigger] sel@[k] as int) && sel@[k] < n,
                forall|k: int, j: int| 0 <= k < j < sel@.len() ==> #[trigger] sel@[k] < #[trigger] sel@[j],
                forall|m: int| 0 <= m < n && chosen(nodes, node_ids@, m) ==> exists|k: int| 0 <= k < sel@.len() && #[trigger] sel@[k] == m,
            decreases self.nodes.len() - n,
        {
            let id = self.nodes[n].node_id();
            let mut first = true;
            let mut j: usize = 0;
            while j < n
                invariant
                    j <= n,
                    n < nodes.len(),
                    nodes == self.nodes@,
                    id == nodes[n as int].id(),
                    first == forall|i: int| 0 <= i < j ==> (#[trigger] nodes[i]).id() != id,
                decreases n - j,
            {
                if self.nodes[j].node_id() == id {
                    first = false;
                }
                j += 1;
            }
            let mut wanted = false;
            let mut q: usize = 0;
            while q < node_ids.len()
                invariant
                    q <= node_ids.len(),
                    wanted == exists|i: int| 0 <= i < q && node_ids@[i] == id,
                decreases node_ids.len() - q,
            {
                if node_ids[q] == id {
                    wanted = true;
                }
                q += 1;
            }
            assert(first && wanted <==> chosen(nodes, node_ids@, n as int));
            if first && wanted {
                let ghost before = sel@;
                sel.push(n);
                assert forall|m: int| 0 <= m < n + 1 && chosen(nodes, node_ids@, m) implies exists|k: int|
                    0 <= k < sel@.len() && #[trigger] sel@[k] == m by {
                    if m == n {
                        assert(sel@[before.len() as int] == m);
                    } else {
                        let k = choose|k: int| 0 <= k < before.len() && #[trigger] before[k] == m;
                        assert(sel@[k] == m);
                    }
                }
            }
            n += 1;
        }
        sel
    }
}


/// `first_pos` is the least index holding the id, or -1 when there is none.
pub proof fn lemma_first_pos(ids: Seq<u64>, id: u64)
    ensures
        first_pos(ids, id) == -1 ==> !ids.contains(id),
        first_pos(ids, id) != -1 ==> 0 <= first_pos(ids, id) < ids.len() && ids[first_pos(ids, id)] == id
            && forall|i: int| 0 <= i < first_pos(ids, id) ==> ids[i] != id,
    decreases ids.len(),
{
    if ids.len() > 0 {
        let d = ids.drop_last();
        lemma_first_pos(d, id);
        if first_pos(d, id) == -1 {
            assert forall|i: int| 0 <= i < ids.len() - 1 implies ids[i] != id by {
                assert(d[i] == ids[i]);
                if ids[i] == id {
                    assert(d.contains(id));
                }
            }
        } else {
            assert(d[first_pos(d, id)] == ids[first_pos(d, id)]);
            assert forall|i: int| 0 <= i < first_pos(d, id) implies ids[i] != id by {
                assert(d[i] == ids[i]);
            }
        }
        if first_pos(ids, id) == -1 {
            assert forall|i: int| 0 <= i < ids.len() implies ids[i] != id by {
                if i < ids.len() - 1 {
                    assert(d[i] == ids[i]);
                    if ids[i] == id {
                        assert(d.contains(id));
                    }
                }
            }
        }
    }
}

/// Position of the first occurrence of `id`, which occurs.
fn position_of(ids: &[u64], id: u64) -> (r: usize)
    requires
        ids@.contains(id),
    ensures
        r == first_pos(ids@, id),
{
    proof {
        lemma_first_pos(ids@, id);
    }
    let mut q: usize = 0;
    while ids[q] != id
        invariant
            q < ids.len(),
            ids@.contains(id),
            first_pos(ids@, id) != -1,
            q <= first_pos(ids@, id),
            0 <= first_pos(ids@, id) < ids@.len() && ids@[first_pos(ids@, id)] == id,
            forall|i: int| 0 <= i < first_pos(ids@, id) ==> ids@[i] != id,
        decreases first_pos(ids@, id) - q,
    {
        q += 1;
    }
    q
}

fn contains_id(ids: &[u64], id: u64) -> (r: bool)
    ensures
        r == ids@.contains(id),
{
    let mut q: usize = 0;
    while q < ids.len()
        invariant
            q <= ids.len(),
            forall|i: int| 0 <= i < q ==> ids@[i] != id,
        decreases ids.len() - q,
    {
        if ids[q] == id {
            return true;
        }
        q += 1;
    }
    false
}

impl ProductionApp {
    /// The links inside a selection (by positions in `node_ids` and pin
    /// indices), and the ids of the links that cross its border.
    pub fn classify_links(&self, node_ids: &[u64]) -> (r: (Vec<GroupedLink>, Vec<u64>))
        ensures
            r.0@ == inner_links(self.nodes@, node_ids@, self.links@),
            r.1@ == border_links(self.nodes@, node_ids@, self.links@),
    {
        let ghost nodes = self.nodes@;
        let ghost links = self.links@;
        let mut inner: Vec<GroupedLink> = Vec::new();
        let mut border: Vec<u64> = Vec::new();
        let mut k: usize = 0;
        assert(links.subrange(0, 0) =~= Seq::<Link>::empty());
        while k < self.links.len()
            invariant
                k <= self.links.len(),
                nodes == self.nodes@,
                links == self.links@,
                inner@ == inner_links(nodes, node_ids@, links.subrange(0, k as int)),
                border@ == border_links(nodes, node_ids@, links.subrange(0, k as int)),
            decreases self.links.len() - k,
        {
            let ghost pre = links.subrange(0, k as int);
            let ghost next = links.subrange(0, k as int + 1);
            assert(next.drop_last() =~= pre);
            assert(next.last() == links[k as int]);
            let l = self.links[k];
            let s = self.locate_pin(l.start_pin_id);
            let e = self.locate_pin(l.end_pin_id);
            match (s, e) {
                (Some((sn, _, si)), Some((en, _, ei))) => {
                    let sid = self.nodes[sn].node_id();
                    let eid = self.nodes[en].node_id();
                    let s_in = contains_id(node_ids, sid);
                    let e_in = contains_id(node_ids, eid);
                    if s_in && e_in {
                        let sp = position_of(node_ids, sid);
                        let ep = position_of(node_ids, eid);
                        inner.push(GroupedLink { start_node_idx: sp, start_pin_idx: si, end_node_idx: ep, end_pin_idx: ei });
                    } else if s_in || e_in {
                        border.push(l.id);
                    }
                },
                _ => {},
            }
            k += 1;
        }
        assert(links.subrange(0, links.len() as int) =~= links);
        (inner, border)
    }
}


/// The offset given for the `k`-th taken node, or zero.
pub open spec fn offset_at(offsets: Seq<(u32, u32)>, k: int) -> (u32, u32) {
    if 0 <= k < offsets.len() { offsets[k] } else { (0u32, 0u32) }
}

/// The group's totals per item and its outside pins (ids from `first_id`)
/// follow from the nodes it holds.
pub open spec fn pins_summarised(g: GroupNode, first_id: int) -> bool {
    &&& assoc_eq(assoc_view(g.inputs@), grouped_totals(g.grouped_nodes@, true))
    &&& assoc_eq(assoc_view(g.outputs@), grouped_totals(g.grouped_nodes@, false))
    &&& exists|kin: Seq<Seq<char>>, kout: Seq<Seq<char>>|
        #![trigger sorted_keys(kin, assoc_view(g.inputs@)), sorted_keys(kout, assoc_view(g.outputs@))]
        sorted_keys(kin, assoc_view(g.inputs@)) && sorted_keys(kout, assoc_view(g.outputs@))
            && net_pins(kin, assoc_view(g.inputs@), assoc_view(g.outputs@), g.base.ins@, PinDirection::Input, g.base.id)
            && net_pins(kout, assoc_view(g.outputs@), assoc_view(g.inputs@), g.base.outs@, PinDirection::Output, g.base.id)
    &&& ids_from(g.base.ins@, first_id)
    &&& ids_from(g.base.outs@, first_id + g.base.ins@.len())
}

/// The group's machine counts follow from the nodes it holds.
pub open spec fn details_current(g: GroupNode) -> bool {
    &&& assoc_eq(assoc_view(g.total_machines@), machine_totals(g.grouped_nodes@, g.nodes_base_rate@, g.current_rate@, false))
    &&& assoc_eq(assoc_view(g.built_machines@), machine_totals(g.grouped_nodes@, g.nodes_base_rate@, g.current_rate@, true))
    &&& g.detailed_sinked_points@.len() == 0
}

/// A group of the nodes `gn` at base rates `rs` can be made at rate one,
/// pin ids from `first`: its totals, its pins and its machine counts fit in
/// 64-bit integers.
pub open spec fn group_fits(gn: Seq<GroupedNode>, rs: Seq<FractionalNumber>, first: int) -> bool {
    &&& grouped_totals_fit(gn)
    &&& net_pins_fit(canon_totals(grouped_totals(gn, true)), canon_totals(grouped_totals(gn, false)), first)
    &&& machine_totals_fit(gn, rs, qone())
}

/// `gn` and `rs` are the stored forms and base rates of the nodes `sel` of
/// `nodes`.
pub open spec fn stored_selection(
    gn: Seq<GroupedNode>,
    rs: Seq<FractionalNumber>,
    nodes: Seq<AppNode>,
    sel: Seq<usize>,
    offsets: Seq<(u32, u32)>,
) -> bool {
    &&& gn.len() == sel.len()
    &&& rs.len() == sel.len()
    &&& forall|k: int| 0 <= k < sel.len() ==> stored_as(#[trigger] gn[k], nodes[sel[k] as int], offset_at(offsets, k), false)
    &&& forall|k: int| 0 <= k < sel.len() ==> (#[trigger] rs[k])@ == stored_base_rate(nodes[sel[k] as int])
}

/// Grouping the nodes that `ids` take from `nodes` makes a total, a pin or a
/// machine count that does not fit in 64-bit integers, pin ids from `first`.
pub open spec fn grouping_overflows(nodes: Seq<AppNode>, ids: Seq<u64>, offsets: Seq<(u32, u32)>, first: int) -> bool {
    exists|sel: Seq<usize>, gn: Seq<GroupedNode>, rs: Seq<FractionalNumber>|
        selection(nodes, ids, sel) && #[trigger] stored_selection(gn, rs, nodes, sel, offsets) && !group_fits(gn, rs, first)
}

/// What of a stored node the group's totals read: its counted pins and, for
/// a crafting node, its building and whether it is built.
pub open spec fn grouped_sig(g: GroupedNode) -> (Seq<GroupedPin>, Seq<GroupedPin>, Option<(String, bool)>) {
    (
        counted_side(g, true),
        counted_side(g, false),
        match g.node_data {
            GroupedNodeData::Craft { building_name, built, .. } => Some((building_name, built)),
            _ => None,
        },
    )
}

/// Two increasing lists of the nodes taken by `ids` agree.
proof fn lemma_selection_prefix(nodes: Seq<AppNode>, ids: Seq<u64>, s1: Seq<usize>, s2: Seq<usize>, k: int)
    requires
        selection(nodes, ids, s1),
        selection(nodes, ids, s2),
        0 <= k <= s1.len(),
        k <= s2.len(),
    ensures
        forall|i: int| 0 <= i < k ==> s1[i] == s2[i],
    decreases k,
{
    if k > 0 {
        lemma_selection_prefix(nodes, ids, s1, s2, k - 1);
        let a = s1[k - 1];
        let b = s2[k - 1];
        if a < b {
            assert(chosen(nodes, ids, s1[k - 1] as int));
            let j = choose|j: int| 0 <= j < s2.len() && #[trigger] s2[j] == a as int;
            if j < k - 1 {
                assert(s1[j] < s1[k - 1]);
            } else if j > k - 1 {
                assert(s2[k - 1] < s2[j]);
            }
        } else if b < a {
            assert(chosen(nodes, ids, s2[k - 1] as int));
            let j = choose|j: int| 0 <= j < s1.len() && #[trigger] s1[j] == b as int;
            if j < k - 1 {
                assert(s2[j] < s2[k - 1]);
            } else if j > k - 1 {
                assert(s1[k - 1] < s1[j]);
            }
        }
    }
}

/// The nodes taken by `ids` are listed in one way only.
proof fn lemma_selection_unique(nodes: Seq<AppNode>, ids: Seq<u64>, s1: Seq<usize>, s2: Seq<usize>)
    requires
        selection(nodes, ids, s1),
        selection(nodes, ids, s2),
    ensures
        s1 == s2,
{
    if s1.len() < s2.len() {
        lemma_selection_prefix(nodes, ids, s1, s2, s1.len() as int);
        let n = s1.len() as int;
        assert(chosen(nodes, ids, s2[n] as int));
        let j = choose|j: int| 0 <= j < s1.len() && #[trigger] s1[j] == s2[n] as int;
        assert(s2[j] < s2[n]);
    } else if s2.len() < s1.len() {
        lemma_selection_prefix(nodes, ids, s2, s1, s2.len() as int);
        let n = s2.len() as int;
        assert(chosen(nodes, ids, s1[n] as int));
        let j = choose|j: int| 0 <= j < s2.len() && #[trigger] s2[j] == s1[n] as int;
        assert(s1[j] < s1[n]);
    } else {
        lemma_selection_prefix(nodes, ids, s1, s2, s1.len() as int);
        assert(s1 =~= s2);
    }
}

/// Pins stored from the same pins are the same.
proof fn lemma_pins_stored_same(a: Seq<GroupedPin>, b: Seq<GroupedPin>, ps: Seq<Pin>)
    requires
        pins_stored(a, ps),
        pins_stored(b, ps),
    ensures
        a == b,
{
    assert forall|i: int| 0 <= i < a.len() implies a[i] == b[i] by {
        assert(a[i].item_name == ps[i].item_name);
    }
    assert(a =~= b);
}

/// Two stored forms of one node read the same to the group's totals.
proof fn lemma_stored_sig(g1: GroupedNode, g2: GroupedNode, n: AppNode, r1: (u32, u32), r2: (u32, u32))
    requires
        stored_as(g1, n, r1, false),
        stored_as(g2, n, r2, false),
    ensures
        grouped_sig(g1) == grouped_sig(g2),
{
    match (g1.node_data, g2.node_data, n) {
        (GroupedNodeData::Craft { ins: i1, outs: o1, .. }, GroupedNodeData::Craft { ins: i2, outs: o2, .. }, AppNode::Craft(c)) => {
            lemma_pins_stored_same(i1@, i2@, c.base.ins@);
            lemma_pins_stored_same(o1@, o2@, c.base.outs@);
        },
        (GroupedNodeData::Group { ins: i1, outs: o1, .. }, GroupedNodeData::Group { ins: i2, outs: o2, .. }, AppNode::Group(c)) => {
            lemma_pins_stored_same(i1@, i2@, c.base.ins@);
            lemma_pins_stored_same(o1@, o2@, c.base.outs@);
        },
        (GroupedNodeData::Sink { ins: i1, .. }, GroupedNodeData::Sink { ins: i2, .. }, AppNode::Sink(c)) => {
            lemma_pins_stored_same(i1@, i2@, c.base.ins@);
        },
        _ => {},
    }
}

/// The group's totals read only what `grouped_sig` and the base rates give.
proof fn lemma_sig_totals(a: Seq<GroupedNode>, b: Seq<GroupedNode>, ra: Seq<FractionalNumber>, rb: Seq<FractionalNumber>, rate: (int, int))
    requires
        a.len() == b.len(),
        forall|k: int| 0 <= k < a.len() ==> grouped_sig(#[trigger] a[k]) == grouped_sig(b[k]),
        forall|k: int| 0 <= k < a.len() ==> #[trigger] base_rate_at(ra, k) == base_rate_at(rb, k),
    ensures
        grouped_totals(a, true) == grouped_totals(b, true),
        grouped_totals(a, false) == grouped_totals(b, false),
        grouped_totals_fit(a) == grouped_totals_fit(b),
        machine_totals(a, ra, rate, true) == machine_totals(b, rb, rate, true),
        machine_totals(a, ra, rate, false) == machine_totals(b, rb, rate, false),
        machine_totals_fit(a, ra, rate) == machine_totals_fit(b, rb, rate),
    decreases a.len(),
{
    if a.len() > 0 {
        let n = a.len() - 1;
        assert forall|k: int| 0 <= k < a.drop_last().len() implies grouped_sig(#[trigger] a.drop_last()[k]) == grouped_sig(b.drop_last()[k]) by {
            assert(grouped_sig(a[k]) == grouped_sig(b[k]));
        }
        lemma_sig_totals(a.drop_last(), b.drop_last(), ra, rb, rate);
        assert(grouped_sig(a[n]) == grouped_sig(b[n]));
        assert(base_rate_at(ra, n) == base_rate_at(rb, n));
        assert(a.last() == a[n] && b.last() == b[n]);
    }
}

/// Whether a selection's group fits does not depend on which stored form of
/// it is looked at.
proof fn lemma_stored_fits_same(
    gn1: Seq<GroupedNode>,
    rs1: Seq<FractionalNumber>,
    gn2: Seq<GroupedNode>,
    rs2: Seq<FractionalNumber>,
    nodes: Seq<AppNode>,
    sel: Seq<usize>,
    offsets: Seq<(u32, u32)>,
    first: int,
)
    requires
        stored_selection(gn1, rs1, nodes, sel, offsets),
        stored_selection(gn2, rs2, nodes, sel, offsets),
    ensures
        group_fits(gn1, rs1, first) == group_fits(gn2, rs2, first),
{
    assert forall|k: int| 0 <= k < gn1.len() implies grouped_sig(#[trigger] gn1[k]) == grouped_sig(gn2[k]) by {
        lemma_stored_sig(gn1[k], gn2[k], nodes[sel[k] as int], offset_at(offsets, k), offset_at(offsets, k));
    }
    assert forall|k: int| 0 <= k < gn1.len() implies #[trigger] base_rate_at(rs1, k) == base_rate_at(rs2, k) by {
        assert(rs1[k]@ == stored_base_rate(nodes[sel[k] as int]));
        assert(rs2[k]@ == stored_base_rate(nodes[sel[k] as int]));
    }
    lemma_sig_totals(gn1, gn2, rs1, rs2, qone());
}

/// `g` is the group made of the nodes `sel` of `nodes` (with `whole` as in
/// `stored_as`), with the inside links `inner`, at rate one.
pub open spec fn group_made(
    g: GroupNode,
    nodes: Seq<AppNode>,
    sel: Seq<usize>,
    offsets: Seq<(u32, u32)>,
    inner: Seq<GroupedLink>,
    gid: u64,
    whole: bool,
) -> bool {
    &&& g.base.id == gid
    &&& g.base.kind == NodeKind::Group
    &&& g.name@.len() == 0
    &&& g.current_rate@ == qone()
    &&& g.grouped_nodes@.len() == sel.len()
    &&& g.nodes_base_rate@.len() == sel.len()
    &&& forall|k: int| 0 <= k < sel.len() ==> stored_as(#[trigger] g.grouped_nodes@[k], nodes[sel[k] as int], offset_at(offsets, k), whole)
    &&& forall|k: int| 0 <= k < sel.len() ==> (#[trigger] g.nodes_base_rate@[k])@ == stored_base_rate(nodes[sel[k] as int])
    &&& g.grouped_links@ == inner
    &&& pins_summarised(g, gid + 1)
    &&& details_current(g)
}

/// Stores pins.
fn store_pins(ps: &Vec<Pin>) -> (r: Vec<GroupedPin>)
    ensures
        pins_stored(r@, ps@),
{
    let mut out: Vec<GroupedPin> = Vec::new();
    let mut i: usize = 0;
    while i < ps.len()
        invariant
            i <= ps.len(),
            out@.len() == i,
            forall|j: int| 0 <= j < i ==> {
                &&& (#[trigger] out@[j]).item_name == ps@[j].item_name
                &&& out@[j].base_rate == ps@[j].base_rate
                &&& out@[j].current_rate == ps@[j].current_rate
                &&& out@[j].locked == ps@[j].locked
            },
        decreases ps.len() - i,
    {
        let p = &ps[i];
        out.push(GroupedPin {
            item_name: clone_item(&p.item_name),
            base_rate: p.base_rate,
            current_rate: p.current_rate,
            locked: p.locked,
        });
        i += 1;
    }
    out
}

/// Stores a node at an offset; a group is stored without its inside nodes
/// and links. Also gives the node's rate at group rate one.
fn store_node(n: &AppNode, rel: (u32, u32)) -> (r: (GroupedNode, FractionalNumber))
    ensures
        stored_as(r.0, *n, rel, false),
        r.1@ == stored_base_rate(*n),
{
    match n {
        AppNode::Craft(c) => {
            let data = GroupedNodeData::Craft {
                recipe_name: c.recipe_name.clone(),
                current_rate: c.current_rate,
                num_somersloop: c.num_somersloop,
                built: c.built,
                building_name: c.building_name.clone(),
                recipe_power: c.recipe_power,
                power_exponent: c.power_exponent,
                somersloop_power_exponent: c.somersloop_power_exponent,
                somersloop_mult: c.somersloop_mult,
                variable_power: c.variable_power,
                ins: store_pins(&c.base.ins),
                outs: store_pins(&c.base.outs),
            };
            (GroupedNode { node_data: data, relative_pos: rel }, c.current_rate)
        },
        AppNode::Organizer(o) => {
            let data = GroupedNodeData::Organizer {
                kind: o.base.kind,
                item_name: clone_item(&o.item_name),
                ins: store_pins(&o.base.ins),
                outs: store_pins(&o.base.outs),
            };
            (GroupedNode { node_data: data, relative_pos: rel }, FractionalNumber::zero())
        },
        AppNode::Sink(sk) => {
            let data = GroupedNodeData::Sink { item_name: clone_item(&sk.item_name), ins: store_pins(&sk.base.ins) };
            (GroupedNode { node_data: data, relative_pos: rel }, FractionalNumber::zero())
        },
        AppNode::Group(g) => {
            let data = GroupedNodeData::Group {
                name: g.name.clone(),
                current_rate: g.current_rate,
                nodes: Vec::new(),
                links: Vec::new(),
                ins: store_pins(&g.base.ins),
                outs: store_pins(&g.base.outs),
            };
            (GroupedNode { node_data: data, relative_pos: rel }, g.current_rate)
        },
    }
}

impl ProductionApp {
    /// The group node made of the selected nodes (groups among them stored
    /// without their inside nodes), or `None` where a total does not fit in
    /// 64-bit integers.
    fn build_group(&self, sel: &Vec<usize>, offsets: &Vec<(u32, u32)>, inner: Vec<GroupedLink>, gid: u64) -> (r: Option<(GroupNode, u64)>)
        requires
            gid < u64::MAX,
            forall|k: int| 0 <= k < sel@.len() ==> #[trigger] sel@[k] < self.nodes@.len(),
        ensures
            r matches Some((g, next)) ==> group_made(g, self.nodes@, sel@, offsets@, inner@, gid, false)
                && next == gid + 1 + g.base.ins@.len() + g.base.outs@.len() && group_fits(
                g.grouped_nodes@,
                g.nodes_base_rate@,
                gid + 1,
            ),
            r is None ==> exists|gn: Seq<GroupedNode>, rs: Seq<FractionalNumber>|
                #[trigger] stored_selection(gn, rs, self.nodes@, sel@, offsets@) && !group_fits(gn, rs, gid + 1),
    {
        let mut gnodes: Vec<GroupedNode> = Vec::new();
        let mut rates: Vec<FractionalNumber> = Vec::new();
        let mut k: usize = 0;
        while k < sel.len()
            invariant
                k <= sel.len(),
                forall|j: int| 0 <= j < sel@.len() ==> #[trigger] sel@[j] < self.nodes@.len(),
                gnodes@.len() == k,
                rates@.len() == k,
                forall|j: int| 0 <= j < k ==> stored_as(#[trigger] gnodes@[j], self.nodes@[sel@[j] as int], offset_at(offsets@, j), false),
                forall|j: int| 0 <= j < k ==> (#[trigger] rates@[j])@ == stored_base_rate(self.nodes@[sel@[j] as int]),
            decreases sel.len() - k,
        {
            let rel = if k < offsets.len() { offsets[k] } else { (0u32, 0u32) };
            let (g, b) = store_node(&self.nodes[sel[k]], rel);
            gnodes.push(g);
            rates.push(b);
            k += 1;
        }
        let mut group = GroupNode::new(gid);
        group.grouped_nodes = gnodes;
        group.nodes_base_rate = rates;
        group.grouped_links = inner;
        let ghost gn = group.grouped_nodes@;
        let ghost rs = group.nodes_base_rate@;
        proof {
            assert(stored_selection(gn, rs, self.nodes@, sel@, offsets@));
        }
        let next = match group.create_pins_from_grouped_nodes(gid + 1) {
            Some(x) => x,
            None => {
                return None;
            },
        };
        if !group.update_details() {
            return None;
        }
        Some((group, next))
    }
}


/// The links after deleting the first link with the id, if there is one.
pub open spec fn without_link(links: Seq<Link>, id: u64) -> Seq<Link> {
    if exists|k: int| first_with_id(links, id, k) {
        links.remove(choose|k: int| first_with_id(links, id, k))
    } else {
        links
    }
}

/// The links after deleting, in turn, the first link with each id.
pub open spec fn without_links(links: Seq<Link>, ids: Seq<u64>) -> Seq<Link>
    decreases ids.len(),
{
    if ids.len() == 0 {
        links
    } else {
        without_link(without_links(links, ids.drop_last()), ids.last())
    }
}

/// The nodes after removing those at the (increasing) indices `sel`.
pub open spec fn remove_all(nodes: Seq<AppNode>, sel: Seq<usize>) -> Seq<AppNode>
    decreases sel.len(),
{
    if sel.len() == 0 {
        nodes
    } else {
        remove_all(nodes.remove(sel.last() as int), sel.drop_last())
    }
}

/// The graph after grouping: the selected nodes (`sel`, in index order)
/// leave, the links across the border are deleted (the other nodes' pins
/// change only in their links), and the new group node `gid`, at `group_pos`,
/// holding the selected nodes and the links inside the selection, comes last.
pub open spec fn grouped_into(
    before: ProductionApp,
    after: ProductionApp,
    ids: Seq<u64>,
    group_pos: (u32, u32),
    offsets: Seq<(u32, u32)>,
    gid: u64,
) -> bool {
    exists|sel: Seq<usize>, mid: Seq<AppNode>|
        #![trigger selection(before.nodes@, ids, sel), link_only(before.nodes@, mid)]
        {
            &&& selection(before.nodes@, ids, sel)
            &&& sel.len() > 0
            &&& link_only(before.nodes@, mid)
            &&& after.nodes@.len() == remove_all(mid, sel).len() + 1
            &&& after.nodes@.drop_last() == remove_all(mid, sel)
            &&& match after.nodes@.last() {
                AppNode::Group(g) => {
                    &&& group_made(g, before.nodes@, sel, offsets, inner_links(before.nodes@, ids, before.links@), gid, true)
                    &&& g.base.position == group_pos
                    &&& after.next_id == gid + 1 + g.base.ins@.len() + g.base.outs@.len()
                },
                _ => false,
            }
            &&& after.links@ == without_links(before.links@, border_links(before.nodes@, ids, before.links@))
        }
}

/// Two stored nodes count the same toward a group's totals and machines.
pub open spec fn same_summary(a: GroupedNode, b: GroupedNode) -> bool {
    &&& counted_side(a, true) == counted_side(b, true)
    &&& counted_side(a, false) == counted_side(b, false)
    &&& (a.node_data is Craft || b.node_data is Craft) ==> a == b
}

pub proof fn lemma_first_with_id_unique(links: Seq<Link>, id: u64, k1: int, k2: int)
    requires
        first_with_id(links, id, k1),
        first_with_id(links, id, k2),
    ensures
        k1 == k2,
{
    if k1 < k2 {
        assert(links[k1].id != id);
    } else if k2 < k1 {
        assert(links[k2].id != id);
    }
}

/// Nodes whose pins differ only in their links are stored alike.
pub proof fn lemma_stored_link_only(a: Seq<AppNode>, b: Seq<AppNode>, n: int, g: GroupedNode, rel: (u32, u32), whole: bool)
    requires
        link_only(a, b),
        0 <= n < a.len(),
    ensures
        stored_as(g, b[n], rel, whole) == stored_as(g, a[n], rel, whole),
        stored_base_rate(a[n]) == stored_base_rate(b[n]),
{
    assert(b[n].same_settings(a[n]));
    let ai = a[n].side(true);
    let bi = b[n].side(true);
    let ao = a[n].side(false);
    let bo = b[n].side(false);
    assert(bi.len() == ai.len());
    assert(bo.len() == ao.len());
    assert forall|j: int| 0 <= j < ai.len() implies #[trigger] bi[j] == (Pin { link_id: bi[j].link_id, ..ai[j] }) by {}
    assert forall|j: int| 0 <= j < ao.len() implies #[trigger] bo[j] == (Pin { link_id: bo[j].link_id, ..ao[j] }) by {}
}

/// Stored node lists that agree in what they count have the same totals.
pub proof fn lemma_same_totals(xs: Seq<GroupedNode>, ys: Seq<GroupedNode>, rates: Seq<FractionalNumber>, rate: (int, int))
    requires
        xs.len() == ys.len(),
        forall|k: int| 0 <= k < xs.len() ==> same_summary(#[trigger] xs[k], ys[k]),
    ensures
        grouped_totals(xs, true) == grouped_totals(ys, true),
        grouped_totals(xs, false) == grouped_totals(ys, false),
        machine_totals(xs, rates, rate, true) == machine_totals(ys, rates, rate, true),
        machine_totals(xs, rates, rate, false) == machine_totals(ys, rates, rate, false),
    decreases xs.len(),
{
    if xs.len() > 0 {
        let xd = xs.drop_last();
        let yd = ys.drop_last();
        assert forall|k: int| 0 <= k < xd.len() implies same_summary(#[trigger] xd[k], yd[k]) by {
            assert(same_summary(xs[k], ys[k]));
        }
        lemma_same_totals(xd, yd, rates, rate);
        assert(same_summary(xs[xs.len() - 1], ys[ys.len() - 1]));
    }
}

/// Moves the inside nodes and links of the taken groups into their stored forms.
fn fill_groups(gnodes: Vec<GroupedNode>, taken: Vec<AppNode>) -> (r: Vec<GroupedNode>)
    requires
        gnodes@.len() == taken@.len(),
        forall|j: int| 0 <= j < gnodes@.len() ==> stored_as(#[trigger] gnodes@[j], taken@[j], gnodes@[j].relative_pos, false),
    ensures
        r@.len() == gnodes@.len(),
        forall|j: int| 0 <= j < gnodes@.len() ==> stored_as(#[trigger] r@[j], taken@[j], gnodes@[j].relative_pos, true),
        forall|j: int| 0 <= j < gnodes@.len() ==> same_summary(#[trigger] r@[j], gnodes@[j]),
{
    let ghost g0 = gnodes@;
    let ghost t0 = taken@;
    let mut gs = gnodes;
    let mut ts = taken;
    let mut out: Vec<GroupedNode> = Vec::new();
    while gs.len() > 0
        invariant
            gs@.len() == ts@.len(),
            out@.len() + gs@.len() == g0.len(),
            g0.len() == t0.len(),
            forall|j: int| 0 <= j < gs@.len() ==> gs@[j] == g0[out@.len() + j] && ts@[j] == t0[out@.len() + j],
            forall|j: int| 0 <= j < g0.len() ==> stored_as(#[trigger] g0[j], t0[j], g0[j].relative_pos, false),
            forall|j: int| 0 <= j < out@.len() ==> stored_as(#[trigger] out@[j], t0[j], g0[j].relative_pos, true),
            forall|j: int| 0 <= j < out@.len() ==> same_summary(#[trigger] out@[j], g0[j]),
        decreases gs@.len(),
    {
        let ghost m = out@.len() as int;
        let g = gs.remove(0);
        let t = ts.remove(0);
        assert(g == g0[m] && t == t0[m]);
        assert(stored_as(g0[m], t0[m], g0[m].relative_pos, false));
        let GroupedNode { node_data, relative_pos } = g;
        let filled = match node_data {
            GroupedNodeData::Group { name, current_rate, nodes: _, links: _, ins, outs } => {
                match t {
                    AppNode::Group(gr) => GroupedNode {
                        node_data: GroupedNodeData::Group {
                            name,
                            current_rate,
                            nodes: gr.grouped_nodes,
                            links: gr.grouped_links,
                            ins,
                            outs,
                        },
                        relative_pos,
                    },
                    _ => GroupedNode {
                        node_data: GroupedNodeData::Group { name, current_rate, nodes: Vec::new(), links: Vec::new(), ins, outs },
                        relative_pos,
                    },
                }
            },
            other => GroupedNode { node_data: other, relative_pos },
        };
        out.push(filled);
    }
    out
}

impl ProductionApp {
    /// Deletes, in turn, the first link with each id.
    fn delete_links(&mut self, ids: &Vec<u64>)
        ensures
            final(self).links@ == without_links(old(self).links@, ids@),
            link_only(old(self).nodes@, final(self).nodes@),
            final(self).next_id == old(self).next_id,
    {
        let mut k: usize = 0;
        proof {
            lemma_link_only_refl(self.nodes@);
            assert(ids@.subrange(0, 0) =~= Seq::<u64>::empty());
        }
        while k < ids.len()
            invariant
                k <= ids.len(),
                self.links@ == without_links(old(self).links@, ids@.subrange(0, k as int)),
                link_only(old(self).nodes@, self.nodes@),
                self.next_id == old(self).next_id,
            decreases ids.len() - k,
        {
            let ghost a = self.nodes@;
            let ghost ls = self.links@;
            let id = ids[k];
            let _ = self.delete_link(id);
            proof {
                assert(ids@.subrange(0, k + 1).drop_last() =~= ids@.subrange(0, k as int));
                assert(ids@.subrange(0, k + 1).last() == id);
                if has_link_id(ls, id) {
                    assert(link_deleted(a, ls, id, self.nodes@, self.links@));
                    let (kk, mid) = choose|kk: int, mid: Seq<AppNode>|
                        first_with_id(ls, id, kk) && self.links@ == ls.remove(kk) && unlinked(a, mid, ls[kk].start_pin_id)
                            && unlinked(mid, self.nodes@, ls[kk].end_pin_id);
                    let c = choose|j: int| first_with_id(ls, id, j);
                    lemma_first_with_id_unique(ls, id, kk, c);
                    lemma_unlinked_link_only(a, mid, ls[kk].start_pin_id);
                    lemma_unlinked_link_only(mid, self.nodes@, ls[kk].end_pin_id);
                    lemma_link_only_trans(a, mid, self.nodes@);
                    lemma_link_only_trans(old(self).nodes@, a, self.nodes@);
                } else {
                    assert(!exists|j: int| first_with_id(ls, id, j));
                }
            }
            k += 1;
        }
        assert(ids@.subrange(0, ids@.len() as int) =~= ids@);
    }

    /// Removes the nodes at the increasing indices `sel`, returning them in order.
    fn take_nodes(&mut self, sel: &Vec<usize>) -> (taken: Vec<AppNode>)
        requires
            forall|k: int| 0 <= k < sel@.len() ==> #[trigger] sel@[k] < old(self).nodes@.len(),
            forall|k: int, j: int| 0 <= k < j < sel@.len() ==> #[trigger] sel@[k] < #[trigger] sel@[j],
        ensures
            final(self).nodes@ == remove_all(old(self).nodes@, sel@),
            taken@.len() == sel@.len(),
            forall|j: int| 0 <= j < sel@.len() ==> #[trigger] taken@[j] == old(self).nodes@[sel@[j] as int],
            final(self).links@ == old(self).links@,
            final(self).next_id == old(self).next_id,
    {
        let ghost mid = self.nodes@;
        let mut taken: Vec<AppNode> = Vec::new();
        let mut k: usize = sel.len();
        assert(sel@.subrange(0, k as int) =~= sel@);
        while k > 0
            invariant
                k <= sel@.len(),
                forall|q: int| 0 <= q < sel@.len() ==> #[trigger] sel@[q] < mid.len(),
                forall|q: int, j: int| 0 <= q < j < sel@.len() ==> #[trigger] sel@[q] < #[trigger] sel@[j],
                remove_all(self.nodes@, sel@.subrange(0, k as int)) == remove_all(mid, sel@),
                taken@.len() == sel@.len() - k,
                forall|j: int| 0 <= j < taken@.len() ==> #[trigger] taken@[j] == mid[sel@[k + j] as int],
                (if k < sel@.len() { sel@[k as int] as int } else { mid.len() as int }) <= self.nodes@.len(),
                forall|i: int| 0 <= i < (if k < sel@.len() { sel@[k as int] as int } else { mid.len() as int }) ==> #[trigger] self.nodes@[i] == mid[i],
                self.links@ == old(self).links@,
                self.next_id == old(self).next_id,
                mid == old(self).nodes@,
            decreases k,
        {
            let ghost before = self.nodes@;
            let ghost tb = taken@;
            let idx = sel[k - 1];
            assert(sel@.subrange(0, k as int).drop_last() =~= sel@.subrange(0, k - 1));
            assert(sel@.subrange(0, k as int).last() == idx);
            let node = self.nodes.remove(idx);
            assert(node == mid[idx as int]);
            taken.insert(0, node);
            assert forall|j: int| 0 <= j < taken@.len() implies #[trigger] taken@[j] == mid[sel@[k - 1 + j] as int] by {
                if j > 0 {
                    assert(taken@[j] == tb[j - 1]);
                }
            }
            assert forall|i: int| 0 <= i < idx implies #[trigger] self.nodes@[i] == mid[i] by {
                assert(self.nodes@[i] == before[i]);
            }
            k -= 1;
        }
        assert(sel@.subrange(0, 0) =~= Seq::<usize>::empty());
        taken
    }

    /// Puts the selected nodes into a new group node placed at `group_pos`,
    /// the `k`-th selected node (in index order) at offset `offsets[k]`.
    /// Links inside the selection are kept in the group, by the positions of
    /// their end nodes in `node_ids`; links across its border are deleted.
    /// The group gets an input pin per item its nodes consume more than they
    /// produce and an output pin per item produced more than consumed, with
    /// fresh ids after the group's own. Refused, changing nothing, when no id
    /// is given, when no node has a given id, or where a total does not fit
    /// in 64-bit integers.
    pub fn group_nodes(&mut self, node_ids: &[u64], group_pos: (u32, u32), offsets: &Vec<(u32, u32)>) -> (r: Result<u64, String>)
        requires
            old(self).next_id < u64::MAX,
        ensures
            node_ids@.len() == 0 ==> (r matches Err(e) && e@ == "No nodes selected for grouping"@),
            node_ids@.len() > 0 && (forall|n: int| !chosen(old(self).nodes@, node_ids@, n)) ==> (r matches Err(e)
                && e@ == "No valid nodes found for grouping"@),
            r is Err ==> *final(self) == *old(self),
            (node_ids@.len() > 0 && exists|n: int| chosen(old(self).nodes@, node_ids@, n)) ==> (r matches Err(e) ==> e@
                == "Arithmetic overflow while grouping"@),
            (node_ids@.len() > 0 && exists|n: int| chosen(old(self).nodes@, node_ids@, n)) ==> (r is Err <==> grouping_overflows(
                old(self).nodes@,
                node_ids@,
                offsets@,
                old(self).next_id + 1,
            )),
            r matches Ok(gid) ==> gid == old(self).next_id && grouped_into(*old(self), *final(self), node_ids@, group_pos, offsets@, gid),
    {
        if node_ids.len() == 0 {
            return Err("No nodes selected for grouping".to_owned());
        }
        let sel = self.selected_indices(node_ids);
        if sel.len() == 0 {
            proof {
                assert forall|n: int| !chosen(self.nodes@, node_ids@, n) by {
                    if chosen(self.nodes@, node_ids@, n) {
                        let k = choose|k: int| 0 <= k < sel@.len() && #[trigger] sel@[k] == n;
                    }
                }
            }
            return Err("No valid nodes found for grouping".to_owned());
        }
        let ghost old_nodes = self.nodes@;
        let ghost old_links = self.links@;
        let (inner, border) = self.classify_links(node_ids);
        let gid = self.next_id;
        let (mut group, next) = match self.build_group(&sel, offsets, inner, gid) {
            Some(x) => x,
            None => {
                assert(chosen(self.nodes@, node_ids@, sel@[0] as int));
                return Err("Arithmetic overflow while grouping".to_owned());
            },
        };
        proof {
            if grouping_overflows(old_nodes, node_ids@, offsets@, gid + 1) {
                let (s2, gn2, rs2) = choose|s2: Seq<usize>, gn2: Seq<GroupedNode>, rs2: Seq<FractionalNumber>|
                    selection(old_nodes, node_ids@, s2) && #[trigger] stored_selection(gn2, rs2, old_nodes, s2, offsets@)
                        && !group_fits(gn2, rs2, gid + 1);
                lemma_selection_unique(old_nodes, node_ids@, s2, sel@);
                assert(stored_selection(group.grouped_nodes@, group.nodes_base_rate@, old_nodes, sel@, offsets@));
                lemma_stored_fits_same(group.grouped_nodes@, group.nodes_base_rate@, gn2, rs2, old_nodes, sel@, offsets@, gid + 1);
            }
        }
        let ghost shells = group.grouped_nodes@;
        group.base.position = group_pos;
        self.delete_links(&border);
        let ghost mid = self.nodes@;
        proof {
            assert forall|k: int| 0 <= k < sel@.len() implies stored_as(#[trigger] shells[k], mid[sel@[k] as int], shells[k].relative_pos, false) by {
                lemma_stored_link_only(old_nodes, mid, sel@[k] as int, shells[k], offset_at(offsets@, k), false);
            }
        }
        let taken = self.take_nodes(&sel);
        let mut gn: Vec<GroupedNode> = Vec::new();
        std::mem::swap(&mut gn, &mut group.grouped_nodes);
        let filled = fill_groups(gn, taken);
        group.grouped_nodes = filled;
        proof {
            let full = group.grouped_nodes@;
            lemma_same_totals(full, shells, group.nodes_base_rate@, group.current_rate@);
            assert forall|k: int| 0 <= k < sel@.len() implies stored_as(#[trigger] full[k], old_nodes[sel@[k] as int], offset_at(offsets@, k), true) by {
                assert(stored_as(shells[k], old_nodes[sel@[k] as int], offset_at(offsets@, k), false));
                lemma_stored_link_only(old_nodes, mid, sel@[k] as int, full[k], offset_at(offsets@, k), true);
            }
        }
        let ghost g = group;
        self.nodes.push(AppNode::Group(group));
        self.next_id = next;
        proof {
            assert(self.nodes@.drop_last() =~= remove_all(mid, sel@));
            assert(self.nodes@.last() == AppNode::Group(g));
            assert(group_made(g, old_nodes, sel@, offsets@, inner_links(old_nodes, node_ids@, old_links), gid, true));
            assert(selection(old_nodes, node_ids@, sel@) && link_only(old_nodes, mid));
        }
        Ok(gid)
    }
}


impl GroupNode {
    /// A group named `name` holding the given nodes (with their rates at
    /// group rate one) and links, at rate one, with an input pin per item its
    /// nodes consume more than they produce and an output pin per item
    /// produced more than consumed (ids from `id * 1000`), and its machine
    /// counts; `None` where a value does not fit in 64-bit integers.
    pub fn from_nodes_and_links(
        id: u64,
        name: String,
        grouped_nodes: Vec<GroupedNode>,
        nodes_base_rate: Vec<FractionalNumber>,
        grouped_links: Vec<GroupedLink>,
    ) -> (r: Option<GroupNode>)
        ensures
            id * 1000 > u64::MAX ==> r is None,
            r is Some <==> id * 1000 <= u64::MAX && group_fits(grouped_nodes@, nodes_base_rate@, id * 1000),
            r matches Some(g) ==> {
                &&& g.base.id == id
                &&& g.base.kind == NodeKind::Group
                &&& g.name == name
                &&& g.current_rate@ == qone()
                &&& g.grouped_nodes@ == grouped_nodes@
                &&& g.nodes_base_rate@ == nodes_base_rate@
                &&& g.grouped_links@ == grouped_links@
                &&& pins_summarised(g, id * 1000)
                &&& details_current(g)
            },
    {
        let first = match id.checked_mul(1000) {
            Some(x) => x,
            None => {
                return None;
            },
        };
        let mut g = GroupNode::new(id);
        g.name = name;
        g.grouped_nodes = grouped_nodes;
        g.nodes_base_rate = nodes_base_rate;
        g.grouped_links = grouped_links;
        if g.create_pins_from_grouped_nodes(first).is_none() {
            return None;
        }
        if !g.update_details() {
            return None;
        }
        Some(g)
    }
}

} // verus!
