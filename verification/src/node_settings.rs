//! Settings of crafting and group nodes: somersloops, building counts, built
//! state, group rates, and build progress.
use vstd::prelude::*;
use crate::app_node::AppNode;
use crate::fractional_number::{FractionalNumber, div_fits};
use crate::node::{CraftNode, GroupNode, GroupedNode, GroupedNodeData, scaled_pins, scale_fits, inner_scale_fits};
use crate::production_app::{ProductionApp, node_index};
use crate::rate_change::overflow_text;
use crate::rate_edit::{node_not_found, edit_followed};
use crate::rate_update::{craft_rescaled, group_rescaled};
use crate::node_edit::{somersloop_capped, craft_counts, direct_craft_counts};
use crate::group::{machine_totals, machine_totals_fit};
use crate::grouping::details_current;
use crate::rational::{qeq, qdiv, qlt, qone};
use crate::text::int_to_decimal;

verus! {

/// The side a rate change is propagated from: the first output pin, else the
/// first input pin (`true`), or none.
pub open spec fn propagation_side(n: AppNode) -> Option<bool> {
    if n.outs().len() > 0 {
        Some(false)
    } else if n.ins().len() > 0 {
        Some(true)
    } else {
        None
    }
}

/// All settings of two crafting nodes but the somersloops agree.
pub open spec fn craft_settings_but_somersloop(a: CraftNode, b: CraftNode) -> bool {
    &&& a.base.id == b.base.id
    &&& a.base.kind == b.base.kind
    &&& a.base.position == b.base.position
    &&& a.recipe_name == b.recipe_name
    &&& a.recipe_power == b.recipe_power
    &&& a.power_exponent == b.power_exponent
    &&& a.somersloop_power_exponent == b.somersloop_power_exponent
    &&& a.somersloop_mult == b.somersloop_mult
    &&& a.variable_power == b.variable_power
    &&& a.same_clock_power == b.same_clock_power
    &&& a.last_underclock_power == b.last_underclock_power
    &&& a.built == b.built
    &&& a.building_name == b.building_name
    &&& a.current_rate == b.current_rate
}

/// The somersloop count set on a crafting node (capped where the node's
/// multiplier is non-zero), its pins recomputed at its rate.
pub open spec fn somersloop_set(a: CraftNode, b: CraftNode, n: (int, int)) -> bool {
    &&& craft_settings_but_somersloop(a, b)
    &&& qeq(b.num_somersloop@, somersloop_capped(n, a.somersloop_mult@))
    &&& scaled_pins(a.base.ins@, b.base.ins@, a.current_rate@)
    &&& scaled_pins(a.base.outs@, b.base.outs@, a.current_rate@)
}

/// The node list with node `i` replaced.
pub open spec fn replaced_at(a: Seq<AppNode>, i: int, b: Seq<AppNode>) -> bool {
    &&& b.len() == a.len()
    &&& 0 <= i < a.len()
    &&& forall|m: int| 0 <= m < a.len() && m != i ==> #[trigger] b[m] == a[m]
}

/// Comparing with values equal in value gives the same answer.
pub proof fn lemma_qlt_cong(a: (int, int), b: (int, int), n: (int, int))
    requires
        a.1 > 0,
        b.1 > 0,
        n.1 > 0,
        qeq(a, b),
    ensures
        qlt(a, n) == qlt(b, n),
{
    assert(a.0 * n.1 * b.1 == b.0 * n.1 * a.1) by (nonlinear_arith)
        requires
            a.0 * b.1 == b.0 * a.1,
    ;
    assert((a.0 * n.1 < n.0 * a.1) == (b.0 * n.1 < n.0 * b.1)) by (nonlinear_arith)
        requires
            a.0 * n.1 * b.1 == b.0 * n.1 * a.1,
            a.1 > 0,
            b.1 > 0,
    ;
}

/// The values met in setting the somersloops of `c` fit in 64-bit integers:
/// the inverse of its multiplier (where that is not zero) and its pin rates
/// at its rate.
pub open spec fn somersloop_fits(c: CraftNode) -> bool {
    &&& c.somersloop_mult@.0 != 0 ==> div_fits(qone(), c.somersloop_mult@)
    &&& scale_fits(c.base.ins@, c.current_rate@)
    &&& scale_fits(c.base.outs@, c.current_rate@)
}

/// The group's pins and the nodes inside it can be scaled to `rate` within
/// 64-bit integers (see `GroupNode::update_rate`).
pub open spec fn group_rate_fits(g: GroupNode, rate: (int, int)) -> bool {
    &&& scale_fits(g.base.ins@, rate)
    &&& scale_fits(g.base.outs@, rate)
    &&& forall|i: int| 0 <= i < g.grouped_nodes@.len() ==> #[trigger] inner_scale_fits(g, i, rate)
}

fn set_somersloop_on(node: &mut AppNode, n: FractionalNumber) -> (r: Result<(), String>)
    ensures
        !(*old(node) is Craft) ==> (r matches Err(e) && e@ == "Unsupported node kind for somersloop edit"@),
        r is Err ==> *final(node) == *old(node),
        *old(node) is Craft ==> (r matches Err(e) ==> e@ == overflow_text()),
        *old(node) matches AppNode::Craft(c) ==> (r is Err <==> !somersloop_fits(c)),
        r is Ok ==> (*old(node) matches AppNode::Craft(a) && *final(node) matches AppNode::Craft(b) && somersloop_set(a, b, n@)),
{
    match node {
        AppNode::Craft(c) => {
            proof {
                use_type_invariant(&c.somersloop_mult);
            }
            let capped = if c.somersloop_mult.numerator() != 0 {
                match FractionalNumber::one().checked_div(c.somersloop_mult) {
                    Some(max) => {
                        proof {
                            use_type_invariant(&max);
                            use_type_invariant(&n);
                            let m = c.somersloop_mult@;
                            assert(qdiv(qone(), m).1 > 0) by (nonlinear_arith)
                                requires
                                    m.0 != 0,
                                    m.1 > 0,
                                    qdiv(qone(), m).1 == (if m.0 < 0 { 1 * (-m.0) } else { 1 * m.0 }),
                            ;
                            lemma_qlt_cong(max@, qdiv(qone(), m), n@);
                        }
                        if max.lt(&n) { max } else { n }
                    },
                    None => {
                        return Err("Arithmetic overflow while propagating rates".to_owned());
                    },
                }
            } else {
                n
            };
            let rate = c.current_rate;
            if !c.rate_fits(rate) {
                return Err("Arithmetic overflow while propagating rates".to_owned());
            }
            c.num_somersloop = capped;
            c.update_rate(rate);
            Ok(())
        },
        _ => Err("Unsupported node kind for somersloop edit".to_owned()),
    }
}

impl ProductionApp {
    /// Set the somersloops of a crafting node to a whole, non-negative count,
    /// capped at the inverse of the node's somersloop multiplier where that
    /// is non-zero; its pins are recomputed at its rate.
    pub fn set_node_somersloop(&mut self, node_id: u64, new_num: FractionalNumber) -> (r: Result<(), String>)
        ensures
            final(self).links@ == old(self).links@,
            final(self).next_id == old(self).next_id,
            r is Err ==> final(self).nodes@ == old(self).nodes@,
            new_num@.1 != 1 || new_num@.0 < 0 ==> (r matches Err(e) && e@ == "somersloop num can only be positive whole integers"@),
            !(new_num@.1 != 1 || new_num@.0 < 0) ==> {
                &&& node_index(old(self).nodes@, node_id) is None ==> (r matches Err(e) && e@ == "Node "@ + int_to_decimal(node_id as int) + " not found"@)
                &&& node_index(old(self).nodes@, node_id) matches Some(i) ==> {
                    &&& !(old(self).nodes@[i] is Craft) ==> (r matches Err(e) && e@ == "Unsupported node kind for somersloop edit"@)
                    &&& old(self).nodes@[i] is Craft ==> (r matches Err(e) ==> e@ == overflow_text())
                    &&& old(self).nodes@[i] matches AppNode::Craft(c) ==> (r is Err <==> !somersloop_fits(c))
                    &&& r is Ok ==> replaced_at(old(self).nodes@, i, final(self).nodes@) && (old(self).nodes@[i] matches AppNode::Craft(a)
                        && final(self).nodes@[i] matches AppNode::Craft(b) && somersloop_set(a, b, new_num@))
                }
            },
    {
        if new_num.denominator() != 1 || new_num.numerator() < 0 {
            return Err("somersloop num can only be positive whole integers".to_owned());
        }
        let i = match self.find_node_index(node_id) {
            Some(i) => i,
            None => {
                return Err(node_not_found(node_id));
            },
        };
        let ghost before = self.nodes@;
        let r = set_somersloop_on(&mut self.nodes[i], new_num);
        proof {
            if r is Err {
                assert(self.nodes@ =~= before);
            }
        }
        r
    }

    /// Set the building count (node rate) of a crafting node: its pins carry
    /// their base rate times the count, and the rate of its first output pin
    /// (else its first input pin) is propagated through the graph.
    pub fn set_node_building_count(&mut self, node_id: u64, new_count: FractionalNumber) -> (r: Result<(), String>)
        ensures
            final(self).links@ == old(self).links@,
            final(self).next_id == old(self).next_id,
            new_count@.0 < 0 ==> (r matches Err(e) && e@ == "Invalid count"@ && *final(self) == *old(self)),
            new_count@.0 >= 0 ==> {
                &&& node_index(old(self).nodes@, node_id) is None ==> (r matches Err(e) && e@ == "Node "@ + int_to_decimal(node_id as int) + " not found"@ && *final(self) == *old(self))
                &&& node_index(old(self).nodes@, node_id) matches Some(i) ==> {
                    &&& !(old(self).nodes@[i] is Craft) ==> (r matches Err(e) && e@ == "Unsupported node kind for building count edit"@ && final(self).nodes@ == old(self).nodes@)
                    &&& old(self).nodes@[i] matches AppNode::Craft(a) ==> !(scale_fits(a.base.ins@, new_count@) && scale_fits(a.base.outs@, new_count@))
                        ==> (r matches Err(e) && e@ == overflow_text() && final(self).nodes@ == old(self).nodes@)
                    &&& old(self).nodes@[i] matches AppNode::Craft(a) ==> scale_fits(a.base.ins@, new_count@) && scale_fits(a.base.outs@, new_count@)
                        ==> exists|mid: Seq<AppNode>| #[trigger] replaced_at(old(self).nodes@, i, mid) && (old(self).nodes@[i] matches AppNode::Craft(a)
                            && mid[i] matches AppNode::Craft(b) && craft_rescaled(a, b) && b.current_rate == new_count)
                            && match propagation_side(mid[i]) {
                                None => r is Ok && final(self).nodes@ == mid,
                                Some(input) => edit_followed(mid, old(self).links@, i, input, 0, r, final(self).nodes@),
                            }
                }
            },
    {
        if new_count.numerator() < 0 {
            return Err("Invalid count".to_owned());
        }
        let i = match self.find_node_index(node_id) {
            Some(i) => i,
            None => {
                return Err(node_not_found(node_id));
            },
        };
        let ghost before = self.nodes@;
        match &mut self.nodes[i] {
            AppNode::Craft(c) => {
                if !c.rate_fits(new_count) {
                    assert(self.nodes@ =~= before);
                    return Err("Arithmetic overflow while propagating rates".to_owned());
                }
                c.update_rate(new_count);
            },
            _ => {
                assert(self.nodes@ =~= before);
                return Err("Unsupported node kind for building count edit".to_owned());
            },
        }
        let ghost mid = self.nodes@;
        proof {
            assert(replaced_at(before, i as int, mid));
        }
        self.propagate_from_node(i, Ghost(before))
    }

    /// Propagate the rate of the first output pin of node `i` (else its first
    /// input pin) through the graph.
    fn propagate_from_node(&mut self, i: usize, Ghost(before): Ghost<Seq<AppNode>>) -> (r: Result<(), String>)
        requires
            i < old(self).nodes@.len(),
        ensures
            final(self).links@ == old(self).links@,
            final(self).next_id == old(self).next_id,
            match propagation_side(old(self).nodes@[i as int]) {
                None => r is Ok && final(self).nodes@ == old(self).nodes@,
                Some(input) => edit_followed(old(self).nodes@, old(self).links@, i as int, input, 0, r, final(self).nodes@),
            },
    {
        let input = if self.nodes[i].side_len(false) > 0 {
            false
        } else if self.nodes[i].side_len(true) > 0 {
            true
        } else {
            return Ok(());
        };
        let p = self.nodes[i].pin(input, 0);
        let pid = p.id;
        let cur = p.current_rate;
        match self.update_nodes_rate(pid, cur) {
            Ok(()) => Ok(()),
            Err(e) => {
                let msg = crate::text::concat("Failed to propagate rates: ".to_owned(), e.as_str());
                proof {
                    let prefix = "Failed to propagate rates: "@;
                    assert(msg@.subrange(0, prefix.len() as int) =~= prefix);
                    assert(msg@.subrange(prefix.len() as int, msg@.len() as int) =~= e@);
                }
                Err(msg)
            },
        }
    }

    /// Set the rate of a group node: its pins and the nodes inside are scaled
    /// to it, and the rate of its first output pin (else its first input
    /// pin) is propagated through the graph.
    pub fn set_group_rate(&mut self, node_id: u64, new_rate: FractionalNumber) -> (r: Result<(), String>)
        ensures
            final(self).links@ == old(self).links@,
            final(self).next_id == old(self).next_id,
            new_rate@.0 < 0 ==> (r matches Err(e) && e@ == "Invalid rate"@ && *final(self) == *old(self)),
            new_rate@.0 >= 0 ==> {
                &&& node_index(old(self).nodes@, node_id) is None ==> (r matches Err(e) && e@ == "Node "@ + int_to_decimal(node_id as int) + " not found"@ && *final(self) == *old(self))
                &&& node_index(old(self).nodes@, node_id) matches Some(i) ==> {
                    &&& !(old(self).nodes@[i] is Group) ==> (r matches Err(e) && e@ == "Node is not a group"@ && final(self).nodes@ == old(self).nodes@)
                    &&& old(self).nodes@[i] matches AppNode::Group(a) ==> !group_rate_fits(a, new_rate@)
                        ==> (r matches Err(e) && e@ == overflow_text() && final(self).nodes@ == old(self).nodes@)
                    &&& old(self).nodes@[i] matches AppNode::Group(a) ==> group_rate_fits(a, new_rate@)
                        ==> exists|mid: Seq<AppNode>| #[trigger] replaced_at(old(self).nodes@, i, mid) && (old(self).nodes@[i] matches AppNode::Group(a)
                            && mid[i] matches AppNode::Group(b) && group_rescaled(a, b) && b.current_rate == new_rate)
                            && match propagation_side(mid[i]) {
                                None => r is Ok && final(self).nodes@ == mid,
                                Some(input) => edit_followed(mid, old(self).links@, i, input, 0, r, final(self).nodes@),
                            }
                }
            },
    {
        if new_rate.numerator() < 0 {
            return Err("Invalid rate".to_owned());
        }
        let i = match self.find_node_index(node_id) {
            Some(i) => i,
            None => {
                return Err(node_not_found(node_id));
            },
        };
        let ghost before = self.nodes@;
        match &mut self.nodes[i] {
            AppNode::Group(g) => {
                if !g.update_rate(new_rate) {
                    assert(self.nodes@ =~= before);
                    return Err("Arithmetic overflow while propagating rates".to_owned());
                }
            },
            _ => {
                assert(self.nodes@ =~= before);
                return Err("Node is not a group".to_owned());
            },
        }
        let ghost mid = self.nodes@;
        proof {
            assert(replaced_at(before, i as int, mid));
        }
        self.propagate_from_node(i, Ghost(before))
    }
}


/// `y` is `x` with its built flag set to `b` where it is a crafting node.
pub open spec fn craft_built_set(x: GroupedNode, y: GroupedNode, b: bool) -> bool {
    &&& y.relative_pos == x.relative_pos
    &&& match (x.node_data, y.node_data) {
        (
            GroupedNodeData::Craft {
                recipe_name: rn,
                current_rate: cr,
                num_somersloop: ns,
                built: _,
                building_name: bn,
                recipe_power: rp,
                power_exponent: pe,
                somersloop_power_exponent: spe,
                somersloop_mult: sm,
                variable_power: vp,
                ins: i1,
                outs: o1,
            },
            GroupedNodeData::Craft {
                recipe_name: rn2,
                current_rate: cr2,
                num_somersloop: ns2,
                built: bt2,
                building_name: bn2,
                recipe_power: rp2,
                power_exponent: pe2,
                somersloop_power_exponent: spe2,
                somersloop_mult: sm2,
                variable_power: vp2,
                ins: i2,
                outs: o2,
            },
        ) => rn2 == rn && cr2 == cr && ns2 == ns && bt2 == b && bn2 == bn && rp2 == rp && pe2 == pe && spe2 == spe
            && sm2 == sm && vp2 == vp && i2@ == i1@ && o2@ == o1@,
        (GroupedNodeData::Craft { .. }, _) => false,
        _ => y.node_data == x.node_data,
    }
}

/// Every crafting node of the list has its built flag set to `b`.
pub open spec fn crafts_built_set(xs: Seq<GroupedNode>, ys: Seq<GroupedNode>, b: bool) -> bool {
    &&& ys.len() == xs.len()
    &&& forall|i: int| 0 <= i < xs.len() ==> craft_built_set(#[trigger] xs[i], ys[i], b)
}

/// Setting the built flag of every crafting node of a list to `b` leaves as
/// many crafting nodes, all built or none.
proof fn lemma_crafts_built_counts(xs: Seq<GroupedNode>, ys: Seq<GroupedNode>, b: bool)
    requires
        crafts_built_set(xs, ys, b),
    ensures
        direct_craft_counts(ys) == ((if b { direct_craft_counts(xs).1 } else { 0nat }), direct_craft_counts(xs).1),
    decreases xs.len(),
{
    if xs.len() > 0 {
        let (xd, yd) = (xs.drop_last(), ys.drop_last());
        assert(crafts_built_set(xd, yd, b)) by {
            assert forall|i: int| 0 <= i < xd.len() implies craft_built_set(#[trigger] xd[i], yd[i], b) by {
                assert(xd[i] == xs[i] && yd[i] == ys[i]);
            }
        }
        lemma_crafts_built_counts(xd, yd, b);
        assert(craft_built_set(xs[xs.len() - 1], ys[ys.len() - 1], b));
    }
}

/// Marking a group built (or not) leaves it as many crafting nodes, all of
/// them built (or none): after `set_node_built_state` on a group,
/// `get_node_build_progress` reports all of its crafting nodes built, or
/// none.
pub proof fn law_group_built_progress(xs: Seq<GroupedNode>, ys: Seq<GroupedNode>, built: bool)
    requires
        group_built_set(xs, ys, built),
    ensures
        craft_counts(ys) == ((if built { craft_counts(xs).1 } else { 0nat }), craft_counts(xs).1),
    decreases xs.len(),
{
    if xs.len() > 0 {
        let (xd, yd) = (xs.drop_last(), ys.drop_last());
        assert(group_built_set(xd, yd, built)) by {
            assert forall|i: int| 0 <= i < xd.len() implies #[trigger] group_built_set_at(xd, yd, built, i) by {
                assert(xd[i] == xs[i] && yd[i] == ys[i]);
                assert(group_built_set_at(xs, ys, built, i));
            }
        }
        law_group_built_progress(xd, yd, built);
        let (x, y) = (xs[xs.len() - 1], ys[ys.len() - 1]);
        assert(group_built_set_at(xs, ys, built, xs.len() - 1));
        match (x.node_data, y.node_data) {
            (GroupedNodeData::Group { nodes, .. }, GroupedNodeData::Group { nodes: nodes2, .. }) => {
                lemma_crafts_built_counts(nodes@, nodes2@, built);
            },
            _ => {},
        }
    }
}

/// Every crafting node, and every crafting node directly inside a nested
/// group, has its built flag set to `b`.
pub open spec fn group_built_set(xs: Seq<GroupedNode>, ys: Seq<GroupedNode>, b: bool) -> bool {
    &&& ys.len() == xs.len()
    &&& forall|i: int| 0 <= i < xs.len() ==> #[trigger] group_built_set_at(xs, ys, b, i)
}

/// Entry `i` of `ys` is entry `i` of `xs` with its crafting nodes (directly,
/// or directly inside a nested group) built where `b`.
pub open spec fn group_built_set_at(xs: Seq<GroupedNode>, ys: Seq<GroupedNode>, b: bool, i: int) -> bool {
    match (xs[i].node_data, ys[i].node_data) {
        (
            GroupedNodeData::Group { name, current_rate, nodes, links, ins, outs },
            GroupedNodeData::Group { name: name2, current_rate: cr2, nodes: nodes2, links: links2, ins: ins2, outs: outs2 },
        ) => ys[i].relative_pos == xs[i].relative_pos && name2 == name && cr2 == current_rate && links2@ == links@ && ins2@ == ins@
            && outs2@ == outs@ && crafts_built_set(nodes@, nodes2@, b),
        (GroupedNodeData::Group { .. }, _) => false,
        _ => craft_built_set(xs[i], ys[i], b),
    }
}

/// Sets the built flag of the crafting nodes of a list.
fn set_crafts_built(v: Vec<GroupedNode>, b: bool) -> (r: Vec<GroupedNode>)
    ensures
        crafts_built_set(v@, r@, b),
{
    let ghost v0 = v@;
    let mut rest = v;
    let mut out: Vec<GroupedNode> = Vec::new();
    while rest.len() > 0
        invariant
            out@.len() + rest@.len() == v0.len(),
            forall|j: int| 0 <= j < rest@.len() ==> rest@[j] == v0[out@.len() + j],
            forall|j: int| 0 <= j < out@.len() ==> craft_built_set(v0[j], #[trigger] out@[j], b),
        decreases rest@.len(),
    {
        let ghost m = out@.len() as int;
        let x = rest.remove(0);
        assert(x == v0[m]);
        let GroupedNode { node_data, relative_pos } = x;
        let data = match node_data {
            GroupedNodeData::Craft {
                recipe_name,
                current_rate,
                num_somersloop,
                built: _,
                building_name,
                recipe_power,
                power_exponent,
                somersloop_power_exponent,
                somersloop_mult,
                variable_power,
                ins,
                outs,
            } => GroupedNodeData::Craft {
                recipe_name,
                current_rate,
                num_somersloop,
                built: b,
                building_name,
                recipe_power,
                power_exponent,
                somersloop_power_exponent,
                somersloop_mult,
                variable_power,
                ins,
                outs,
            },
            other => other,
        };
        out.push(GroupedNode { node_data: data, relative_pos });
    }
    out
}

impl GroupNode {
    /// Mark every crafting node inside (also directly inside nested groups)
    /// built or not, then recompute the machine counts; `false` where a count
    /// does not fit in 64-bit integers (the flags are set, the counts kept).
    pub fn set_built_state(&mut self, built: bool) -> (ok: bool)
        ensures
            group_built_set(old(self).grouped_nodes@, final(self).grouped_nodes@, built),
            final(self).base == old(self).base,
            final(self).current_rate == old(self).current_rate,
            final(self).nodes_base_rate@ == old(self).nodes_base_rate@,
            final(self).grouped_links@ == old(self).grouped_links@,
            final(self).inputs@ == old(self).inputs@,
            final(self).outputs@ == old(self).outputs@,
            final(self).name == old(self).name,
            ok ==> details_current(*final(self)),
            ok <==> machine_totals_fit(final(self).grouped_nodes@, final(self).nodes_base_rate@, final(self).current_rate@),
    {
        let mut v: Vec<GroupedNode> = Vec::new();
        std::mem::swap(&mut v, &mut self.grouped_nodes);
        let ghost v0 = v@;
        let mut rest = v;
        let mut out: Vec<GroupedNode> = Vec::new();
        while rest.len() > 0
            invariant
                out@.len() + rest@.len() == v0.len(),
                forall|j: int| 0 <= j < rest@.len() ==> rest@[j] == v0[out@.len() + j],
                group_built_set(v0.subrange(0, out@.len() as int), out@, built),
            decreases rest@.len(),
        {
            let ghost m = out@.len() as int;
            let x = rest.remove(0);
            assert(x == v0[m]);
            let GroupedNode { node_data, relative_pos } = x;
            let data = match node_data {
                GroupedNodeData::Craft {
                    recipe_name,
                    current_rate,
                    num_somersloop,
                    built: _,
                    building_name,
                    recipe_power,
                    power_exponent,
                    somersloop_power_exponent,
                    somersloop_mult,
                    variable_power,
                    ins,
                    outs,
                } => GroupedNodeData::Craft {
                    recipe_name,
                    current_rate,
                    num_somersloop,
                    built,
                    building_name,
                    recipe_power,
                    power_exponent,
                    somersloop_power_exponent,
                    somersloop_mult,
                    variable_power,
                    ins,
                    outs,
                },
                GroupedNodeData::Group { name, current_rate, nodes, links, ins, outs } => GroupedNodeData::Group {
                    name,
                    current_rate,
                    nodes: set_crafts_built(nodes, built),
                    links,
                    ins,
                    outs,
                },
                other => other,
            };
            let ghost before = out@;
            out.push(GroupedNode { node_data: data, relative_pos });
            proof {
                let sub = v0.subrange(0, m + 1);
                assert forall|i: int| 0 <= i < m implies #[trigger] sub[i] == v0.subrange(0, m)[i] by {}
                assert forall|i: int| 0 <= i < m implies out@[i] == before[i] by {}
                assert forall|i: int| 0 <= i < m + 1 implies #[trigger] group_built_set_at(sub, out@, built, i) by {
                    if i < m {
                        assert(group_built_set_at(v0.subrange(0, m), before, built, i));
                    }
                }
            }
        }
        assert(v0.subrange(0, v0.len() as int) =~= v0);
        self.grouped_nodes = out;
        self.update_details()
    }
}

impl ProductionApp {
    /// Mark a crafting node built or not; for a group, every crafting node
    /// inside it (see `GroupNode::set_built_state`).
    pub fn set_node_built_state(&mut self, node_id: u64, built: bool) -> (r: Result<(), String>)
        ensures
            final(self).links@ == old(self).links@,
            final(self).next_id == old(self).next_id,
            node_index(old(self).nodes@, node_id) is None ==> (r matches Err(e) && e@ == "Node "@ + int_to_decimal(node_id as int) + " not found"@ && *final(self) == *old(self)),
            node_index(old(self).nodes@, node_id) matches Some(i) ==> {
                &&& !(old(self).nodes@[i] is Craft) && !(old(self).nodes@[i] is Group) ==> (r matches Err(e) && e@ == "Unsupported node kind for set built state"@ && final(self).nodes@ == old(self).nodes@)
                &&& old(self).nodes@[i] matches AppNode::Craft(a) ==> r is Ok && replaced_at(old(self).nodes@, i, final(self).nodes@)
                    && final(self).nodes@[i] == AppNode::Craft(CraftNode { built, ..a })
                &&& old(self).nodes@[i] matches AppNode::Group(a) ==> replaced_at(old(self).nodes@, i, final(self).nodes@)
                    && (final(self).nodes@[i] matches AppNode::Group(g) && group_built_set(a.grouped_nodes@, g.grouped_nodes@, built)
                        && g.base == a.base && g.current_rate == a.current_rate && g.name == a.name
                        && (r is Ok ==> details_current(g)))
                    && (r matches Err(e) ==> e@ == overflow_text())
                    && (final(self).nodes@[i] matches AppNode::Group(g) ==> (r is Err <==> !machine_totals_fit(
                        g.grouped_nodes@,
                        g.nodes_base_rate@,
                        g.current_rate@,
                    )))
            },
    {
        let i = match self.find_node_index(node_id) {
            Some(i) => i,
            None => {
                return Err(node_not_found(node_id));
            },
        };
        let ghost before = self.nodes@;
        let r = match &mut self.nodes[i] {
            AppNode::Craft(c) => {
                c.built = built;
                Ok(())
            },
            AppNode::Group(g) => {
                if g.set_built_state(built) {
                    Ok(())
                } else {
                    Err("Arithmetic overflow while propagating rates".to_owned())
                }
            },
            _ => Err("Unsupported node kind for set built state".to_owned()),
        };
        proof {
            if !(before[i as int] is Craft) && !(before[i as int] is Group) {
                assert(self.nodes@ =~= before);
            }
        }
        r
    }

    /// Build progress of a node as (built, total) crafting nodes: one for a
    /// crafting node, the counts inside a group, none for other nodes; `None`
    /// for an unknown node, or where a group's count does not fit in `usize`.
    pub fn get_node_build_progress(&self, node_id: u64) -> (r: Option<(usize, usize)>)
        ensures
            node_index(self.nodes@, node_id) is None ==> r is None,
            node_index(self.nodes@, node_id) matches Some(i) ==> match self.nodes@[i] {
                AppNode::Craft(c) => r == Some((if c.built { 1usize } else { 0usize }, 1usize)),
                AppNode::Group(g) => (r matches Some((b, t)) ==> b == craft_counts(g.grouped_nodes@).0 && t == craft_counts(g.grouped_nodes@).1)
                    && (r is None ==> craft_counts(g.grouped_nodes@).1 >= usize::MAX),
                _ => r == Some((0usize, 0usize)),
            },
    {
        let i = self.find_node_index(node_id)?;
        match &self.nodes[i] {
            AppNode::Craft(c) => Some((if c.built { 1 } else { 0 }, 1)),
            AppNode::Group(g) => g.count_craft_nodes(),
            _ => Some((0, 0)),
        }
    }
}

} // verus!
