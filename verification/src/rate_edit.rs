//! Editing the rate of one pin: the checks that may refuse the edit, the
//! change it makes to its node, and the propagation that follows.
use vstd::prelude::*;
use crate::app_node::{AppNode, PinUpdate, is_input};
use crate::auto_lock::lemma_qeq_sign;
use crate::fractional_number::{FractionalNumber, div_fits};
use crate::link::Link;
use crate::pin::{Pin, PinDirection};
use crate::production_app::{ProductionApp, node_index};
use crate::rate_calculator::validate_rate;
use crate::rate_change::{Propagation, propagated, propagation_refused, overflow_text};
use crate::rate_update::{craft_rescaled, group_rescaled};
use crate::rational::{qeq, qdiv, qcanon, lemma_qcanon};
use crate::node::{scale_fits, inner_scale_fits};
use crate::text::{concat, int_to_decimal, u64_to_string};

verus! {

/// The message for a pin index past the end of its side.
pub open spec fn out_of_range_text(input: bool) -> Seq<char> {
    if input {
        "Input pin out of range"@
    } else {
        "Output pin out of range"@
    }
}

/// Editing this pin sets the rate of its whole node: outputs of crafting
/// nodes and all pins of groups.
pub open spec fn derives_rate(node: AppNode, input: bool) -> bool {
    (node is Craft && !input) || node is Group
}

/// Why the node refuses the edit of pin `idx` to `rate`, if it does.
pub open spec fn node_edit_refusal(node: AppNode, input: bool, idx: int, rate: FractionalNumber) -> Option<Seq<char>> {
    if node is Sink && !input {
        Some("Sink has no outputs"@)
    } else if idx >= node.side(input).len() {
        Some(out_of_range_text(input))
    } else if derives_rate(node, input) {
        let base = node.side(input)[idx].base_rate@;
        if base.0 == 0 {
            Some("Base rate is zero"@)
        } else if div_fits(rate@, base) && qdiv(rate@, base).0 < 0 {
            if node is Craft {
                Some("Derived node rate invalid"@)
            } else {
                Some("Derived group rate invalid"@)
            }
        } else {
            None
        }
    } else {
        None
    }
}

/// The edit of pin `idx` to `rate` can be made in 64-bit integers: where the
/// pin sets its node's rate, `rate / base_rate` and every pin and inside node
/// scaled to it fit.
pub open spec fn node_edit_fits(node: AppNode, input: bool, idx: int, rate: FractionalNumber) -> bool {
    if derives_rate(node, input) {
        let base = node.side(input)[idx].base_rate@;
        &&& div_fits(rate@, base)
        &&& {
            let d = qcanon(qdiv(rate@, base));
            match node {
                AppNode::Craft(c) => scale_fits(c.base.ins@, d) && scale_fits(c.base.outs@, d),
                AppNode::Group(g) => scale_fits(g.base.ins@, d) && scale_fits(g.base.outs@, d) && forall|i: int|
                    0 <= i < g.grouped_nodes@.len() ==> #[trigger] inner_scale_fits(g, i, d),
                _ => true,
            }
        }
    } else {
        true
    }
}

/// Why the edit is refused before anything changes, if it is.
pub open spec fn edit_refusal(nodes: Seq<AppNode>, node_id: u64, input: bool, idx: int, rate: FractionalNumber) -> Option<Seq<char>> {
    if rate@.0 < 0 {
        Some("Invalid rate"@)
    } else {
        match node_index(nodes, node_id) {
            None => Some("Node "@ + int_to_decimal(node_id as int) + " not found"@),
            Some(i) => node_edit_refusal(nodes[i], input, idx, rate),
        }
    }
}

/// `y` is `x` after the edit: a node whose rate the pin sets is rescaled to
/// `rate / base_rate`; otherwise only the pin's rate becomes `rate`.
pub open spec fn node_edited(x: AppNode, input: bool, idx: int, rate: FractionalNumber, y: AppNode) -> bool {
    if derives_rate(x, input) {
        let d = qdiv(rate@, x.side(input)[idx].base_rate@);
        match (x, y) {
            (AppNode::Craft(a), AppNode::Craft(b)) => craft_rescaled(a, b) && qeq(b.current_rate@, d),
            (AppNode::Group(a), AppNode::Group(b)) => group_rescaled(a, b) && qeq(b.current_rate@, d),
            _ => false,
        }
    } else {
        &&& y.same_settings(x)
        &&& y.side(input) == x.side(input).update(idx, Pin { current_rate: rate, ..x.side(input)[idx] })
        &&& y.side(!input) == x.side(!input)
    }
}

/// `mid` is `nodes` after editing the pin of node `i`.
pub open spec fn edited(nodes: Seq<AppNode>, i: int, input: bool, idx: int, rate: FractionalNumber, mid: Seq<AppNode>) -> bool {
    &&& mid.len() == nodes.len()
    &&& 0 <= i < nodes.len()
    &&& forall|m: int| 0 <= m < nodes.len() && m != i ==> #[trigger] mid[m] == nodes[m]
    &&& node_edited(nodes[i], input, idx, rate, mid[i])
}

/// After the edit, the rate of the edited pin was propagated from `mid`.
pub open spec fn edit_followed(
    mid: Seq<AppNode>,
    links: Seq<Link>,
    i: int,
    input: bool,
    idx: int,
    r: Result<(), String>,
    result: Seq<AppNode>,
) -> bool {
    let p = mid[i].side(input)[idx];
    let prefix = "Failed to propagate rates: "@;
    match r {
        Ok(_) => exists|w: Propagation| #[trigger] propagated(mid, links, p.id, p.current_rate, w, result),
        Err(e) => prefix.len() <= e@.len() && e@.subrange(0, prefix.len() as int) == prefix && propagation_refused(
            mid,
            links,
            p.id,
            p.current_rate,
            e@.subrange(prefix.len() as int, e@.len() as int),
            result,
        ),
    }
}

/// The message for a node that does not exist.
pub fn node_not_found(node_id: u64) -> (r: String)
    ensures
        r@ == "Node "@ + int_to_decimal(node_id as int) + " not found"@,
{
    let s = concat("Node ".to_owned(), u64_to_string(node_id).as_str());
    concat(s, " not found")
}

fn edit_overflow() -> (r: String)
    ensures
        r@ == overflow_text(),
{
    "Arithmetic overflow while propagating rates".to_owned()
}

/// Apply the edit of pin `idx` to `rate` to the node.
fn edit_node(node: &mut AppNode, input: bool, idx: usize, rate: FractionalNumber) -> (r: Result<(), String>)
    ensures
        r matches Err(e) ==> *final(node) == *old(node) && (node_edit_refusal(*old(node), input, idx as int, rate)
            == Some(e@) || (node_edit_refusal(*old(node), input, idx as int, rate) is None && e@
            == overflow_text())),
        r is Ok ==> node_edit_refusal(*old(node), input, idx as int, rate) is None && node_edited(
            *old(node),
            input,
            idx as int,
            rate,
            *final(node),
        ),
        node_edit_refusal(*old(node), input, idx as int, rate) is None ==> (r is Ok <==> node_edit_fits(*old(node), input, idx as int, rate)),
{
    let (is_sink, is_craft, is_group) = match node {
        AppNode::Sink(_) => (true, false, false),
        AppNode::Craft(_) => (false, true, false),
        AppNode::Group(_) => (false, false, true),
        _ => (false, false, false),
    };
    if is_sink && !input {
        return Err("Sink has no outputs".to_owned());
    }
    if idx >= node.side_len(input) {
        if input {
            return Err("Input pin out of range".to_owned());
        } else {
            return Err("Output pin out of range".to_owned());
        }
    }
    if !((is_craft && !input) || is_group) {
        node.update_pin(input, idx, PinUpdate::Rate(rate));
        return Ok(());
    }
    let base = node.pin(input, idx).base_rate;
    if base.is_zero() {
        return Err("Base rate is zero".to_owned());
    }
    let d = match rate.checked_div(base) {
        Some(d) => d,
        None => {
            return Err(edit_overflow());
        },
    };
    proof {
        use_type_invariant(&d);
        use_type_invariant(&base);
        use_type_invariant(&rate);
        let q = qdiv(rate@, base@);
        assert(q.1 > 0) by (nonlinear_arith)
            requires
                q == qdiv(rate@, base@),
                rate@.1 > 0,
                base@.0 != 0,
        ;
        lemma_qeq_sign(d@, q);
        lemma_qcanon(d@, q);
    }
    if !validate_rate(&d) {
        if is_craft {
            return Err("Derived node rate invalid".to_owned());
        } else {
            return Err("Derived group rate invalid".to_owned());
        }
    }
    match node {
        AppNode::Craft(cn) => {
            if !cn.rate_fits(d) {
                return Err(edit_overflow());
            }
            cn.update_rate(d);
            Ok(())
        },
        AppNode::Group(g) => {
            if !g.update_rate(d) {
                return Err(edit_overflow());
            }
            Ok(())
        },
        _ => Ok(()),
    }
}

impl ProductionApp {
    /// Set the rate of one pin and propagate it. On a crafting node's output,
    /// or any pin of a group, the edit sets the node's rate to
    /// `rate / base_rate`; on other pins it sets the pin's rate. The edited
    /// pin's new rate is then propagated with `update_nodes_rate`.
    pub fn set_pin_rate(&mut self, node_id: u64, direction: PinDirection, pin_index: usize, new_rate: FractionalNumber) -> (r: Result<(), String>)
        ensures
            final(self).links@ == old(self).links@,
            final(self).next_id == old(self).next_id,
            final(self).nodes@.len() == old(self).nodes@.len(),
            edit_refusal(old(self).nodes@, node_id, is_input(direction), pin_index as int, new_rate) matches Some(m)
                ==> r matches Err(e) && e@ == m && final(self).nodes@ == old(self).nodes@,
            edit_refusal(old(self).nodes@, node_id, is_input(direction), pin_index as int, new_rate) is None && !node_edit_fits(
                old(self).nodes@[node_index(old(self).nodes@, node_id)->0],
                is_input(direction),
                pin_index as int,
                new_rate,
            ) ==> (r matches Err(e) && e@ == overflow_text() && final(self).nodes@ == old(self).nodes@),
            edit_refusal(old(self).nodes@, node_id, is_input(direction), pin_index as int, new_rate) is None && node_edit_fits(
                old(self).nodes@[node_index(old(self).nodes@, node_id)->0],
                is_input(direction),
                pin_index as int,
                new_rate,
            ) ==> exists|mid: Seq<AppNode>| #[trigger] edited(
                    old(self).nodes@,
                    node_index(old(self).nodes@, node_id)->0,
                    is_input(direction),
                    pin_index as int,
                    new_rate,
                    mid,
                ) && edit_followed(
                    mid,
                    old(self).links@,
                    node_index(old(self).nodes@, node_id)->0,
                    is_input(direction),
                    pin_index as int,
                    r,
                    final(self).nodes@,
                ),
    {
        if !validate_rate(&new_rate) {
            return Err("Invalid rate".to_owned());
        }
        let ni = match self.find_node_index(node_id) {
            Some(i) => i,
            None => {
                return Err(node_not_found(node_id));
            },
        };
        let input = direction == PinDirection::Input;
        let ghost nodes = self.nodes@;
        match edit_node(&mut self.nodes[ni], input, pin_index, new_rate) {
            Err(e) => {
                proof {
                    assert(self.nodes@ =~= nodes);
                }
                return Err(e);
            },
            Ok(()) => {},
        }
        let ghost mid = self.nodes@;
        proof {
            assert(edited(nodes, ni as int, input, pin_index as int, new_rate, mid));
            assert(pin_index < mid[ni as int].side(input).len());
        }
        let p = self.nodes[ni].pin(input, pin_index);
        let pid = p.id;
        let cur = p.current_rate;
        match self.update_nodes_rate(pid, cur) {
            Ok(()) => Ok(()),
            Err(e) => {
                let msg = concat("Failed to propagate rates: ".to_owned(), e.as_str());
                proof {
                    let prefix = "Failed to propagate rates: "@;
                    assert(msg@.subrange(0, prefix.len() as int) =~= prefix);
                    assert(msg@.subrange(prefix.len() as int, msg@.len() as int) =~= e@);
                }
                Err(msg)
            },
        }
    }
}

} // verus!
