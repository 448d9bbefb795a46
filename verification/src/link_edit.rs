//! Creating a link: the pins learn the link, the rate of the joined graph is
//! propagated (and undone where it fails), locks and item names spread across
//! the link, and organizers whose rates became determined get locked.
use vstd::prelude::*;
use crate::app_node::{AppNode, PinUpdate};
use crate::auto_lock::{lock_grown, auto_locked, pin_ids_unique};
use crate::connectivity::{connected, lemma_component_exact};
use crate::fractional_number::FractionalNumber;
use crate::link::Link;
use crate::node::{OrganizerNode, SinkNode};
use crate::pin::Pin;
use crate::production_app::{ProductionApp, pin_loc, pin_at, pin_updated, same_pin_ids, lemma_same_ids_pin_loc, is_pin_loc};
use crate::rate_change::{Propagation, propagated, propagation_refused, lemma_ids_trans};
use crate::rational::qzero;
use crate::text::concat;

verus! {

/// The rate and lock state of a pin, if some node holds it.
pub open spec fn pin_state(nodes: Seq<AppNode>, pid: u64) -> Option<(FractionalNumber, bool)> {
    match pin_loc(nodes, pid) {
        Some(l) => Some((pin_at(nodes, l).current_rate, pin_at(nodes, l).locked)),
        None => None,
    }
}

/// The pin is held, locked, and carries a non-zero rate.
pub open spec fn locked_nonzero(nodes: Seq<AppNode>, pid: u64) -> bool {
    pin_state(nodes, pid) matches Some((r, l)) && l && r@.0 != 0
}

/// The pin is held and carries a non-zero rate.
pub open spec fn nonzero_pin(nodes: Seq<AppNode>, pid: u64) -> bool {
    pin_state(nodes, pid) matches Some((r, _l)) && r@.0 != 0
}

/// The rate of a held pin.
pub open spec fn state_rate(nodes: Seq<AppNode>, pid: u64) -> FractionalNumber {
    (pin_state(nodes, pid)->0).0
}

/// The pin `cp` and rate `cv` that a new link from `start` to `end`
/// propagates: a locked end, else a locked start, else some locked pin
/// connected to the start, each with a non-zero rate; else the start or the
/// end with a non-zero rate; else the start with rate zero.
pub open spec fn constraint_ok(nodes: Seq<AppNode>, links: Seq<Link>, start: u64, end: u64, cp: u64, cv: FractionalNumber) -> bool {
    if locked_nonzero(nodes, end) {
        cp == end && cv == state_rate(nodes, end)
    } else if locked_nonzero(nodes, start) {
        cp == start && cv == state_rate(nodes, start)
    } else if exists|p: u64| connected(nodes, links, start, p) && #[trigger] locked_nonzero(nodes, p) {
        connected(nodes, links, start, cp) && locked_nonzero(nodes, cp) && cv == state_rate(nodes, cp)
    } else if nonzero_pin(nodes, start) {
        cp == start && cv == state_rate(nodes, start)
    } else if nonzero_pin(nodes, end) {
        cp == end && cv == state_rate(nodes, end)
    } else {
        cp == start && cv@ == qzero()
    }
}

/// The rate and lock of each pin.
pub open spec fn states_of(pins: Seq<Pin>) -> Seq<(FractionalNumber, bool)> {
    pins.map_values(|p: Pin| (p.current_rate, p.locked))
}

/// `y` is `x` with the rates and locks of `st`.
pub open spec fn restored_side(x: Seq<Pin>, y: Seq<Pin>, st: Seq<(FractionalNumber, bool)>) -> bool {
    &&& y.len() == x.len()
    &&& forall|j: int| 0 <= j < x.len() ==> #[trigger] y[j] == (Pin { current_rate: st[j].0, locked: st[j].1, ..x[j] })
}

/// `b` is `a` with the pin rates and locks of `s`.
pub open spec fn restored(a: Seq<AppNode>, b: Seq<AppNode>, s: Seq<AppNode>) -> bool {
    &&& b.len() == a.len()
    &&& forall|n: int|
        0 <= n < a.len() ==> (#[trigger] b[n]).same_settings(a[n]) && restored_side(a[n].ins(), b[n].ins(), states_of(s[n].ins()))
            && restored_side(a[n].outs(), b[n].outs(), states_of(s[n].outs()))
}

/// The item of the output at `pi` of a crafting node or organizer.
pub open spec fn out_item(node: AppNode, pi: int) -> Option<String> {
    match node {
        AppNode::Craft(c) => if 0 <= pi < c.base.outs@.len() {
            c.base.outs@[pi].item_name
        } else {
            None
        },
        AppNode::Organizer(o) => if 0 <= pi < o.base.outs@.len() {
            o.base.outs@[pi].item_name
        } else {
            None
        },
        _ => None,
    }
}

/// An organizer without an item takes `item`, if there is one.
pub open spec fn org_named(node: AppNode, item: Option<String>) -> AppNode {
    match node {
        AppNode::Organizer(o) => if o.item_name is None && item is Some {
            AppNode::Organizer(OrganizerNode { item_name: item, ..o })
        } else {
            node
        },
        _ => node,
    }
}

/// A sink fed by a crafting node takes the item of the feeding output.
pub open spec fn sink_named(sink: AppNode, feeder: AppNode, pi: int) -> AppNode {
    match (sink, feeder) {
        (AppNode::Sink(s), AppNode::Craft(_)) => if out_item(feeder, pi) is Some {
            AppNode::Sink(SinkNode { item_name: out_item(feeder, pi), ..s })
        } else {
            sink
        },
        _ => sink,
    }
}

/// The nodes after a new link between the pins at `ls` and `le` names items:
/// each organizer end without an item takes the item of the other end's
/// output at the other pin's index, and a sink end fed by a crafting node
/// takes the item of its output.
pub open spec fn items_named(a: Seq<AppNode>, ls: (int, bool, int), le: (int, bool, int)) -> Seq<AppNode> {
    let t1 = a.update(ls.0, org_named(a[ls.0], out_item(a[le.0], le.2)));
    let t2 = t1.update(le.0, org_named(t1[le.0], out_item(t1[ls.0], ls.2)));
    t2.update(le.0, sink_named(t2[le.0], t2[ls.0], ls.2))
}

/// Both pins record the link `id`: the pin at `ls` in `mid`, then the pin at `le`.
#[verifier::opaque]
pub open spec fn linking_step(nodes: Seq<AppNode>, mid: Seq<AppNode>, linked: Seq<AppNode>, ls: (int, bool, int), le: (int, bool, int), id: u64) -> bool {
    pin_updated(nodes, mid, ls, PinUpdate::Link(Some(id))) && pin_updated(mid, linked, le, PinUpdate::Link(Some(id)))
}

/// Propagating `cv` from `cp` led from `linked` to `prop`; or it failed as
/// `err` says, in the state `failed`, and every pin got back its rate and lock
/// from `linked`, with `warn` saying why.
#[verifier::opaque]
pub open spec fn propagation_step(
    linked: Seq<AppNode>,
    links: Seq<Link>,
    cp: u64,
    cv: FractionalNumber,
    warn: Option<String>,
    err: Seq<char>,
    failed: Seq<AppNode>,
    prop: Seq<AppNode>,
) -> bool {
    match warn {
        None => exists|w: Propagation| #[trigger] propagated(linked, links, cp, cv, w, prop),
        Some(m) => m@ == "Propagation failed: "@ + err && propagation_refused(linked, links, cp, cv, err, failed)
            && same_pin_ids(linked, failed) && restored(failed, prop, linked),
    }
}

/// Where either pin is locked in `prop`, both get locked (the pin at `ls` in
/// `mid`, then the pin at `le`); otherwise nothing changes.
#[verifier::opaque]
pub open spec fn lock_step(prop: Seq<AppNode>, mid: Seq<AppNode>, locked: Seq<AppNode>, ls: (int, bool, int), le: (int, bool, int)) -> bool {
    if pin_at(prop, ls).locked || pin_at(prop, le).locked {
        pin_updated(prop, mid, ls, PinUpdate::Locked(true)) && pin_updated(mid, locked, le, PinUpdate::Locked(true))
    } else {
        locked == prop
    }
}

/// The intermediate graphs of creating a link.
pub struct LinkSteps {
    pub linked_mid: Seq<AppNode>,
    pub linked: Seq<AppNode>,
    pub cp: u64,
    pub cv: FractionalNumber,
    pub err: Seq<char>,
    pub failed: Seq<AppNode>,
    pub propagated: Seq<AppNode>,
    pub lock_mid: Seq<AppNode>,
    pub locked: Seq<AppNode>,
    pub named: Seq<AppNode>,
}

/// Creating the link `id` from `start` to `end` led from `nodes` to `result`
/// through `st`: both pins record the link; the constraint chosen by
/// `constraint_ok` is propagated, or, where that fails, every pin gets back
/// its rate and lock from before and `warn` says why; if either end is
/// locked, both are; items are named across the link; then organizer pins
/// only get locked.
pub open spec fn link_steps(
    nodes: Seq<AppNode>,
    links: Seq<Link>,
    start: u64,
    end: u64,
    id: u64,
    warn: Option<String>,
    st: LinkSteps,
    result: Seq<AppNode>,
) -> bool {
    let ls = pin_loc(nodes, start)->0;
    let le = pin_loc(nodes, end)->0;
    &&& linking_step(nodes, st.linked_mid, st.linked, ls, le, id)
    &&& constraint_ok(st.linked, links, start, end, st.cp, st.cv)
    &&& propagation_step(st.linked, links, st.cp, st.cv, warn, st.err, st.failed, st.propagated)
    &&& lock_step(st.propagated, st.lock_mid, st.locked, ls, le)
    &&& st.named == items_named(st.locked, ls, le)
    &&& lock_grown(st.named, result)
    &&& pin_ids_unique(st.named) ==> auto_locked(st.named, result)
}

/// Setting the link of a pin keeps the rate and lock of every pin.
proof fn lemma_link_update_states(a: Seq<AppNode>, b: Seq<AppNode>, l: (int, bool, int), link: Option<u64>)
    requires
        pin_updated(a, b, l, PinUpdate::Link(link)),
        0 <= l.0 < a.len(),
        0 <= l.2 < a[l.0].side(l.1).len(),
    ensures
        forall|pid: u64| #[trigger] pin_state(b, pid) == pin_state(a, pid),
{
    lemma_updated_ids(a, b, l, PinUpdate::Link(link));
    assert forall|pid: u64| #[trigger] pin_state(b, pid) == pin_state(a, pid) by {
        lemma_same_ids_pin_loc(a, b, pid);
        if let Some(m) = pin_loc(a, pid) {
            assert(is_pin_loc(a, pid, m.0, m.1, m.2));
            if m.0 == l.0 && m.1 == l.1 {
                assert(b[l.0].side(l.1)[m.2] == a[l.0].side(l.1).update(l.2, crate::app_node::updated_pin(a[l.0].side(l.1)[l.2], PinUpdate::Link(link)))[m.2]);
            } else if m.0 == l.0 {
                assert(b[l.0].side(!l.1) == a[l.0].side(!l.1));
                assert(m.1 == !l.1);
            }
        }
    }
}

/// A new link in a graph without a locked pin of non-zero rate takes the
/// rate of its start pin where that is not zero, else that of its end pin
/// where that is not zero: `create_link` propagates that pin's own rate from
/// that pin.
pub proof fn law_link_takes_start_rate(
    nodes: Seq<AppNode>,
    links: Seq<Link>,
    start: u64,
    end: u64,
    id: u64,
    warn: Option<String>,
    st: LinkSteps,
    result: Seq<AppNode>,
)
    requires
        link_steps(nodes, links, start, end, id, warn, st, result),
        pin_loc(nodes, start) is Some,
        pin_loc(nodes, end) is Some,
        forall|p: u64| !(#[trigger] pin_state(nodes, p) matches Some((r, true)) && r@.0 != 0),
    ensures
        pin_at(nodes, pin_loc(nodes, start)->0).current_rate@.0 != 0 ==> st.cp == start && st.cv == pin_at(
            nodes,
            pin_loc(nodes, start)->0,
        ).current_rate,
        pin_at(nodes, pin_loc(nodes, start)->0).current_rate@.0 == 0 && pin_at(nodes, pin_loc(nodes, end)->0).current_rate@.0
            != 0 ==> st.cp == end && st.cv == pin_at(nodes, pin_loc(nodes, end)->0).current_rate,
{
    let ls = pin_loc(nodes, start)->0;
    let le = pin_loc(nodes, end)->0;
    assert(is_pin_loc(nodes, start, ls.0, ls.1, ls.2));
    assert(is_pin_loc(nodes, end, le.0, le.1, le.2));
    assert(linking_step(nodes, st.linked_mid, st.linked, ls, le, id));
    reveal(linking_step);
    assert(pin_updated(nodes, st.linked_mid, ls, PinUpdate::Link(Some(id))));
    lemma_link_update_states(nodes, st.linked_mid, ls, Some(id));
    lemma_updated_ids(nodes, st.linked_mid, ls, PinUpdate::Link(Some(id)));
    assert(st.linked_mid[le.0].side(le.1).len() == nodes[le.0].side(le.1).len());
    lemma_link_update_states(st.linked_mid, st.linked, le, Some(id));
    let lk = st.linked;
    assert forall|p: u64| !#[trigger] locked_nonzero(lk, p) by {
        assert(pin_state(lk, p) == pin_state(st.linked_mid, p));
        assert(pin_state(st.linked_mid, p) == pin_state(nodes, p));
    }
    assert(pin_state(lk, start) == pin_state(st.linked_mid, start));
    assert(pin_state(lk, end) == pin_state(st.linked_mid, end));
    assert(pin_state(st.linked_mid, start) == pin_state(nodes, start));
    assert(pin_state(st.linked_mid, end) == pin_state(nodes, end));
    assert(!locked_nonzero(lk, end));
    assert(!locked_nonzero(lk, start));
    assert(!exists|p: u64| connected(lk, links, start, p) && #[trigger] locked_nonzero(lk, p));
}

/// A new link propagates the rate of its end pin where that is locked with
/// a non-zero rate; else that of its start pin where that is so locked.
pub proof fn law_link_prefers_locked_pins(
    nodes: Seq<AppNode>,
    links: Seq<Link>,
    start: u64,
    end: u64,
    id: u64,
    warn: Option<String>,
    st: LinkSteps,
    result: Seq<AppNode>,
)
    requires
        link_steps(nodes, links, start, end, id, warn, st, result),
        pin_loc(nodes, start) is Some,
        pin_loc(nodes, end) is Some,
    ensures
        ({
            let pe = pin_at(nodes, pin_loc(nodes, end)->0);
            pe.locked && pe.current_rate@.0 != 0 ==> st.cp == end && st.cv == pe.current_rate
        }),
        ({
            let pe = pin_at(nodes, pin_loc(nodes, end)->0);
            let ps = pin_at(nodes, pin_loc(nodes, start)->0);
            !(pe.locked && pe.current_rate@.0 != 0) && ps.locked && ps.current_rate@.0 != 0 ==> st.cp == start && st.cv
                == ps.current_rate
        }),
{
    let ls = pin_loc(nodes, start)->0;
    let le = pin_loc(nodes, end)->0;
    assert(is_pin_loc(nodes, start, ls.0, ls.1, ls.2));
    assert(is_pin_loc(nodes, end, le.0, le.1, le.2));
    assert(linking_step(nodes, st.linked_mid, st.linked, ls, le, id));
    reveal(linking_step);
    assert(pin_updated(nodes, st.linked_mid, ls, PinUpdate::Link(Some(id))));
    lemma_link_update_states(nodes, st.linked_mid, ls, Some(id));
    lemma_updated_ids(nodes, st.linked_mid, ls, PinUpdate::Link(Some(id)));
    assert(st.linked_mid[le.0].side(le.1).len() == nodes[le.0].side(le.1).len());
    lemma_link_update_states(st.linked_mid, st.linked, le, Some(id));
    assert(pin_state(st.linked, start) == pin_state(st.linked_mid, start));
    assert(pin_state(st.linked, end) == pin_state(st.linked_mid, end));
    assert(pin_state(st.linked_mid, start) == pin_state(nodes, start));
    assert(pin_state(st.linked_mid, end) == pin_state(nodes, end));
}

/// Updating a pin keeps every pin in place.
pub proof fn lemma_updated_ids(a: Seq<AppNode>, b: Seq<AppNode>, l: (int, bool, int), u: PinUpdate)
    requires
        pin_updated(a, b, l, u),
        0 <= l.0 < a.len(),
        0 <= l.2 < a[l.0].side(l.1).len(),
    ensures
        same_pin_ids(a, b),
{
    assert forall|n: int, input: bool| 0 <= n < a.len() implies (#[trigger] a[n].side(input)).len() == b[n].side(input).len() by {
        if n == l.0 {
            if input != l.1 {
                assert(b[n].side(!l.1) == a[n].side(!l.1));
            }
        }
    }
    assert forall|n: int, input: bool, j: int| 0 <= n < a.len() && 0 <= j < a[n].side(input).len() implies (#[trigger] a[n].side(input)[j]).id == b[n].side(input)[j].id by {
        if n == l.0 {
            if input != l.1 {
                assert(b[n].side(!l.1) == a[n].side(!l.1));
            }
        }
    }
}

/// Replacing a node by one with the same pins keeps every pin in place.
pub proof fn lemma_same_pins_ids(a: Seq<AppNode>, n: int, x: AppNode)
    requires
        0 <= n < a.len(),
        x.ins() == a[n].ins(),
        x.outs() == a[n].outs(),
    ensures
        same_pin_ids(a, a.update(n, x)),
{
    let b = a.update(n, x);
    assert forall|m: int, input: bool| 0 <= m < a.len() implies (#[trigger] a[m].side(input)).len() == b[m].side(input).len() by {}
    assert forall|m: int, input: bool, j: int| 0 <= m < a.len() && 0 <= j < a[m].side(input).len() implies (#[trigger] a[m].side(input)[j]).id == b[m].side(input)[j].id by {}
}

/// Restoring rates and locks keeps every pin in place.
pub proof fn lemma_restored_ids(a: Seq<AppNode>, b: Seq<AppNode>, s: Seq<AppNode>)
    requires
        restored(a, b, s),
    ensures
        same_pin_ids(a, b),
{
    assert forall|n: int, input: bool| 0 <= n < a.len() implies (#[trigger] a[n].side(input)).len() == b[n].side(input).len() by {
        assert(restored_side(a[n].ins(), b[n].ins(), states_of(s[n].ins())));
        assert(restored_side(a[n].outs(), b[n].outs(), states_of(s[n].outs())));
    }
    assert forall|n: int, input: bool, j: int| 0 <= n < a.len() && 0 <= j < a[n].side(input).len() implies (#[trigger] a[n].side(input)[j]).id == b[n].side(input)[j].id by {
        assert(restored_side(a[n].ins(), b[n].ins(), states_of(s[n].ins())));
        assert(restored_side(a[n].outs(), b[n].outs(), states_of(s[n].outs())));
        if input {
            assert(b[n].ins()[j] == (Pin { current_rate: states_of(s[n].ins())[j].0, locked: states_of(s[n].ins())[j].1, ..a[n].ins()[j] }));
        } else {
            assert(b[n].outs()[j] == (Pin { current_rate: states_of(s[n].outs())[j].0, locked: states_of(s[n].outs())[j].1, ..a[n].outs()[j] }));
        }
    }
}

/// The rates and locks of some pins.
fn side_states(pins: &Vec<Pin>) -> (r: Vec<(FractionalNumber, bool)>)
    ensures
        r@ == states_of(pins@),
{
    let mut r: Vec<(FractionalNumber, bool)> = Vec::new();
    let mut j: usize = 0;
    while j < pins.len()
        invariant
            0 <= j <= pins@.len(),
            r@ == states_of(pins@.subrange(0, j as int)),
        decreases pins.len() - j,
    {
        proof {
            assert(states_of(pins@.subrange(0, j + 1)) =~= states_of(pins@.subrange(0, j as int)).push((pins@[j as int].current_rate, pins@[j as int].locked)));
        }
        r.push((pins[j].current_rate, pins[j].locked));
        j += 1;
    }
    proof {
        assert(pins@.subrange(0, pins@.len() as int) =~= pins@);
    }
    r
}

/// The item of the output at `pi` of a crafting node or organizer.
fn out_item_of(node: &AppNode, pi: usize) -> (r: Option<String>)
    ensures
        r == out_item(*node, pi as int),
{
    let pins = match node {
        AppNode::Craft(c) => &c.base.outs,
        AppNode::Organizer(o) => &o.base.outs,
        _ => {
            return None;
        },
    };
    if pi < pins.len() {
        match &pins[pi].item_name {
            Some(s) => Some(s.clone()),
            None => None,
        }
    } else {
        None
    }
}

impl AppNode {
    /// Give the pins the rates and locks of `ins` and `outs`.
    pub fn restore_states(&mut self, ins: &Vec<(FractionalNumber, bool)>, outs: &Vec<(FractionalNumber, bool)>)
        requires
            ins@.len() == old(self).ins().len(),
            outs@.len() == old(self).outs().len(),
        ensures
            final(self).same_settings(*old(self)),
            restored_side(old(self).ins(), final(self).ins(), ins@),
            restored_side(old(self).outs(), final(self).outs(), outs@),
    {
        let ghost x = *self;
        let mut j: usize = 0;
        while j < ins.len()
            invariant
                0 <= j <= ins@.len(),
                ins@.len() == x.ins().len(),
                self.same_settings(x),
                self.outs() == x.outs(),
                self.ins().len() == x.ins().len(),
                forall|q: int| 0 <= q < j ==> #[trigger] self.ins()[q] == (Pin { current_rate: ins@[q].0, locked: ins@[q].1, ..x.ins()[q] }),
                forall|q: int| j <= q < x.ins().len() ==> #[trigger] self.ins()[q] == x.ins()[q],
            decreases ins.len() - j,
        {
            let (rate, locked) = ins[j];
            self.update_pin(true, j, PinUpdate::Rate(rate));
            self.update_pin(true, j, PinUpdate::Locked(locked));
            j += 1;
        }
        let mut j: usize = 0;
        while j < outs.len()
            invariant
                0 <= j <= outs@.len(),
                outs@.len() == x.outs().len(),
                self.same_settings(x),
                restored_side(x.ins(), self.ins(), ins@),
                self.outs().len() == x.outs().len(),
                forall|q: int| 0 <= q < j ==> #[trigger] self.outs()[q] == (Pin { current_rate: outs@[q].0, locked: outs@[q].1, ..x.outs()[q] }),
                forall|q: int| j <= q < x.outs().len() ==> #[trigger] self.outs()[q] == x.outs()[q],
            decreases outs.len() - j,
        {
            let (rate, locked) = outs[j];
            self.update_pin(false, j, PinUpdate::Rate(rate));
            self.update_pin(false, j, PinUpdate::Locked(locked));
            j += 1;
        }
    }
}

impl ProductionApp {
    /// The rate and lock state of a pin, if some node holds it.
    pub fn pin_state_of(&self, pid: u64) -> (r: Option<(FractionalNumber, bool)>)
        ensures
            r == pin_state(self.nodes@, pid),
    {
        match self.locate_pin(pid) {
            Some((n, input, i)) => {
                let p = self.nodes[n].pin(input, i);
                Some((p.current_rate, p.locked))
            },
            None => None,
        }
    }

    /// The pin and rate that a new link from `start` to `end` propagates.
    fn link_constraint(&self, start: u64, end: u64) -> (r: (u64, FractionalNumber))
        ensures
            constraint_ok(self.nodes@, self.links@, start, end, r.0, r.1),
    {
        if let Some((rate, locked)) = self.pin_state_of(end) {
            if locked && !rate.is_zero() {
                return (end, rate);
            }
        }
        if let Some((rate, locked)) = self.pin_state_of(start) {
            if locked && !rate.is_zero() {
                return (start, rate);
            }
        }
        let comp = self.get_connected_pins(start);
        let mut k: usize = 0;
        while k < comp.len()
            invariant
                0 <= k <= comp@.len(),
                crate::connectivity::is_component(self.nodes@, self.links@, start, comp@),
                !locked_nonzero(self.nodes@, end),
                !locked_nonzero(self.nodes@, start),
                forall|q: int| 0 <= q < k ==> !locked_nonzero(self.nodes@, #[trigger] comp@[q]),
            decreases comp.len() - k,
        {
            if let Some((rate, locked)) = self.pin_state_of(comp[k]) {
                if locked && !rate.is_zero() {
                    proof {
                        assert(comp@.contains(comp@[k as int]));
                        lemma_component_exact(self.nodes@, self.links@, start, comp@, comp@[k as int]);
                        assert(locked_nonzero(self.nodes@, comp@[k as int]));
                        assert(connected(self.nodes@, self.links@, start, comp@[k as int]));
                    }
                    return (comp[k], rate);
                }
            }
            k += 1;
        }
        proof {
            assert forall|p: u64| connected(self.nodes@, self.links@, start, p) implies !#[trigger] locked_nonzero(self.nodes@, p) by {
                lemma_component_exact(self.nodes@, self.links@, start, comp@, p);
                let q = choose|q: int| 0 <= q < comp@.len() && comp@[q] == p;
                assert(!locked_nonzero(self.nodes@, comp@[q]));
            }
        }
        if let Some((rate, _locked)) = self.pin_state_of(start) {
            if !rate.is_zero() {
                return (start, rate);
            }
        }
        if let Some((rate, _locked)) = self.pin_state_of(end) {
            if !rate.is_zero() {
                return (end, rate);
            }
        }
        (start, FractionalNumber::zero())
    }

    /// The rates and locks of all pins, node by node.
    pub(crate) fn pin_snapshot(&self) -> (r: Vec<(Vec<(FractionalNumber, bool)>, Vec<(FractionalNumber, bool)>)>)
        ensures
            r@.len() == self.nodes@.len(),
            forall|n: int|
                0 <= n < r@.len() ==> (#[trigger] r@[n]).0@ == states_of(self.nodes@[n].ins()) && r@[n].1@
                    == states_of(self.nodes@[n].outs()),
    {
        let mut r: Vec<(Vec<(FractionalNumber, bool)>, Vec<(FractionalNumber, bool)>)> = Vec::new();
        let mut n: usize = 0;
        while n < self.nodes.len()
            invariant
                0 <= n <= self.nodes@.len(),
                r@.len() == n,
                forall|m: int|
                    0 <= m < n ==> (#[trigger] r@[m]).0@ == states_of(self.nodes@[m].ins()) && r@[m].1@
                        == states_of(self.nodes@[m].outs()),
            decreases self.nodes.len() - n,
        {
            let entry = match &self.nodes[n] {
                AppNode::Craft(c) => (side_states(&c.base.ins), side_states(&c.base.outs)),
                AppNode::Organizer(o) => (side_states(&o.base.ins), side_states(&o.base.outs)),
                AppNode::Group(g) => (side_states(&g.base.ins), side_states(&g.base.outs)),
                AppNode::Sink(s) => {
                    let empty: Vec<(FractionalNumber, bool)> = Vec::new();
                    proof {
                        assert(states_of(Seq::<Pin>::empty()) =~= empty@);
                    }
                    (side_states(&s.base.ins), empty)
                },
            };
            r.push(entry);
            n += 1;
        }
        r
    }

    /// Give every pin the rate and lock of the snapshot.
    pub(crate) fn restore_pins(&mut self, snap: &Vec<(Vec<(FractionalNumber, bool)>, Vec<(FractionalNumber, bool)>)>)
        requires
            snap@.len() == old(self).nodes@.len(),
            forall|n: int|
                0 <= n < snap@.len() ==> (#[trigger] snap@[n]).0@.len() == old(self).nodes@[n].ins().len()
                    && snap@[n].1@.len() == old(self).nodes@[n].outs().len(),
        ensures
            final(self).nodes@.len() == old(self).nodes@.len(),
            forall|n: int|
                0 <= n < old(self).nodes@.len() ==> (#[trigger] final(self).nodes@[n]).same_settings(old(self).nodes@[n])
                    && restored_side(old(self).nodes@[n].ins(), final(self).nodes@[n].ins(), snap@[n].0@)
                    && restored_side(old(self).nodes@[n].outs(), final(self).nodes@[n].outs(), snap@[n].1@),
            final(self).links@ == old(self).links@,
            final(self).next_id == old(self).next_id,
    {
        let ghost a = self.nodes@;
        let mut n: usize = 0;
        while n < self.nodes.len()
            invariant
                0 <= n <= a.len(),
                self.nodes@.len() == a.len(),
                a == old(self).nodes@,
                self.links@ == old(self).links@,
                self.next_id == old(self).next_id,
                snap@.len() == a.len(),
                forall|m: int|
                    0 <= m < snap@.len() ==> (#[trigger] snap@[m]).0@.len() == a[m].ins().len() && snap@[m].1@.len()
                        == a[m].outs().len(),
                forall|m: int|
                    0 <= m < n ==> (#[trigger] self.nodes@[m]).same_settings(a[m]) && restored_side(a[m].ins(), self.nodes@[m].ins(), snap@[m].0@)
                        && restored_side(a[m].outs(), self.nodes@[m].outs(), snap@[m].1@),
                forall|m: int| n <= m < a.len() ==> #[trigger] self.nodes@[m] == a[m],
            decreases a.len() - n,
        {
            self.nodes[n].restore_states(&snap[n].0, &snap[n].1);
            n += 1;
        }
    }

    /// Link the pin `start_pin_id` to the pin `end_pin_id` under a fresh id.
    /// The rate of the joined graph is then propagated from the pin chosen by
    /// `constraint_ok`; where propagation fails, every pin gets back its rate
    /// and lock, and the returned warning says why. If either end is locked
    /// both become locked; organizer and sink ends take item names across the
    /// link; and organizer pins whose rates became determined are locked.
    pub fn create_link(&mut self, start_pin_id: u64, end_pin_id: u64) -> (r: Result<(u64, Option<String>), String>)
        requires
            old(self).next_id < u64::MAX,
        ensures
            pin_loc(old(self).nodes@, start_pin_id) is None ==> (r matches Err(e) && e@ == "Start pin not found"@
                && *final(self) == *old(self)),
            pin_loc(old(self).nodes@, start_pin_id) is Some && pin_loc(old(self).nodes@, end_pin_id) is None ==> (r matches Err(e)
                && e@ == "End pin not found"@ && *final(self) == *old(self)),
            pin_loc(old(self).nodes@, start_pin_id) is Some && pin_loc(old(self).nodes@, end_pin_id) is Some ==> (r matches Ok(
                (id, warn),
            ) && id == old(self).next_id && final(self).next_id == old(self).next_id + 1 && final(self).links@ == old(
                self,
            ).links@.push(Link { id, start_pin_id, end_pin_id, flow: None }) && exists|st: LinkSteps|
                #[trigger] link_steps(old(self).nodes@, final(self).links@, start_pin_id, end_pin_id, id, warn, st, final(self).nodes@)),
    {
        let (sn, sin, si) = match self.locate_pin(start_pin_id) {
            Some(l) => l,
            None => {
                return Err("Start pin not found".to_owned());
            },
        };
        let (en, ein, ei) = match self.locate_pin(end_pin_id) {
            Some(l) => l,
            None => {
                return Err("End pin not found".to_owned());
            },
        };
        let ghost nodes0 = self.nodes@;
        let ghost ls = (sn as int, sin, si as int);
        let ghost le = (en as int, ein, ei as int);
        let link_id = self.get_next_id();
        self.links.push(Link::new(link_id, start_pin_id, end_pin_id));
        let ghost links1 = self.links@;
        let Ghost(linked_mid) = self.link_pins(sn, sin, si, en, ein, ei, link_id);
        let ghost linked = self.nodes@;
        let (cp, cv) = self.link_constraint(start_pin_id, end_pin_id);
        let (warn, Ghost(err), Ghost(failed)) = self.propagate_or_restore(cp, cv);
        let ghost prop = self.nodes@;
        proof {
            lemma_ids_trans(nodes0, linked, prop);
            assert(nodes0[sn as int].side(sin).len() == prop[sn as int].side(sin).len());
            assert(nodes0[en as int].side(ein).len() == prop[en as int].side(ein).len());
        }
        let Ghost(lock_mid) = self.join_locks(sn, sin, si, en, ein, ei);
        let ghost locked = self.nodes@;
        self.name_items(sn, si, en, ei, Ghost(ls), Ghost(le));
        let ghost named = self.nodes@;
        self.auto_lock_organizer_pins();
        proof {
            let st = LinkSteps {
                linked_mid,
                linked,
                cp,
                cv,
                err,
                failed,
                propagated: prop,
                lock_mid,
                locked,
                named,
            };
            assert(pin_loc(nodes0, start_pin_id) == Some(ls));
            assert(pin_loc(nodes0, end_pin_id) == Some(le));
            assert(link_steps(nodes0, self.links@, start_pin_id, end_pin_id, link_id, warn, st, self.nodes@)) by {
                reveal(link_steps);
            }
        }
        Ok((link_id, warn))
    }

    /// Both pins record the link `id`.
    fn link_pins(&mut self, sn: usize, sin: bool, si: usize, en: usize, ein: bool, ei: usize, id: u64) -> (r: Ghost<Seq<AppNode>>)
        requires
            sn < old(self).nodes@.len(),
            si < old(self).nodes@[sn as int].side(sin).len(),
            en < old(self).nodes@.len(),
            ei < old(self).nodes@[en as int].side(ein).len(),
        ensures
            final(self).links@ == old(self).links@,
            final(self).next_id == old(self).next_id,
            same_pin_ids(old(self).nodes@, final(self).nodes@),
            linking_step(old(self).nodes@, r@, final(self).nodes@, (sn as int, sin, si as int), (en as int, ein, ei as int), id),
    {
        let ghost a = self.nodes@;
        self.update_pin_at(sn, sin, si, PinUpdate::Link(Some(id)));
        let ghost mid = self.nodes@;
        proof {
            lemma_updated_ids(a, mid, (sn as int, sin, si as int), PinUpdate::Link(Some(id)));
        }
        self.update_pin_at(en, ein, ei, PinUpdate::Link(Some(id)));
        proof {
            lemma_updated_ids(mid, self.nodes@, (en as int, ein, ei as int), PinUpdate::Link(Some(id)));
            lemma_ids_trans(a, mid, self.nodes@);
            reveal(linking_step);
        }
        Ghost(mid)
    }

    /// Propagate `cv` from `cp`; where that fails, give every pin back its
    /// rate and lock and return the reason as a warning.
    fn propagate_or_restore(&mut self, cp: u64, cv: FractionalNumber) -> (r: (Option<String>, Ghost<Seq<char>>, Ghost<Seq<AppNode>>))
        ensures
            final(self).links@ == old(self).links@,
            final(self).next_id == old(self).next_id,
            same_pin_ids(old(self).nodes@, final(self).nodes@),
            propagation_step(old(self).nodes@, old(self).links@, cp, cv, r.0, r.1@, r.2@, final(self).nodes@),
    {
        let ghost linked = self.nodes@;
        let snap = self.pin_snapshot();
        match self.update_nodes_rate(cp, cv) {
            Ok(()) => {
                proof {
                    reveal(propagation_step);
                }
                (None, Ghost(Seq::empty()), Ghost(linked))
            },
            Err(e) => {
                let ghost failed = self.nodes@;
                proof {
                    assert forall|n: int| 0 <= n < snap@.len() implies (#[trigger] snap@[n]).0@.len() == failed[n].ins().len()
                        && snap@[n].1@.len() == failed[n].outs().len() by {
                        assert(linked[n].side(true).len() == failed[n].side(true).len());
                        assert(linked[n].side(false).len() == failed[n].side(false).len());
                    }
                }
                self.restore_pins(&snap);
                proof {
                    assert(restored(failed, self.nodes@, linked));
                    lemma_restored_ids(failed, self.nodes@, linked);
                    lemma_ids_trans(linked, failed, self.nodes@);
                }
                let ghost ev = e@;
                let w = Some(concat("Propagation failed: ".to_owned(), e.as_str()));
                proof {
                    reveal(propagation_step);
                }
                (w, Ghost(ev), Ghost(failed))
            },
        }
    }

    /// Where either pin is locked, lock both.
    fn join_locks(&mut self, sn: usize, sin: bool, si: usize, en: usize, ein: bool, ei: usize) -> (r: Ghost<Seq<AppNode>>)
        requires
            sn < old(self).nodes@.len(),
            si < old(self).nodes@[sn as int].side(sin).len(),
            en < old(self).nodes@.len(),
            ei < old(self).nodes@[en as int].side(ein).len(),
        ensures
            final(self).links@ == old(self).links@,
            final(self).next_id == old(self).next_id,
            same_pin_ids(old(self).nodes@, final(self).nodes@),
            lock_step(old(self).nodes@, r@, final(self).nodes@, (sn as int, sin, si as int), (en as int, ein, ei as int)),
    {
        let ghost a = self.nodes@;
        let sl = self.nodes[sn].pin(sin, si).locked;
        let el = self.nodes[en].pin(ein, ei).locked;
        if sl || el {
            self.update_pin_at(sn, sin, si, PinUpdate::Locked(true));
            let ghost mid = self.nodes@;
            proof {
                lemma_updated_ids(a, mid, (sn as int, sin, si as int), PinUpdate::Locked(true));
            }
            self.update_pin_at(en, ein, ei, PinUpdate::Locked(true));
            proof {
                lemma_updated_ids(mid, self.nodes@, (en as int, ein, ei as int), PinUpdate::Locked(true));
                lemma_ids_trans(a, mid, self.nodes@);
                reveal(lock_step);
            }
            Ghost(mid)
        } else {
            proof {
                reveal(lock_step);
            }
            Ghost(a)
        }
    }

    /// Name items across a new link between the pins at `(sn, _, si)` and `(en, _, ei)`.
    fn name_items(&mut self, sn: usize, si: usize, en: usize, ei: usize, Ghost(ls): Ghost<(int, bool, int)>, Ghost(le): Ghost<(int, bool, int)>)
        requires
            sn < old(self).nodes@.len(),
            en < old(self).nodes@.len(),
            ls.0 == sn && ls.2 == si,
            le.0 == en && le.2 == ei,
        ensures
            final(self).links@ == old(self).links@,
            final(self).next_id == old(self).next_id,
            final(self).nodes@ == items_named(old(self).nodes@, ls, le),
    {
        let ghost locked = self.nodes@;
        let cand = out_item_of(&self.nodes[en], ei);
        match cand {
            Some(item) => self.name_organizer(sn, item),
            None => {
                proof {
                    assert(locked.update(ls.0, org_named(locked[ls.0], out_item(locked[le.0], le.2))) =~= locked);
                }
            },
        }
        let ghost t1 = self.nodes@;
        let cand2 = out_item_of(&self.nodes[sn], si);
        match cand2 {
            Some(item) => self.name_organizer(en, item),
            None => {
                proof {
                    assert(t1.update(le.0, org_named(t1[le.0], out_item(t1[ls.0], ls.2))) =~= t1);
                }
            },
        }
        let ghost t2 = self.nodes@;
        let sink_end = match &self.nodes[en] {
            AppNode::Sink(_) => true,
            _ => false,
        };
        let craft_start = match &self.nodes[sn] {
            AppNode::Craft(_) => true,
            _ => false,
        };
        if sink_end && craft_start {
            match out_item_of(&self.nodes[sn], si) {
                Some(item) => self.name_sink(en, item),
                None => {
                    proof {
                        assert(t2.update(le.0, sink_named(t2[le.0], t2[ls.0], ls.2)) =~= t2);
                    }
                },
            }
        } else {
            proof {
                assert(t2.update(le.0, sink_named(t2[le.0], t2[ls.0], ls.2)) =~= t2);
            }
        }
        proof {
            assert(self.nodes@ =~= items_named(locked, ls, le));
        }
    }

    /// Name an organizer's item if it has none.
    fn name_organizer(&mut self, n: usize, item: String)
        requires
            n < old(self).nodes@.len(),
        ensures
            final(self).nodes@ == old(self).nodes@.update(n as int, org_named(old(self).nodes@[n as int], Some(item))),
            final(self).links@ == old(self).links@,
            final(self).next_id == old(self).next_id,
    {
        match &mut self.nodes[n] {
            AppNode::Organizer(o) => {
                if o.item_name.is_none() {
                    o.item_name = Some(item);
                }
            },
            _ => {},
        }
    }

    /// Name a sink's item.
    fn name_sink(&mut self, n: usize, item: String)
        requires
            n < old(self).nodes@.len(),
            old(self).nodes@[n as int] is Sink,
        ensures
            final(self).nodes@ == old(self).nodes@.update(n as int, match old(self).nodes@[n as int] {
                AppNode::Sink(s) => AppNode::Sink(SinkNode { item_name: Some(item), ..s }),
                other => other,
            }),
            final(self).links@ == old(self).links@,
            final(self).next_id == old(self).next_id,
    {
        match &mut self.nodes[n] {
            AppNode::Sink(s) => {
                s.item_name = Some(item);
            },
            _ => {},
        }
    }
}

} // verus!
