//! Propagation of a rate change through the production graph: the pins it
//! reaches get variables or fixed rates, the links and organizers give linear
//! equations, and the solution becomes the new pin rates.
use vstd::prelude::*;
use crate::app_node::{AppNode, PinUpdate, updated_pin};
use crate::fractional_number::FractionalNumber;
use crate::link::Link;
use crate::node::NodeKind;
use crate::pin::Pin;
use crate::production_app::{ProductionApp, pin_loc, pin_at, link_touches};
use crate::rational::{qeq, qadd, qsub, qmul, qzero, qone, qwf};

verus! {

broadcast use vstd::seq_lib::group_seq_properties;

/// Pins equal but for a cleared error flag.
pub open spec fn pins_cleared(old: Seq<Pin>, new: Seq<Pin>) -> bool {
    &&& new.len() == old.len()
    &&& forall|j: int| 0 <= j < old.len() ==> #[trigger] new[j] == (Pin { error: false, ..old[j] })
}

/// Nodes equal but for the cleared error flags of their pins.
pub open spec fn errors_cleared(old: Seq<AppNode>, new: Seq<AppNode>) -> bool {
    &&& new.len() == old.len()
    &&& forall|n: int|
        0 <= n < old.len() ==> (#[trigger] new[n]).same_settings(old[n]) && pins_cleared(
            old[n].ins(),
            new[n].ins(),
        ) && pins_cleared(old[n].outs(), new[n].outs())
}


/// Some link starts or ends at the pin.
pub open spec fn has_link(links: Seq<Link>, pid: u64) -> bool {
    exists|k: int| 0 <= k < links.len() && #[trigger] link_touches(links[k], pid)
}

/// The side of an organizer whose pin carries the whole flow: the output of a
/// merger, the input of a custom splitter.
pub open spec fn single_side(kind: NodeKind, input: bool) -> bool {
    (kind == NodeKind::Merger && !input) || (kind == NodeKind::CustomSplitter && input)
}

/// Nodes whose pins all follow one rate variable: crafting nodes, groups and
/// game splitters.
pub open spec fn node_var_kind(node: AppNode) -> bool {
    match node {
        AppNode::Craft(_) => true,
        AppNode::Group(_) => true,
        AppNode::Organizer(o) => o.base.kind == NodeKind::GameSplitter,
        AppNode::Sink(_) => false,
    }
}

/// How a pin enters the equations.
pub enum PinClass {
    /// No node holds it.
    Skip,
    /// Its rate is fixed.
    Fixed(FractionalNumber),
    /// Its rate is `ratio * v` for the variable `v` of the node at this index.
    NodeVar(int, FractionalNumber),
    /// Its rate is a variable of its own.
    OwnVar,
}

/// The class of a pin: locked pins are fixed; so are unlinked pins of a sink,
/// and unlinked pins of an organizer not on its single side, unless the pin is
/// the one whose rate is set (`c`); the pins of crafting nodes, groups and game
/// splitters share their node's variable, with their base rate as ratio; other
/// pins get a variable each.
#[verifier::opaque]
pub open spec fn classify(nodes: Seq<AppNode>, links: Seq<Link>, c: u64, pid: u64) -> PinClass {
    match pin_loc(nodes, pid) {
        None => PinClass::Skip,
        Some(l) => {
            let p = pin_at(nodes, l);
            let node = nodes[l.0];
            if p.locked {
                PinClass::Fixed(p.current_rate)
            } else if !has_link(links, pid) && pid != c && (match node {
                AppNode::Organizer(o) => !single_side(o.base.kind, l.1),
                AppNode::Sink(_) => true,
                _ => false,
            }) {
                PinClass::Fixed(p.current_rate)
            } else if node_var_kind(node) {
                PinClass::NodeVar(l.0, p.base_rate)
            } else {
                PinClass::OwnVar
            }
        },
    }
}

/// The node whose variable the class uses.
pub open spec fn class_node(cls: PinClass) -> Option<int> {
    match cls {
        PinClass::NodeVar(n, _) => Some(n),
        _ => None,
    }
}

/// The variables and fixed rates of the pins reached by a rate change.
pub struct Assignment {
    /// Pin id, variable index, ratio.
    pub vars: Vec<(u64, usize, FractionalNumber)>,
    /// Pin id, fixed rate.
    pub fixed: Vec<(u64, FractionalNumber)>,
    pub num_vars: usize,
}

/// The entry for the pin among the variables.
pub open spec fn var_entry(vars: Seq<(u64, usize, FractionalNumber)>, pid: u64) -> Option<int> {
    if exists|i: int| 0 <= i < vars.len() && (#[trigger] vars[i]).0 == pid {
        Some(choose|i: int| 0 <= i < vars.len() && (#[trigger] vars[i]).0 == pid)
    } else {
        None
    }
}

/// The entry for the pin among the fixed rates.
pub open spec fn fixed_entry(fixed: Seq<(u64, FractionalNumber)>, pid: u64) -> Option<int> {
    if exists|i: int| 0 <= i < fixed.len() && (#[trigger] fixed[i]).0 == pid {
        Some(choose|i: int| 0 <= i < fixed.len() && (#[trigger] fixed[i]).0 == pid)
    } else {
        None
    }
}

/// The entries of the assignment agree with the classes of the pins in
/// `scope`, and every pin of `scope` with a class other than `Skip` has one.
#[verifier::opaque]
pub open spec fn assign_ok(
    nodes: Seq<AppNode>,
    links: Seq<Link>,
    c: u64,
    scope: spec_fn(u64) -> bool,
    vars: Seq<(u64, usize, FractionalNumber)>,
    fixed: Seq<(u64, FractionalNumber)>,
    num_vars: nat,
) -> bool {
    &&& forall|i: int, j: int| 0 <= i < j < vars.len() ==> (#[trigger] vars[i]).0 != (#[trigger] vars[j]).0
    &&& forall|i: int, j: int| 0 <= i < j < fixed.len() ==> (#[trigger] fixed[i]).0 != (#[trigger] fixed[j]).0
    &&& forall|i: int|
        0 <= i < vars.len() ==> scope((#[trigger] vars[i]).0) && vars[i].1 < num_vars && match classify(
            nodes,
            links,
            c,
            vars[i].0,
        ) {
            PinClass::NodeVar(_, r) => vars[i].2 == r,
            PinClass::OwnVar => vars[i].2@ == qone(),
            _ => false,
        }
    &&& forall|i: int|
        0 <= i < fixed.len() ==> scope((#[trigger] fixed[i]).0) && classify(nodes, links, c, fixed[i].0)
            == PinClass::Fixed(fixed[i].1)
    &&& forall|pid: u64|
        #[trigger] scope(pid) ==> match classify(nodes, links, c, pid) {
            PinClass::Skip => true,
            PinClass::Fixed(_) => fixed_entry(fixed, pid) is Some,
            _ => var_entry(vars, pid) is Some,
        }
    &&& forall|i: int, j: int|
        0 <= i < vars.len() && 0 <= j < vars.len() && i != j ==> ((#[trigger] vars[i]).1 == (#[trigger] vars[j]).1
            <==> (class_node(classify(nodes, links, c, vars[i].0)) is Some
            && class_node(classify(nodes, links, c, vars[i].0)) == class_node(classify(nodes, links, c, vars[j].0))))
}

impl ProductionApp {
    /// Clear the error flag of every pin.
    pub fn clear_pin_errors(&mut self)
        ensures
            errors_cleared(old(self).nodes@, final(self).nodes@),
            final(self).links@ == old(self).links@,
            final(self).next_id == old(self).next_id,
    {
        let ghost orig = self.nodes@;
        let mut n: usize = 0;
        while n < self.nodes.len()
            invariant
                0 <= n <= self.nodes@.len(),
                self.nodes@.len() == orig.len(),
                orig == old(self).nodes@,
                self.links@ == old(self).links@,
                self.next_id == old(self).next_id,
                forall|m: int| n <= m < orig.len() ==> #[trigger] self.nodes@[m] == orig[m],
                forall|m: int|
                    0 <= m < n ==> (#[trigger] self.nodes@[m]).same_settings(orig[m])
                        && pins_cleared(orig[m].ins(), self.nodes@[m].ins())
                        && pins_cleared(orig[m].outs(), self.nodes@[m].outs()),
            decreases self.nodes.len() - n,
        {
            let mut side: usize = 0;
            while side < 2
                invariant
                    0 <= n < self.nodes@.len(),
                    self.nodes@.len() == orig.len(),
                    self.links@ == old(self).links@,
                    self.next_id == old(self).next_id,
                    forall|m: int| n < m < orig.len() ==> #[trigger] self.nodes@[m] == orig[m],
                    forall|m: int|
                        0 <= m < n ==> (#[trigger] self.nodes@[m]).same_settings(orig[m])
                            && pins_cleared(orig[m].ins(), self.nodes@[m].ins())
                            && pins_cleared(orig[m].outs(), self.nodes@[m].outs()),
                    0 <= side <= 2,
                    self.nodes@[n as int].same_settings(orig[n as int]),
                    side >= 1 ==> pins_cleared(orig[n as int].ins(), self.nodes@[n as int].ins()),
                    side < 1 ==> self.nodes@[n as int].ins() == orig[n as int].ins(),
                    side >= 2 ==> pins_cleared(orig[n as int].outs(), self.nodes@[n as int].outs()),
                    side < 2 ==> self.nodes@[n as int].outs() == orig[n as int].outs(),
                decreases 2 - side,
            {
                let input = side == 0;
                let len = self.nodes[n].side_len(input);
                let mut j: usize = 0;
                while j < len
                    invariant
                        0 <= n < self.nodes@.len(),
                        self.nodes@.len() == orig.len(),
                        self.links@ == old(self).links@,
                        self.next_id == old(self).next_id,
                        forall|m: int| n < m < orig.len() ==> #[trigger] self.nodes@[m] == orig[m],
                        forall|m: int|
                            0 <= m < n ==> (#[trigger] self.nodes@[m]).same_settings(orig[m])
                                && pins_cleared(orig[m].ins(), self.nodes@[m].ins())
                                && pins_cleared(orig[m].outs(), self.nodes@[m].outs()),
                        self.nodes@[n as int].same_settings(orig[n as int]),
                        input == (side == 0),
                        side >= 1 ==> pins_cleared(orig[n as int].ins(), self.nodes@[n as int].ins()),
                        len == orig[n as int].side(input).len(),
                        self.nodes@[n as int].side(input).len() == len,
                        side < 1 ==> self.nodes@[n as int].outs() == orig[n as int].outs(),
                        0 <= j <= len,
                        forall|t: int| j <= t < len ==> #[trigger] self.nodes@[n as int].side(input)[t] == orig[n as int].side(input)[t],
                        forall|t: int|
                            0 <= t < j ==> #[trigger] self.nodes@[n as int].side(input)[t] == (Pin { error: false, ..orig[n as int].side(input)[t] }),
                    decreases len - j,
                {
                    let ghost before = self.nodes@[n as int];
                    self.nodes[n].update_pin(input, j, PinUpdate::Error(false));
                    assert(self.nodes@[n as int].side(input)[j as int] == updated_pin(before.side(input)[j as int], PinUpdate::Error(false)));
                    j += 1;
                }
                side += 1;
            }
            n += 1;
        }
    }
}



/// A pin class as computed: the node by its index.
pub enum ClassOf {
    Skip,
    Fixed(FractionalNumber),
    NodeVar(usize, FractionalNumber),
    OwnVar,
}

/// The computed class is the class of the pin.
pub open spec fn class_is(r: ClassOf, cls: PinClass) -> bool {
    match r {
        ClassOf::Skip => cls == PinClass::Skip,
        ClassOf::Fixed(f) => cls == PinClass::Fixed(f),
        ClassOf::NodeVar(n, b) => cls == PinClass::NodeVar(n as int, b),
        ClassOf::OwnVar => cls == PinClass::OwnVar,
    }
}

/// The recorded variable of each node that has one.
#[verifier::opaque]
pub open spec fn node_vars_ok(
    nodes: Seq<AppNode>,
    links: Seq<Link>,
    c: u64,
    vars: Seq<(u64, usize, FractionalNumber)>,
    node_vars: Seq<(usize, usize)>,
    num_vars: nat,
) -> bool {
    &&& forall|i: int, j: int| 0 <= i < j < node_vars.len() ==> (#[trigger] node_vars[i]).0 != (#[trigger] node_vars[j]).0
    &&& forall|k: int| 0 <= k < node_vars.len() ==> (#[trigger] node_vars[k]).1 < num_vars
    &&& forall|k: int| 0 <= k < node_vars.len() ==> exists|i: int| 0 <= i < vars.len()
        && (#[trigger] vars[i]).1 == (#[trigger] node_vars[k]).1
        && class_node(classify(nodes, links, c, vars[i].0)) == Some(node_vars[k].0 as int)
    &&& forall|i: int| 0 <= i < vars.len() && (class_node(classify(nodes, links, c, (#[trigger] vars[i]).0)) is Some)
        ==> exists|k: int| 0 <= k < node_vars.len() && Some((#[trigger] node_vars[k]).0 as int) == class_node(classify(nodes, links, c, vars[i].0)) && node_vars[k].1 == vars[i].1
}


proof fn lemma_assign_skip(
    nodes: Seq<AppNode>,
    links: Seq<Link>,
    c: u64,
    scope0: spec_fn(u64) -> bool,
    scope1: spec_fn(u64) -> bool,
    pid: u64,
    vars: Seq<(u64, usize, FractionalNumber)>,
    fixed: Seq<(u64, FractionalNumber)>,
    nv: nat,
)
    requires
        assign_ok(nodes, links, c, scope0, vars, fixed, nv),
        forall|q: u64| #[trigger] scope1(q) == (scope0(q) || q == pid),
        classify(nodes, links, c, pid) == PinClass::Skip,
    ensures
        assign_ok(nodes, links, c, scope1, vars, fixed, nv),
{
    reveal(assign_ok);
    reveal(node_vars_ok);
    assert forall|q: u64| #[trigger] scope1(q) implies match classify(nodes, links, c, q) {
        PinClass::Skip => true,
        PinClass::Fixed(_) => fixed_entry(fixed, q) is Some,
        _ => var_entry(vars, q) is Some,
    } by {
        if q != pid {
            assert(scope0(q));
        }
    }
    assert forall|i: int| 0 <= i < vars.len() implies scope1((#[trigger] vars[i]).0) by {
        assert(scope0(vars[i].0));
    }
    assert forall|i: int| 0 <= i < fixed.len() implies scope1((#[trigger] fixed[i]).0) by {
        assert(scope0(fixed[i].0));
    }
}


proof fn lemma_assign_fixed(
    nodes: Seq<AppNode>,
    links: Seq<Link>,
    c: u64,
    scope0: spec_fn(u64) -> bool,
    scope1: spec_fn(u64) -> bool,
    pid: u64,
    r: FractionalNumber,
    vars: Seq<(u64, usize, FractionalNumber)>,
    fixed: Seq<(u64, FractionalNumber)>,
    nv: nat,
)
    requires
        assign_ok(nodes, links, c, scope0, vars, fixed, nv),
        forall|q: u64| #[trigger] scope1(q) == (scope0(q) || q == pid),
        !scope0(pid),
        classify(nodes, links, c, pid) == PinClass::Fixed(r),
    ensures
        assign_ok(nodes, links, c, scope1, vars, fixed.push((pid, r)), nv),
{
    reveal(assign_ok);
    reveal(node_vars_ok);
    let f2 = fixed.push((pid, r));
    assert forall|i: int, j: int| 0 <= i < j < f2.len() implies (#[trigger] f2[i]).0 != (#[trigger] f2[j]).0 by {
        if j == fixed.len() {
            assert(scope0(fixed[i].0));
        }
    }
    assert forall|i: int| 0 <= i < f2.len() implies scope1((#[trigger] f2[i]).0) && classify(nodes, links, c, f2[i].0)
        == PinClass::Fixed(f2[i].1) by {
        if i < fixed.len() {
            assert(f2[i] == fixed[i]);
        }
    }
    assert forall|i: int| 0 <= i < vars.len() implies scope1((#[trigger] vars[i]).0) by {
        assert(scope0(vars[i].0));
    }
    assert forall|q: u64| #[trigger] scope1(q) implies match classify(nodes, links, c, q) {
        PinClass::Skip => true,
        PinClass::Fixed(_) => fixed_entry(f2, q) is Some,
        _ => var_entry(vars, q) is Some,
    } by {
        if q != pid {
            assert(scope0(q));
            if fixed_entry(fixed, q) is Some {
                let i = fixed_entry(fixed, q)->0;
                assert(f2[i] == fixed[i]);
            }
        } else {
            assert(f2[fixed.len() as int].0 == pid);
        }
    }
}

#[verifier::rlimit(40)]
proof fn lemma_assign_var(
    nodes: Seq<AppNode>,
    links: Seq<Link>,
    c: u64,
    scope0: spec_fn(u64) -> bool,
    scope1: spec_fn(u64) -> bool,
    pid: u64,
    v: usize,
    ratio: FractionalNumber,
    vars: Seq<(u64, usize, FractionalNumber)>,
    fixed: Seq<(u64, FractionalNumber)>,
    node_vars: Seq<(usize, usize)>,
    nv: nat,
    nv2: nat,
    node_vars2: Seq<(usize, usize)>,
)
    requires
        assign_ok(nodes, links, c, scope0, vars, fixed, nv),
        node_vars_ok(nodes, links, c, vars, node_vars, nv),
        forall|q: u64| #[trigger] scope1(q) == (scope0(q) || q == pid),
        !scope0(pid),
        match classify(nodes, links, c, pid) {
            PinClass::NodeVar(_, r) => ratio == r,
            PinClass::OwnVar => ratio@ == qone(),
            _ => false,
        },
        // a fresh variable, recorded for the node if the pin follows its node
        v == nv ==> nv2 == nv + 1 && (match classify(nodes, links, c, pid) {
            PinClass::NodeVar(n, _) => node_vars2 == node_vars.push((n as usize, v))
                && forall|k: int| 0 <= k < node_vars.len() ==> (#[trigger] node_vars[k]).0 != n,
            _ => node_vars2 == node_vars,
        }),
        // the variable already recorded for the node
        v != nv ==> nv2 == nv && node_vars2 == node_vars && (classify(nodes, links, c, pid) matches PinClass::NodeVar(n, _)
            && exists|k: int| 0 <= k < node_vars.len() && (#[trigger] node_vars[k]).0 == n && node_vars[k].1 == v),
        0 <= class_node(classify(nodes, links, c, pid))->0 <= usize::MAX || class_node(classify(nodes, links, c, pid)) is None,
    ensures
        assign_ok(nodes, links, c, scope1, vars.push((pid, v, ratio)), fixed, nv2),
{
    reveal(assign_ok);
    reveal(node_vars_ok);
    let v2 = vars.push((pid, v, ratio));
    let cls = classify(nodes, links, c, pid);
    assert forall|i: int| 0 <= i < vars.len() implies scope0((#[trigger] vars[i]).0) by {}
    assert forall|i: int| 0 <= i < v2.len() implies i < vars.len() ==> v2[i] == vars[i] by {}
    assert forall|i: int, j: int| 0 <= i < j < v2.len() implies (#[trigger] v2[i]).0 != (#[trigger] v2[j]).0 by {
        if j == vars.len() {
            assert(scope0(vars[i].0));
        } else {
            assert(v2[i] == vars[i] && v2[j] == vars[j]);
        }
    }
    if v != nv {
        let k0 = choose|k: int| 0 <= k < node_vars.len() && (#[trigger] node_vars[k]).0 == class_node(cls)->0 && node_vars[k].1 == v;
        assert(v < nv);
    }
    assert forall|i: int| 0 <= i < v2.len() implies scope1((#[trigger] v2[i]).0) && v2[i].1 < nv2 && match classify(
        nodes,
        links,
        c,
        v2[i].0,
    ) {
        PinClass::NodeVar(_, r) => v2[i].2 == r,
        PinClass::OwnVar => v2[i].2@ == qone(),
        _ => false,
    } by {
        if i < vars.len() {
            assert(v2[i] == vars[i]);
        }
    }
    assert forall|i: int| 0 <= i < fixed.len() implies scope1((#[trigger] fixed[i]).0) by {
        assert(scope0(fixed[i].0));
    }
    assert forall|q: u64| #[trigger] scope1(q) implies match classify(nodes, links, c, q) {
        PinClass::Skip => true,
        PinClass::Fixed(_) => fixed_entry(fixed, q) is Some,
        _ => var_entry(v2, q) is Some,
    } by {
        if q != pid {
            assert(scope0(q));
            if var_entry(vars, q) is Some {
                let i = var_entry(vars, q)->0;
                assert(v2[i] == vars[i]);
            }
        } else {
            assert(v2[vars.len() as int].0 == pid);
        }
    }
    assert forall|i: int, j: int|
        0 <= i < v2.len() && 0 <= j < v2.len() && i != j implies ((#[trigger] v2[i]).1 == (#[trigger] v2[j]).1
            <==> (class_node(classify(nodes, links, c, v2[i].0)) is Some
            && class_node(classify(nodes, links, c, v2[i].0)) == class_node(classify(nodes, links, c, v2[j].0)))) by {
        let last = vars.len() as int;
        if i < last && j < last {
            assert(v2[i] == vars[i] && v2[j] == vars[j]);
        } else {
            let o = if i == last { j } else { i };
            assert(v2[o] == vars[o]);
            let co = classify(nodes, links, c, vars[o].0);
            if v == nv {
                assert(vars[o].1 < nv);
                if class_node(cls) is Some && class_node(co) is Some && class_node(co) == class_node(cls) {
                    let k = choose|k: int| 0 <= k < node_vars.len() && Some((#[trigger] node_vars[k]).0 as int) == class_node(co) && node_vars[k].1 == vars[o].1;
                    assert(node_vars[k].0 == class_node(cls)->0);
                }
            } else {
                let k0 = choose|k: int| 0 <= k < node_vars.len() && (#[trigger] node_vars[k]).0 == class_node(cls)->0 && node_vars[k].1 == v;
                let i0 = choose|i0: int| 0 <= i0 < vars.len() && (#[trigger] vars[i0]).1 == (#[trigger] node_vars[k0]).1
                    && class_node(classify(nodes, links, c, vars[i0].0)) == Some(node_vars[k0].0 as int);
                if vars[o].1 == v {
                    if o != i0 {
                        assert(vars[o].1 == vars[i0].1);
                    }
                }
                if class_node(co) is Some && class_node(co) == class_node(cls) {
                    let k = choose|k: int| 0 <= k < node_vars.len() && Some((#[trigger] node_vars[k]).0 as int) == class_node(co) && node_vars[k].1 == vars[o].1;
                    if k != k0 {
                        assert(node_vars[k].0 != node_vars[k0].0 || k == k0);
                    }
                }
            }
        }
    }
}

#[verifier::rlimit(40)]
proof fn lemma_node_vars_push(
    nodes: Seq<AppNode>,
    links: Seq<Link>,
    c: u64,
    scope0: spec_fn(u64) -> bool,
    scope1: spec_fn(u64) -> bool,
    pid: u64,
    v: usize,
    ratio: FractionalNumber,
    vars: Seq<(u64, usize, FractionalNumber)>,
    fixed: Seq<(u64, FractionalNumber)>,
    node_vars: Seq<(usize, usize)>,
    nv: nat,
    nv2: nat,
    node_vars2: Seq<(usize, usize)>,
)
    requires
        assign_ok(nodes, links, c, scope0, vars, fixed, nv),
        node_vars_ok(nodes, links, c, vars, node_vars, nv),
        forall|q: u64| #[trigger] scope1(q) == (scope0(q) || q == pid),
        !scope0(pid),
        match classify(nodes, links, c, pid) {
            PinClass::NodeVar(_, r) => ratio == r,
            PinClass::OwnVar => ratio@ == qone(),
            _ => false,
        },
        // a fresh variable, recorded for the node if the pin follows its node
        v == nv ==> nv2 == nv + 1 && (match classify(nodes, links, c, pid) {
            PinClass::NodeVar(n, _) => node_vars2 == node_vars.push((n as usize, v))
                && forall|k: int| 0 <= k < node_vars.len() ==> (#[trigger] node_vars[k]).0 != n,
            _ => node_vars2 == node_vars,
        }),
        // the variable already recorded for the node
        v != nv ==> nv2 == nv && node_vars2 == node_vars && (classify(nodes, links, c, pid) matches PinClass::NodeVar(n, _)
            && exists|k: int| 0 <= k < node_vars.len() && (#[trigger] node_vars[k]).0 == n && node_vars[k].1 == v),
        0 <= class_node(classify(nodes, links, c, pid))->0 <= usize::MAX || class_node(classify(nodes, links, c, pid)) is None,
    ensures
        node_vars_ok(nodes, links, c, vars.push((pid, v, ratio)), node_vars2, nv2),
{
    reveal(assign_ok);
    reveal(node_vars_ok);
    let v2 = vars.push((pid, v, ratio));
    let cls = classify(nodes, links, c, pid);
    assert forall|i: int| 0 <= i < v2.len() implies i < vars.len() ==> v2[i] == vars[i] by {}
    // node variables
    assert forall|i: int, j: int| 0 <= i < j < node_vars2.len() implies (#[trigger] node_vars2[i]).0 != (#[trigger] node_vars2[j]).0 by {
        if v == nv && class_node(cls) is Some && j == node_vars.len() {
            assert(node_vars2[i] == node_vars[i]);
        } else {
            assert(node_vars2[i] == node_vars[i] && node_vars2[j] == node_vars[j]);
        }
    }
    assert forall|k: int| 0 <= k < node_vars2.len() implies (#[trigger] node_vars2[k]).1 < nv2 by {
        if k < node_vars.len() {
            assert(node_vars2[k] == node_vars[k]);
        }
    }
    assert forall|k: int| 0 <= k < node_vars2.len() implies exists|i: int| 0 <= i < v2.len()
        && (#[trigger] v2[i]).1 == (#[trigger] node_vars2[k]).1
        && class_node(classify(nodes, links, c, v2[i].0)) == Some(node_vars2[k].0 as int) by {
        if k < node_vars.len() {
            assert(node_vars2[k] == node_vars[k]);
            let i = choose|i: int| 0 <= i < vars.len()
                && (#[trigger] vars[i]).1 == (#[trigger] node_vars[k]).1
                && class_node(classify(nodes, links, c, vars[i].0)) == Some(node_vars[k].0 as int);
            assert(v2[i] == vars[i]);
        } else {
            let n = class_node(cls)->0;
            assert(v == nv && class_node(cls) is Some);
            assert(node_vars2 == node_vars.push((n as usize, v)));
            assert(node_vars2[k] == (n as usize, v));
            assert((n as usize) as int == n);
            assert(v2[vars.len() as int] == (pid, v, ratio));
            assert(class_node(classify(nodes, links, c, v2[vars.len() as int].0)) == Some(node_vars2[k].0 as int));
        }
    }
    assert forall|i: int| 0 <= i < v2.len() && (class_node(classify(nodes, links, c, (#[trigger] v2[i]).0)) is Some)
        implies exists|k: int| 0 <= k < node_vars2.len() && Some((#[trigger] node_vars2[k]).0 as int) == class_node(classify(nodes, links, c, v2[i].0)) && node_vars2[k].1 == v2[i].1 by {
        if i < vars.len() {
            assert(v2[i] == vars[i]);
            let k = choose|k: int| 0 <= k < node_vars.len() && Some((#[trigger] node_vars[k]).0 as int) == class_node(classify(nodes, links, c, vars[i].0)) && node_vars[k].1 == vars[i].1;
            assert(node_vars2[k] == node_vars[k]);
        } else {
            if v == nv {
                assert(node_vars2[node_vars.len() as int] == (class_node(cls)->0 as usize, v));
            } else {
                let k0 = choose|k: int| 0 <= k < node_vars.len() && (#[trigger] node_vars[k]).0 == class_node(cls)->0 && node_vars[k].1 == v;
            }
        }
    }
}

proof fn lemma_node_var_bound(
    nodes: Seq<AppNode>,
    links: Seq<Link>,
    c: u64,
    vars: Seq<(u64, usize, FractionalNumber)>,
    node_vars: Seq<(usize, usize)>,
    nv: nat,
    kk: int,
)
    requires
        node_vars_ok(nodes, links, c, vars, node_vars, nv),
        0 <= kk < node_vars.len(),
    ensures
        node_vars[kk].1 < nv,
{
    reveal(node_vars_ok);
}

/// Facts of a valid assignment used when building equations.
pub proof fn lemma_assign_facts(
    nodes: Seq<AppNode>,
    links: Seq<Link>,
    c: u64,
    scope: spec_fn(u64) -> bool,
    vars: Seq<(u64, usize, FractionalNumber)>,
    fixed: Seq<(u64, FractionalNumber)>,
    num_vars: nat,
)
    requires
        assign_ok(nodes, links, c, scope, vars, fixed, num_vars),
    ensures
        forall|i: int, j: int| 0 <= i < j < vars.len() ==> (#[trigger] vars[i]).0 != (#[trigger] vars[j]).0,
        forall|i: int, j: int| 0 <= i < j < fixed.len() ==> (#[trigger] fixed[i]).0 != (#[trigger] fixed[j]).0,
        forall|i: int| 0 <= i < vars.len() ==> (#[trigger] vars[i]).1 < num_vars,
{
    reveal(assign_ok);
}

impl ProductionApp {
    /// Whether some link starts or ends at the pin.
    pub fn pin_has_link(&self, pid: u64) -> (r: bool)
        ensures
            r == has_link(self.links@, pid),
    {
        let mut k: usize = 0;
        while k < self.links.len()
            invariant
                0 <= k <= self.links@.len(),
                forall|j: int| 0 <= j < k ==> !link_touches(#[trigger] self.links@[j], pid),
            decreases self.links.len() - k,
        {
            if self.links[k].start_pin_id == pid || self.links[k].end_pin_id == pid {
                assert(link_touches(self.links@[k as int], pid));
                return true;
            }
            k += 1;
        }
        false
    }

    /// The class of a pin.
    pub fn class_of(&self, pid: u64, c: u64) -> (r: ClassOf)
        ensures
            class_is(r, classify(self.nodes@, self.links@, c, pid)),
    {
        proof {
            reveal(classify);
        }
        match self.locate_pin(pid) {
            None => ClassOf::Skip,
            Some((n, input, i)) => {
                let p = self.nodes[n].pin(input, i);
                let (is_org, single, is_sink, node_var) = match &self.nodes[n] {
                    AppNode::Organizer(o) => (
                        true,
                        (o.base.kind == NodeKind::Merger && !input) || (o.base.kind
                            == NodeKind::CustomSplitter && input),
                        false,
                        o.base.kind == NodeKind::GameSplitter,
                    ),
                    AppNode::Sink(_) => (false, false, true, false),
                    _ => (false, false, false, true),
                };
                if p.locked {
                    ClassOf::Fixed(p.current_rate)
                } else if ((is_org && !single) || is_sink) && pid != c && !self.pin_has_link(pid) {
                    ClassOf::Fixed(p.current_rate)
                } else if node_var {
                    ClassOf::NodeVar(n, p.base_rate)
                } else {
                    ClassOf::OwnVar
                }
            },
        }
    }

    /// Give each pin of `rel` its variable or fixed rate, in order.
    pub fn assign_variables(&self, rel: &Vec<u64>, c: u64) -> (a: Assignment)
        requires
            rel@.no_duplicates(),
        ensures
            assign_ok(self.nodes@, self.links@, c, |pid: u64| rel@.contains(pid), a.vars@, a.fixed@, a.num_vars as nat),
            a.num_vars <= a.vars@.len(),
    {
        let ghost nodes = self.nodes@;
        let ghost links = self.links@;
        let mut vars: Vec<(u64, usize, FractionalNumber)> = Vec::new();
        let mut fixed: Vec<(u64, FractionalNumber)> = Vec::new();
        let mut node_vars: Vec<(usize, usize)> = Vec::new();
        let mut num_vars: usize = 0;
        let mut t: usize = 0;
        proof {
            reveal(assign_ok);
            reveal(node_vars_ok);
        }
        while t < rel.len()
            invariant
                nodes == self.nodes@,
                links == self.links@,
                rel@.no_duplicates(),
                0 <= t <= rel@.len(),
                num_vars <= t,
                num_vars <= vars@.len(),
                assign_ok(nodes, links, c, |pid: u64| rel@.subrange(0, t as int).contains(pid), vars@, fixed@, num_vars as nat),
                node_vars_ok(nodes, links, c, vars@, node_vars@, num_vars as nat),
            decreases rel.len() - t,
        {
            let pid = rel[t];
            let ghost scope0 = |q: u64| rel@.subrange(0, t as int).contains(q);
            let ghost scope1 = |q: u64| rel@.subrange(0, t + 1).contains(q);
            proof {
                assert(rel@.subrange(0, t + 1) =~= rel@.subrange(0, t as int).push(pid));
                assert(!rel@.subrange(0, t as int).contains(pid)) by {
                    if rel@.subrange(0, t as int).contains(pid) {
                        let j = choose|j: int| 0 <= j < t && rel@.subrange(0, t as int)[j] == pid;
                        assert(rel@[j] == rel@[t as int]);
                    }
                }
                assert forall|q: u64| #[trigger] scope0(q) implies scope1(q) by {}
                assert forall|q: u64| #[trigger] scope1(q) && q != pid implies scope0(q) by {}
            }
            let ghost cls = classify(nodes, links, c, pid);
            match self.class_of(pid, c) {
                ClassOf::Skip => {
                    proof {
                        lemma_assign_skip(nodes, links, c, scope0, scope1, pid, vars@, fixed@, num_vars as nat);
                    }
                },
                ClassOf::Fixed(f) => {
                    proof {
                        lemma_assign_fixed(nodes, links, c, scope0, scope1, pid, f, vars@, fixed@, num_vars as nat);
                    }
                    fixed.push((pid, f));
                },
                ClassOf::NodeVar(n, ratio) => {
                    let mut k: usize = 0;
                    let mut found: Option<usize> = None;
                    while k < node_vars.len()
                        invariant
                            0 <= k <= node_vars@.len(),
                            found matches Some(v) ==> exists|kk: int| 0 <= kk < node_vars@.len() && (#[trigger] node_vars@[kk]).0 == n && node_vars@[kk].1 == v,
                            found is None ==> forall|kk: int| 0 <= kk < k ==> (#[trigger] node_vars@[kk]).0 != n,
                        decreases node_vars.len() - k,
                    {
                        if found.is_none() && node_vars[k].0 == n {
                            found = Some(node_vars[k].1);
                        }
                        k += 1;
                    }
                    match found {
                        Some(v) => {
                            proof {
                                let kk = choose|kk: int| 0 <= kk < node_vars@.len() && (#[trigger] node_vars@[kk]).0 == n && node_vars@[kk].1 == v;
                                lemma_node_var_bound(nodes, links, c, vars@, node_vars@, num_vars as nat, kk);
                                lemma_assign_var(nodes, links, c, scope0, scope1, pid, v, ratio, vars@, fixed@, node_vars@, num_vars as nat, num_vars as nat, node_vars@);
                                lemma_node_vars_push(nodes, links, c, scope0, scope1, pid, v, ratio, vars@, fixed@, node_vars@, num_vars as nat, num_vars as nat, node_vars@);
                            }
                            vars.push((pid, v, ratio));
                        },
                        None => {
                            let v = num_vars;
                            proof {
                                lemma_assign_var(nodes, links, c, scope0, scope1, pid, v, ratio, vars@, fixed@, node_vars@, num_vars as nat, (num_vars + 1) as nat, node_vars@.push((n, v)));
                                lemma_node_vars_push(nodes, links, c, scope0, scope1, pid, v, ratio, vars@, fixed@, node_vars@, num_vars as nat, (num_vars + 1) as nat, node_vars@.push((n, v)));
                            }
                            num_vars = num_vars + 1;
                            node_vars.push((n, v));
                            vars.push((pid, v, ratio));
                        },
                    }
                },
                ClassOf::OwnVar => {
                    let v = num_vars;
                    let one = FractionalNumber::one();
                    proof {
                        lemma_assign_var(nodes, links, c, scope0, scope1, pid, v, one, vars@, fixed@, node_vars@, num_vars as nat, (num_vars + 1) as nat, node_vars@);
                        lemma_node_vars_push(nodes, links, c, scope0, scope1, pid, v, one, vars@, fixed@, node_vars@, num_vars as nat, (num_vars + 1) as nat, node_vars@);
                    }
                    num_vars = num_vars + 1;
                    vars.push((pid, v, one));
                },
            }
            t += 1;
        }
        proof {
            assert(rel@.subrange(0, rel@.len() as int) =~= rel@);
            assert((|pid: u64| rel@.subrange(0, rel@.len() as int).contains(pid)) =~= (|pid: u64| rel@.contains(pid)));
        }
        Assignment { vars, fixed, num_vars }
    }
}

} // verus!
