//! Propagating a rate change: `update_nodes_rate` and its steps.
use vstd::prelude::*;
use crate::app_node::{AppNode, PinUpdate, updated_pin};
use crate::fractional_number::{FractionalNumber, add_fits, div_fits, mul_fits};
use crate::pin::Pin;
use crate::node::{CraftNode, GroupNode, inner_scale_fits, scale_fits, scaled_pins};
use crate::connectivity::vec_contains;
use crate::production_app::{ProductionApp, pin_loc, pin_updated, same_pin_ids, lemma_same_ids_pin_loc};
use crate::propagation::var_entry;
use crate::rate_calculator::fview;
use crate::rational::{lemma_qcanon, lemma_qdiv_wf, lemma_qwf_ops, qadd, qcanon, qdiv, qeq, qmul, qone};

verus! {

broadcast use vstd::seq_lib::group_seq_properties;

/// The pin's variable entry is among the first `upto`.
pub open spec fn entry_below(vars: Seq<(u64, usize, FractionalNumber)>, pid: u64, upto: int) -> bool {
    var_entry(vars, pid) is Some && var_entry(vars, pid)->0 < upto
}

/// The value given to a pin by its variable entry.
pub open spec fn entry_value(vars: Seq<(u64, usize, FractionalNumber)>, pid: u64, x: Seq<(int, int)>) -> (int, int) {
    let i = var_entry(vars, pid)->0;
    qmul(vars[i].2@, x[vars[i].1 as int])
}

/// The rate of the pin at `l` after setting the first `upto` entries.
pub open spec fn applied_rate_ok(
    a: Seq<AppNode>,
    vars: Seq<(u64, usize, FractionalNumber)>,
    x: Seq<(int, int)>,
    upto: int,
    l: (int, bool, int),
    old_pin: Pin,
    new_pin: Pin,
) -> bool {
    if pin_loc(a, old_pin.id) == Some(l) && entry_below(vars, old_pin.id, upto) {
        qeq(new_pin.current_rate@, entry_value(vars, old_pin.id, x))
    } else {
        new_pin.current_rate == old_pin.current_rate
    }
}

/// `b` is `a` with the pins of the first `upto` variable entries set to
/// `ratio * x[v]`; everything else is unchanged.
pub open spec fn rates_applied_upto(
    a: Seq<AppNode>,
    b: Seq<AppNode>,
    vars: Seq<(u64, usize, FractionalNumber)>,
    x: Seq<(int, int)>,
    upto: int,
) -> bool {
    &&& same_pin_ids(a, b)
    &&& forall|n: int| 0 <= n < a.len() ==> (#[trigger] b[n]).same_settings(a[n])
    &&& forall|n: int, input: bool, j: int|
        0 <= n < a.len() && 0 <= j < a[n].side(input).len() ==> #[trigger] b[n].side(input)[j] == (Pin {
            current_rate: b[n].side(input)[j].current_rate,
            ..a[n].side(input)[j]
        }) && applied_rate_ok(a, vars, x, upto, (n, input, j), a[n].side(input)[j], b[n].side(input)[j])
}

/// Every variable entry's pin is set.
pub open spec fn rates_applied(
    a: Seq<AppNode>,
    b: Seq<AppNode>,
    vars: Seq<(u64, usize, FractionalNumber)>,
    x: Seq<(int, int)>,
) -> bool {
    rates_applied_upto(a, b, vars, x, vars.len() as int)
}

proof fn lemma_entry_at(vars: Seq<(u64, usize, FractionalNumber)>, t: int)
    requires
        0 <= t < vars.len(),
        forall|i: int, j: int| 0 <= i < j < vars.len() ==> (#[trigger] vars[i]).0 != (#[trigger] vars[j]).0,
    ensures
        var_entry(vars, vars[t].0) == Some(t),
{
    let pid = vars[t].0;
    assert(vars[t].0 == pid);
    let k = choose|k: int| 0 <= k < vars.len() && (#[trigger] vars[k]).0 == pid;
    if k < t {
        assert(vars[k].0 != vars[t].0);
    } else if t < k {
        assert(vars[t].0 != vars[k].0);
    }
}

impl ProductionApp {
    /// Set the rate of every pin with a variable to `ratio * x[v]`.
    /// Returns false where a product does not fit in 64-bit integers.
    #[verifier::spinoff_prover]
    #[verifier::rlimit(40)]
    pub fn apply_solution(&mut self, vars: &Vec<(u64, usize, FractionalNumber)>, sol: &Vec<FractionalNumber>) -> (ok: bool)
        requires
            forall|i: int, j: int| 0 <= i < j < vars@.len() ==> (#[trigger] vars@[i]).0 != (#[trigger] vars@[j]).0,
            forall|i: int| 0 <= i < vars@.len() ==> (#[trigger] vars@[i]).1 < sol@.len(),
        ensures
            ok ==> rates_applied(old(self).nodes@, final(self).nodes@, vars@, fview(sol@)),
            !ok ==> *final(self) == *old(self),
            ok <==> forall|i: int| 0 <= i < vars@.len() ==> mul_fits(sol@[(#[trigger] vars@[i]).1 as int]@, vars@[i].2@),
            final(self).links@ == old(self).links@,
            final(self).next_id == old(self).next_id,
    {
        let ghost a = self.nodes@;
        let ghost x = fview(sol@);
        let mut t: usize = 0;
        while t < vars.len()
            invariant
                0 <= t <= vars@.len(),
                forall|i: int| 0 <= i < vars@.len() ==> (#[trigger] vars@[i]).1 < sol@.len(),
                forall|i: int| 0 <= i < t ==> mul_fits(sol@[(#[trigger] vars@[i]).1 as int]@, vars@[i].2@),
            decreases vars.len() - t,
        {
            let (pid, v, ratio) = vars[t];
            if sol[v].checked_mul(ratio).is_none() {
                return false;
            }
            t += 1;
        }
        let mut t: usize = 0;
        proof {
            assert forall|n: int| 0 <= n < a.len() implies (#[trigger] a[n]).same_settings(a[n]) by {}
        }
        while t < vars.len()
            invariant
                0 <= t <= vars@.len(),
                a == old(self).nodes@,
                x == fview(sol@),
                self.links@ == old(self).links@,
                self.next_id == old(self).next_id,
                forall|i: int, j: int| 0 <= i < j < vars@.len() ==> (#[trigger] vars@[i]).0 != (#[trigger] vars@[j]).0,
                forall|i: int| 0 <= i < vars@.len() ==> (#[trigger] vars@[i]).1 < sol@.len(),
                forall|i: int| 0 <= i < vars@.len() ==> mul_fits(sol@[(#[trigger] vars@[i]).1 as int]@, vars@[i].2@),
                rates_applied_upto(a, self.nodes@, vars@, x, t as int),
            decreases vars.len() - t,
        {
            let (pid, v, ratio) = vars[t];
            let value = match sol[v].checked_mul(ratio) {
                Some(r) => r,
                None => {
                    proof {
                        assert(mul_fits(sol@[vars@[t as int].1 as int]@, vars@[t as int].2@));
                    }
                    return false;
                },
            };
            let ghost b0 = self.nodes@;
            proof {
                lemma_same_ids_pin_loc(a, b0, pid);
            }
            proof {
                lemma_entry_at(vars@, t as int);
            }
            match self.locate_pin(pid) {
                Some((n, input, j)) => {
                    self.update_pin_at(n, input, j, PinUpdate::Rate(value));
                    proof {
                        let b1 = self.nodes@;
                        assert(x[v as int] == sol@[v as int]@);
                        assert forall|n2: int, input2: bool, j2: int|
                            0 <= n2 < a.len() && 0 <= j2 < a[n2].side(input2).len() implies #[trigger] b1[n2].side(input2)[j2] == (Pin {
                                current_rate: b1[n2].side(input2)[j2].current_rate,
                                ..a[n2].side(input2)[j2]
                            }) && applied_rate_ok(a, vars@, x, t + 1, (n2, input2, j2), a[n2].side(input2)[j2], b1[n2].side(input2)[j2]) by {
                            let q = a[n2].side(input2)[j2].id;
                            if n2 == n && input2 == input && j2 == j {
                                crate::production_app::lemma_pin_loc_unique(a, pid, n as int, input, j as int);
                                assert(q == pid);
                            } else {
                                assert(b1[n2].side(input2)[j2] == b0[n2].side(input2)[j2]);
                                if pin_loc(a, q) == Some((n2, input2, j2)) && q == pid {
                                    assert(pin_loc(a, pid) == Some((n as int, input, j as int)));
                                }
                            }
                        }
                        assert forall|n2: int| 0 <= n2 < a.len() implies (#[trigger] b1[n2]).same_settings(a[n2]) by {
                            assert(b0[n2].same_settings(a[n2]));
                            if n2 == n {
                                assert(b1[n2].same_settings(b0[n2]));
                            } else {
                                assert(b1[n2] == b0[n2]);
                            }
                        }
                        assert(same_pin_ids(a, b1)) by {
                            assert forall|n2: int, input2: bool| 0 <= n2 < a.len() implies (#[trigger] a[n2].side(input2)).len() == b1[n2].side(input2).len() by {
                                assert(a[n2].side(input2).len() == b0[n2].side(input2).len());
                            }
                            assert forall|n2: int, input2: bool, j2: int| 0 <= n2 < a.len() && 0 <= j2 < a[n2].side(input2).len() implies (#[trigger] a[n2].side(input2)[j2]).id == b1[n2].side(input2)[j2].id by {
                                assert(b1[n2].side(input2)[j2] == (Pin { current_rate: b1[n2].side(input2)[j2].current_rate, ..a[n2].side(input2)[j2] }));
                            }
                        }
                    }
                },
                None => {
                    proof {
                        let b1 = self.nodes@;
                        assert forall|n2: int, input2: bool, j2: int|
                            0 <= n2 < a.len() && 0 <= j2 < a[n2].side(input2).len() implies #[trigger] b1[n2].side(input2)[j2] == (Pin {
                                current_rate: b1[n2].side(input2)[j2].current_rate,
                                ..a[n2].side(input2)[j2]
                            }) && applied_rate_ok(a, vars@, x, t + 1, (n2, input2, j2), a[n2].side(input2)[j2], b1[n2].side(input2)[j2]) by {
                            let q = a[n2].side(input2)[j2].id;
                            if q == pid {
                                assert(pin_loc(a, pid) is None);
                            }
                        }
                    }
                },
            }
            t += 1;
        }
        true
    }
}


/// A crafting node rescaled to its new rate: pins carry `base_rate * rate`.
pub open spec fn craft_rescaled(x: CraftNode, y: CraftNode) -> bool {
    &&& y.same_settings(x)
    &&& scaled_pins(x.base.ins@, y.base.ins@, y.current_rate@)
    &&& scaled_pins(x.base.outs@, y.base.outs@, y.current_rate@)
}

/// A group rescaled to its new rate (see `GroupNode::update_rate`).
pub open spec fn group_rescaled(x: GroupNode, y: GroupNode) -> bool {
    &&& scaled_pins(x.base.ins@, y.base.ins@, y.current_rate@)
    &&& scaled_pins(x.base.outs@, y.base.outs@, y.current_rate@)
    &&& y.grouped_nodes@.len() == x.grouped_nodes@.len()
    &&& y.base.id == x.base.id && y.base.kind == x.base.kind && y.base.position == x.base.position
    &&& y.same_clock_power == x.same_clock_power && y.last_underclock_power == x.last_underclock_power
    &&& y.nodes_base_rate@ == x.nodes_base_rate@ && y.grouped_links@ == x.grouped_links@
    &&& y.inputs@ == x.inputs@ && y.outputs@ == x.outputs@
    &&& y.detailed_sinked_points@ == x.detailed_sinked_points@ && y.name == x.name
    &&& y.variable_power == x.variable_power && y.total_machines@ == x.total_machines@
    &&& y.built_machines@ == x.built_machines@ && y.loading_error == x.loading_error
}

/// The node is unchanged, or a crafting node or group rescaled to a new rate.
pub open spec fn node_rescaled(a: AppNode, b: AppNode) -> bool {
    b == a || match (a, b) {
        (AppNode::Craft(x), AppNode::Craft(y)) => craft_rescaled(x, y),
        (AppNode::Group(x), AppNode::Group(y)) => group_rescaled(x, y),
        _ => false,
    }
}

/// Each node is unchanged or rescaled.
pub open spec fn refreshed(a: Seq<AppNode>, b: Seq<AppNode>) -> bool {
    &&& b.len() == a.len()
    &&& forall|n: int| 0 <= n < a.len() ==> node_rescaled(a[n], #[trigger] b[n])
}

/// The rate picked from the first pin, from `i` on, that `rel` reaches (or
/// any pin, where `reached` is false) with a non-zero divisor: its current
/// rate over the divisor, its base rate (times `factor`, where given), in
/// lowest terms. `Some(None)` where no pin gives one; `None` where a product
/// or quotient met on the way does not fit in 64-bit integers.
pub open spec fn pick_rate(pins: Seq<Pin>, rel: Seq<u64>, reached: bool, factor: Option<(int, int)>, i: int) -> Option<Option<(int, int)>>
    decreases pins.len() - i,
{
    if i < 0 || i >= pins.len() {
        Some(None)
    } else if reached && !rel.contains(pins[i].id) {
        pick_rate(pins, rel, reached, factor, i + 1)
    } else {
        let base = pins[i].base_rate@;
        match factor {
            Some(f) => if !mul_fits(base, f) {
                None
            } else if qcanon(qmul(base, f)).0 == 0 {
                pick_rate(pins, rel, reached, factor, i + 1)
            } else if div_fits(pins[i].current_rate@, qcanon(qmul(base, f))) {
                Some(Some(qcanon(qdiv(pins[i].current_rate@, qcanon(qmul(base, f))))))
            } else {
                None
            },
            None => if base.0 == 0 {
                pick_rate(pins, rel, reached, factor, i + 1)
            } else if div_fits(pins[i].current_rate@, base) {
                Some(Some(qcanon(qdiv(pins[i].current_rate@, base))))
            } else {
                None
            },
        }
    }
}

/// The view of a picked rate.
pub open spec fn picked(o: Option<Option<FractionalNumber>>) -> Option<Option<(int, int)>> {
    match o {
        None => None,
        Some(None) => Some(None),
        Some(Some(f)) => Some(Some(f@)),
    }
}

/// The rate a crafting node takes from its pins: the first output pin
/// reached by the change, its rate over `base_rate * (1 + somersloops *
/// multiplier)`; else the first output with a non-zero base rate; a node
/// without outputs uses its first input with a non-zero base rate.
pub open spec fn craft_pick(c: CraftNode, rel: Seq<u64>) -> Option<Option<(int, int)>> {
    if c.base.outs@.len() > 0 {
        if !mul_fits(c.num_somersloop@, c.somersloop_mult@) {
            None
        } else if !add_fits(qone(), qcanon(qmul(c.num_somersloop@, c.somersloop_mult@))) {
            None
        } else {
            let boost = qcanon(qadd(qone(), qcanon(qmul(c.num_somersloop@, c.somersloop_mult@))));
            match pick_rate(c.base.outs@, rel, true, Some(boost), 0) {
                Some(None) => pick_rate(c.base.outs@, rel, false, None, 0),
                other => other,
            }
        }
    } else {
        pick_rate(c.base.ins@, rel, false, None, 0)
    }
}

/// The rate a group takes from its pins: the first output, else input, pin
/// reached by the change with a non-zero base rate, its rate over its base rate.
pub open spec fn group_pick(g: GroupNode, rel: Seq<u64>) -> Option<Option<(int, int)>> {
    match pick_rate(g.base.outs@, rel, true, None, 0) {
        Some(None) => pick_rate(g.base.ins@, rel, true, None, 0),
        other => other,
    }
}

/// The first rate `pick_rate` gives.
fn pick_rate_exec(pins: &Vec<Pin>, rel: &Vec<u64>, reached: bool, factor: Option<FractionalNumber>) -> (r: Option<Option<FractionalNumber>>)
    ensures
        picked(r) == pick_rate(pins@, rel@, reached, match factor { Some(f) => Some(f@), None => None }, 0),
{
    let ghost fv = match factor { Some(f) => Some(f@), None => None };
    let mut i: usize = 0;
    while i < pins.len()
        invariant
            0 <= i <= pins@.len(),
            fv == (match factor { Some(f) => Some(f@), None => None }),
            pick_rate(pins@, rel@, reached, fv, 0) == pick_rate(pins@, rel@, reached, fv, i as int),
        decreases pins.len() - i,
    {
        let p = &pins[i];
        if !reached || vec_contains(rel, p.id) {
            let d = match factor {
                Some(f) => match p.base_rate.checked_mul(f) {
                    Some(d) => {
                        proof {
                            use_type_invariant(&d);
                            use_type_invariant(&f);
                            use_type_invariant(&p.base_rate);
                            lemma_qwf_ops(p.base_rate@, f@);
                            lemma_qcanon(d@, qmul(p.base_rate@, f@));
                        }
                        d
                    },
                    None => {
                        return None;
                    },
                },
                None => p.base_rate,
            };
            if d.numerator() != 0 {
                match p.current_rate.checked_div(d) {
                    Some(r) => {
                        proof {
                            use_type_invariant(&r);
                            use_type_invariant(&p.current_rate);
                            lemma_qdiv_wf(p.current_rate@, d@);
                            lemma_qcanon(r@, qdiv(p.current_rate@, d@));
                        }
                        return Some(Some(r));
                    },
                    None => {
                        return None;
                    },
                }
            }
        }
        i += 1;
    }
    Some(None)
}

/// The new rate of a crafting node (see `craft_pick`).
fn craft_refresh(c: &mut CraftNode, rel: &Vec<u64>) -> (ok: bool)
    ensures
        !ok ==> *final(c) == *old(c),
        ok ==> *final(c) == *old(c) || craft_rescaled(*old(c), *final(c)),
        ok <==> match craft_pick(*old(c), rel@) {
            None => false,
            Some(None) => true,
            Some(Some(q)) => q == old(c).current_rate@ || (scale_fits(old(c).base.ins@, q) && scale_fits(old(c).base.outs@, q)),
        },
        ok ==> match craft_pick(*old(c), rel@) {
            Some(Some(q)) => final(c).current_rate@ == q,
            _ => *final(c) == *old(c),
        },
{
    let chosen = if c.base.outs.len() > 0 {
        let boost = match c.num_somersloop.checked_mul(c.somersloop_mult) {
            Some(p) => {
                proof {
                    use_type_invariant(&p);
                    use_type_invariant(&c.num_somersloop);
                    use_type_invariant(&c.somersloop_mult);
                    lemma_qwf_ops(c.num_somersloop@, c.somersloop_mult@);
                    lemma_qcanon(p@, qmul(c.num_somersloop@, c.somersloop_mult@));
                }
                match FractionalNumber::one().checked_add(p) {
                    Some(b) => {
                        proof {
                            use_type_invariant(&b);
                            lemma_qwf_ops(qone(), p@);
                            lemma_qcanon(b@, qadd(qone(), p@));
                        }
                        b
                    },
                    None => return false,
                }
            },
            None => return false,
        };
        match pick_rate_exec(&c.base.outs, rel, true, Some(boost)) {
            Some(None) => pick_rate_exec(&c.base.outs, rel, false, None),
            other => other,
        }
    } else {
        pick_rate_exec(&c.base.ins, rel, false, None)
    };
    match chosen {
        None => false,
        Some(Some(r)) => {
            proof {
                crate::fractional_number::lemma_view_injective(r, c.current_rate);
            }
            if r != c.current_rate {
                if !c.rate_fits(r) {
                    return false;
                }
                c.update_rate(r);
            }
            true
        },
        Some(None) => true,
    }
}

/// Whether `craft_refresh` succeeds on `c`, changing nothing.
fn craft_refresh_fits(c: &CraftNode, rel: &Vec<u64>) -> (ok: bool)
    ensures
        ok <==> match craft_pick(*c, rel@) {
            None => false,
            Some(None) => true,
            Some(Some(q)) => q == c.current_rate@ || (scale_fits(c.base.ins@, q) && scale_fits(c.base.outs@, q)),
        },
{
    let chosen = if c.base.outs.len() > 0 {
        let boost = match c.num_somersloop.checked_mul(c.somersloop_mult) {
            Some(p) => {
                proof {
                    use_type_invariant(&p);
                    use_type_invariant(&c.num_somersloop);
                    use_type_invariant(&c.somersloop_mult);
                    lemma_qwf_ops(c.num_somersloop@, c.somersloop_mult@);
                    lemma_qcanon(p@, qmul(c.num_somersloop@, c.somersloop_mult@));
                }
                match FractionalNumber::one().checked_add(p) {
                    Some(b) => {
                        proof {
                            use_type_invariant(&b);
                            lemma_qwf_ops(qone(), p@);
                            lemma_qcanon(b@, qadd(qone(), p@));
                        }
                        b
                    },
                    None => return false,
                }
            },
            None => return false,
        };
        match pick_rate_exec(&c.base.outs, rel, true, Some(boost)) {
            Some(None) => pick_rate_exec(&c.base.outs, rel, false, None),
            other => other,
        }
    } else {
        pick_rate_exec(&c.base.ins, rel, false, None)
    };
    match chosen {
        None => false,
        Some(Some(r)) => {
            proof {
                crate::fractional_number::lemma_view_injective(r, c.current_rate);
            }
            r == c.current_rate || c.rate_fits(r)
        },
        Some(None) => true,
    }
}

/// Whether `group_refresh` succeeds on `g`, changing nothing.
fn group_refresh_fits(g: &GroupNode, rel: &Vec<u64>) -> (ok: bool)
    ensures
        ok <==> match group_pick(*g, rel@) {
            None => false,
            Some(None) => true,
            Some(Some(q)) => q == g.current_rate@ || (scale_fits(g.base.ins@, q) && scale_fits(g.base.outs@, q)
                && forall|i: int| 0 <= i < g.grouped_nodes@.len() ==> #[trigger] inner_scale_fits(*g, i, q)),
        },
{
    let chosen = match pick_rate_exec(&g.base.outs, rel, true, None) {
        Some(None) => pick_rate_exec(&g.base.ins, rel, true, None),
        other => other,
    };
    match chosen {
        None => false,
        Some(Some(r)) => {
            proof {
                crate::fractional_number::lemma_view_injective(r, g.current_rate);
            }
            r == g.current_rate || g.rate_fits(r)
        },
        Some(None) => true,
    }
}

/// The new rate of a group (see `group_pick`).
fn group_refresh(g: &mut GroupNode, rel: &Vec<u64>) -> (ok: bool)
    ensures
        !ok ==> *final(g) == *old(g),
        ok ==> *final(g) == *old(g) || group_rescaled(*old(g), *final(g)),
        ok <==> match group_pick(*old(g), rel@) {
            None => false,
            Some(None) => true,
            Some(Some(q)) => q == old(g).current_rate@ || (scale_fits(old(g).base.ins@, q) && scale_fits(old(g).base.outs@, q)
                && forall|i: int| 0 <= i < old(g).grouped_nodes@.len() ==> #[trigger] inner_scale_fits(*old(g), i, q)),
        },
        ok ==> match group_pick(*old(g), rel@) {
            Some(Some(q)) => final(g).current_rate@ == q,
            _ => *final(g) == *old(g),
        },
{
    let chosen = match pick_rate_exec(&g.base.outs, rel, true, None) {
        Some(None) => pick_rate_exec(&g.base.ins, rel, true, None),
        other => other,
    };
    match chosen {
        None => false,
        Some(Some(r)) => {
            proof {
                crate::fractional_number::lemma_view_injective(r, g.current_rate);
            }
            if r != g.current_rate {
                g.update_rate(r)
            } else {
                true
            }
        },
        Some(None) => true,
    }
}

/// The node's new rate can be taken from its pins and set (see
/// `craft_pick` and `group_pick`) within 64-bit integers.
pub open spec fn refresh_ok(a: AppNode, rel: Seq<u64>) -> bool {
    match a {
        AppNode::Craft(c) => match craft_pick(c, rel) {
            None => false,
            Some(None) => true,
            Some(Some(q)) => q == c.current_rate@ || (scale_fits(c.base.ins@, q) && scale_fits(c.base.outs@, q)),
        },
        AppNode::Group(g) => match group_pick(g, rel) {
            None => false,
            Some(None) => true,
            Some(Some(q)) => q == g.current_rate@ || (scale_fits(g.base.ins@, q) && scale_fits(g.base.outs@, q)
                && forall|i: int| 0 <= i < g.grouped_nodes@.len() ==> #[trigger] inner_scale_fits(g, i, q)),
        },
        _ => true,
    }
}

/// `b` is `a` at the rate taken from its pins (or `a` itself where none is).
pub open spec fn refresh_done(a: AppNode, b: AppNode, rel: Seq<u64>) -> bool {
    match (a, b) {
        (AppNode::Craft(c), AppNode::Craft(d)) => match craft_pick(c, rel) {
            Some(Some(q)) => d.current_rate@ == q,
            _ => d == c,
        },
        (AppNode::Group(g), AppNode::Group(h)) => match group_pick(g, rel) {
            Some(Some(q)) => h.current_rate@ == q,
            _ => h == g,
        },
        _ => a == b,
    }
}

impl ProductionApp {
    /// Recompute the rate of every crafting node and group from its pins.
    /// Returns false, changing nothing, where a value does not fit in 64-bit
    /// integers.
    pub fn refresh_node_rates(&mut self, rel: &Vec<u64>) -> (ok: bool)
        ensures
            refreshed(old(self).nodes@, final(self).nodes@),
            final(self).links@ == old(self).links@,
            final(self).next_id == old(self).next_id,
            ok <==> forall|n: int| 0 <= n < old(self).nodes@.len() ==> #[trigger] refresh_ok(old(self).nodes@[n], rel@),
            ok ==> forall|n: int| 0 <= n < old(self).nodes@.len() ==> #[trigger] refresh_done(old(self).nodes@[n], final(self).nodes@[n], rel@),
            !ok ==> *final(self) == *old(self),
    {
        let ghost a = self.nodes@;
        let mut n: usize = 0;
        while n < self.nodes.len()
            invariant
                0 <= n <= self.nodes@.len(),
                self.nodes@ == a,
                forall|m: int| 0 <= m < n ==> #[trigger] refresh_ok(a[m], rel@),
            decreases self.nodes.len() - n,
        {
            let fits = match &self.nodes[n] {
                AppNode::Craft(c) => craft_refresh_fits(c, rel),
                AppNode::Group(g) => group_refresh_fits(g, rel),
                _ => true,
            };
            if !fits {
                proof {
                    assert(!refresh_ok(a[n as int], rel@));
                }
                return false;
            }
            n += 1;
        }
        let mut n: usize = 0;
        while n < self.nodes.len()
            invariant
                0 <= n <= self.nodes@.len(),
                a == old(self).nodes@,
                forall|m: int| 0 <= m < a.len() ==> #[trigger] refresh_ok(a[m], rel@),
                self.nodes@.len() == a.len(),
                self.links@ == old(self).links@,
                self.next_id == old(self).next_id,
                forall|m: int| 0 <= m < a.len() ==> node_rescaled(a[m], #[trigger] self.nodes@[m]),
                forall|m: int| n <= m < a.len() ==> #[trigger] self.nodes@[m] == a[m],
                forall|m: int| 0 <= m < n ==> refresh_done(a[m], #[trigger] self.nodes@[m], rel@),
            decreases self.nodes.len() - n,
        {
            let ghost before = self.nodes@;
            let ok = match &mut self.nodes[n] {
                AppNode::Craft(c) => craft_refresh(c, rel),
                AppNode::Group(g) => group_refresh(g, rel),
                _ => true,
            };
            if !ok {
                proof {
                    assert(refresh_ok(a[n as int], rel@));
                    assert(false);
                }
                return false;
            }
            proof {
                assert(refresh_done(a[n as int], self.nodes@[n as int], rel@));
                assert forall|m: int| 0 <= m < n + 1 implies refresh_done(a[m], #[trigger] self.nodes@[m], rel@) by {
                    if m < n {
                        assert(self.nodes@[m] == before[m]);
                    }
                }
            }
            n += 1;
        }
        proof {
            assert forall|m: int| 0 <= m < a.len() implies #[trigger] refresh_done(a[m], self.nodes@[m], rel@) by {
                assert(refresh_ok(a[m], rel@));
            }
        }
        true
    }
}

} // verus!
