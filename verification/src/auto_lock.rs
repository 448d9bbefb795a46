//! Automatic locking of merger and custom-splitter pins once their flows are
//! determined.
use vstd::prelude::*;
use crate::app_node::{AppNode, PinUpdate, updated_pin};
use crate::fractional_number::{FractionalNumber, add_fits, sub_fits};
use crate::node::{NodeKind, OrganizerNode};
use crate::pin::Pin;
use crate::link::Link;
use crate::connectivity::{is_component, step, joins_all, linked, lemma_reaches_refl, lemma_reaches_step, lemma_component_exact};
use crate::production_app::{ProductionApp, pin_loc, pin_updated, node_has_pin, side_has_pin, is_pin_loc, lemma_pin_loc_unique};
use crate::rational::{qeq, qadd, qsub, qzero, qwf, lemma_qeq_refl, lemma_qadd_cong, lemma_qwf_ops,
    lemma_qeq_trans, lemma_qsub_cong, qcanon, lemma_qcanon};

verus! {

/// The pins on the side with several flows: the inputs of a merger, the
/// outputs of a custom splitter.
pub open spec fn multi_pins(o: OrganizerNode) -> Seq<Pin> {
    if o.base.kind == NodeKind::CustomSplitter {
        o.base.outs@
    } else {
        o.base.ins@
    }
}

/// The pins on the side with one flow.
pub open spec fn single_pins(o: OrganizerNode) -> Seq<Pin> {
    if o.base.kind == NodeKind::CustomSplitter {
        o.base.ins@
    } else {
        o.base.outs@
    }
}

/// How many of the pins are unlocked.
pub open spec fn unlocked_count(pins: Seq<Pin>) -> nat
    decreases pins.len(),
{
    if pins.len() == 0 {
        0
    } else {
        unlocked_count(pins.drop_last()) + if pins.last().locked {
            0nat
        } else {
            1nat
        }
    }
}

/// The sum of the current rates of the locked pins.
pub open spec fn locked_sum(pins: Seq<Pin>) -> (int, int)
    decreases pins.len(),
{
    if pins.len() == 0 {
        qzero()
    } else if pins.last().locked {
        qadd(locked_sum(pins.drop_last()), pins.last().current_rate@)
    } else {
        locked_sum(pins.drop_last())
    }
}

/// The single pin is locked and exactly one pin of the other side is not:
/// that pin's rate is determined, and not negative.
pub open spec fn fires_one_unlocked(o: OrganizerNode) -> bool {
    &&& single_pins(o).len() > 0
    &&& single_pins(o)[0].locked
    &&& unlocked_count(multi_pins(o)) == 1
    &&& qsub(single_pins(o)[0].current_rate@, locked_sum(multi_pins(o))).0 >= 0
}

/// Every pin of the other side is locked and the single pin is not: its
/// rate is their sum.
pub open spec fn fires_all_locked(o: OrganizerNode) -> bool {
    &&& single_pins(o).len() > 0
    &&& !single_pins(o)[0].locked
    &&& unlocked_count(multi_pins(o)) == 0
}

/// The automatic-lock rule applies to the node.
pub open spec fn auto_lock_applies(node: AppNode) -> bool {
    match node {
        AppNode::Organizer(o) => (o.base.kind == NodeKind::Merger || o.base.kind
            == NodeKind::CustomSplitter) && (fires_one_unlocked(o) || fires_all_locked(o)),
        _ => false,
    }
}

/// Each pin is unchanged, or now locked with only its rate changed.
pub open spec fn pins_grown(old: Seq<Pin>, new: Seq<Pin>) -> bool {
    &&& new.len() == old.len()
    &&& forall|j: int|
        0 <= j < old.len() ==> #[trigger] new[j] == old[j] || new[j] == (Pin {
            current_rate: new[j].current_rate,
            locked: true,
            ..old[j]
        })
}

/// Nodes keep their settings; their pins only get locked (with a new rate).
pub open spec fn lock_grown(old: Seq<AppNode>, new: Seq<AppNode>) -> bool {
    &&& new.len() == old.len()
    &&& forall|n: int|
        0 <= n < old.len() ==> (#[trigger] new[n]).same_settings(old[n]) && pins_grown(
            old[n].ins(),
            new[n].ins(),
        ) && pins_grown(old[n].outs(), new[n].outs())
}

/// The rule applies at `node` (a merger or custom splitter) and determines
/// its unlocked pin `j` of side `input`, whose balancing rate is `r`: the
/// single rate minus the locked ones where one pin of the other side is
/// unlocked, the sum of that side where the single pin is the unlocked one.
pub open spec fn lock_target(node: AppNode, input: bool, j: int, r: (int, int)) -> bool {
    match node {
        AppNode::Organizer(o) => {
            &&& o.base.kind == NodeKind::Merger || o.base.kind == NodeKind::CustomSplitter
            &&& 0 <= j < node.side(input).len()
            &&& !node.side(input)[j].locked
            &&& {
                ||| fires_one_unlocked(o) && input == (o.base.kind != NodeKind::CustomSplitter) && qeq(
                    r,
                    qsub(single_pins(o)[0].current_rate@, locked_sum(multi_pins(o))),
                )
                ||| fires_all_locked(o) && input == (o.base.kind == NodeKind::CustomSplitter) && j == 0 && qeq(
                    r,
                    locked_sum(multi_pins(o)),
                )
            }
        },
        _ => false,
    }
}

/// One firing of the rule: the pin it determines gets its balancing rate and
/// is locked; nothing else changes.
pub open spec fn fired_once(a: Seq<AppNode>, b: Seq<AppNode>) -> bool {
    exists|n: int, input: bool, j: int, r: FractionalNumber, mid: Seq<AppNode>|
        0 <= n < a.len() && #[trigger] lock_target(a[n], input, j, r@) && pin_updated(a, mid, (n, input, j), PinUpdate::Rate(r))
            && #[trigger] pin_updated(mid, b, (n, input, j), PinUpdate::Locked(true))
}

/// `b` comes from `a` by firings of the rule, one after another.
pub open spec fn auto_locked(a: Seq<AppNode>, b: Seq<AppNode>) -> bool {
    exists|chain: Seq<Seq<AppNode>>|
        chain.len() >= 1 && chain[0] == a && chain.last() == b && #[trigger] fired_chain(chain)
}

/// Each state of `chain` comes from the one before by one firing.
pub open spec fn fired_chain(chain: Seq<Seq<AppNode>>) -> bool {
    forall|i: int| 0 <= i < chain.len() - 1 ==> fired_once(#[trigger] chain[i], chain[i + 1])
}

proof fn lemma_auto_locked_refl(a: Seq<AppNode>)
    ensures
        auto_locked(a, a),
{
    let chain = seq![a];
    assert(fired_chain(chain));
}

proof fn lemma_auto_locked_step(a: Seq<AppNode>, b: Seq<AppNode>, c: Seq<AppNode>)
    requires
        auto_locked(a, b),
        fired_once(b, c),
    ensures
        auto_locked(a, c),
{
    let chain = choose|chain: Seq<Seq<AppNode>>| chain.len() >= 1 && chain[0] == a && chain.last() == b && #[trigger] fired_chain(chain);
    let ch2 = chain.push(c);
    assert forall|i: int| 0 <= i < ch2.len() - 1 implies fired_once(#[trigger] ch2[i], ch2[i + 1]) by {
        if i < chain.len() - 1 {
            assert(ch2[i] == chain[i] && ch2[i + 1] == chain[i + 1]);
            assert(fired_once(chain[i], chain[i + 1]));
        } else {
            assert(ch2[i] == b && ch2[i + 1] == c);
        }
    }
    assert(fired_chain(ch2));
    assert(ch2[0] == a && ch2.last() == c);
}

/// Setting a pin's rate and locking it grows the locks.
proof fn lemma_lock_step_grown(before: Seq<AppNode>, mid: Seq<AppNode>, after: Seq<AppNode>, l: (int, bool, int), rate: FractionalNumber)
    requires
        0 <= l.0 < before.len(),
        0 <= l.2 < before[l.0].side(l.1).len(),
        pin_updated(before, mid, l, PinUpdate::Rate(rate)),
        pin_updated(mid, after, l, PinUpdate::Locked(true)),
    ensures
        lock_grown(before, after),
{
    let (n, input, i) = l;
    assert forall|m: int| 0 <= m < before.len() implies (#[trigger] after[m]).same_settings(before[m])
        && pins_grown(before[m].ins(), after[m].ins())
        && pins_grown(before[m].outs(), after[m].outs()) by {
        if m == n {
            lemma_settings_trans(before[m], mid[m], after[m]);
            assert forall|j: int| 0 <= j < before[m].side(input).len() implies #[trigger] after[m].side(input)[j] == before[m].side(input)[j]
                || after[m].side(input)[j] == (Pin { current_rate: after[m].side(input)[j].current_rate, locked: true, ..before[m].side(input)[j] }) by {
                assert(after[m].side(input)[j] == mid[m].side(input).update(i, updated_pin(mid[m].side(input)[i], PinUpdate::Locked(true)))[j]);
                assert(mid[m].side(input)[j] == before[m].side(input).update(i, updated_pin(before[m].side(input)[i], PinUpdate::Rate(rate)))[j]);
            }
            assert(after[m].side(!input) == before[m].side(!input));
            if input {
                assert(after[m].outs() == before[m].outs());
            } else {
                assert(after[m].ins() == before[m].ins());
            }
            lemma_settings_refl(before[m]);
        } else {
            assert(after[m] == before[m]);
            lemma_settings_refl(before[m]);
        }
    }
}

/// With unique ids, the search finds a pin where it is.
proof fn lemma_found_at(nodes: Seq<AppNode>, m: int, input: bool, j: int)
    requires
        0 <= m < nodes.len(),
        0 <= j < nodes[m].side(input).len(),
        pin_ids_unique(nodes),
    ensures
        pin_loc(nodes, nodes[m].side(input)[j].id) == Some((m, input, j)),
{
    let pid = nodes[m].side(input)[j].id;
    assert forall|m2: int| 0 <= m2 < m implies !node_has_pin(#[trigger] nodes[m2], pid) by {
        if side_has_pin(nodes[m2], true, pid) {
            let j2 = choose|j2: int| 0 <= j2 < nodes[m2].side(true).len() && (#[trigger] nodes[m2].side(true)[j2]).id == pid;
            assert(nodes[m2].side(true)[j2].id == nodes[m].side(input)[j].id);
        }
        if side_has_pin(nodes[m2], false, pid) {
            let j2 = choose|j2: int| 0 <= j2 < nodes[m2].side(false).len() && (#[trigger] nodes[m2].side(false)[j2]).id == pid;
            assert(nodes[m2].side(false)[j2].id == nodes[m].side(input)[j].id);
        }
    }
    assert forall|j2: int| 0 <= j2 < j implies (#[trigger] nodes[m].side(input)[j2]).id != pid by {
        if nodes[m].side(input)[j2].id == pid {
            assert(nodes[m].side(input)[j2].id == nodes[m].side(input)[j].id);
        }
    }
    if !input && side_has_pin(nodes[m], true, pid) {
        let j2 = choose|j2: int| 0 <= j2 < nodes[m].side(true).len() && (#[trigger] nodes[m].side(true)[j2]).id == pid;
        assert(nodes[m].side(true)[j2].id == nodes[m].side(input)[j].id);
    }
    assert(is_pin_loc(nodes, pid, m, input, j));
    crate::production_app::lemma_pin_loc_unique(nodes, pid, m, input, j);
}

/// Unlocked pins over all nodes.
pub open spec fn unlocked_total(nodes: Seq<AppNode>) -> nat
    decreases nodes.len(),
{
    if nodes.len() == 0 {
        0
    } else {
        unlocked_total(nodes.drop_last()) + unlocked_count(nodes.last().ins()) + unlocked_count(
            nodes.last().outs(),
        )
    }
}

proof fn lemma_pins_grown_trans(a: Seq<Pin>, b: Seq<Pin>, c: Seq<Pin>)
    requires
        pins_grown(a, b),
        pins_grown(b, c),
    ensures
        pins_grown(a, c),
{
    assert forall|j: int| 0 <= j < a.len() implies #[trigger] c[j] == a[j] || c[j] == (Pin {
        current_rate: c[j].current_rate,
        locked: true,
        ..a[j]
    }) by {
        assert(b[j] == a[j] || b[j] == (Pin { current_rate: b[j].current_rate, locked: true, ..a[j] }));
        assert(c[j] == b[j] || c[j] == (Pin { current_rate: c[j].current_rate, locked: true, ..b[j] }));
    }
}

/// Keeping the settings twice keeps them.
pub proof fn lemma_settings_trans(a: AppNode, b: AppNode, c: AppNode)
    requires
        b.same_settings(a),
        c.same_settings(b),
    ensures
        c.same_settings(a),
{
}

proof fn lemma_settings_refl(a: AppNode)
    ensures
        a.same_settings(a),
{
}

proof fn lemma_lock_grown_trans(a: Seq<AppNode>, b: Seq<AppNode>, c: Seq<AppNode>)
    requires
        lock_grown(a, b),
        lock_grown(b, c),
    ensures
        lock_grown(a, c),
{
    assert forall|n: int| 0 <= n < a.len() implies (#[trigger] c[n]).same_settings(a[n])
        && pins_grown(a[n].ins(), c[n].ins()) && pins_grown(a[n].outs(), c[n].outs()) by {
        lemma_settings_trans(a[n], b[n], c[n]);
        lemma_pins_grown_trans(a[n].ins(), b[n].ins(), c[n].ins());
        lemma_pins_grown_trans(a[n].outs(), b[n].outs(), c[n].outs());
    }
}

proof fn lemma_lock_grown_refl(a: Seq<AppNode>)
    ensures
        lock_grown(a, a),
{
    assert forall|n: int| 0 <= n < a.len() implies (#[trigger] a[n]).same_settings(a[n])
        && pins_grown(a[n].ins(), a[n].ins()) && pins_grown(a[n].outs(), a[n].outs()) by {
        lemma_settings_refl(a[n]);
    }
}

proof fn lemma_unlocked_count_mono(old: Seq<Pin>, new: Seq<Pin>)
    requires
        pins_grown(old, new),
    ensures
        unlocked_count(new) <= unlocked_count(old),
    decreases old.len(),
{
    if old.len() > 0 {
        assert(pins_grown(old.drop_last(), new.drop_last())) by {
            assert forall|j: int| 0 <= j < old.drop_last().len() implies #[trigger] new.drop_last()[j]
                == old.drop_last()[j] || new.drop_last()[j] == (Pin {
                current_rate: new.drop_last()[j].current_rate,
                locked: true,
                ..old.drop_last()[j]
            }) by {
                assert(new[j] == old[j] || new[j] == (Pin { current_rate: new[j].current_rate, locked: true, ..old[j] }));
            }
        }
        lemma_unlocked_count_mono(old.drop_last(), new.drop_last());
        assert(new.last() == old.last() || new.last().locked) by {
            let j = old.len() - 1;
            assert(new[j] == old[j] || new[j] == (Pin { current_rate: new[j].current_rate, locked: true, ..old[j] }));
        }
    }
}

proof fn lemma_unlocked_count_strict(old: Seq<Pin>, new: Seq<Pin>, k: int)
    requires
        pins_grown(old, new),
        0 <= k < old.len(),
        !old[k].locked,
        new[k].locked,
    ensures
        unlocked_count(new) < unlocked_count(old),
    decreases old.len(),
{
    assert(pins_grown(old.drop_last(), new.drop_last())) by {
        assert forall|j: int| 0 <= j < old.drop_last().len() implies #[trigger] new.drop_last()[j]
            == old.drop_last()[j] || new.drop_last()[j] == (Pin {
            current_rate: new.drop_last()[j].current_rate,
            locked: true,
            ..old.drop_last()[j]
        }) by {
            assert(new[j] == old[j] || new[j] == (Pin { current_rate: new[j].current_rate, locked: true, ..old[j] }));
        }
    }
    let j = old.len() - 1;
    assert(new[j] == old[j] || new[j] == (Pin { current_rate: new[j].current_rate, locked: true, ..old[j] }));
    if k == old.len() - 1 {
        lemma_unlocked_count_mono(old.drop_last(), new.drop_last());
    } else {
        assert(old.drop_last()[k] == old[k]);
        assert(new.drop_last()[k] == new[k]);
        lemma_unlocked_count_strict(old.drop_last(), new.drop_last(), k);
    }
}

proof fn lemma_unlocked_total_mono(old: Seq<AppNode>, new: Seq<AppNode>)
    requires
        lock_grown(old, new),
    ensures
        unlocked_total(new) <= unlocked_total(old),
    decreases old.len(),
{
    if old.len() > 0 {
        assert(lock_grown(old.drop_last(), new.drop_last())) by {
            assert forall|n: int| 0 <= n < old.drop_last().len() implies (#[trigger] new.drop_last()[n]).same_settings(
                old.drop_last()[n],
            ) && pins_grown(old.drop_last()[n].ins(), new.drop_last()[n].ins()) && pins_grown(
                old.drop_last()[n].outs(),
                new.drop_last()[n].outs(),
            ) by {
                assert(new[n].same_settings(old[n]));
            }
        }
        lemma_unlocked_total_mono(old.drop_last(), new.drop_last());
        let n = old.len() - 1;
        assert(new[n].same_settings(old[n]));
        lemma_unlocked_count_mono(old.last().ins(), new.last().ins());
        lemma_unlocked_count_mono(old.last().outs(), new.last().outs());
    }
}

proof fn lemma_unlocked_total_strict(
    old: Seq<AppNode>,
    new: Seq<AppNode>,
    n: int,
    input: bool,
    k: int,
)
    requires
        lock_grown(old, new),
        0 <= n < old.len(),
        0 <= k < old[n].side(input).len(),
        !old[n].side(input)[k].locked,
        new[n].side(input)[k].locked,
    ensures
        unlocked_total(new) < unlocked_total(old),
    decreases old.len(),
{
    assert(lock_grown(old.drop_last(), new.drop_last())) by {
        assert forall|m: int| 0 <= m < old.drop_last().len() implies (#[trigger] new.drop_last()[m]).same_settings(
            old.drop_last()[m],
        ) && pins_grown(old.drop_last()[m].ins(), new.drop_last()[m].ins()) && pins_grown(
            old.drop_last()[m].outs(),
            new.drop_last()[m].outs(),
        ) by {
            assert(new[m].same_settings(old[m]));
        }
    }
    let last = old.len() - 1;
    assert(new[last].same_settings(old[last]));
    if n == last {
        lemma_unlocked_total_mono(old.drop_last(), new.drop_last());
        if input {
            lemma_unlocked_count_strict(old.last().ins(), new.last().ins(), k);
            lemma_unlocked_count_mono(old.last().outs(), new.last().outs());
        } else {
            lemma_unlocked_count_strict(old.last().outs(), new.last().outs(), k);
            lemma_unlocked_count_mono(old.last().ins(), new.last().ins());
        }
    } else {
        assert(old.drop_last()[n] == old[n]);
        assert(new.drop_last()[n] == new[n]);
        lemma_unlocked_total_strict(old.drop_last(), new.drop_last(), n, input, k);
        lemma_unlocked_count_mono(old.last().ins(), new.last().ins());
        lemma_unlocked_count_mono(old.last().outs(), new.last().outs());
    }
}


pub proof fn lemma_qeq_sign(a: (int, int), b: (int, int))
    requires
        qeq(a, b),
        a.1 > 0,
        b.1 > 0,
    ensures
        (a.0 >= 0) == (b.0 >= 0),
{
    if a.0 >= 0 && b.0 < 0 {
        assert(a.0 * b.1 >= 0) by (nonlinear_arith)
            requires
                a.0 >= 0,
                b.1 > 0,
        ;
        assert(b.0 * a.1 < 0) by (nonlinear_arith)
            requires
                b.0 < 0,
                a.1 > 0,
        ;
    }
    if a.0 < 0 && b.0 >= 0 {
        assert(a.0 * b.1 < 0) by (nonlinear_arith)
            requires
                a.0 < 0,
                b.1 > 0,
        ;
        assert(b.0 * a.1 >= 0) by (nonlinear_arith)
            requires
                b.0 >= 0,
                a.1 > 0,
        ;
    }
}

proof fn lemma_locked_sum_wf(pins: Seq<Pin>)
    requires
        forall|j: int| 0 <= j < pins.len() ==> qwf(#[trigger] pins[j].current_rate@),
    ensures
        qwf(locked_sum(pins)),
    decreases pins.len(),
{
    if pins.len() > 0 {
        lemma_locked_sum_wf(pins.drop_last());
        if pins.last().locked {
            lemma_qwf_ops(locked_sum(pins.drop_last()), pins.last().current_rate@);
        }
    }
}

/// The sum of the rates of the locked pins, added up in order and kept in
/// lowest terms.
pub open spec fn locked_run(pins: Seq<Pin>) -> (int, int)
    decreases pins.len(),
{
    if pins.len() == 0 {
        qzero()
    } else if pins.last().locked {
        qcanon(qadd(locked_run(pins.drop_last()), pins.last().current_rate@))
    } else {
        locked_run(pins.drop_last())
    }
}

/// Each addition of `locked_run` fits in 64-bit integers.
pub open spec fn locked_run_fits(pins: Seq<Pin>) -> bool
    decreases pins.len(),
{
    pins.len() == 0 || (locked_run_fits(pins.drop_last()) && (pins.last().locked ==> add_fits(
        locked_run(pins.drop_last()),
        pins.last().current_rate@,
    )))
}

/// The rule meets a sum that does not fit in 64-bit integers: where it would
/// fire, the sum of the locked pins, or the single rate minus that sum.
pub open spec fn lock_overflows(o: OrganizerNode) -> bool {
    let multi = multi_pins(o);
    let single = single_pins(o);
    &&& single.len() > 0
    &&& {
        ||| single[0].locked && unlocked_count(multi) == 1 && (!locked_run_fits(multi) || !sub_fits(
            single[0].current_rate@,
            locked_run(multi),
        ))
        ||| !single[0].locked && unlocked_count(multi) == 0 && !locked_run_fits(multi)
    }
}

/// What the automatic-lock rule does at one organizer.
pub enum LockStep {
    Nothing,
    /// Lock the pin with this id at this rate.
    Lock(u64, FractionalNumber),
    /// A sum does not fit in 64-bit integers.
    Overflow,
}

/// The action of the automatic-lock rule at a merger or custom splitter.
fn organizer_lock_action(o: &OrganizerNode) -> (r: LockStep)
    ensures
        r is Nothing ==> !fires_one_unlocked(*o) && !fires_all_locked(*o),
        r matches LockStep::Lock(pid, rate) ==> (fires_one_unlocked(*o) && (exists|j: int|
            0 <= j < multi_pins(*o).len() && !(#[trigger] multi_pins(*o)[j]).locked
                && multi_pins(*o)[j].id == pid) && qeq(
            rate@,
            qsub(single_pins(*o)[0].current_rate@, locked_sum(multi_pins(*o))),
        )) || (fires_all_locked(*o) && pid == single_pins(*o)[0].id && qeq(
            rate@,
            locked_sum(multi_pins(*o)),
        )),
        r is Overflow <==> lock_overflows(*o),
        !lock_overflows(*o) && (fires_one_unlocked(*o) || fires_all_locked(*o)) ==> r is Lock,
{
    let cs = o.base.kind == NodeKind::CustomSplitter;
    let single: &Vec<Pin> = if cs {
        &o.base.ins
    } else {
        &o.base.outs
    };
    let multi: &Vec<Pin> = if cs {
        &o.base.outs
    } else {
        &o.base.ins
    };
    assert(single@ == single_pins(*o));
    assert(multi@ == multi_pins(*o));
    if single.len() == 0 {
        return LockStep::Nothing;
    }
    let mut unlocked: usize = 0;
    let mut first: u64 = 0;
    let mut sum = FractionalNumber::zero();
    let mut overflow = false;
    let mut i: usize = 0;
    proof {
        assert(multi@.subrange(0, 0) =~= Seq::<Pin>::empty());
        lemma_qeq_refl(qzero());
        assert(qwf(locked_sum(multi@.subrange(0, 0))));
    }
    while i < multi.len()
        invariant
            0 <= i <= multi@.len(),
            multi@ == multi_pins(*o),
            unlocked <= i,
            unlocked == unlocked_count(multi@.subrange(0, i as int)),
            unlocked >= 1 ==> exists|j: int|
                0 <= j < i && !(#[trigger] multi@[j]).locked && multi@[j].id == first,
            !overflow ==> qeq(sum@, locked_sum(multi@.subrange(0, i as int))),
            qwf(locked_sum(multi@.subrange(0, i as int))),
            overflow == !locked_run_fits(multi@.subrange(0, i as int)),
            !overflow ==> sum@ == locked_run(multi@.subrange(0, i as int)),
        decreases multi.len() - i,
    {
        let ghost pre = multi@.subrange(0, i as int);
        let p = &multi[i];
        proof {
            use_type_invariant(&sum);
            use_type_invariant(&p.current_rate);
            assert(multi@.subrange(0, i + 1).drop_last() =~= pre);
            assert(multi@.subrange(0, i + 1).last() == *p);
            if p.locked {
                lemma_qwf_ops(locked_sum(pre), p.current_rate@);
            }
        }
        if !p.locked {
            if unlocked == 0 {
                first = p.id;
            }
            unlocked += 1;
        } else if !overflow {
            match sum.checked_add(p.current_rate) {
                Some(s2) => {
                    proof {
                        lemma_qeq_refl(p.current_rate@);
                        lemma_qadd_cong(sum@, locked_sum(pre), p.current_rate@, p.current_rate@);
                        lemma_qwf_ops(sum@, p.current_rate@);
                        use_type_invariant(&s2);
                        lemma_qcanon(s2@, qadd(sum@, p.current_rate@));
                        lemma_qeq_trans(s2@, qadd(sum@, p.current_rate@), qadd(locked_sum(pre), p.current_rate@));
                    }
                    sum = s2;
                },
                None => {
                    overflow = true;
                },
            }
        }
        i += 1;
    }
    proof {
        assert(multi@.subrange(0, multi@.len() as int) =~= multi@);
    }
    let s0 = &single[0];
    if s0.locked && unlocked == 1 {
        if overflow {
            return LockStep::Overflow;
        }
        match s0.current_rate.checked_sub(sum) {
            Some(computed) => {
                proof {
                    use_type_invariant(&computed);
                    use_type_invariant(&sum);
                    use_type_invariant(&s0.current_rate);
                    lemma_qeq_refl(s0.current_rate@);
                    lemma_qsub_cong(s0.current_rate@, s0.current_rate@, sum@, locked_sum(multi@));
                    lemma_qwf_ops(s0.current_rate@, sum@);
                    lemma_qwf_ops(s0.current_rate@, locked_sum(multi@));
                    lemma_qeq_trans(computed@, qsub(s0.current_rate@, sum@), qsub(s0.current_rate@, locked_sum(multi@)));
                    lemma_qeq_sign(computed@, qsub(s0.current_rate@, locked_sum(multi@)));
                }
                if computed.numerator() >= 0 {
                    LockStep::Lock(first, computed)
                } else {
                    LockStep::Nothing
                }
            },
            None => LockStep::Overflow,
        }
    } else if !s0.locked && unlocked == 0 {
        if overflow {
            return LockStep::Overflow;
        }
        LockStep::Lock(s0.id, sum)
    } else {
        LockStep::Nothing
    }
}


/// No pin id is held at two places.
pub open spec fn pin_ids_unique(nodes: Seq<AppNode>) -> bool {
    forall|n1: int, i1: bool, j1: int, n2: int, i2: bool, j2: int|
        0 <= n1 < nodes.len() && 0 <= j1 < nodes[n1].side(i1).len() && 0 <= n2 < nodes.len() && 0 <= j2 < nodes[n2].side(i2).len()
            && #[trigger] nodes[n1].side(i1)[j1].id == #[trigger] nodes[n2].side(i2)[j2].id ==> n1 == n2 && i1 == i2 && j1 == j2
}

/// Where no pin id is held twice, the pin at a node, side and index (what
/// `get_pin_id` gives) is found by a search (what `find_pin_location`
/// reports) at that very place.
pub proof fn law_pin_found_where_taken(nodes: Seq<AppNode>, n: int, input: bool, j: int)
    requires
        pin_ids_unique(nodes),
        0 <= n < nodes.len(),
        0 <= j < nodes[n].side(input).len(),
    ensures
        pin_loc(nodes, nodes[n].side(input)[j].id) == Some((n, input, j)),
{
    let pid = nodes[n].side(input)[j].id;
    assert forall|m: int| 0 <= m < n implies !node_has_pin(#[trigger] nodes[m], pid) by {
        if side_has_pin(nodes[m], true, pid) {
            let q = choose|q: int| 0 <= q < nodes[m].side(true).len() && (#[trigger] nodes[m].side(true)[q]).id == pid;
            assert(nodes[m].side(true)[q].id == nodes[n].side(input)[j].id);
        }
        if side_has_pin(nodes[m], false, pid) {
            let q = choose|q: int| 0 <= q < nodes[m].side(false).len() && (#[trigger] nodes[m].side(false)[q]).id == pid;
            assert(nodes[m].side(false)[q].id == nodes[n].side(input)[j].id);
        }
    }
    assert forall|q: int| 0 <= q < j implies (#[trigger] nodes[n].side(input)[q]).id != pid by {
        if nodes[n].side(input)[q].id == pid {
            assert(nodes[n].side(input)[q].id == nodes[n].side(input)[j].id);
        }
    }
    if !input && side_has_pin(nodes[n], true, pid) {
        let q = choose|q: int| 0 <= q < nodes[n].side(true).len() && (#[trigger] nodes[n].side(true)[q]).id == pid;
        assert(nodes[n].side(true)[q].id == nodes[n].side(input)[j].id);
    }
    assert(is_pin_loc(nodes, pid, n, input, j));
    lemma_pin_loc_unique(nodes, pid, n, input, j);
}

/// Every pin of a crafting node or a group is connected to every other pin
/// of it: the pins connected to one of them (what `get_connected_pins`
/// gives, and what `set_pin_locked` locks) include all of the node's pins.
pub proof fn law_node_pins_connected(
    nodes: Seq<AppNode>,
    links: Seq<Link>,
    n: int,
    input: bool,
    j: int,
    input2: bool,
    j2: int,
    r: Seq<u64>,
)
    requires
        pin_ids_unique(nodes),
        0 <= n < nodes.len(),
        nodes[n] is Craft || nodes[n] is Group,
        0 <= j < nodes[n].side(input).len(),
        0 <= j2 < nodes[n].side(input2).len(),
        is_component(nodes, links, nodes[n].side(input)[j].id, r),
    ensures
        r.contains(nodes[n].side(input2)[j2].id),
{
    let p = nodes[n].side(input)[j].id;
    let q = nodes[n].side(input2)[j2].id;
    law_pin_found_where_taken(nodes, n, input, j);
    assert(joins_all(nodes[n]));
    assert(side_has_pin(nodes[n], input2, q));
    assert(node_has_pin(nodes[n], q));
    assert(step(nodes, links, true, p, q));
    lemma_reaches_refl(nodes, links, true, p);
    lemma_reaches_step(nodes, links, true, p, p, q);
    lemma_component_exact(nodes, links, p, r, q);
}

/// The pins of a merger, a custom splitter or a sink carry independent
/// flows: one step of connection from such a pin reaches another pin only
/// through a link between the two.
pub proof fn law_independent_pins(nodes: Seq<AppNode>, links: Seq<Link>, n: int, input: bool, j: int, b: u64)
    requires
        pin_ids_unique(nodes),
        0 <= n < nodes.len(),
        nodes[n] is Sink || (nodes[n] matches AppNode::Organizer(o) && (o.base.kind == NodeKind::Merger || o.base.kind
            == NodeKind::CustomSplitter)),
        0 <= j < nodes[n].side(input).len(),
        !linked(links, nodes[n].side(input)[j].id, b),
    ensures
        !step(nodes, links, true, nodes[n].side(input)[j].id, b),
{
    law_pin_found_where_taken(nodes, n, input, j);
    assert(!joins_all(nodes[n]));
}

/// A merger or custom splitter whose rule meets a sum that does not fit in
/// 64-bit integers.
pub open spec fn lock_overflow_at(node: AppNode) -> bool {
    match node {
        AppNode::Organizer(o) => (o.base.kind == NodeKind::Merger || o.base.kind == NodeKind::CustomSplitter) && lock_overflows(o),
        _ => false,
    }
}

/// Node `m` holds an unlocked pin with this id.
pub open spec fn unlocked_pin_at(nodes: Seq<AppNode>, m: int, pid: u64) -> bool {
    exists|input: bool, j: int|
        0 <= j < nodes[m].side(input).len() && (#[trigger] nodes[m].side(input)[j]).id == pid && !nodes[m].side(input)[j].locked
}

/// Locking pins keeps the pin ids where they were.
proof fn lemma_grown_unique(a: Seq<AppNode>, b: Seq<AppNode>)
    requires
        lock_grown(a, b),
        pin_ids_unique(a),
    ensures
        pin_ids_unique(b),
{
    assert forall|n: int, i: bool, j: int| 0 <= n < a.len() && 0 <= j < b[n].side(i).len() implies #[trigger] b[n].side(i)[j].id
        == a[n].side(i)[j].id && a[n].side(i).len() == b[n].side(i).len() by {
        if i {
            assert(b[n].ins()[j] == a[n].ins()[j] || b[n].ins()[j] == (Pin { current_rate: b[n].ins()[j].current_rate, locked: true, ..a[n].ins()[j] }));
        } else {
            assert(b[n].outs()[j] == a[n].outs()[j] || b[n].outs()[j] == (Pin { current_rate: b[n].outs()[j].current_rate, locked: true, ..a[n].outs()[j] }));
        }
    }
    assert forall|n1: int, i1: bool, j1: int, n2: int, i2: bool, j2: int|
        0 <= n1 < b.len() && 0 <= j1 < b[n1].side(i1).len() && 0 <= n2 < b.len() && 0 <= j2 < b[n2].side(i2).len()
            && #[trigger] b[n1].side(i1)[j1].id == #[trigger] b[n2].side(i2)[j2].id implies n1 == n2 && i1 == i2 && j1 == j2 by {
        assert(a[n1].side(i1)[j1].id == b[n1].side(i1)[j1].id);
        assert(a[n2].side(i2)[j2].id == b[n2].side(i2)[j2].id);
    }
}

/// With unique ids, the search finds an unlocked pin of node `m` where it is.
proof fn lemma_found_unlocked(nodes: Seq<AppNode>, m: int, pid: u64)
    requires
        0 <= m < nodes.len(),
        unlocked_pin_at(nodes, m, pid),
        pin_ids_unique(nodes),
    ensures
        pin_loc(nodes, pid) matches Some(l) && l.0 == m && !nodes[m].side(l.1)[l.2].locked,
{
    let (input, j) = choose|input: bool, j: int|
        0 <= j < nodes[m].side(input).len() && (#[trigger] nodes[m].side(input)[j]).id == pid && !nodes[m].side(input)[j].locked;
    assert forall|m2: int| 0 <= m2 < m implies !node_has_pin(#[trigger] nodes[m2], pid) by {
        if side_has_pin(nodes[m2], true, pid) {
            let j2 = choose|j2: int| 0 <= j2 < nodes[m2].side(true).len() && (#[trigger] nodes[m2].side(true)[j2]).id == pid;
            assert(nodes[m2].side(true)[j2].id == nodes[m].side(input)[j].id);
        }
        if side_has_pin(nodes[m2], false, pid) {
            let j2 = choose|j2: int| 0 <= j2 < nodes[m2].side(false).len() && (#[trigger] nodes[m2].side(false)[j2]).id == pid;
            assert(nodes[m2].side(false)[j2].id == nodes[m].side(input)[j].id);
        }
    }
    assert forall|j2: int| 0 <= j2 < j implies (#[trigger] nodes[m].side(input)[j2]).id != pid by {
        if nodes[m].side(input)[j2].id == pid {
            assert(nodes[m].side(input)[j2].id == nodes[m].side(input)[j].id);
        }
    }
    if !input && side_has_pin(nodes[m], true, pid) {
        let j2 = choose|j2: int| 0 <= j2 < nodes[m].side(true).len() && (#[trigger] nodes[m].side(true)[j2]).id == pid;
        assert(nodes[m].side(true)[j2].id == nodes[m].side(input)[j].id);
    }
    assert(is_pin_loc(nodes, pid, m, input, j));
    crate::production_app::lemma_pin_loc_unique(nodes, pid, m, input, j);
}

impl ProductionApp {
    /// Lock merger and custom-splitter pins whose rates are determined, and
    /// repeat until no rule applies:
    /// - the single pin is locked and one pin of the other side is not: that
    ///   pin gets the single rate minus the locked ones (when not negative);
    /// - every pin of the other side is locked and the single pin is not:
    ///   the single pin gets their sum.
    /// Returns whether it reached that point (it stops early where a sum does
    /// not fit in 64-bit integers, or where no pin could be locked).
    #[verifier::spinoff_prover]
    #[verifier::rlimit(30)]
    pub fn auto_lock_organizer_pins(&mut self) -> (done: bool)
        ensures
            lock_grown(old(self).nodes@, final(self).nodes@),
            final(self).links@ == old(self).links@,
            final(self).next_id == old(self).next_id,
            done ==> forall|n: int|
                0 <= n < final(self).nodes@.len() ==> !auto_lock_applies(#[trigger] final(self).nodes@[n]),
            !done ==> (exists|n: int| 0 <= n < final(self).nodes@.len() && #[trigger] lock_overflow_at(final(self).nodes@[n]))
                || !pin_ids_unique(old(self).nodes@),
            pin_ids_unique(old(self).nodes@) ==> auto_locked(old(self).nodes@, final(self).nodes@),
    {
        proof {
            lemma_lock_grown_refl(self.nodes@);
            lemma_auto_locked_refl(self.nodes@);
        }
        loop
            invariant
                lock_grown(old(self).nodes@, self.nodes@),
                self.links@ == old(self).links@,
                self.next_id == old(self).next_id,
                pin_ids_unique(old(self).nodes@) ==> auto_locked(old(self).nodes@, self.nodes@),
            decreases unlocked_total(self.nodes@),
        {
            let ghost round_start = self.nodes@;
            let mut actions: Vec<(u64, FractionalNumber)> = Vec::new();
            let ghost mut src: Seq<(int, bool, int)> = Seq::empty();
            let mut overflow = false;
            let mut n: usize = 0;
            while n < self.nodes.len()
                invariant
                    0 <= n <= self.nodes@.len(),
                    self.nodes@ == round_start,
                    src.len() == actions@.len(),
                    forall|q: int| 0 <= q < src.len() ==> 0 <= (#[trigger] src[q]).0 < n && lock_target(round_start[src[q].0], src[q].1, src[q].2, actions@[q].1@)
                        && round_start[src[q].0].side(src[q].1)[src[q].2].id == actions@[q].0,
                    forall|q1: int, q2: int| 0 <= q1 < q2 < src.len() ==> (#[trigger] src[q1]).0 < (#[trigger] src[q2]).0,
                    actions@.len() == 0 && !overflow ==> forall|m: int|
                        0 <= m < n ==> !auto_lock_applies(#[trigger] round_start[m]),
                    overflow ==> exists|m: int| 0 <= m < n && #[trigger] lock_overflow_at(round_start[m]),
                    actions@.len() > 0 ==> exists|m: int| 0 <= m < n && #[trigger] round_start[m] is Organizer && unlocked_pin_at(
                        round_start,
                        m,
                        actions@[0].0,
                    ),
                decreases self.nodes.len() - n,
            {
                match &self.nodes[n] {
                    AppNode::Organizer(o) => {
                        if o.base.kind == NodeKind::Merger || o.base.kind == NodeKind::CustomSplitter {
                            match organizer_lock_action(o) {
                                LockStep::Nothing => {},
                                LockStep::Lock(pid, rate) => {
                                    proof {
                                        let nn = n as int;
                                        if actions@.len() == 0 {
                                            if fires_one_unlocked(*o) && exists|j: int|
                                                0 <= j < multi_pins(*o).len() && !(#[trigger] multi_pins(*o)[j]).locked && multi_pins(*o)[j].id == pid {
                                                let j = choose|j: int|
                                                    0 <= j < multi_pins(*o).len() && !(#[trigger] multi_pins(*o)[j]).locked && multi_pins(*o)[j].id == pid;
                                                let input = o.base.kind != NodeKind::CustomSplitter;
                                                assert(round_start[nn].side(input)[j] == multi_pins(*o)[j]);
                                            } else {
                                                let input = o.base.kind == NodeKind::CustomSplitter;
                                                assert(round_start[nn].side(input)[0] == single_pins(*o)[0]);
                                            }
                                            assert(unlocked_pin_at(round_start, nn, pid));
                                        }
                                    }
                                    proof {
                                        let nn = n as int;
                                        let node = round_start[nn];
                                        assert(node == AppNode::Organizer(*o));
                                        if fires_one_unlocked(*o) && exists|j: int|
                                            0 <= j < multi_pins(*o).len() && !(#[trigger] multi_pins(*o)[j]).locked && multi_pins(*o)[j].id == pid
                                            && qeq(rate@, qsub(single_pins(*o)[0].current_rate@, locked_sum(multi_pins(*o)))) {
                                            let j = choose|j: int|
                                                0 <= j < multi_pins(*o).len() && !(#[trigger] multi_pins(*o)[j]).locked && multi_pins(*o)[j].id == pid;
                                            let input = o.base.kind != NodeKind::CustomSplitter;
                                            assert(node.side(input) == multi_pins(*o));
                                            assert(lock_target(node, input, j, rate@));
                                            src = src.push((nn, input, j));
                                        } else {
                                            let input = o.base.kind == NodeKind::CustomSplitter;
                                            assert(node.side(input) == single_pins(*o));
                                            assert(lock_target(node, input, 0, rate@));
                                            src = src.push((nn, input, 0int));
                                        }
                                    }
                                    let ghost acts0 = actions@;
                                    actions.push((pid, rate));
                                    proof {
                                        assert forall|q: int| 0 <= q < src.len() implies 0 <= (#[trigger] src[q]).0 < n + 1 && lock_target(round_start[src[q].0], src[q].1, src[q].2, actions@[q].1@)
                                            && round_start[src[q].0].side(src[q].1)[src[q].2].id == actions@[q].0 by {
                                            if q < src.len() - 1 {
                                                assert(actions@[q] == acts0[q]);
                                            }
                                        }
                                    }
                                },
                                LockStep::Overflow => {
                                    proof {
                                        assert(lock_overflow_at(round_start[n as int]));
                                    }
                                    overflow = true;
                                },
                            }
                        }
                    },
                    _ => {},
                }
                n += 1;
            }
            if actions.len() == 0 {
                proof {
                    if overflow {
                        let m = choose|m: int| 0 <= m < n && #[trigger] lock_overflow_at(round_start[m]);
                        assert(lock_overflow_at(self.nodes@[m]));
                    }
                }
                return !overflow;
            }
            let mut progress = false;
            let mut k: usize = 0;
            proof {
                if pin_ids_unique(old(self).nodes@) {
                    lemma_grown_unique(old(self).nodes@, round_start);
                }
            }
            while k < actions.len()
                invariant
                    0 <= k <= actions@.len(),
                    lock_grown(old(self).nodes@, round_start),
                    lock_grown(round_start, self.nodes@),
                    self.links@ == old(self).links@,
                    self.next_id == old(self).next_id,
                    progress ==> unlocked_total(self.nodes@) < unlocked_total(round_start),
                    k == 0 ==> self.nodes@ == round_start,
                    k > 0 && pin_ids_unique(round_start) ==> progress,
                    actions@.len() > 0,
                    exists|m: int| 0 <= m < round_start.len() && #[trigger] round_start[m] is Organizer && unlocked_pin_at(
                        round_start,
                        m,
                        actions@[0].0,
                    ),
                    src.len() == actions@.len(),
                    forall|q: int| 0 <= q < src.len() ==> 0 <= (#[trigger] src[q]).0 < round_start.len() && lock_target(round_start[src[q].0], src[q].1, src[q].2, actions@[q].1@)
                        && round_start[src[q].0].side(src[q].1)[src[q].2].id == actions@[q].0,
                    forall|q1: int, q2: int| 0 <= q1 < q2 < src.len() ==> (#[trigger] src[q1]).0 < (#[trigger] src[q2]).0,
                    self.nodes@.len() == round_start.len(),
                    pin_ids_unique(round_start) ==> forall|q: int| k <= q < src.len() ==> self.nodes@[(#[trigger] src[q]).0] == round_start[src[q].0],
                    pin_ids_unique(old(self).nodes@) ==> pin_ids_unique(round_start),
                    pin_ids_unique(old(self).nodes@) ==> auto_locked(old(self).nodes@, self.nodes@),
                decreases actions.len() - k,
            {
                let (pid, rate) = actions[k];
                proof {
                    if pin_ids_unique(round_start) {
                        lemma_grown_unique(round_start, self.nodes@);
                        let (m, side, j) = src[k as int];
                        assert(self.nodes@[m] == round_start[m]);
                        lemma_found_at(self.nodes@, m, side, j);
                    }
                }
                proof {
                    if k == 0 && pin_ids_unique(round_start) {
                        let m = choose|m: int| 0 <= m < round_start.len() && #[trigger] round_start[m] is Organizer && unlocked_pin_at(
                            round_start,
                            m,
                            actions@[0].0,
                        );
                        lemma_found_unlocked(round_start, m, pid);
                    }
                }
                match self.locate_pin(pid) {
                    Some((n, input, i)) => {
                        let is_org = match &self.nodes[n] {
                            AppNode::Organizer(_) => true,
                            _ => false,
                        };
                        if is_org {
                            let ghost before = self.nodes@;
                            let was_unlocked = !self.nodes[n].pin(input, i).locked;
                            self.update_pin_at(n, input, i, PinUpdate::Rate(rate));
                            let ghost mid = self.nodes@;
                            self.update_pin_at(n, input, i, PinUpdate::Locked(true));
                            proof {
                                let after = self.nodes@;
                                if pin_ids_unique(round_start) {
                                    let (m, side, j) = src[k as int];
                                    assert((n as int, input, i as int) == (m, side, j));
                                    assert(lock_target(before[m], side, j, rate@));
                                    assert(fired_once(before, after));
                                    assert forall|q: int| k + 1 <= q < src.len() implies after[(#[trigger] src[q]).0] == round_start[src[q].0] by {
                                        assert(src[k as int].0 < src[q].0);
                                        assert(after[src[q].0] == mid[src[q].0]);
                                        assert(mid[src[q].0] == before[src[q].0]);
                                    }
                                }
                                if pin_ids_unique(old(self).nodes@) {
                                    lemma_auto_locked_step(old(self).nodes@, before, after);
                                }
                                lemma_lock_step_grown(before, mid, after, (n as int, input, i as int), rate);
                                assert(lock_grown(before, after));
                                lemma_lock_grown_trans(round_start, before, after);
                                lemma_unlocked_total_mono(before, after);
                                if was_unlocked {
                                    lemma_unlocked_total_strict(before, after, n as int, input, i as int);
                                    lemma_unlocked_total_mono(round_start, before);
                                }
                            }
                            if was_unlocked {
                                progress = true;
                            }
                        }
                    },
                    None => {},
                }
                k += 1;
            }
            proof {
                lemma_lock_grown_trans(old(self).nodes@, round_start, self.nodes@);
            }
            if !progress {
                proof {
                    if pin_ids_unique(old(self).nodes@) {
                        lemma_grown_unique(old(self).nodes@, round_start);
                    }
                }
                return false;
            }
        }
    }
}

} // verus!
