//! Setting the rate of a pin and propagating the change through the graph:
//! what a successful propagation guarantees, and why it can be refused.
use vstd::prelude::*;
use crate::app_node::AppNode;
use crate::connectivity::{reaches, vec_contains, lemma_closure_exact};
use crate::equations::{pin_value, org_sum, row_means, link_row, organizer_row, constraint_row, lookup_var,
    lookup_fixed, link_row_state, org_row_state};
use crate::fractional_number::FractionalNumber;
use crate::link::Link;
use crate::linear::{dot, candidate, row_sat, sys_sat, lemma_dot_zero, lemma_dot_wf};
use crate::pin::Pin;
use crate::production_app::{ProductionApp, same_pin_ids};
use crate::propagation::{assign_ok, var_entry, fixed_entry, errors_cleared, pins_cleared, lemma_assign_facts};
use crate::link_edit::{restored_side, states_of};
use crate::auto_lock::lemma_settings_trans;
use crate::rate_calculator::{fview, augmented, rate_error_text, RateError, LinearSolver, solve_outcome};
use crate::fractional_number::mul_fits;
use crate::text::concat;
use crate::rate_update::{rates_applied, refreshed, node_rescaled, refresh_ok};
use crate::rational::{qeq, qsub, qzero, qwf, lemma_qwf_ops};
use crate::row_meaning::{lemma_dot_agree, lemma_meaning_zero, lemma_qeq_zero_num};

verus! {

/// A rate change: the graph before it, the pin `c` set to `value`, and the
/// variables and fixed rates given to the pins that the change reaches.
pub struct Change {
    pub nodes: Seq<AppNode>,
    pub links: Seq<Link>,
    pub c: u64,
    pub value: FractionalNumber,
    pub vars: Seq<(u64, usize, FractionalNumber)>,
    pub fixed: Seq<(u64, FractionalNumber)>,
    pub nv: nat,
}

/// The pin is reached from the changed pin.
pub open spec fn reached(ch: Change, pid: u64) -> bool {
    reaches(ch.nodes, ch.links, false, ch.c, pid)
}

/// The variables and fixed rates follow the classes of the reached pins.
pub open spec fn assigned(ch: Change) -> bool {
    assign_ok(ch.nodes, ch.links, ch.c, |pid: u64| reached(ch, pid), ch.vars, ch.fixed, ch.nv)
}

/// `ch` describes setting `c` to `value` in the graph `nodes`, `links`.
pub open spec fn change_for(nodes: Seq<AppNode>, links: Seq<Link>, c: u64, value: FractionalNumber, ch: Change) -> bool {
    &&& ch.nodes == nodes
    &&& ch.links == links
    &&& ch.c == c
    &&& ch.value == value
    &&& assigned(ch)
}

/// Both ends of the link are reached.
pub open spec fn link_in(ch: Change, l: Link) -> bool {
    reached(ch, l.start_pin_id) && reached(ch, l.end_pin_id)
}

/// Some pin of `pins` is reached.
pub open spec fn some_reached(ch: Change, pins: Seq<Pin>) -> bool {
    exists|j: int| 0 <= j < pins.len() && #[trigger] reached(ch, pins[j].id)
}

/// An organizer with a reached pin.
pub open spec fn org_in(ch: Change, node: AppNode) -> bool {
    node is Organizer && (some_reached(ch, node.ins()) || some_reached(ch, node.outs()))
}

/// Under `x`, both ends of the link carry the same rate.
pub open spec fn link_holds(ch: Change, l: Link, x: Seq<(int, int)>) -> bool {
    qeq(pin_value(ch.vars, ch.fixed, l.start_pin_id, x), pin_value(ch.vars, ch.fixed, l.end_pin_id, x))
}

/// Under `x`, the inputs of the node carry as much as its outputs.
pub open spec fn org_holds(ch: Change, node: AppNode, x: Seq<(int, int)>) -> bool {
    qeq(org_sum(ch.vars, node.ins(), x), org_sum(ch.vars, node.outs(), x))
}

/// Under `x`, the changed pin carries the new value.
pub open spec fn set_holds(ch: Change, x: Seq<(int, int)>) -> bool {
    qeq(pin_value(ch.vars, ch.fixed, ch.c, x), ch.value@)
}

/// Every reached link holds under `x`.
pub open spec fn links_hold(ch: Change, x: Seq<(int, int)>) -> bool {
    forall|k: int| 0 <= k < ch.links.len() && #[trigger] link_in(ch, ch.links[k]) ==> link_holds(ch, ch.links[k], x)
}

/// Every reached link and organizer holds under `x`, and the changed pin
/// carries the new value.
pub open spec fn balanced(ch: Change, x: Seq<(int, int)>) -> bool {
    &&& links_hold(ch, x)
    &&& forall|n: int| 0 <= n < ch.nodes.len() && #[trigger] org_in(ch, ch.nodes[n]) ==> org_holds(ch, ch.nodes[n], x)
    &&& set_holds(ch, x)
}

/// No value is negative.
pub open spec fn nonneg(x: Seq<(int, int)>) -> bool {
    forall|j: int| 0 <= j < x.len() ==> (#[trigger] x[j]).0 >= 0
}

/// The record of a successful propagation: the assignment, the values of the
/// variables, the graph with cleared errors, and the graph with the new rates.
pub struct Propagation {
    pub vars: Seq<(u64, usize, FractionalNumber)>,
    pub fixed: Seq<(u64, FractionalNumber)>,
    pub nv: nat,
    pub x: Seq<(int, int)>,
    pub cleared: Seq<AppNode>,
    pub applied: Seq<AppNode>,
}

/// The change that a propagation record describes.
pub open spec fn change_of(nodes: Seq<AppNode>, links: Seq<Link>, c: u64, value: FractionalNumber, w: Propagation) -> Change {
    Change { nodes, links, c, value, vars: w.vars, fixed: w.fixed, nv: w.nv }
}

/// Setting `c` to `value` in `nodes`, `links` led to `result` as `w` records:
/// errors are cleared; where no reached pin has a variable, every reached link
/// already holds, a locked `c` already carries `value`, and the node rates are
/// refreshed; otherwise the values `x`
/// balance the graph, none is negative, every pin with a variable gets
/// `ratio * x[v]`, and the node rates are refreshed from the new pin rates.
pub open spec fn propagated(
    nodes: Seq<AppNode>,
    links: Seq<Link>,
    c: u64,
    value: FractionalNumber,
    w: Propagation,
    result: Seq<AppNode>,
) -> bool {
    let ch = change_of(nodes, links, c, value, w);
    &&& assigned(ch)
    &&& candidate(w.x, w.nv as int)
    &&& errors_cleared(nodes, w.cleared)
    &&& links_hold(ch, w.x)
    &&& if w.vars.len() == 0 {
        &&& fixed_entry(w.fixed, c) matches Some(i) ==> qeq(w.fixed[i].1@, value@)
        &&& refreshed(w.cleared, result)
    } else {
        &&& balanced(ch, w.x)
        &&& nonneg(w.x)
        &&& rates_applied(w.cleared, w.applied, w.vars, w.x)
        &&& refreshed(w.applied, result)
    }
}

/// The message of a refused change whose values do not fit in 64-bit integers.
pub open spec fn overflow_text() -> Seq<char> {
    "Arithmetic overflow while propagating rates"@
}

/// Why a change is refused, with the message that says so.
pub open spec fn refused(ch: Change, e: Seq<char>) -> bool {
    ||| e == "Contradictory locked rates"@ && exists|k: int|
        0 <= k < ch.links.len() && #[trigger] link_in(ch, ch.links[k]) && forall|x: Seq<(int, int)>|
            candidate(x, ch.nv as int) ==> !link_holds(ch, ch.links[k], x)
    ||| e == "Contradictory locked rates on organizer"@ && ch.vars.len() > 0 && exists|n: int|
        0 <= n < ch.nodes.len() && #[trigger] org_in(ch, ch.nodes[n]) && forall|x: Seq<(int, int)>|
            candidate(x, ch.nv as int) ==> !org_holds(ch, ch.nodes[n], x)
    ||| e == "Contradiction with locked constraint value"@ && var_entry(ch.vars, ch.c)
        is None && fixed_entry(ch.fixed, ch.c) is Some && !qeq(
        ch.fixed[fixed_entry(ch.fixed, ch.c)->0].1@,
        ch.value@,
    )
    ||| e == "Constraint pin not part of propagation set"@ && ch.vars.len() > 0 && var_entry(ch.vars, ch.c)
        is None && fixed_entry(ch.fixed, ch.c) is None
    ||| e == "No equations to solve"@ && ch.vars.len() > 0 && var_entry(ch.vars, ch.c) is None && (forall|k: int|
        0 <= k < ch.links.len() ==> !(#[trigger] link_in(ch, ch.links[k]))) && (forall|n: int|
        0 <= n < ch.nodes.len() ==> !(#[trigger] org_in(ch, ch.nodes[n])))
    ||| e == "Solver error: "@ + rate_error_text(RateError::Contradiction) && ch.vars.len() > 0 && forall|
        x: Seq<(int, int)>,
    | candidate(x, ch.nv as int) ==> !balanced(ch, x)
    ||| e == "Solver error: "@ + rate_error_text(RateError::NegativeRate) && ch.vars.len() > 0 && exists|
        x: Seq<(int, int)>,
    | candidate(x, ch.nv as int) && #[trigger] balanced(ch, x) && !nonneg(x)
}

/// The equation of a reached link, as its coefficients followed by its
/// constant; `None` where it does not fit in 64-bit integers.
pub open spec fn link_eq(ch: Change, l: Link) -> Option<Seq<(int, int)>> {
    match link_row_state(ch.vars, ch.fixed, ch.nv, l.start_pin_id, l.end_pin_id) {
        Some((r, kc)) => Some(r.push(kc)),
        None => None,
    }
}

/// The equation of a reached organizer, as for `link_eq`.
pub open spec fn org_eq(ch: Change, node: AppNode) -> Option<Seq<(int, int)>> {
    match org_row_state(ch.vars, node.ins(), node.outs(), ch.nv) {
        Some((r, kc)) => Some(r.push(kc)),
        None => None,
    }
}

/// `rel` holds exactly the reached pins.
pub open spec fn reach_set(ch: Change, rel: Seq<u64>) -> bool {
    forall|p: u64| #[trigger] rel.contains(p) == reached(ch, p)
}

/// Some node of `a` cannot take the rate of its pins within 64-bit integers.
pub open spec fn refresh_overflows(ch: Change, a: Seq<AppNode>) -> bool {
    exists|rel: Seq<u64>, n: int| reach_set(ch, rel) && 0 <= n < a.len() && !#[trigger] refresh_ok(a[n], rel)
}

/// Under the solution `x`, a new pin rate, or the rate that a node takes
/// from its new pin rates, does not fit in 64-bit integers.
pub open spec fn applying_overflows(ch: Change, x: Seq<(int, int)>) -> bool {
    ||| exists|i: int| 0 <= i < ch.vars.len() && !mul_fits(x[(#[trigger] ch.vars[i]).1 as int], ch.vars[i].2@)
    ||| exists|cl: Seq<AppNode>, ap: Seq<AppNode>| errors_cleared(ch.nodes, cl) && #[trigger] rates_applied(cl, ap, ch.vars, x) && refresh_overflows(ch, ap)
}

/// The solver, on equations of the change, overflows, or its solution does
/// when it is applied.
pub open spec fn solver_overflows(ch: Change, outcome: Result<Seq<(int, int)>, RateError>) -> bool {
    match outcome {
        Err(e) => e == RateError::Overflow,
        Ok(x) => applying_overflows(ch, x),
    }
}

/// A value of the change does not fit in 64-bit integers: the equation of a
/// reached link or organizer; the solver on a set of equations that says
/// exactly what the change asks (one for each reached link and organizer
/// and for the new value); a new pin rate; or the rate that a node takes
/// from its pins.
pub open spec fn overflows(ch: Change) -> bool {
    ||| exists|k: int| 0 <= k < ch.links.len() && #[trigger] link_in(ch, ch.links[k]) && link_eq(ch, ch.links[k]) is None
    ||| ch.vars.len() > 0 && exists|n: int| 0 <= n < ch.nodes.len() && #[trigger] org_in(ch, ch.nodes[n]) && org_eq(ch, ch.nodes[n]) is None
    ||| ch.vars.len() > 0 && exists|eqs: Seq<Vec<FractionalNumber>>, consts: Seq<FractionalNumber>, tags: Seq<RowTag>|
        #[trigger] rows_ok(ch, eqs, consts, tags) && links_covered(ch, tags) && rest_covered(ch, tags)
            && solver_overflows(ch, solve_outcome(augmented(eqs, consts), ch.nv as int))
    ||| ch.vars.len() == 0 && exists|cl: Seq<AppNode>| #[trigger] errors_cleared(ch.nodes, cl) && refresh_overflows(ch, cl)
}

/// A refused change: its values overflow, and the nodes are kept but for
/// cleared error flags; or errors are cleared and `e` says why the change is
/// refused.
pub open spec fn propagation_refused(
    nodes: Seq<AppNode>,
    links: Seq<Link>,
    c: u64,
    value: FractionalNumber,
    e: Seq<char>,
    result: Seq<AppNode>,
) -> bool {
    (e == overflow_text() && (result == nodes || errors_cleared(nodes, result)) && exists|ch: Change|
        #[trigger] change_for(nodes, links, c, value, ch) && overflows(ch)) || (errors_cleared(nodes, result)
        && exists|ch: Change| #[trigger] change_for(nodes, links, c, value, ch) && refused(ch, e))
}

/// What a row of the equations stands for: a link, an organizer, or the new value.
pub enum RowTag {
    Link(int),
    Org(int),
    Target,
}

/// The meaning of a row: the difference of the two sides of its law.
pub open spec fn tag_meaning(ch: Change, t: RowTag) -> spec_fn(Seq<(int, int)>) -> (int, int) {
    match t {
        RowTag::Link(k) => |x: Seq<(int, int)>|
            qsub(
                pin_value(ch.vars, ch.fixed, ch.links[k].start_pin_id, x),
                pin_value(ch.vars, ch.fixed, ch.links[k].end_pin_id, x),
            ),
        RowTag::Org(n) => |x: Seq<(int, int)>|
            qsub(org_sum(ch.vars, ch.nodes[n].ins(), x), org_sum(ch.vars, ch.nodes[n].outs(), x)),
        RowTag::Target => |x: Seq<(int, int)>| qsub(pin_value(ch.vars, ch.fixed, ch.c, x), ch.value@),
    }
}

/// The row stands for a reached link or organizer, or for the new value.
pub open spec fn tag_valid(ch: Change, t: RowTag) -> bool {
    match t {
        RowTag::Link(k) => 0 <= k < ch.links.len() && link_in(ch, ch.links[k]),
        RowTag::Org(n) => 0 <= n < ch.nodes.len() && org_in(ch, ch.nodes[n]),
        RowTag::Target => true,
    }
}

/// The law of the row holds under `x`.
pub open spec fn tag_holds(ch: Change, t: RowTag, x: Seq<(int, int)>) -> bool {
    match t {
        RowTag::Link(k) => link_holds(ch, ch.links[k], x),
        RowTag::Org(n) => org_holds(ch, ch.nodes[n], x),
        RowTag::Target => set_holds(ch, x),
    }
}

/// Each row means the law of its tag.
pub open spec fn rows_ok(ch: Change, eqs: Seq<Vec<FractionalNumber>>, consts: Seq<FractionalNumber>, tags: Seq<RowTag>) -> bool {
    &&& eqs.len() == consts.len()
    &&& eqs.len() == tags.len()
    &&& forall|i: int|
        0 <= i < eqs.len() ==> row_means((#[trigger] eqs[i])@, consts[i], ch.nv, tag_meaning(ch, tags[i])) && tag_valid(
            ch,
            tags[i],
        )
}

/// A row holds exactly when the law it means does.
pub proof fn lemma_row_law(ch: Change, row: Seq<FractionalNumber>, k: FractionalNumber, t: RowTag, x: Seq<(int, int)>)
    requires
        row_means(row, k, ch.nv, tag_meaning(ch, t)),
        candidate(x, ch.nv as int),
    ensures
        row_sat(fview(row).push(k@), x, ch.nv as int) <==> tag_holds(ch, t, x),
{
    let n = ch.nv as int;
    let f = fview(row);
    let r = f.push(k@);
    lemma_dot_agree(f, r, x, n);
    let d = dot(f, x, 0, n);
    lemma_dot_wf(f, x, 0, n);
    let m = tag_meaning(ch, t)(x);
    assert(qeq(qsub(d, k@), m));
    lemma_qwf_ops(d, k@);
    assert(r[n] == k@);
    if qeq(d, k@) {
        lemma_meaning_zero(d, k@, m);
    }
    if m.0 == 0 {
        lemma_qeq_zero_num(qsub(d, k@), m);
    }
    match t {
        RowTag::Link(kk) => {},
        RowTag::Org(nn) => {},
        RowTag::Target => {},
    }
}

/// A row with zero coefficients and a non-zero constant holds for no `x`.
pub proof fn lemma_zero_row_refused(ch: Change, row: Seq<FractionalNumber>, k: FractionalNumber, t: RowTag, x: Seq<(int, int)>)
    requires
        row_means(row, k, ch.nv, tag_meaning(ch, t)),
        candidate(x, ch.nv as int),
        forall|j: int| 0 <= j < row.len() ==> (#[trigger] row[j])@.0 == 0,
        k@.0 != 0,
    ensures
        !tag_holds(ch, t, x),
{
    let n = ch.nv as int;
    let f = fview(row);
    assert forall|j: int| 0 <= j < n implies (#[trigger] f[j]).0 == 0 by {
        assert(f[j] == row[j]@);
    }
    lemma_dot_zero(f, x, 0, n);
    lemma_dot_wf(f, x, 0, n);
    let d = dot(f, x, 0, n);
    lemma_row_law(ch, row, k, t, x);
    if qeq(d, k@) {
        let (d0, d1, k0, k1) = (d.0, d.1, k@.0, k@.1);
        assert(k0 * d1 == 0);
        assert(k0 == 0) by (nonlinear_arith)
            requires
                k0 * d1 == 0,
                d1 > 0,
        ;
    }
    lemma_dot_agree(f, f.push(k@), x, n);
}

/// With no variables, a row with a zero constant holds for the empty values.
pub proof fn lemma_empty_row_holds(ch: Change, row: Seq<FractionalNumber>, k: FractionalNumber, t: RowTag)
    requires
        row_means(row, k, ch.nv, tag_meaning(ch, t)),
        ch.nv == 0,
        k@.0 == 0,
    ensures
        tag_holds(ch, t, Seq::<(int, int)>::empty()),
{
    let x = Seq::<(int, int)>::empty();
    assert(candidate(x, 0));
    lemma_row_law(ch, row, k, t, x);
    let r = fview(row).push(k@);
    assert(dot(r, x, 0, 0) == qzero());
    assert(r[0] == k@);
}

/// The solutions of the rows are the values under which all their laws hold.
pub proof fn lemma_rows_sat(
    ch: Change,
    eqs: Seq<Vec<FractionalNumber>>,
    consts: Seq<FractionalNumber>,
    tags: Seq<RowTag>,
    x: Seq<(int, int)>,
)
    requires
        rows_ok(ch, eqs, consts, tags),
        candidate(x, ch.nv as int),
    ensures
        sys_sat(augmented(eqs, consts), x, ch.nv as int) <==> forall|i: int|
            0 <= i < tags.len() ==> #[trigger] tag_holds(ch, tags[i], x),
{
    let m = augmented(eqs, consts);
    if sys_sat(m, x, ch.nv as int) {
        assert forall|i: int| 0 <= i < tags.len() implies #[trigger] tag_holds(ch, tags[i], x) by {
            assert(row_sat(m[i], x, ch.nv as int));
            assert(row_means(eqs[i]@, consts[i], ch.nv, tag_meaning(ch, tags[i])));
            lemma_row_law(ch, eqs[i]@, consts[i], tags[i], x);
        }
    }
    if forall|i: int| 0 <= i < tags.len() ==> #[trigger] tag_holds(ch, tags[i], x) {
        assert forall|i: int| 0 <= i < m.len() implies row_sat(#[trigger] m[i], x, ch.nv as int) by {
            assert(row_means(eqs[i]@, consts[i], ch.nv, tag_meaning(ch, tags[i])));
            assert(tag_holds(ch, tags[i], x));
            lemma_row_law(ch, eqs[i]@, consts[i], tags[i], x);
        }
    }
}

/// Under balanced values the law of every valid row holds.
pub proof fn lemma_balanced_tags(ch: Change, tags: Seq<RowTag>, x: Seq<(int, int)>)
    requires
        forall|i: int| 0 <= i < tags.len() ==> tag_valid(ch, #[trigger] tags[i]),
        balanced(ch, x),
    ensures
        forall|i: int| 0 <= i < tags.len() ==> #[trigger] tag_holds(ch, tags[i], x),
{
    assert forall|i: int| 0 <= i < tags.len() implies #[trigger] tag_holds(ch, tags[i], x) by {
        assert(tag_valid(ch, tags[i]));
        match tags[i] {
            RowTag::Link(k) => {
                assert(link_in(ch, ch.links[k]));
            },
            RowTag::Org(n) => {
                assert(org_in(ch, ch.nodes[n]));
            },
            RowTag::Target => {},
        }
    }
}

/// Every reached link has a row.
pub open spec fn links_covered(ch: Change, tags: Seq<RowTag>) -> bool {
    forall|k: int| 0 <= k < ch.links.len() && #[trigger] link_in(ch, ch.links[k]) ==> tags.contains(RowTag::Link(k))
}

/// Every reached organizer has a row, and the new value has a row unless the
/// changed pin is fixed at that value.
pub open spec fn rest_covered(ch: Change, tags: Seq<RowTag>) -> bool {
    &&& forall|n: int| 0 <= n < ch.nodes.len() && #[trigger] org_in(ch, ch.nodes[n]) ==> tags.contains(RowTag::Org(n))
    &&& var_entry(ch.vars, ch.c) is Some ==> tags.contains(RowTag::Target)
    &&& var_entry(ch.vars, ch.c) is None ==> fixed_entry(ch.fixed, ch.c) is Some && qeq(
        ch.fixed[fixed_entry(ch.fixed, ch.c)->0].1@,
        ch.value@,
    )
}

/// Where the laws of all rows hold, every covered link holds.
pub proof fn lemma_links_from_tags(ch: Change, tags: Seq<RowTag>, x: Seq<(int, int)>)
    requires
        links_covered(ch, tags),
        forall|i: int| 0 <= i < tags.len() ==> #[trigger] tag_holds(ch, tags[i], x),
    ensures
        links_hold(ch, x),
{
    assert forall|k: int| 0 <= k < ch.links.len() && #[trigger] link_in(ch, ch.links[k]) implies link_holds(ch, ch.links[k], x) by {
        assert(tags.contains(RowTag::Link(k)));
        let i = choose|i: int| 0 <= i < tags.len() && tags[i] == RowTag::Link(k);
        assert(tag_holds(ch, tags[i], x));
    }
}

/// Where the laws of all rows hold and every law has a row, the values are balanced.
pub proof fn lemma_balanced_from_tags(ch: Change, tags: Seq<RowTag>, x: Seq<(int, int)>)
    requires
        links_covered(ch, tags),
        rest_covered(ch, tags),
        forall|i: int| 0 <= i < tags.len() ==> #[trigger] tag_holds(ch, tags[i], x),
    ensures
        balanced(ch, x),
{
    lemma_links_from_tags(ch, tags, x);
    assert forall|n: int| 0 <= n < ch.nodes.len() && #[trigger] org_in(ch, ch.nodes[n]) implies org_holds(ch, ch.nodes[n], x) by {
        assert(tags.contains(RowTag::Org(n)));
        let i = choose|i: int| 0 <= i < tags.len() && tags[i] == RowTag::Org(n);
        assert(tag_holds(ch, tags[i], x));
    }
    if var_entry(ch.vars, ch.c) is Some {
        assert(tags.contains(RowTag::Target));
        let i = choose|i: int| 0 <= i < tags.len() && tags[i] == RowTag::Target;
        assert(tag_holds(ch, tags[i], x));
    }
}


/// Clearing errors keeps every pin in place.
pub proof fn lemma_cleared_ids(a: Seq<AppNode>, b: Seq<AppNode>)
    requires
        errors_cleared(a, b),
    ensures
        same_pin_ids(a, b),
{
    assert forall|n: int, input: bool| 0 <= n < a.len() implies (#[trigger] a[n].side(input)).len() == b[n].side(input).len() by {
        assert(b[n].same_settings(a[n]));
    }
    assert forall|n: int, input: bool, j: int| 0 <= n < a.len() && 0 <= j < a[n].side(input).len() implies (#[trigger] a[n].side(input)[j]).id == b[n].side(input)[j].id by {
        if input {
            assert(b[n].ins()[j] == (Pin { error: false, ..a[n].ins()[j] }));
        } else {
            assert(b[n].outs()[j] == (Pin { error: false, ..a[n].outs()[j] }));
        }
    }
}

/// Refreshing node rates keeps every pin in place.
pub proof fn lemma_refreshed_ids(a: Seq<AppNode>, b: Seq<AppNode>)
    requires
        refreshed(a, b),
    ensures
        same_pin_ids(a, b),
{
    assert forall|n: int, input: bool| 0 <= n < a.len() implies (#[trigger] a[n].side(input)).len() == b[n].side(input).len() by {
        assert(node_rescaled(a[n], b[n]));
    }
    assert forall|n: int, input: bool, j: int| 0 <= n < a.len() && 0 <= j < a[n].side(input).len() implies (#[trigger] a[n].side(input)[j]).id == b[n].side(input)[j].id by {
        assert(node_rescaled(a[n], b[n]));
        if b[n] != a[n] {
            match (a[n], b[n]) {
                (AppNode::Craft(x), AppNode::Craft(y)) => {
                    if input {
                        assert(y.base.ins@[j] == (Pin { current_rate: y.base.ins@[j].current_rate, ..x.base.ins@[j] }));
                    } else {
                        assert(y.base.outs@[j] == (Pin { current_rate: y.base.outs@[j].current_rate, ..x.base.outs@[j] }));
                    }
                },
                (AppNode::Group(x), AppNode::Group(y)) => {
                    if input {
                        assert(y.base.ins@[j] == (Pin { current_rate: y.base.ins@[j].current_rate, ..x.base.ins@[j] }));
                    } else {
                        assert(y.base.outs@[j] == (Pin { current_rate: y.base.outs@[j].current_rate, ..x.base.outs@[j] }));
                    }
                },
                _ => {},
            }
        }
    }
}

/// Keeping pins in place is transitive.
pub proof fn lemma_ids_trans(a: Seq<AppNode>, b: Seq<AppNode>, c: Seq<AppNode>)
    requires
        same_pin_ids(a, b),
        same_pin_ids(b, c),
    ensures
        same_pin_ids(a, c),
{
    assert forall|n: int, input: bool| 0 <= n < a.len() implies (#[trigger] a[n].side(input)).len() == c[n].side(input).len() by {
        assert(a[n].side(input).len() == b[n].side(input).len());
        assert(b[n].side(input).len() == c[n].side(input).len());
    }
    assert forall|n: int, input: bool, j: int| 0 <= n < a.len() && 0 <= j < a[n].side(input).len() implies (#[trigger] a[n].side(input)[j]).id == c[n].side(input)[j].id by {
        assert(a[n].side(input).len() == b[n].side(input).len());
        assert(a[n].side(input)[j].id == b[n].side(input)[j].id);
        assert(b[n].side(input)[j].id == c[n].side(input)[j].id);
    }
}

/// The message of a change whose values do not fit in 64-bit integers.
fn overflow_message() -> (r: String)
    ensures
        r@ == overflow_text(),
{
    "Arithmetic overflow while propagating rates".to_owned()
}

/// Whether every entry is zero.
fn all_zero(row: &Vec<FractionalNumber>) -> (r: bool)
    ensures
        r == forall|j: int| 0 <= j < row@.len() ==> (#[trigger] row@[j])@.0 == 0,
{
    let mut j: usize = 0;
    while j < row.len()
        invariant
            0 <= j <= row@.len(),
            forall|q: int| 0 <= q < j ==> (#[trigger] row@[q])@.0 == 0,
        decreases row.len() - j,
    {
        if !row[j].is_zero() {
            return false;
        }
        j += 1;
    }
    true
}

/// Whether the id of some pin is in `rel`.
fn any_in(pins: &Vec<Pin>, rel: &Vec<u64>) -> (r: bool)
    ensures
        r == exists|j: int| 0 <= j < pins@.len() && rel@.contains((#[trigger] pins@[j]).id),
{
    let mut j: usize = 0;
    while j < pins.len()
        invariant
            0 <= j <= pins@.len(),
            forall|q: int| 0 <= q < j ==> !rel@.contains((#[trigger] pins@[q]).id),
        decreases pins.len() - j,
    {
        if vec_contains(rel, pins[j].id) {
            return true;
        }
        j += 1;
    }
    false
}

/// Giving the pins back their rates and locks from before the solution was
/// applied leaves the nodes as they were but for cleared error flags.
proof fn lemma_restored_cleared(
    nodes: Seq<AppNode>,
    cleared: Seq<AppNode>,
    applied: Seq<AppNode>,
    fin: Seq<AppNode>,
    vars: Seq<(u64, usize, FractionalNumber)>,
    x: Seq<(int, int)>,
)
    requires
        errors_cleared(nodes, cleared),
        rates_applied(cleared, applied, vars, x),
        fin.len() == applied.len(),
        forall|n: int|
            0 <= n < applied.len() ==> (#[trigger] fin[n]).same_settings(applied[n]) && restored_side(
                applied[n].ins(),
                fin[n].ins(),
                states_of(cleared[n].ins()),
            ) && restored_side(applied[n].outs(), fin[n].outs(), states_of(cleared[n].outs())),
    ensures
        errors_cleared(nodes, fin),
{
    assert forall|n: int| 0 <= n < nodes.len() implies (#[trigger] fin[n]).same_settings(nodes[n]) && pins_cleared(
        nodes[n].ins(),
        fin[n].ins(),
    ) && pins_cleared(nodes[n].outs(), fin[n].outs()) by {
        lemma_settings_trans(cleared[n], applied[n], fin[n]);
        lemma_settings_trans(nodes[n], cleared[n], fin[n]);
        assert forall|j: int| 0 <= j < nodes[n].ins().len() implies #[trigger] fin[n].ins()[j] == (Pin {
            error: false,
            ..nodes[n].ins()[j]
        }) by {
            assert(applied[n].side(true)[j] == (Pin { current_rate: applied[n].side(true)[j].current_rate, ..cleared[n].side(true)[j] }));
            assert(states_of(cleared[n].ins())[j] == (cleared[n].ins()[j].current_rate, cleared[n].ins()[j].locked));
        }
        assert forall|j: int| 0 <= j < nodes[n].outs().len() implies #[trigger] fin[n].outs()[j] == (Pin {
            error: false,
            ..nodes[n].outs()[j]
        }) by {
            assert(applied[n].side(false)[j] == (Pin { current_rate: applied[n].side(false)[j].current_rate, ..cleared[n].side(false)[j] }));
            assert(states_of(cleared[n].outs())[j] == (cleared[n].outs()[j].current_rate, cleared[n].outs()[j].locked));
        }
    }
}

impl ProductionApp {
    /// Set the rate of pin `c` to `value` and propagate the change: the pins
    /// it reaches get variables or fixed rates, every reached link and
    /// organizer gives an equation, and so does the new value; the solution
    /// becomes the new pin rates, and crafting nodes and groups take the rates
    /// of their pins. Error flags are cleared first. A change that contradicts
    /// a locked rate is refused; so is one whose values do not fit in 64-bit
    /// integers, which keeps the nodes as they were (but for cleared flags).
    #[verifier::spinoff_prover]
    pub fn update_nodes_rate(&mut self, c: u64, value: FractionalNumber) -> (r: Result<(), String>)
        ensures
            final(self).links@ == old(self).links@,
            final(self).next_id == old(self).next_id,
            same_pin_ids(old(self).nodes@, final(self).nodes@),
            r is Ok ==> exists|w: Propagation|
                #[trigger] propagated(old(self).nodes@, old(self).links@, c, value, w, final(self).nodes@),
            r matches Err(e) ==> propagation_refused(old(self).nodes@, old(self).links@, c, value, e@, final(self).nodes@),
    {
        let ghost nodes = self.nodes@;
        let ghost links = self.links@;
        let rel = self.closure(c, false);
        let asg = self.assign_variables(&rel, c);
        let ghost ch = Change {
            nodes,
            links,
            c,
            value,
            vars: asg.vars@,
            fixed: asg.fixed@,
            nv: asg.num_vars as nat,
        };
        proof {
            assert forall|p: u64| #![trigger rel@.contains(p)] #![trigger reached(ch, p)] rel@.contains(p) == reached(ch, p) by {
                lemma_closure_exact(nodes, links, false, c, rel@, p);
            }
            assert((|pid: u64| rel@.contains(pid)) =~= (|pid: u64| reached(ch, pid)));
            assert(assigned(ch));
            assert(change_for(nodes, links, c, value, ch));
            lemma_assign_facts(nodes, links, c, |pid: u64| reached(ch, pid), ch.vars, ch.fixed, ch.nv);
        }
        let n = asg.num_vars;
        let mut eqs: Vec<Vec<FractionalNumber>> = Vec::new();
        let mut consts: Vec<FractionalNumber> = Vec::new();
        let ghost mut tags: Seq<RowTag> = Seq::empty();
        let mut k: usize = 0;
        while k < self.links.len()
            invariant
                self.nodes@ == nodes,
                self.links@ == links,
                self.next_id == old(self).next_id,
                nodes == old(self).nodes@,
                links == old(self).links@,
                ch.nodes == nodes && ch.links == links && ch.c == c && ch.value == value,
                ch.vars == asg.vars@ && ch.fixed == asg.fixed@ && ch.nv == n as nat,
                change_for(nodes, links, c, value, ch),
                n <= asg.vars@.len(),
                crate::equations::entries_ok(asg.vars@, asg.fixed@, n as nat),
                forall|p: u64| #![trigger rel@.contains(p)] #![trigger reached(ch, p)] rel@.contains(p) == reached(ch, p),
                0 <= k <= links.len(),
                rows_ok(ch, eqs@, consts@, tags),
                n == 0 ==> forall|i: int| 0 <= i < consts@.len() ==> (#[trigger] consts@[i])@.0 == 0,
                forall|kk: int| 0 <= kk < k && #[trigger] link_in(ch, links[kk]) ==> tags.contains(RowTag::Link(kk)),
            decreases links.len() - k,
        {
            let s = self.links[k].start_pin_id;
            let e = self.links[k].end_pin_id;
            if vec_contains(&rel, s) && vec_contains(&rel, e) {
                match link_row(&asg.vars, &asg.fixed, n, s, e) {
                    None => {
                        proof {
                            assert(link_in(ch, ch.links[k as int]) && link_eq(ch, ch.links[k as int]) is None);
                            assert(overflows(ch));
                        }
                        return Err(overflow_message());
                    },
                    Some((row, kc)) => {
                        proof {
                            assert(tag_meaning(ch, RowTag::Link(k as int)) =~= (|x: Seq<(int, int)>| qsub(pin_value(asg.vars@, asg.fixed@, s, x), pin_value(asg.vars@, asg.fixed@, e, x))));
                            assert(link_in(ch, links[k as int]));
                        }
                        if all_zero(&row) && !kc.is_zero() {
                            proof {
                                assert forall|x: Seq<(int, int)>| candidate(x, ch.nv as int) implies !link_holds(ch, ch.links[k as int], x) by {
                                    lemma_zero_row_refused(ch, row@, kc, RowTag::Link(k as int), x);
                                }
                            }
                            self.clear_pin_errors();
                            proof {
                                lemma_cleared_ids(nodes, self.nodes@);
                            }
                            let msg = "Contradictory locked rates".to_owned();
                            proof {
                                assert(refused(ch, msg@));
                            }
                            return Err(msg);
                        }
                        let ghost old_tags = tags;
                        proof {
                            tags = tags.push(RowTag::Link(k as int));
                        }
                        let ghost e0 = eqs@;
                        let ghost c0 = consts@;
                        proof {
                            assert(row_means(row@, kc, ch.nv, tag_meaning(ch, RowTag::Link(k as int))));
                        }
                        eqs.push(row);
                        consts.push(kc);
                        proof {
                            assert(rows_ok(ch, eqs@, consts@, tags)) by {
                                assert forall|t: int| 0 <= t < eqs@.len() implies row_means((#[trigger] eqs@[t])@, consts@[t], ch.nv, tag_meaning(ch, tags[t])) && tag_valid(ch, tags[t]) by {
                                    if t < e0.len() {
                                        assert(eqs@[t] == e0[t] && consts@[t] == c0[t] && tags[t] == old_tags[t]);
                                    }
                                }
                            }
                            assert(tags[tags.len() - 1] == RowTag::Link(k as int));
                            assert forall|kk: int| 0 <= kk <= k && #[trigger] link_in(ch, links[kk]) implies tags.contains(RowTag::Link(kk)) by {
                                if kk < k {
                                    let i = choose|i: int| 0 <= i < old_tags.len() && old_tags[i] == RowTag::Link(kk);
                                    assert(tags[i] == RowTag::Link(kk));
                                }
                            }
                        }
                    },
                }
            }
            k += 1;
        }
        if asg.vars.len() == 0 {
            match lookup_fixed(&asg.fixed, c) {
                Some(fv) => {
                    if !fv.value_eq(&value) {
                        proof {
                            assert(var_entry(asg.vars@, c) is None);
                        }
                        self.clear_pin_errors();
                        proof {
                            lemma_cleared_ids(nodes, self.nodes@);
                        }
                        let msg = "Contradiction with locked constraint value".to_owned();
                        proof {
                            assert(refused(ch, msg@));
                        }
                        return Err(msg);
                    }
                },
                None => {},
            }
            let ghost x = Seq::<(int, int)>::empty();
            proof {
                assert forall|i: int| 0 <= i < tags.len() implies #[trigger] tag_holds(ch, tags[i], x) by {
                    assert(row_means(eqs@[i]@, consts@[i], ch.nv, tag_meaning(ch, tags[i])));
                    lemma_empty_row_holds(ch, eqs@[i]@, consts@[i], tags[i]);
                }
                lemma_links_from_tags(ch, tags, x);
            }
            self.clear_pin_errors();
            let ghost cleared = self.nodes@;
            proof {
                lemma_cleared_ids(nodes, cleared);
            }
            let ok = self.refresh_node_rates(&rel);
            proof {
                lemma_refreshed_ids(cleared, self.nodes@);
                lemma_ids_trans(nodes, cleared, self.nodes@);
            }
            if !ok {
                proof {
                    let nn = choose|nn: int| 0 <= nn < cleared.len() && !#[trigger] refresh_ok(cleared[nn], rel@);
                    assert(reach_set(ch, rel@));
                    assert(refresh_overflows(ch, cleared));
                    assert(errors_cleared(ch.nodes, cleared));
                    assert(overflows(ch));
                }
                return Err(overflow_message());
            }
            proof {
                let w = Propagation { vars: ch.vars, fixed: ch.fixed, nv: ch.nv, x, cleared, applied: cleared };
                assert(change_of(nodes, links, c, value, w) == ch);
                assert(propagated(nodes, links, c, value, w, self.nodes@));
            }
            return Ok(());
        }
        let ghost tags_links = tags;
        let mut i: usize = 0;
        while i < self.nodes.len()
            invariant
                self.nodes@ == nodes,
                self.links@ == links,
                self.next_id == old(self).next_id,
                nodes == old(self).nodes@,
                links == old(self).links@,
                ch.nodes == nodes && ch.links == links && ch.c == c && ch.value == value,
                ch.vars == asg.vars@ && ch.fixed == asg.fixed@ && ch.nv == n as nat,
                change_for(nodes, links, c, value, ch),
                asg.vars@.len() > 0,
                crate::equations::entries_ok(asg.vars@, asg.fixed@, n as nat),
                forall|p: u64| #![trigger rel@.contains(p)] #![trigger reached(ch, p)] rel@.contains(p) == reached(ch, p),
                0 <= i <= nodes.len(),
                rows_ok(ch, eqs@, consts@, tags),
                links_covered(ch, tags),
                forall|nn: int| 0 <= nn < i && #[trigger] org_in(ch, nodes[nn]) ==> tags.contains(RowTag::Org(nn)),
            decreases nodes.len() - i,
        {

            let found: Option<Option<(Vec<FractionalNumber>, FractionalNumber)>> = match &self.nodes[i] {
                AppNode::Organizer(o) => {
                    let hit_in = any_in(&o.base.ins, &rel);
                    let hit_out = any_in(&o.base.outs, &rel);
                    proof {
                        assert(nodes[i as int].ins() == o.base.ins@);
                        assert(nodes[i as int].outs() == o.base.outs@);
                        if hit_in {
                            let j = choose|j: int| 0 <= j < o.base.ins@.len() && rel@.contains((#[trigger] o.base.ins@[j]).id);
                            assert(reached(ch, nodes[i as int].ins()[j].id));
                        }
                        if hit_out {
                            let j = choose|j: int| 0 <= j < o.base.outs@.len() && rel@.contains((#[trigger] o.base.outs@[j]).id);
                            assert(reached(ch, nodes[i as int].outs()[j].id));
                        }
                        if some_reached(ch, nodes[i as int].ins()) {
                            let j = choose|j: int| 0 <= j < nodes[i as int].ins().len() && #[trigger] reached(ch, nodes[i as int].ins()[j].id);
                            assert(rel@.contains(o.base.ins@[j].id));
                        }
                        if some_reached(ch, nodes[i as int].outs()) {
                            let j = choose|j: int| 0 <= j < nodes[i as int].outs().len() && #[trigger] reached(ch, nodes[i as int].outs()[j].id);
                            assert(rel@.contains(o.base.outs@[j].id));
                        }
                        assert(org_in(ch, nodes[i as int]) == (hit_in || hit_out));
                    }
                    if hit_in || hit_out {
                        let rr = organizer_row(&asg.vars, &asg.fixed, n, &o.base.ins, &o.base.outs);
                        proof {
                            assert(rr is None ==> org_eq(ch, nodes[i as int]) is None);

                            assert(tag_meaning(ch, RowTag::Org(i as int)) =~= (|x: Seq<(int, int)>| qsub(org_sum(asg.vars@, o.base.ins@, x), org_sum(asg.vars@, o.base.outs@, x))));
                        }
                        Some(rr)
                    } else {
                        None
                    }
                },
                _ => None,
            };
            proof {
                assert(found is None ==> !org_in(ch, nodes[i as int]));
                assert(found is Some ==> org_in(ch, nodes[i as int]));
                assert(found matches Some(Some((row, kc))) ==> row_means(row@, kc, ch.nv, tag_meaning(ch, RowTag::Org(i as int))));
                assert(found matches Some(None) ==> org_eq(ch, nodes[i as int]) is None);
            }
            match found {
                None => {},
                Some(None) => {
                    proof {
                        assert(org_in(ch, ch.nodes[i as int]) && org_eq(ch, ch.nodes[i as int]) is None);
                        assert(overflows(ch));
                    }
                    return Err(overflow_message());
                },
                Some(Some((row, kc))) => {
                    if all_zero(&row) && !kc.is_zero() {
                        proof {
                            assert forall|x: Seq<(int, int)>| candidate(x, ch.nv as int) implies !org_holds(ch, ch.nodes[i as int], x) by {
                                lemma_zero_row_refused(ch, row@, kc, RowTag::Org(i as int), x);
                            }
                        }
                        self.clear_pin_errors();
                        proof {
                            lemma_cleared_ids(nodes, self.nodes@);
                        }
                        let msg = "Contradictory locked rates on organizer".to_owned();
                        proof {
                            assert(refused(ch, msg@));
                        }
                        return Err(msg);
                    }
                    let ghost old_tags = tags;
                    proof {
                        tags = tags.push(RowTag::Org(i as int));
                    }
                    eqs.push(row);
                    consts.push(kc);
                    proof {
                        assert(tags[tags.len() - 1] == RowTag::Org(i as int));
                        assert forall|kk: int| 0 <= kk < links.len() && #[trigger] link_in(ch, links[kk]) implies tags.contains(RowTag::Link(kk)) by {
                            let t = choose|t: int| 0 <= t < old_tags.len() && old_tags[t] == RowTag::Link(kk);
                            assert(tags[t] == RowTag::Link(kk));
                        }
                        assert forall|nn: int| 0 <= nn <= i && #[trigger] org_in(ch, nodes[nn]) implies tags.contains(RowTag::Org(nn)) by {
                            if nn < i {
                                let t = choose|t: int| 0 <= t < old_tags.len() && old_tags[t] == RowTag::Org(nn);
                                assert(tags[t] == RowTag::Org(nn));
                            }
                        }
                    }
                },
            }
            i += 1;
        }
        match lookup_var(&asg.vars, c) {
            Some((v, ratio)) => {
                let (row, kc) = constraint_row(n, v, ratio, value);
                proof {
                    assert(tag_meaning(ch, RowTag::Target) =~= (|x: Seq<(int, int)>| qsub(crate::rational::qmul(ratio@, x[v as int]), value@)));
                }
                let ghost old_tags = tags;
                proof {
                    tags = tags.push(RowTag::Target);
                }
                eqs.push(row);
                consts.push(kc);
                proof {
                    assert(tags[tags.len() - 1] == RowTag::Target);
                    assert forall|kk: int| 0 <= kk < links.len() && #[trigger] link_in(ch, links[kk]) implies tags.contains(RowTag::Link(kk)) by {
                        let t = choose|t: int| 0 <= t < old_tags.len() && old_tags[t] == RowTag::Link(kk);
                        assert(tags[t] == RowTag::Link(kk));
                    }
                    assert forall|nn: int| 0 <= nn < nodes.len() && #[trigger] org_in(ch, nodes[nn]) implies tags.contains(RowTag::Org(nn)) by {
                        let t = choose|t: int| 0 <= t < old_tags.len() && old_tags[t] == RowTag::Org(nn);
                        assert(tags[t] == RowTag::Org(nn));
                    }
                }
            },
            None => match lookup_fixed(&asg.fixed, c) {
                Some(fv) => {
                    if !fv.value_eq(&value) {
                        self.clear_pin_errors();
                        proof {
                            lemma_cleared_ids(nodes, self.nodes@);
                        }
                        let msg = "Contradiction with locked constraint value".to_owned();
                        proof {
                            assert(refused(ch, msg@));
                        }
                        return Err(msg);
                    }
                },
                None => {
                    self.clear_pin_errors();
                    proof {
                        lemma_cleared_ids(nodes, self.nodes@);
                    }
                    let msg = "Constraint pin not part of propagation set".to_owned();
                    proof {
                        assert(refused(ch, msg@));
                    }
                    return Err(msg);
                },
            },
        }
        proof {
            assert(rest_covered(ch, tags));
        }
        if eqs.len() == 0 {
            proof {
                assert forall|kk: int| 0 <= kk < ch.links.len() implies !(#[trigger] link_in(ch, ch.links[kk])) by {
                    if link_in(ch, ch.links[kk]) {
                        assert(tags.contains(RowTag::Link(kk)));
                    }
                }
                assert forall|nn: int| 0 <= nn < ch.nodes.len() implies !(#[trigger] org_in(ch, ch.nodes[nn])) by {
                    if org_in(ch, ch.nodes[nn]) {
                        assert(tags.contains(RowTag::Org(nn)));
                    }
                }
                if var_entry(ch.vars, c) is Some {
                    assert(tags.contains(RowTag::Target));
                }
            }
            self.clear_pin_errors();
            proof {
                lemma_cleared_ids(nodes, self.nodes@);
            }
            let msg = "No equations to solve".to_owned();
            proof {
                assert(refused(ch, msg@));
            }
            return Err(msg);
        }
        let ghost eqv = eqs@;
        let ghost csv = consts@;
        proof {
            assert(row_means(eqv[0]@, csv[0], ch.nv, tag_meaning(ch, tags[0])));
            assert forall|t: int| 0 <= t < eqv.len() implies #[trigger] eqv[t].len() == eqv[0].len() by {
                assert(row_means(eqv[t]@, csv[t], ch.nv, tag_meaning(ch, tags[t])));
            }
        }
        let solver = match LinearSolver::new(eqs, consts) {
            Ok(s) => s,
            Err(e) => {
                proof {
                    assert(false);
                }
                return Err(overflow_message());
            },
        };
        proof {
            assert(solver.system() == augmented(eqv, csv));
            assert(solver.num_vars() == ch.nv);
            assert(links_covered(ch, tags));
            assert(rows_ok(ch, eqv, csv, tags));
        }
        let ghost outcome = solve_outcome(augmented(eqv, csv), ch.nv as int);
        match solver.solve() {
            Ok(sol) => {
                let ghost x = fview(sol@);
                proof {
                    assert(outcome == Ok::<Seq<(int, int)>, RateError>(x));
                    lemma_rows_sat(ch, eqv, csv, tags, x);
                    lemma_balanced_from_tags(ch, tags, x);
                }
                self.clear_pin_errors();
                let ghost cleared = self.nodes@;
                proof {
                    lemma_cleared_ids(nodes, cleared);
                }
                let snap = self.pin_snapshot();
                if !self.apply_solution(&asg.vars, &sol) {
                    proof {
                        let i = choose|i: int| 0 <= i < asg.vars@.len() && !mul_fits(sol@[(#[trigger] asg.vars@[i]).1 as int]@, asg.vars@[i].2@);
                        assert(x[ch.vars[i].1 as int] == sol@[ch.vars[i].1 as int]@);
                        assert(applying_overflows(ch, x));
                        assert(solver_overflows(ch, outcome));
                        assert(overflows(ch));
                    }
                    return Err(overflow_message());
                }
                let ghost applied = self.nodes@;
                let ok = self.refresh_node_rates(&rel);
                proof {
                    lemma_ids_trans(nodes, cleared, applied);
                    lemma_refreshed_ids(applied, self.nodes@);
                    lemma_ids_trans(nodes, applied, self.nodes@);
                }
                if !ok {
                    proof {
                        assert forall|m: int| 0 <= m < snap@.len() implies (#[trigger] snap@[m]).0@.len() == applied[m].ins().len()
                            && snap@[m].1@.len() == applied[m].outs().len() by {
                            assert(cleared[m].side(true).len() == applied[m].side(true).len());
                            assert(cleared[m].side(false).len() == applied[m].side(false).len());
                        }
                    }
                    self.restore_pins(&snap);
                    proof {
                        lemma_restored_cleared(nodes, cleared, applied, self.nodes@, asg.vars@, x);
                        lemma_ids_trans(nodes, cleared, self.nodes@);
                        let nn = choose|nn: int| 0 <= nn < applied.len() && !#[trigger] refresh_ok(applied[nn], rel@);
                        assert(reach_set(ch, rel@));
                        assert(refresh_overflows(ch, applied));
                        assert(rates_applied(cleared, applied, ch.vars, x));
                        assert(applying_overflows(ch, x));
                        assert(solver_overflows(ch, outcome));
                        assert(overflows(ch));
                    }
                    return Err(overflow_message());
                }
                proof {
                    let w = Propagation { vars: ch.vars, fixed: ch.fixed, nv: ch.nv, x, cleared, applied };
                    assert(change_of(nodes, links, c, value, w) == ch);
                    assert(propagated(nodes, links, c, value, w, self.nodes@));
                }
                Ok(())
            },
            Err(e) => {
                if e == RateError::Overflow {
                    proof {
                        assert(solver_overflows(ch, outcome));
                        assert(overflows(ch));
                    }
                    return Err(overflow_message());
                }
                proof {
                    if e == RateError::Contradiction {
                        assert forall|x: Seq<(int, int)>| candidate(x, ch.nv as int) implies !balanced(ch, x) by {
                            if balanced(ch, x) {
                                assert forall|t: int| 0 <= t < tags.len() implies tag_valid(ch, #[trigger] tags[t]) by {
                                    assert(row_means(eqv[t]@, csv[t], ch.nv, tag_meaning(ch, tags[t])));
                                }
                                lemma_balanced_tags(ch, tags, x);
                                lemma_rows_sat(ch, eqv, csv, tags, x);
                            }
                        }
                    } else {
                        let x = choose|x: Seq<(int, int)>| candidate(x, ch.nv as int) && sys_sat(augmented(eqv, csv), x, ch.nv as int) && exists|j: int| 0 <= j < x.len() && (#[trigger] x[j]).0 < 0;
                        lemma_rows_sat(ch, eqv, csv, tags, x);
                        lemma_balanced_from_tags(ch, tags, x);
                        assert(balanced(ch, x));
                    }
                }
                self.clear_pin_errors();
                proof {
                    lemma_cleared_ids(nodes, self.nodes@);
                }
                let msg = concat("Solver error: ".to_owned(), e.message().as_str());
                proof {
                    assert(refused(ch, msg@));
                }
                Err(msg)
            },
        }
    }
}

} // verus!
