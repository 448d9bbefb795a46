//! The outside pins of a group: what its nodes consume and produce in total,
//! and one pin per item consumed, or produced, more than the other way.
use vstd::prelude::*;
use crate::assoc::{assoc_add, assoc_add_exec, assoc_eq, assoc_view, keys_unique, amounts_wf, lemma_assoc_add_cong, lemma_assoc_eq_trans, lemma_assoc_eq_keys, add_fits_at, amounts_normalized, canon_totals, lemma_canon_totals};
use crate::fractional_number::{FractionalNumber, add_fits, sub_fits, mul_fits};
use crate::node::{GroupNode, GroupedNode, GroupedNodeData, GroupedPin};
use crate::pin::{Pin, PinDirection};
use crate::rational::{qlt, qsub, qzero, qeq, qmul, qwf, lemma_qwf_ops, qone, qcanon, lemma_qcanon};
use crate::node::{GroupedLink, NodeKind};
use crate::sort::{names_view, names_sorted, sorted_names};

verus! {

/// The pins of a grouped node that count toward the group's consumption
/// (`inputs`) or production: inputs of crafting nodes, groups and sinks;
/// outputs of crafting nodes and groups.
pub open spec fn counted_side(node: GroupedNode, inputs: bool) -> Seq<GroupedPin> {
    match node.node_data {
        GroupedNodeData::Craft { ins, outs, .. } => if inputs { ins@ } else { outs@ },
        GroupedNodeData::Group { ins, outs, .. } => if inputs { ins@ } else { outs@ },
        GroupedNodeData::Sink { ins, .. } => if inputs { ins@ } else { Seq::empty() },
        GroupedNodeData::Organizer { .. } => Seq::empty(),
    }
}

/// `t` with the current rate of each pin with an item added to its item's total.
pub open spec fn add_pins(t: Seq<(Seq<char>, (int, int))>, pins: Seq<GroupedPin>) -> Seq<(Seq<char>, (int, int))>
    decreases pins.len(),
{
    if pins.len() == 0 {
        t
    } else {
        let rest = add_pins(t, pins.drop_last());
        match pins.last().item_name {
            Some(name) => assoc_add(rest, name@, pins.last().current_rate@),
            None => rest,
        }
    }
}

/// Total consumption (`inputs`) or production per item of the grouped nodes.
pub open spec fn grouped_totals(nodes: Seq<GroupedNode>, inputs: bool) -> Seq<(Seq<char>, (int, int))>
    decreases nodes.len(),
{
    if nodes.len() == 0 {
        Seq::empty()
    } else {
        add_pins(grouped_totals(nodes.drop_last(), inputs), counted_side(nodes.last(), inputs))
    }
}

/// A sink inside a group consumes: each of its input pins with an item adds
/// its rate to the group's consumption of that item, and it adds nothing to
/// the group's production. A crafting node adds its input pins to the
/// consumption and its output pins to the production.
pub proof fn law_grouped_consumption(nodes: Seq<GroupedNode>, s: GroupedNode)
    ensures
        s.node_data matches GroupedNodeData::Sink { ins, .. } ==> grouped_totals(nodes.push(s), true) == add_pins(
            grouped_totals(nodes, true),
            ins@,
        ) && grouped_totals(nodes.push(s), false) == grouped_totals(nodes, false),
        s.node_data matches GroupedNodeData::Craft { ins, outs, .. } ==> grouped_totals(nodes.push(s), true) == add_pins(
            grouped_totals(nodes, true),
            ins@,
        ) && grouped_totals(nodes.push(s), false) == add_pins(grouped_totals(nodes, false), outs@),
{
    assert(nodes.push(s).drop_last() =~= nodes);
    assert(nodes.push(s).last() == s);
    assert(add_pins(grouped_totals(nodes, false), Seq::<GroupedPin>::empty()) == grouped_totals(nodes, false));
}

/// The total of the first entry named `k`, or zero.
pub open spec fn assoc_lookup(list: Seq<(Seq<char>, (int, int))>, k: Seq<char>) -> (int, int)
    decreases list.len(),
{
    if list.len() == 0 {
        qzero()
    } else if list[0].0 == k {
        list[0].1
    } else {
        assoc_lookup(list.drop_first(), k)
    }
}

/// The names of a list of totals.
pub open spec fn keys_of(list: Seq<(Seq<char>, (int, int))>) -> Seq<Seq<char>> {
    list.map_values(|e: (Seq<char>, (int, int))| e.0)
}

/// `keys` holds the names of `list` once each, in byte order.
pub open spec fn sorted_keys(keys: Seq<Seq<char>>, list: Seq<(Seq<char>, (int, int))>) -> bool {
    &&& keys.len() == list.len()
    &&& keys.no_duplicates()
    &&& names_sorted(keys)
    &&& forall|k: Seq<char>| keys.contains(k) <==> keys_of(list).contains(k)
}

/// The pins for the names `keys`, in order: one for each name whose total in
/// `mine` exceeds its total in `other`, carrying the difference as base rate
/// and rate.
pub open spec fn net_pins(
    keys: Seq<Seq<char>>,
    mine: Seq<(Seq<char>, (int, int))>,
    other: Seq<(Seq<char>, (int, int))>,
    pins: Seq<Pin>,
    dir: PinDirection,
    node_id: u64,
) -> bool
    decreases keys.len(),
{
    if keys.len() == 0 {
        pins.len() == 0
    } else {
        let k = keys.last();
        let c = assoc_lookup(mine, k);
        let o = assoc_lookup(other, k);
        if qlt(o, c) {
            &&& pins.len() > 0
            &&& net_pins(keys.drop_last(), mine, other, pins.drop_last(), dir, node_id)
            &&& pins.last().item_name matches Some(n) && n@ == k
            &&& qeq(pins.last().base_rate@, qsub(c, o))
            &&& pins.last().current_rate == pins.last().base_rate
            &&& pins.last().direction == dir
            &&& pins.last().node_id == node_id
            &&& !pins.last().locked && !pins.last().error && pins.last().link_id is None
        } else {
            net_pins(keys.drop_last(), mine, other, pins, dir, node_id)
        }
    }
}

/// The pin carries the item named `k`.
pub open spec fn pin_named(p: Pin, k: Seq<char>) -> bool {
    p.item_name matches Some(n) && n@ == k
}

/// A group's pins on one side are its net flows: each pin carries an item
/// of which the group takes in (or gives out) more than it gives out (or
/// takes in), the difference as its rate; and every such item has a pin.
pub proof fn law_net_pins(
    keys: Seq<Seq<char>>,
    mine: Seq<(Seq<char>, (int, int))>,
    other: Seq<(Seq<char>, (int, int))>,
    pins: Seq<Pin>,
    dir: PinDirection,
    node_id: u64,
)
    requires
        net_pins(keys, mine, other, pins, dir, node_id),
    ensures
        forall|j: int| 0 <= j < pins.len() ==> exists|k: Seq<char>| #![trigger keys.contains(k)]
            keys.contains(k) && pin_named(#[trigger] pins[j], k) && qlt(assoc_lookup(other, k), assoc_lookup(mine, k))
                && qeq(pins[j].base_rate@, qsub(assoc_lookup(mine, k), assoc_lookup(other, k))) && pins[j].current_rate == pins[j].base_rate
                && pins[j].direction == dir,
        forall|k: Seq<char>| #[trigger] keys.contains(k) && qlt(assoc_lookup(other, k), assoc_lookup(mine, k)) ==> exists|j: int|
            0 <= j < pins.len() && pin_named(#[trigger] pins[j], k),
    decreases keys.len(),
{
    if keys.len() > 0 {
        let kd = keys.drop_last();
        let k = keys.last();
        let c = assoc_lookup(mine, k);
        let o = assoc_lookup(other, k);
        assert(keys == kd.push(k));
        if qlt(o, c) {
            let pd = pins.drop_last();
            law_net_pins(kd, mine, other, pd, dir, node_id);
            assert forall|j: int| 0 <= j < pins.len() implies exists|k2: Seq<char>| #![trigger keys.contains(k2)]
                keys.contains(k2) && pin_named(#[trigger] pins[j], k2) && qlt(assoc_lookup(other, k2), assoc_lookup(mine, k2))
                    && qeq(pins[j].base_rate@, qsub(assoc_lookup(mine, k2), assoc_lookup(other, k2))) && pins[j].current_rate == pins[j].base_rate
                    && pins[j].direction == dir by {
                if j < pd.len() {
                    assert(pins[j] == pd[j]);
                    let k2 = choose|k2: Seq<char>| #![trigger kd.contains(k2)]
                        kd.contains(k2) && pin_named(#[trigger] pd[j], k2) && qlt(assoc_lookup(other, k2), assoc_lookup(mine, k2))
                            && qeq(pd[j].base_rate@, qsub(assoc_lookup(mine, k2), assoc_lookup(other, k2))) && pd[j].current_rate == pd[j].base_rate
                            && pd[j].direction == dir;
                    assert(keys.contains(k2));
                } else {
                    assert(pins[j] == pins.last());
                    assert(keys.contains(k)) by {
                        assert(keys[keys.len() - 1] == k);
                    }
                }
            }
            assert forall|k2: Seq<char>| #[trigger] keys.contains(k2) && qlt(assoc_lookup(other, k2), assoc_lookup(mine, k2)) implies exists|j: int|
                0 <= j < pins.len() && pin_named(#[trigger] pins[j], k2) by {
                if k2 == k {
                    assert(pins[pins.len() - 1] == pins.last());
                } else {
                    let i = choose|i: int| 0 <= i < keys.len() && keys[i] == k2;
                    assert(i < kd.len());
                    assert(kd[i] == k2);
                    assert(kd.contains(k2));
                    let j = choose|j: int| 0 <= j < pd.len() && pin_named(#[trigger] pd[j], k2);
                    assert(pins[j] == pd[j]);
                }
            }
        } else {
            law_net_pins(kd, mine, other, pins, dir, node_id);
            assert forall|j: int| 0 <= j < pins.len() implies exists|k2: Seq<char>| #![trigger keys.contains(k2)]
                keys.contains(k2) && pin_named(#[trigger] pins[j], k2) && qlt(assoc_lookup(other, k2), assoc_lookup(mine, k2))
                    && qeq(pins[j].base_rate@, qsub(assoc_lookup(mine, k2), assoc_lookup(other, k2))) && pins[j].current_rate == pins[j].base_rate
                    && pins[j].direction == dir by {
                let k2 = choose|k2: Seq<char>| #![trigger kd.contains(k2)]
                    kd.contains(k2) && pin_named(#[trigger] pins[j], k2) && qlt(assoc_lookup(other, k2), assoc_lookup(mine, k2))
                        && qeq(pins[j].base_rate@, qsub(assoc_lookup(mine, k2), assoc_lookup(other, k2))) && pins[j].current_rate == pins[j].base_rate
                        && pins[j].direction == dir;
                assert(keys.contains(k2));
            }
            assert forall|k2: Seq<char>| #[trigger] keys.contains(k2) && qlt(assoc_lookup(other, k2), assoc_lookup(mine, k2)) implies exists|j: int|
                0 <= j < pins.len() && pin_named(#[trigger] pins[j], k2) by {
                let i = choose|i: int| 0 <= i < keys.len() && keys[i] == k2;
                assert(i != keys.len() - 1);
                assert(kd[i] == k2);
                assert(kd.contains(k2));
            }
        }
    }
}

/// The pins have the ids `first, first + 1, ...`.
pub open spec fn ids_from(pins: Seq<Pin>, first: int) -> bool {
    forall|j: int| 0 <= j < pins.len() ==> (#[trigger] pins[j]).id == first + j
}

/// Each addition of `add_pins` fits in 64-bit integers, the totals kept in
/// lowest terms.
pub open spec fn add_pins_fit(t: Seq<(Seq<char>, (int, int))>, pins: Seq<GroupedPin>) -> bool
    decreases pins.len(),
{
    pins.len() == 0 || (add_pins_fit(t, pins.drop_last()) && match pins.last().item_name {
        Some(name) => add_fits_at(add_pins(t, pins.drop_last()), name@, pins.last().current_rate@),
        None => true,
    })
}

/// Add the rates of the pins with an item to their totals.
fn accumulate(list: &mut Vec<(String, FractionalNumber)>, pins: &Vec<GroupedPin>, Ghost(s): Ghost<Seq<(Seq<char>, (int, int))>>) -> (ok: bool)
    requires
        assoc_eq(assoc_view(old(list)@), s),
        keys_unique(s),
        amounts_wf(s),
    ensures
        ok ==> assoc_eq(assoc_view(final(list)@), add_pins(s, pins@)) && keys_unique(add_pins(s, pins@)) && amounts_wf(
            add_pins(s, pins@),
        ),
        ok <==> add_pins_fit(s, pins@),
        amounts_normalized(old(list)@) ==> amounts_normalized(final(list)@),
{
    let mut j: usize = 0;
    while j < pins.len()
        invariant
            0 <= j <= pins@.len(),
            amounts_normalized(old(list)@) ==> amounts_normalized(list@),
            add_pins_fit(s, pins@.subrange(0, j as int)),
            assoc_eq(assoc_view(list@), add_pins(s, pins@.subrange(0, j as int))),
            keys_unique(add_pins(s, pins@.subrange(0, j as int))),
            amounts_wf(add_pins(s, pins@.subrange(0, j as int))),
        decreases pins.len() - j,
    {
        proof {
            assert(pins@.subrange(0, j + 1).drop_last() =~= pins@.subrange(0, j as int));
        }
        let ghost t = add_pins(s, pins@.subrange(0, j as int));
        match &pins[j].item_name {
            Some(name) => {
                if !assoc_add_exec(list, name, pins[j].current_rate, Ghost(t)) {
                    proof {
                        if add_pins_fit(s, pins@) {
                            lemma_fit_prefix(s, pins@, j + 1);
                            assert(pins@.subrange(0, j + 1).last() == pins@[j as int]);
                        }
                    }
                    return false;
                }
            },
            None => {},
        }
        j += 1;
    }
    proof {
        assert(pins@.subrange(0, pins@.len() as int) =~= pins@);
    }
    true
}

/// The additions of a prefix fit where those of all the pins do.
proof fn lemma_fit_prefix(t: Seq<(Seq<char>, (int, int))>, pins: Seq<GroupedPin>, n: int)
    requires
        0 <= n <= pins.len(),
        add_pins_fit(t, pins),
    ensures
        add_pins_fit(t, pins.subrange(0, n)),
    decreases pins.len() - n,
{
    if n < pins.len() {
        lemma_fit_prefix(t, pins, n + 1);
        assert(pins.subrange(0, n + 1).drop_last() =~= pins.subrange(0, n));
    } else {
        assert(pins.subrange(0, n) =~= pins);
    }
}

/// The total named `k`, or zero.
fn lookup(list: &Vec<(String, FractionalNumber)>, k: &String) -> (r: FractionalNumber)
    ensures
        r@ == assoc_lookup(assoc_view(list@), k@),
{
    let mut i: usize = 0;
    proof {
        assert(assoc_view(list@).subrange(0, list@.len() as int) =~= assoc_view(list@));
    }
    while i < list.len()
        invariant
            0 <= i <= list@.len(),
            forall|j: int| 0 <= j < i ==> (#[trigger] list@[j]).0@ != k@,
            assoc_lookup(assoc_view(list@), k@) == assoc_lookup(assoc_view(list@).subrange(i as int, list@.len() as int), k@),
        decreases list.len() - i,
    {
        let ghost rest = assoc_view(list@).subrange(i as int, list@.len() as int);
        proof {
            assert(rest[0] == (list@[i as int].0@, list@[i as int].1@));
            assert(rest.drop_first() =~= assoc_view(list@).subrange(i + 1, list@.len() as int));
        }
        if list[i].0 == *k {
            return list[i].1;
        }
        i += 1;
    }
    FractionalNumber::zero()
}

/// The names of some totals.
fn names_of(list: &Vec<(String, FractionalNumber)>) -> (r: Vec<String>)
    ensures
        names_view(r@) == keys_of(assoc_view(list@)),
{
    let mut r: Vec<String> = Vec::new();
    let mut i: usize = 0;
    while i < list.len()
        invariant
            0 <= i <= list@.len(),
            names_view(r@) == keys_of(assoc_view(list@)).subrange(0, i as int),
        decreases list.len() - i,
    {
        let ghost before = r@;
        let name = list[i].0.clone();
        r.push(name);
        proof {
            assert(r@ =~= before.push(name));
            assert(names_view(r@) =~= names_view(before).push(name@));
            assert(keys_of(assoc_view(list@))[i as int] == list@[i as int].0@);
            assert(names_view(r@) =~= keys_of(assoc_view(list@)).subrange(0, i + 1));
        }
        i += 1;
    }
    proof {
        assert(keys_of(assoc_view(list@)).subrange(0, list@.len() as int) =~= keys_of(assoc_view(list@)));
    }
    r
}

/// How many of the names get a pin: those whose total in `mine` exceeds the
/// one in `other`.
pub open spec fn net_count(keys: Seq<Seq<char>>, mine: Seq<(Seq<char>, (int, int))>, other: Seq<(Seq<char>, (int, int))>) -> nat
    decreases keys.len(),
{
    if keys.len() == 0 {
        0
    } else {
        net_count(keys.drop_last(), mine, other) + if qlt(assoc_lookup(other, keys.last()), assoc_lookup(mine, keys.last())) {
            1nat
        } else {
            0nat
        }
    }
}

/// Each difference that gets a pin fits in 64-bit integers.
pub open spec fn net_fits(keys: Seq<Seq<char>>, mine: Seq<(Seq<char>, (int, int))>, other: Seq<(Seq<char>, (int, int))>) -> bool {
    forall|i: int|
        0 <= i < keys.len() && qlt(assoc_lookup(other, #[trigger] keys[i]), assoc_lookup(mine, keys[i])) ==> sub_fits(
            assoc_lookup(mine, keys[i]),
            assoc_lookup(other, keys[i]),
        )
}

proof fn lemma_net_count_prefix(keys: Seq<Seq<char>>, mine: Seq<(Seq<char>, (int, int))>, other: Seq<(Seq<char>, (int, int))>, n: int)
    requires
        0 <= n <= keys.len(),
    ensures
        net_count(keys.subrange(0, n), mine, other) <= net_count(keys, mine, other),
    decreases keys.len() - n,
{
    if n < keys.len() {
        lemma_net_count_prefix(keys, mine, other, n + 1);
        assert(keys.subrange(0, n + 1).drop_last() =~= keys.subrange(0, n));
    } else {
        assert(keys.subrange(0, n) =~= keys);
    }
}

/// Removing a name from the list removes its pin from the count.
proof fn lemma_net_count_remove(b: Seq<Seq<char>>, j: int, mine: Seq<(Seq<char>, (int, int))>, other: Seq<(Seq<char>, (int, int))>)
    requires
        0 <= j < b.len(),
    ensures
        net_count(b, mine, other) == net_count(b.remove(j), mine, other) + if qlt(assoc_lookup(other, b[j]), assoc_lookup(mine, b[j])) {
            1nat
        } else {
            0nat
        },
    decreases b.len(),
{
    if j == b.len() - 1 {
        assert(b.remove(j) =~= b.drop_last());
    } else {
        lemma_net_count_remove(b.drop_last(), j, mine, other);
        assert(b.remove(j).drop_last() =~= b.drop_last().remove(j));
        assert(b.remove(j).last() == b.last());
        assert(b.drop_last()[j] == b[j]);
    }
}

/// The count does not depend on the order of the names.
proof fn lemma_net_count_same(a: Seq<Seq<char>>, b: Seq<Seq<char>>, mine: Seq<(Seq<char>, (int, int))>, other: Seq<(Seq<char>, (int, int))>)
    requires
        a.no_duplicates(),
        b.no_duplicates(),
        a.len() == b.len(),
        forall|k: Seq<char>| a.contains(k) <==> b.contains(k),
    ensures
        net_count(a, mine, other) == net_count(b, mine, other),
    decreases a.len(),
{
    if a.len() > 0 {
        let x = a.last();
        assert(a.contains(x)) by {
            assert(a[a.len() - 1] == x);
        }
        let j = b.index_of(x);
        let a2 = a.drop_last();
        let b2 = b.remove(j);
        lemma_net_count_remove(b, j, mine, other);
        assert forall|k: Seq<char>| a2.contains(k) <==> b2.contains(k) by {
            if a2.contains(k) {
                let p = a2.index_of(k);
                assert(a[p] == k);
                assert(k != x) by {
                    assert(a[a.len() - 1] == x);
                }
                assert(b.contains(k));
                let q = b.index_of(k);
                assert(q != j);
                if q < j {
                    assert(b2[q] == k);
                } else {
                    assert(b2[q - 1] == k);
                }
            }
            if b2.contains(k) {
                let q = b2.index_of(k);
                let q0 = if q < j { q } else { q + 1 };
                assert(b[q0] == k);
                assert(k != x);
                assert(a.contains(k));
                let p = a.index_of(k);
                assert(p != a.len() - 1);
                assert(a2[p] == k);
            }
        }
        assert(a2.no_duplicates()) by {
            assert forall|p: int, q: int| 0 <= p < a2.len() && 0 <= q < a2.len() && p != q implies a2[p] != a2[q] by {
                assert(a[p] == a2[p] && a[q] == a2[q]);
            }
        }
        assert(b2.no_duplicates()) by {
            assert forall|p: int, q: int| 0 <= p < b2.len() && 0 <= q < b2.len() && p != q implies b2[p] != b2[q] by {
                let p0 = if p < j { p } else { p + 1 };
                let q0 = if q < j { q } else { q + 1 };
                assert(b2[p] == b[p0] && b2[q] == b[q0]);
            }
        }
        lemma_net_count_same(a2, b2, mine, other);
    }
}

/// The differences that fit do not depend on the order of the names.
proof fn lemma_net_fits_same(a: Seq<Seq<char>>, b: Seq<Seq<char>>, mine: Seq<(Seq<char>, (int, int))>, other: Seq<(Seq<char>, (int, int))>)
    requires
        forall|k: Seq<char>| a.contains(k) <==> b.contains(k),
        net_fits(b, mine, other),
    ensures
        net_fits(a, mine, other),
{
    assert forall|i: int| 0 <= i < a.len() && qlt(assoc_lookup(other, #[trigger] a[i]), assoc_lookup(mine, a[i])) implies sub_fits(
        assoc_lookup(mine, a[i]),
        assoc_lookup(other, a[i]),
    ) by {
        assert(a.contains(a[i]));
        let q = b.index_of(a[i]);
        assert(b[q] == a[i]);
    }
}

/// Each addition of `grouped_totals` fits in 64-bit integers.
pub open spec fn grouped_totals_fit(nodes: Seq<GroupedNode>) -> bool
    decreases nodes.len(),
{
    nodes.len() == 0 || (grouped_totals_fit(nodes.drop_last()) && add_pins_fit(
        grouped_totals(nodes.drop_last(), true),
        counted_side(nodes.last(), true),
    ) && add_pins_fit(grouped_totals(nodes.drop_last(), false), counted_side(nodes.last(), false)))
}

/// The group's pins can be made from totals `ti` (consumed) and `to`
/// (produced), ids from `first`: each difference that gets a pin, and each
/// id, fits in 64-bit integers.
pub open spec fn net_pins_fit(ti: Seq<(Seq<char>, (int, int))>, to: Seq<(Seq<char>, (int, int))>, first: int) -> bool {
    &&& net_fits(keys_of(ti), ti, to)
    &&& net_fits(keys_of(to), to, ti)
    &&& first + net_count(keys_of(ti), ti, to) + net_count(keys_of(to), to, ti) <= u64::MAX
}

/// The pins for the sorted names, ids from `first`; `None` where a value
/// or an id does not fit in 64-bit integers.
fn net_pins_exec(
    keys: &Vec<String>,
    mine: &Vec<(String, FractionalNumber)>,
    other: &Vec<(String, FractionalNumber)>,
    dir: PinDirection,
    node_id: u64,
    first: u64,
) -> (r: Option<(Vec<Pin>, u64)>)
    ensures
        r matches Some((pins, next)) ==> net_pins(names_view(keys@), assoc_view(mine@), assoc_view(other@), pins@, dir, node_id)
            && ids_from(pins@, first as int) && next == first + pins@.len(),
        r is Some <==> net_fits(names_view(keys@), assoc_view(mine@), assoc_view(other@)) && first + net_count(
            names_view(keys@),
            assoc_view(mine@),
            assoc_view(other@),
        ) <= u64::MAX,
        r matches Some((pins, _)) ==> pins@.len() == net_count(names_view(keys@), assoc_view(mine@), assoc_view(other@)),
{
    let ghost kv = names_view(keys@);
    let ghost mv = assoc_view(mine@);
    let ghost ov = assoc_view(other@);
    let mut pins: Vec<Pin> = Vec::new();
    let mut id = first;
    let mut i: usize = 0;
    while i < keys.len()
        invariant
            0 <= i <= keys@.len(),
            kv == names_view(keys@),
            mv == assoc_view(mine@),
            ov == assoc_view(other@),
            net_fits(kv.subrange(0, i as int), mv, ov),
            pins@.len() == net_count(kv.subrange(0, i as int), mv, ov),
            net_pins(names_view(keys@).subrange(0, i as int), assoc_view(mine@), assoc_view(other@), pins@, dir, node_id),
            ids_from(pins@, first as int),
            id == first + pins@.len(),
        decreases keys.len() - i,
    {
        let k = &keys[i];
        let ghost ks = names_view(keys@).subrange(0, i + 1);
        proof {
            assert(ks.drop_last() =~= names_view(keys@).subrange(0, i as int));
            assert(ks.last() == k@);
        }
        let c = lookup(mine, k);
        let o = lookup(other, k);
        if o.lt(&c) {
            let net = match c.checked_sub(o) {
                Some(v) => v,
                None => {
                    proof {
                        assert(kv[i as int] == k@);
                    }
                    return None;
                },
            };
            let mut p = Pin::new(id, dir, node_id, Some(k.clone()), false, net);
            p.current_rate = net;
            let ghost before = pins@;
            pins.push(p);
            proof {
                assert(pins@.drop_last() =~= before);
            }
            if id == u64::MAX {
                proof {
                    lemma_net_count_prefix(kv, mv, ov, i + 1);
                }
                return None;
            }
            id = id + 1;
        }
        proof {
            assert forall|q: int| 0 <= q < i + 1 && qlt(assoc_lookup(ov, #[trigger] ks[q]), assoc_lookup(mv, ks[q])) implies sub_fits(
                assoc_lookup(mv, ks[q]),
                assoc_lookup(ov, ks[q]),
            ) by {
                if q < i {
                    assert(ks[q] == kv.subrange(0, i as int)[q]);
                }
            }
        }
        i += 1;
    }
    proof {
        assert(names_view(keys@).subrange(0, keys@.len() as int) =~= names_view(keys@));
    }
    Some((pins, id))
}


/// The rate at group rate one of the node at `i`, or zero.
pub open spec fn base_rate_at(rates: Seq<FractionalNumber>, i: int) -> (int, int) {
    if 0 <= i < rates.len() {
        rates[i]@
    } else {
        qzero()
    }
}

/// Machines per building name of the crafting nodes (only built ones where
/// `built_only`), each at its base rate times the group rate.
pub open spec fn machine_totals(nodes: Seq<GroupedNode>, rates: Seq<FractionalNumber>, rate: (int, int), built_only: bool) -> Seq<(Seq<char>, (int, int))>
    decreases nodes.len(),
{
    if nodes.len() == 0 {
        Seq::empty()
    } else {
        let prev = machine_totals(nodes.drop_last(), rates, rate, built_only);
        match nodes.last().node_data {
            GroupedNodeData::Craft { building_name, built, .. } => if !built_only || built {
                assoc_add(prev, building_name@, qmul(base_rate_at(rates, nodes.len() - 1), rate))
            } else {
                prev
            },
            _ => prev,
        }
    }
}

/// Each product and addition of `machine_totals` fits in 64-bit integers,
/// values kept in lowest terms.
pub open spec fn machine_totals_fit(nodes: Seq<GroupedNode>, rates: Seq<FractionalNumber>, rate: (int, int)) -> bool
    decreases nodes.len(),
{
    nodes.len() == 0 || (machine_totals_fit(nodes.drop_last(), rates, rate) && match nodes.last().node_data {
        GroupedNodeData::Craft { building_name, built, .. } => {
            let b = base_rate_at(rates, nodes.len() - 1);
            &&& mul_fits(b, rate)
            &&& add_fits_at(machine_totals(nodes.drop_last(), rates, rate, false), building_name@, qcanon(qmul(b, rate)))
            &&& built ==> add_fits_at(machine_totals(nodes.drop_last(), rates, rate, true), building_name@, qcanon(qmul(b, rate)))
        },
        _ => true,
    })
}

proof fn lemma_mt_fit_prefix(nodes: Seq<GroupedNode>, rates: Seq<FractionalNumber>, rate: (int, int), n: int)
    requires
        0 <= n <= nodes.len(),
        machine_totals_fit(nodes, rates, rate),
    ensures
        machine_totals_fit(nodes.subrange(0, n), rates, rate),
    decreases nodes.len() - n,
{
    if n < nodes.len() {
        lemma_mt_fit_prefix(nodes, rates, rate, n + 1);
        assert(nodes.subrange(0, n + 1).drop_last() =~= nodes.subrange(0, n));
    } else {
        assert(nodes.subrange(0, n) =~= nodes);
    }
}

/// Every crafting node, and every crafting node directly inside a nested
/// group, is built.
pub open spec fn all_built(nodes: Seq<GroupedNode>) -> bool {
    forall|i: int| 0 <= i < nodes.len() ==> match (#[trigger] nodes[i]).node_data {
        GroupedNodeData::Craft { built, .. } => built,
        GroupedNodeData::Group { nodes: inner, .. } => forall|j: int| 0 <= j < inner@.len() ==> match (#[trigger] inner@[j]).node_data {
            GroupedNodeData::Craft { built, .. } => built,
            _ => true,
        },
        _ => true,
    }
}

/// Add `v` to the total of `k`, tracking the totals as `t`.
fn add_total(list: &mut Vec<(String, FractionalNumber)>, k: &String, v: FractionalNumber, Ghost(t): Ghost<Seq<(Seq<char>, (int, int))>>, Ghost(raw): Ghost<(int, int)>) -> (ok: bool)
    requires
        assoc_eq(assoc_view(old(list)@), t),
        keys_unique(t),
        amounts_wf(t),
        qeq(v@, raw),
        qwf(raw),
    ensures
        ok ==> assoc_eq(assoc_view(final(list)@), assoc_add(t, k@, raw)) && keys_unique(assoc_add(t, k@, raw)) && amounts_wf(assoc_add(t, k@, raw)),
        !ok ==> final(list)@ == old(list)@,
        ok <==> forall|j: int| 0 <= j < old(list)@.len() && (#[trigger] old(list)@[j]).0@ == k@ ==> add_fits(
            old(list)@[j].1@,
            v@,
        ),
        ok <==> add_fits_at(t, k@, v@),
{
    proof {
        use_type_invariant(&v);
    }
    let ok = assoc_add_exec(list, k, v, Ghost(t));
    proof {
        if ok {
            lemma_assoc_add_cong(t, k@, v@, raw);
            lemma_assoc_add_cong(t, k@, raw, v@);
            lemma_assoc_eq_trans(assoc_view(list@), assoc_add(t, k@, v@), assoc_add(t, k@, raw));
            lemma_assoc_eq_keys(assoc_add(t, k@, raw), assoc_add(t, k@, v@));
        }
    }
    ok
}

impl GroupNode {
    /// Recompute the machines per building, in total and built, at the
    /// group's rate; sink points are cleared. Returns false, changing
    /// nothing, where a value does not fit in 64-bit integers.
    pub fn update_details(&mut self) -> (ok: bool)
        ensures
            !ok ==> *final(self) == *old(self),
            ok ==> *final(self) == (GroupNode {
                total_machines: final(self).total_machines,
                built_machines: final(self).built_machines,
                detailed_sinked_points: final(self).detailed_sinked_points,
                ..*old(self)
            }),
            ok ==> assoc_eq(assoc_view(final(self).total_machines@), machine_totals(old(self).grouped_nodes@, old(self).nodes_base_rate@, old(self).current_rate@, false)),
            ok ==> assoc_eq(assoc_view(final(self).built_machines@), machine_totals(old(self).grouped_nodes@, old(self).nodes_base_rate@, old(self).current_rate@, true)),
            ok ==> final(self).detailed_sinked_points@.len() == 0,
            ok <==> machine_totals_fit(old(self).grouped_nodes@, old(self).nodes_base_rate@, old(self).current_rate@),
    {
        let mut total: Vec<(String, FractionalNumber)> = Vec::new();
        let mut built: Vec<(String, FractionalNumber)> = Vec::new();
        let ghost nodes = self.grouped_nodes@;
        let ghost rates = self.nodes_base_rate@;
        let rate = self.current_rate;
        proof {
            use_type_invariant(&rate);
            assert(assoc_view(total@) =~= Seq::<(Seq<char>, (int, int))>::empty());
            assert(assoc_view(built@) =~= Seq::<(Seq<char>, (int, int))>::empty());
            assert(nodes.subrange(0, 0) =~= Seq::<GroupedNode>::empty());
        }
        let mut i: usize = 0;
        while i < self.grouped_nodes.len()
            invariant
                0 <= i <= nodes.len(),
                nodes == self.grouped_nodes@,
                rates == self.nodes_base_rate@,
                rate == self.current_rate,
                qwf(rate@),
                machine_totals_fit(nodes.subrange(0, i as int), rates, rate@),
                assoc_eq(assoc_view(total@), machine_totals(nodes.subrange(0, i as int), rates, rate@, false)),
                assoc_eq(assoc_view(built@), machine_totals(nodes.subrange(0, i as int), rates, rate@, true)),
                keys_unique(machine_totals(nodes.subrange(0, i as int), rates, rate@, false)),
                amounts_wf(machine_totals(nodes.subrange(0, i as int), rates, rate@, false)),
                keys_unique(machine_totals(nodes.subrange(0, i as int), rates, rate@, true)),
                amounts_wf(machine_totals(nodes.subrange(0, i as int), rates, rate@, true)),
            decreases nodes.len() - i,
        {
            let ghost pre = nodes.subrange(0, i as int);
            proof {
                assert(nodes.subrange(0, i + 1).drop_last() =~= pre);
            }
            match &self.grouped_nodes[i].node_data {
                GroupedNodeData::Craft { building_name, built: is_built, .. } => {
                    let base = if i < self.nodes_base_rate.len() {
                        self.nodes_base_rate[i]
                    } else {
                        FractionalNumber::zero()
                    };
                    proof {
                        use_type_invariant(&base);
                        assert(base@ == base_rate_at(rates, i as int));
                        lemma_qwf_ops(base@, rate@);
                    }
                    let cur = match base.checked_mul(rate) {
                        Some(c) => c,
                        None => {
                            proof {
                                if machine_totals_fit(nodes, rates, rate@) {
                                    lemma_mt_fit_prefix(nodes, rates, rate@, i + 1);
                                    assert(nodes.subrange(0, i + 1).last() == nodes[i as int]);
                                    assert(nodes.subrange(0, i + 1).len() - 1 == i);
                                }
                            }
                            return false;
                        },
                    };
                    let ghost raw = qmul(base@, rate@);
                    proof {
                        use_type_invariant(&cur);
                        lemma_qcanon(cur@, raw);
                    }
                    if !add_total(&mut total, building_name, cur, Ghost(machine_totals(pre, rates, rate@, false)), Ghost(raw)) {
                        proof {
                                if machine_totals_fit(nodes, rates, rate@) {
                                    lemma_mt_fit_prefix(nodes, rates, rate@, i + 1);
                                    assert(nodes.subrange(0, i + 1).last() == nodes[i as int]);
                                    assert(nodes.subrange(0, i + 1).len() - 1 == i);
                                }
                            }
                            return false;
                    }
                    if *is_built {
                        if !add_total(&mut built, building_name, cur, Ghost(machine_totals(pre, rates, rate@, true)), Ghost(raw)) {
                            proof {
                                if machine_totals_fit(nodes, rates, rate@) {
                                    lemma_mt_fit_prefix(nodes, rates, rate@, i + 1);
                                    assert(nodes.subrange(0, i + 1).last() == nodes[i as int]);
                                    assert(nodes.subrange(0, i + 1).len() - 1 == i);
                                }
                            }
                            return false;
                        }
                    }
                },
                _ => {},
            }
            i += 1;
        }
        proof {
            assert(nodes.subrange(0, nodes.len() as int) =~= nodes);
        }
        self.total_machines = total;
        self.built_machines = built;
        self.detailed_sinked_points = Vec::new();
        true
    }

    /// Whether every crafting node inside, and directly inside nested groups, is built.
    pub fn is_fully_built(&self) -> (r: bool)
        ensures
            r == all_built(self.grouped_nodes@),
    {
        let mut i: usize = 0;
        while i < self.grouped_nodes.len()
            invariant
                0 <= i <= self.grouped_nodes@.len(),
                forall|q: int| 0 <= q < i ==> match (#[trigger] self.grouped_nodes@[q]).node_data {
                    GroupedNodeData::Craft { built, .. } => built,
                    GroupedNodeData::Group { nodes: inner, .. } => forall|j: int| 0 <= j < inner@.len() ==> match (#[trigger] inner@[j]).node_data {
                        GroupedNodeData::Craft { built, .. } => built,
                        _ => true,
                    },
                    _ => true,
                },
            decreases self.grouped_nodes.len() - i,
        {
            match &self.grouped_nodes[i].node_data {
                GroupedNodeData::Craft { built, .. } => {
                    if !*built {
                        return false;
                    }
                },
                GroupedNodeData::Group { nodes: inner, .. } => {
                    let mut j: usize = 0;
                    while j < inner.len()
                        invariant
                            0 <= j <= inner@.len(),
                            i < self.grouped_nodes@.len(),
                            (match self.grouped_nodes@[i as int].node_data {
                                GroupedNodeData::Group { nodes, .. } => nodes@ == inner@,
                                _ => false,
                            }),
                            forall|q: int| 0 <= q < j ==> match (#[trigger] inner@[q]).node_data {
                                GroupedNodeData::Craft { built, .. } => built,
                                _ => true,
                            },
                        decreases inner.len() - j,
                    {
                        match &inner[j].node_data {
                            GroupedNodeData::Craft { built, .. } => {
                                if !*built {
                                    proof {
                                        assert(!(match (inner@[j as int]).node_data {
                                            GroupedNodeData::Craft { built, .. } => built,
                                            _ => true,
                                        }));
                                        assert(!all_built(self.grouped_nodes@)) by {
                                            assert(self.grouped_nodes@[i as int].node_data is Group);
                                        }
                                    }
                                    return false;
                                }
                            },
                            _ => {},
                        }
                        j += 1;
                    }
                },
                _ => {},
            }
            i += 1;
        }
        true
    }
}

impl GroupNode {
    /// Recompute the totals of the group's nodes and the group's pins, with
    /// ids from `first_id`: an input pin per item consumed more than
    /// produced, then an output pin per item produced more than consumed,
    /// each in byte order of the item names. Returns the next free id, or
    /// `None` where a value does not fit in 64-bit integers.
    pub fn create_pins_from_grouped_nodes(&mut self, first_id: u64) -> (r: Option<u64>)
        ensures
            final(self).grouped_nodes@ == old(self).grouped_nodes@,
            final(self).nodes_base_rate@ == old(self).nodes_base_rate@,
            final(self).grouped_links@ == old(self).grouped_links@,
            final(self).current_rate == old(self).current_rate,
            final(self).base.id == old(self).base.id,
            final(self).base.kind == old(self).base.kind,
            final(self).base.position == old(self).base.position,
            final(self).name == old(self).name,
            r matches Some(next) ==> {
                &&& assoc_eq(assoc_view(final(self).inputs@), grouped_totals(old(self).grouped_nodes@, true))
                &&& assoc_eq(assoc_view(final(self).outputs@), grouped_totals(old(self).grouped_nodes@, false))
                &&& exists|kin: Seq<Seq<char>>, kout: Seq<Seq<char>>|
                    #![trigger sorted_keys(kin, assoc_view(final(self).inputs@)), sorted_keys(kout, assoc_view(final(self).outputs@))]
                    sorted_keys(kin, assoc_view(final(self).inputs@)) && sorted_keys(kout, assoc_view(final(self).outputs@))
                        && net_pins(kin, assoc_view(final(self).inputs@), assoc_view(final(self).outputs@), final(self).base.ins@, PinDirection::Input, old(self).base.id)
                        && net_pins(kout, assoc_view(final(self).outputs@), assoc_view(final(self).inputs@), final(self).base.outs@, PinDirection::Output, old(self).base.id)
                &&& ids_from(final(self).base.ins@, first_id as int)
                &&& ids_from(final(self).base.outs@, first_id + final(self).base.ins@.len())
                &&& next == first_id + final(self).base.ins@.len() + final(self).base.outs@.len()
            },
            grouped_totals_fit(old(self).grouped_nodes@) ==> assoc_eq(
                assoc_view(final(self).inputs@),
                grouped_totals(old(self).grouped_nodes@, true),
            ) && assoc_eq(assoc_view(final(self).outputs@), grouped_totals(old(self).grouped_nodes@, false)),
            grouped_totals_fit(old(self).grouped_nodes@) ==> assoc_view(final(self).inputs@) == canon_totals(
                grouped_totals(old(self).grouped_nodes@, true),
            ) && assoc_view(final(self).outputs@) == canon_totals(grouped_totals(old(self).grouped_nodes@, false)),
            r is Some <==> grouped_totals_fit(old(self).grouped_nodes@) && net_pins_fit(
                canon_totals(grouped_totals(old(self).grouped_nodes@, true)),
                canon_totals(grouped_totals(old(self).grouped_nodes@, false)),
                first_id as int,
            ),
    {
        let mut inputs: Vec<(String, FractionalNumber)> = Vec::new();
        let mut outputs: Vec<(String, FractionalNumber)> = Vec::new();
        let ghost nodes = self.grouped_nodes@;
        let mut i: usize = 0;
        let mut ok = true;
        proof {
            assert(assoc_view(inputs@) =~= Seq::<(Seq<char>, (int, int))>::empty());
            assert(assoc_view(outputs@) =~= Seq::<(Seq<char>, (int, int))>::empty());
            assert(nodes.subrange(0, 0) =~= Seq::<GroupedNode>::empty());
        }
        while i < self.grouped_nodes.len()
            invariant
                0 <= i <= nodes.len(),
                nodes == self.grouped_nodes@,
                ok == grouped_totals_fit(nodes.subrange(0, i as int)),
                amounts_normalized(inputs@),
                amounts_normalized(outputs@),
                ok ==> assoc_eq(assoc_view(inputs@), grouped_totals(nodes.subrange(0, i as int), true)),
                ok ==> assoc_eq(assoc_view(outputs@), grouped_totals(nodes.subrange(0, i as int), false)),
                ok ==> keys_unique(grouped_totals(nodes.subrange(0, i as int), true)) && amounts_wf(grouped_totals(nodes.subrange(0, i as int), true)),
                ok ==> keys_unique(grouped_totals(nodes.subrange(0, i as int), false)) && amounts_wf(grouped_totals(nodes.subrange(0, i as int), false)),
            decreases nodes.len() - i,
        {
            proof {
                assert(nodes.subrange(0, i + 1).drop_last() =~= nodes.subrange(0, i as int));
            }
            if ok {
                let ghost ti = grouped_totals(nodes.subrange(0, i as int), true);
                let ghost to = grouped_totals(nodes.subrange(0, i as int), false);
                let step = match &self.grouped_nodes[i].node_data {
                    GroupedNodeData::Craft { ins, outs, .. } => accumulate(&mut inputs, ins, Ghost(ti)) && accumulate(&mut outputs, outs, Ghost(to)),
                    GroupedNodeData::Group { ins, outs, .. } => accumulate(&mut inputs, ins, Ghost(ti)) && accumulate(&mut outputs, outs, Ghost(to)),
                    GroupedNodeData::Sink { ins, .. } => {
                        let r = accumulate(&mut inputs, ins, Ghost(ti));
                        proof {
                            assert(add_pins(to, Seq::<GroupedPin>::empty()) == to);
                        }
                        r
                    },
                    GroupedNodeData::Organizer { .. } => {
                        proof {
                            assert(add_pins(ti, Seq::<GroupedPin>::empty()) == ti);
                            assert(add_pins(to, Seq::<GroupedPin>::empty()) == to);
                        }
                        true
                    },
                };
                ok = step;
            }
            i += 1;
        }
        proof {
            assert(nodes.subrange(0, nodes.len() as int) =~= nodes);
        }
        proof {
            if ok {
                lemma_canon_totals(inputs@, grouped_totals(nodes, true));
                lemma_canon_totals(outputs@, grouped_totals(nodes, false));
            }
        }
        self.inputs = inputs;
        self.outputs = outputs;
        self.base.ins = Vec::new();
        self.base.outs = Vec::new();
        if !ok {
            return None;
        }
        let in_names = names_of(&self.inputs);
        let out_names = names_of(&self.outputs);
        proof {
            let a = assoc_view(self.inputs@);
            let g = grouped_totals(nodes, true);
            assert(keys_of(a).no_duplicates()) by {
                assert forall|x: int, y: int| 0 <= x < keys_of(a).len() && 0 <= y < keys_of(a).len() && x != y implies keys_of(a)[x] != keys_of(a)[y] by {
                    assert(keys_of(a)[x] == g[x].0 && keys_of(a)[y] == g[y].0);
                    if x < y {
                        assert(g[x].0 != g[y].0);
                    } else {
                        assert(g[y].0 != g[x].0);
                    }
                }
            }
            let b = assoc_view(self.outputs@);
            let h = grouped_totals(nodes, false);
            assert(keys_of(b).no_duplicates()) by {
                assert forall|x: int, y: int| 0 <= x < keys_of(b).len() && 0 <= y < keys_of(b).len() && x != y implies keys_of(b)[x] != keys_of(b)[y] by {
                    assert(keys_of(b)[x] == h[x].0 && keys_of(b)[y] == h[y].0);
                    if x < y {
                        assert(h[x].0 != h[y].0);
                    } else {
                        assert(h[y].0 != h[x].0);
                    }
                }
            }
        }
        let kin = sorted_names(&in_names);
        let kout = sorted_names(&out_names);
        proof {
            let ti = assoc_view(self.inputs@);
            let to = assoc_view(self.outputs@);
            let ki = names_view(kin@);
            let ko = names_view(kout@);
            lemma_net_count_same(ki, keys_of(ti), ti, to);
            lemma_net_count_same(ko, keys_of(to), to, ti);
            if net_fits(ki, ti, to) {
                lemma_net_fits_same(keys_of(ti), ki, ti, to);
            }
            if net_fits(keys_of(ti), ti, to) {
                lemma_net_fits_same(ki, keys_of(ti), ti, to);
            }
            if net_fits(ko, to, ti) {
                lemma_net_fits_same(keys_of(to), ko, to, ti);
            }
            if net_fits(keys_of(to), to, ti) {
                lemma_net_fits_same(ko, keys_of(to), to, ti);
            }
        }
        let (ins, next) = match net_pins_exec(&kin, &self.inputs, &self.outputs, PinDirection::Input, self.base.id, first_id) {
            Some(x) => x,
            None => {
                return None;
            },
        };
        let (outs, last) = match net_pins_exec(&kout, &self.outputs, &self.inputs, PinDirection::Output, self.base.id, next) {
            Some(x) => x,
            None => {
                return None;
            },
        };
        self.base.ins = ins;
        self.base.outs = outs;
        proof {
            assert(sorted_keys(names_view(kin@), assoc_view(self.inputs@)));
            assert(sorted_keys(names_view(kout@), assoc_view(self.outputs@)));
        }
        Some(last)
    }
}

} // verus!
