//! Structural edits of the graph: deleting links and nodes, adding and
//! removing the pins of organizers and sinks, moving nodes.
use vstd::prelude::*;
use crate::app_node::{AppNode, PinUpdate};
use crate::fractional_number::FractionalNumber;
use crate::link::Link;
use crate::node::{Node, CraftNode, OrganizerNode, GroupNode, SinkNode};
use crate::pin::{Pin, PinDirection};
use crate::production_app::{ProductionApp, node_index, pin_loc, pin_updated, is_first_link, link_touches, is_pin_loc};
use crate::rate_edit::node_not_found;
use crate::rational::qzero;
use crate::text::int_to_decimal;
use crate::ungrouping::{kept_links, touches_any};
use crate::connectivity::vec_contains;

verus! {

/// `k` is the first link with the id.
pub open spec fn first_with_id(links: Seq<Link>, id: u64, k: int) -> bool {
    &&& 0 <= k < links.len()
    &&& links[k].id == id
    &&& forall|j: int| 0 <= j < k ==> (#[trigger] links[j]).id != id
}

/// Some link has the id.
pub open spec fn has_link_id(links: Seq<Link>, id: u64) -> bool {
    exists|k: int| 0 <= k < links.len() && (#[trigger] links[k]).id == id
}

/// The pin, if some node holds it, forgets its link.
pub open spec fn unlinked(a: Seq<AppNode>, b: Seq<AppNode>, pid: u64) -> bool {
    match pin_loc(a, pid) {
        Some(l) => pin_updated(a, b, l, PinUpdate::Link(None)),
        None => b == a,
    }
}

/// Deleting the link `id` from `(a, links)` gave `(b, links2)`: the first link
/// with that id leaves, and its start and end pins forget their link.
pub open spec fn link_deleted(a: Seq<AppNode>, links: Seq<Link>, id: u64, b: Seq<AppNode>, links2: Seq<Link>) -> bool {
    exists|k: int, mid: Seq<AppNode>|
        #![trigger first_with_id(links, id, k), unlinked(a, mid, links[k].start_pin_id)]
        first_with_id(links, id, k) && links2 == links.remove(k) && unlinked(a, mid, links[k].start_pin_id)
            && unlinked(mid, b, links[k].end_pin_id)
}

/// Deleting the link that `create_link` has just added, under an id that no
/// earlier link had, gives back the links there were before.
pub proof fn law_delete_after_create(
    links0: Seq<Link>,
    id: u64,
    start_pin_id: u64,
    end_pin_id: u64,
    a: Seq<AppNode>,
    b: Seq<AppNode>,
    links2: Seq<Link>,
)
    requires
        !has_link_id(links0, id),
        link_deleted(a, links0.push(Link { id, start_pin_id, end_pin_id, flow: None }), id, b, links2),
    ensures
        links2 == links0,
{
    let links1 = links0.push(Link { id, start_pin_id, end_pin_id, flow: None });
    let (k, mid) = choose|k: int, mid: Seq<AppNode>|
        #![trigger first_with_id(links1, id, k), unlinked(a, mid, links1[k].start_pin_id)]
        first_with_id(links1, id, k) && links2 == links1.remove(k) && unlinked(a, mid, links1[k].start_pin_id)
            && unlinked(mid, b, links1[k].end_pin_id);
    if k < links0.len() {
        assert(links0[k] == links1[k]);
        assert(has_link_id(links0, id));
    }
    assert(k == links0.len());
    assert(links2 =~= links0);
}

/// The pins of `b` are those of `a` but for their links.
pub open spec fn link_only(a: Seq<AppNode>, b: Seq<AppNode>) -> bool {
    &&& b.len() == a.len()
    &&& forall|n: int| 0 <= n < a.len() ==> (#[trigger] b[n]).same_settings(a[n])
    &&& forall|n: int, input: bool| 0 <= n < a.len() ==> (#[trigger] b[n].side(input)).len() == a[n].side(input).len()
    &&& forall|n: int, input: bool, j: int|
        0 <= n < a.len() && 0 <= j < a[n].side(input).len() ==> #[trigger] b[n].side(input)[j] == (Pin {
            link_id: b[n].side(input)[j].link_id,
            ..a[n].side(input)[j]
        })
}

/// `y` is `x` without the pin at `idx` on one side.
pub open spec fn pin_removed(x: AppNode, y: AppNode, input: bool, idx: int) -> bool {
    &&& y.same_settings(x)
    &&& y.side(input) == x.side(input).remove(idx)
    &&& y.side(!input) == x.side(!input)
}

/// The ids of the pins of a node, inputs first.
pub open spec fn pin_ids(node: AppNode) -> Seq<u64> {
    node.pins().map_values(|p: Pin| p.id)
}

/// A found pin is at its location.
pub proof fn lemma_pin_loc_facts(nodes: Seq<AppNode>, pid: u64)
    requires
        pin_loc(nodes, pid) is Some,
    ensures
        is_pin_loc(nodes, pid, (pin_loc(nodes, pid)->0).0, (pin_loc(nodes, pid)->0).1, (pin_loc(nodes, pid)->0).2),
{
}

/// There is one first link touching a pin.
pub proof fn lemma_first_link_unique(links: Seq<Link>, pid: u64, k1: int, k2: int)
    requires
        is_first_link(links, pid, k1),
        is_first_link(links, pid, k2),
    ensures
        k1 == k2,
{
    if k1 < k2 {
        assert(!link_touches(links[k1], pid));
    } else if k2 < k1 {
        assert(!link_touches(links[k2], pid));
    }
}

pub proof fn lemma_link_only_refl(a: Seq<AppNode>)
    ensures
        link_only(a, a),
{
    assert forall|n: int| 0 <= n < a.len() implies (#[trigger] a[n]).same_settings(a[n]) by {}
}

pub proof fn lemma_link_only_trans(a: Seq<AppNode>, b: Seq<AppNode>, c: Seq<AppNode>)
    requires
        link_only(a, b),
        link_only(b, c),
    ensures
        link_only(a, c),
{
    assert forall|n: int, input: bool| 0 <= n < a.len() implies (#[trigger] c[n].side(input)).len() == a[n].side(input).len() by {
        assert(b[n].side(input).len() == a[n].side(input).len());
    }
    assert forall|n: int, input: bool, j: int|
        0 <= n < a.len() && 0 <= j < a[n].side(input).len() implies #[trigger] c[n].side(input)[j] == (Pin {
            link_id: c[n].side(input)[j].link_id,
            ..a[n].side(input)[j]
        }) by {
        assert(b[n].side(input).len() == a[n].side(input).len());
        assert(b[n].side(input)[j] == (Pin { link_id: b[n].side(input)[j].link_id, ..a[n].side(input)[j] }));
        assert(c[n].side(input)[j] == (Pin { link_id: c[n].side(input)[j].link_id, ..b[n].side(input)[j] }));
    }
    assert forall|n: int| 0 <= n < a.len() implies (#[trigger] c[n]).same_settings(a[n]) by {
        assert(c[n].same_settings(b[n]));
        assert(b[n].same_settings(a[n]));
    }
}

pub proof fn lemma_unlinked_link_only(a: Seq<AppNode>, b: Seq<AppNode>, pid: u64)
    requires
        unlinked(a, b, pid),
    ensures
        link_only(a, b),
{
    match pin_loc(a, pid) {
        Some(l) => {
            lemma_pin_loc_facts(a, pid);
            assert forall|n: int, input: bool| 0 <= n < a.len() implies (#[trigger] b[n].side(input)).len() == a[n].side(input).len() by {
                if n == l.0 && input != l.1 {
                    assert(b[n].side(!l.1) == a[n].side(!l.1));
                }
            }
            assert forall|n: int, input: bool, j: int|
                0 <= n < a.len() && 0 <= j < a[n].side(input).len() implies #[trigger] b[n].side(input)[j] == (Pin {
                    link_id: b[n].side(input)[j].link_id,
                    ..a[n].side(input)[j]
                }) by {
                if n == l.0 && input != l.1 {
                    assert(b[n].side(!l.1) == a[n].side(!l.1));
                }
            }
            assert forall|n: int| 0 <= n < a.len() implies (#[trigger] b[n]).same_settings(a[n]) by {
                if n != l.0 {
                    assert(b[n] == a[n]);
                }
            }
        },
        None => {
            lemma_link_only_refl(a);
        },
    }
}

/// Organizers take pins on both sides, sinks on their input side.
pub open spec fn pins_editable(node: AppNode, input: bool) -> bool {
    node is Organizer || (input && node is Sink)
}

/// The pin that a node gains: id `id`, the organizer's item, locked where
/// the first pin of the other side of an organizer is, with zero rates and
/// no link.
pub open spec fn new_pin_ok(node: AppNode, input: bool, p: Pin, id: u64, node_id: u64) -> bool {
    &&& p.id == id
    &&& p.direction == (if input {
        PinDirection::Input
    } else {
        PinDirection::Output
    })
    &&& p.node_id == node_id
    &&& p.item_name == (match node {
        AppNode::Organizer(o) => o.item_name,
        _ => None,
    })
    &&& p.locked == (node is Organizer && node.side(!input).len() > 0 && node.side(!input)[0].locked)
    &&& p.base_rate@ == qzero()
    &&& p.current_rate@ == qzero()
    &&& !p.error
    &&& p.link_id is None
}

/// `b` is `a` with a new pin at the end of one side of node `i`.
pub open spec fn pin_added(a: Seq<AppNode>, b: Seq<AppNode>, i: int, input: bool, id: u64, node_id: u64) -> bool {
    &&& b.len() == a.len()
    &&& forall|m: int| 0 <= m < a.len() && m != i ==> #[trigger] b[m] == a[m]
    &&& b[i].same_settings(a[i])
    &&& b[i].side(!input) == a[i].side(!input)
    &&& b[i].side(input).len() == a[i].side(input).len() + 1
    &&& b[i].side(input).drop_last() == a[i].side(input)
    &&& new_pin_ok(a[i], input, b[i].side(input).last(), id, node_id)
}

/// The first link touching the pin, if any, was deleted.
pub open spec fn pin_link_deleted(a: Seq<AppNode>, links: Seq<Link>, pid: u64, b: Seq<AppNode>, links2: Seq<Link>) -> bool {
    if exists|k: int| #[trigger] is_first_link(links, pid, k) {
        exists|k: int| #[trigger] is_first_link(links, pid, k) && link_deleted(a, links, links[k].id, b, links2)
    } else {
        b == a && links2 == links
    }
}

/// The node with a new position.
pub open spec fn with_position(node: AppNode, pos: (u32, u32)) -> AppNode {
    match node {
        AppNode::Craft(c) => AppNode::Craft(CraftNode { base: Node { position: pos, ..c.base }, ..c }),
        AppNode::Organizer(o) => AppNode::Organizer(OrganizerNode { base: Node { position: pos, ..o.base }, ..o }),
        AppNode::Group(g) => AppNode::Group(GroupNode { base: Node { position: pos, ..g.base }, ..g }),
        AppNode::Sink(k) => AppNode::Sink(SinkNode { base: Node { position: pos, ..k.base }, ..k }),
    }
}

/// The ids of the pins of a node, inputs first.
fn node_pin_ids(node: &AppNode) -> (r: Vec<u64>)
    ensures
        r@ == pin_ids(*node),
{
    let mut r: Vec<u64> = Vec::new();
    let ghost ins = node.ins();
    let ghost outs = node.outs();
    let n_in = node.side_len(true);
    let mut j: usize = 0;
    while j < n_in
        invariant
            0 <= j <= n_in,
            n_in == ins.len(),
            ins == node.side(true),
            r@ == ins.subrange(0, j as int).map_values(|p: Pin| p.id),
        decreases n_in - j,
    {
        proof {
            assert(ins.subrange(0, j + 1).map_values(|p: Pin| p.id) =~= ins.subrange(0, j as int).map_values(|p: Pin| p.id).push(ins[j as int].id));
        }
        r.push(node.pin(true, j).id);
        j += 1;
    }
    let n_out = node.side_len(false);
    let mut j: usize = 0;
    proof {
        assert(ins.subrange(0, n_in as int) =~= ins);
    }
    while j < n_out
        invariant
            0 <= j <= n_out,
            n_out == outs.len(),
            outs == node.side(false),
            r@ == (ins + outs.subrange(0, j as int)).map_values(|p: Pin| p.id),
        decreases n_out - j,
    {
        proof {
            assert((ins + outs.subrange(0, j + 1)).map_values(|p: Pin| p.id) =~= (ins + outs.subrange(0, j as int)).map_values(|p: Pin| p.id).push(outs[j as int].id));
        }
        r.push(node.pin(false, j).id);
        j += 1;
    }
    proof {
        assert(outs.subrange(0, n_out as int) =~= outs);
    }
    r
}

impl ProductionApp {
    /// Make the pin, if some node holds it, forget its link.
    fn unlink_pin(&mut self, pid: u64)
        ensures
            unlinked(old(self).nodes@, final(self).nodes@, pid),
            final(self).links@ == old(self).links@,
            final(self).next_id == old(self).next_id,
    {
        match self.locate_pin(pid) {
            Some((n, input, i)) => self.update_pin_at(n, input, i, PinUpdate::Link(None)),
            None => {},
        }
    }

    /// Delete the first link with the id; its two pins forget it.
    pub fn delete_link(&mut self, link_id: u64) -> (r: Result<(), String>)
        ensures
            final(self).next_id == old(self).next_id,
            !has_link_id(old(self).links@, link_id) ==> (r matches Err(e) && e@ == "Link not found"@ && *final(self)
                == *old(self)),
            has_link_id(old(self).links@, link_id) ==> r is Ok && link_deleted(
                old(self).nodes@,
                old(self).links@,
                link_id,
                final(self).nodes@,
                final(self).links@,
            ),
    {
        let mut k: usize = 0;
        while k < self.links.len() && self.links[k].id != link_id
            invariant
                0 <= k <= self.links@.len(),
                forall|j: int| 0 <= j < k ==> (#[trigger] self.links@[j]).id != link_id,
            decreases self.links.len() - k,
        {
            k += 1;
        }
        if k == self.links.len() {
            return Err("Link not found".to_owned());
        }
        let ghost a = self.nodes@;
        let ghost links = self.links@;
        let l = self.links.remove(k);
        self.unlink_pin(l.start_pin_id);
        let ghost mid = self.nodes@;
        self.unlink_pin(l.end_pin_id);
        proof {
            assert(first_with_id(links, link_id, k as int));
            assert(unlinked(a, mid, links[k as int].start_pin_id));
        }
        Ok(())
    }

    /// Delete a node and all its links: every link that starts or ends at one
    /// of its pins goes, and the pins at the other ends forget it.
    pub fn delete_node(&mut self, node_id: u64) -> (r: Result<(), String>)
        ensures
            final(self).next_id == old(self).next_id,
            node_index(old(self).nodes@, node_id) is None ==> (r matches Err(e) && e@ == "Node "@ + int_to_decimal(
                node_id as int,
            ) + " not found"@ && *final(self) == *old(self)),
            node_index(old(self).nodes@, node_id) is Some ==> r is Ok,
            r is Ok ==> node_index(old(self).nodes@, node_id) is Some && exists|mid: Seq<AppNode>|
                #[trigger] link_only(old(self).nodes@, mid) && final(self).nodes@ == mid.remove(
                    node_index(old(self).nodes@, node_id)->0,
                ),
            r is Ok ==> final(self).links@ == kept_links(
                old(self).links@,
                pin_ids(old(self).nodes@[node_index(old(self).nodes@, node_id)->0]),
            ),
    {
        let ni = match self.find_node_index(node_id) {
            Some(i) => i,
            None => {
                return Err(node_not_found(node_id));
            },
        };
        let ghost a = self.nodes@;
        let ghost links0 = self.links@;
        let pids = node_pin_ids(&self.nodes[ni]);
        let mut k: usize = 0;
        let ghost mut j: int = 0;
        proof {
            lemma_link_only_refl(a);
            assert(links0.subrange(0, 0) =~= Seq::<Link>::empty());
            assert(self.links@ =~= kept_links(links0.subrange(0, 0), pids@) + links0.subrange(0, links0.len() as int));
        }
        while k < self.links.len()
            invariant
                0 <= j <= links0.len(),
                k == kept_links(links0.subrange(0, j), pids@).len(),
                self.links@ == kept_links(links0.subrange(0, j), pids@) + links0.subrange(j, links0.len() as int),
                self.nodes@.len() == a.len(),
                0 <= ni < a.len(),
                node_index(a, node_id) == Some(ni as int),
                self.next_id == old(self).next_id,
                a == old(self).nodes@,
                links0 == old(self).links@,
                pids@ == pin_ids(a[ni as int]),
                link_only(a, self.nodes@),
            decreases self.links.len() - k,
        {
            let ghost before = self.links@;
            let ghost kept = kept_links(links0.subrange(0, j), pids@);
            proof {
                assert(before[k as int] == links0[j]);
                assert(links0.subrange(0, j + 1).drop_last() =~= links0.subrange(0, j));
                assert(links0.subrange(0, j + 1).last() == links0[j]);
            }
            let l = self.links[k];
            if vec_contains(&pids, l.start_pin_id) || vec_contains(&pids, l.end_pin_id) {
                let ghost b = self.nodes@;
                self.links.remove(k);
                self.unlink_pin(l.start_pin_id);
                let ghost m = self.nodes@;
                self.unlink_pin(l.end_pin_id);
                proof {
                    lemma_unlinked_link_only(b, m, l.start_pin_id);
                    lemma_unlinked_link_only(m, self.nodes@, l.end_pin_id);
                    lemma_link_only_trans(b, m, self.nodes@);
                    lemma_link_only_trans(a, b, self.nodes@);
                    assert(touches_any(links0[j], pids@));
                    j = j + 1;
                    assert(self.links@ =~= kept_links(links0.subrange(0, j), pids@) + links0.subrange(j, links0.len() as int));
                }
            } else {
                proof {
                    assert(!touches_any(links0[j], pids@));
                    j = j + 1;
                    assert(self.links@ =~= kept_links(links0.subrange(0, j), pids@) + links0.subrange(j, links0.len() as int));
                }
                k += 1;
            }
        }
        proof {
            if j < links0.len() {
                assert(self.links@.len() == k + links0.len() - j);
            }
            assert(links0.subrange(0, links0.len() as int) =~= links0);
            assert(self.links@ =~= kept_links(links0, pids@));
        }
        let ghost mid = self.nodes@;
        self.nodes.remove(ni);
        proof {
            assert(link_only(old(self).nodes@, mid));
        }
        Ok(())
    }

    /// Give an organizer (either side) or a sink (inputs) a new pin.
    fn add_pin(&mut self, node_id: u64, input: bool) -> (r: Result<(), String>)
        requires
            old(self).next_id < u64::MAX,
        ensures
            final(self).links@ == old(self).links@,
            node_index(old(self).nodes@, node_id) is None ==> (r matches Err(e) && e@ == "Node "@ + int_to_decimal(
                node_id as int,
            ) + " not found"@ && *final(self) == *old(self)),
            node_index(old(self).nodes@, node_id) matches Some(i) ==> final(self).next_id == old(self).next_id + 1 && (if pins_editable(old(self).nodes@[i], input) {
                r is Ok && pin_added(old(self).nodes@, final(self).nodes@, i, input, old(self).next_id, node_id)
            } else {
                r matches Err(e) && e@ == (if input {
                    "Unsupported node kind for add input"@
                } else {
                    "Unsupported node kind for add output"@
                }) && final(self).nodes@ == old(self).nodes@
            }),
    {
        let ni = match self.find_node_index(node_id) {
            Some(i) => i,
            None => {
                return Err(node_not_found(node_id));
            },
        };
        let pin_id = self.get_next_id();
        let dir = if input {
            PinDirection::Input
        } else {
            PinDirection::Output
        };
        let ghost a = self.nodes@;
        let ok = match &mut self.nodes[ni] {
            AppNode::Organizer(o) => {
                let other = if input { &o.base.outs } else { &o.base.ins };
                let locked = if other.len() > 0 { other[0].locked } else { false };
                let item = match &o.item_name {
                    Some(s) => Some(s.clone()),
                    None => None,
                };
                let p = Pin::new(pin_id, dir, node_id, item, locked, FractionalNumber::zero());
                if input {
                    o.base.ins.push(p);
                } else {
                    o.base.outs.push(p);
                }
                true
            },
            AppNode::Sink(k) => {
                if input {
                    k.base.ins.push(Pin::new(pin_id, dir, node_id, None, false, FractionalNumber::zero()));
                    true
                } else {
                    false
                }
            },
            _ => false,
        };
        if ok {
            proof {
                assert(self.nodes@[ni as int].side(input).drop_last() =~= a[ni as int].side(input));
            }
            Ok(())
        } else if input {
            Err("Unsupported node kind for add input".to_owned())
        } else {
            Err("Unsupported node kind for add output".to_owned())
        }
    }

    /// Give an organizer or a sink a new input pin, with a fresh id.
    pub fn add_input_pin_to_node(&mut self, node_id: u64) -> (r: Result<(), String>)
        requires
            old(self).next_id < u64::MAX,
        ensures
            final(self).links@ == old(self).links@,
            node_index(old(self).nodes@, node_id) is None ==> (r matches Err(e) && e@ == "Node "@ + int_to_decimal(
                node_id as int,
            ) + " not found"@ && *final(self) == *old(self)),
            node_index(old(self).nodes@, node_id) matches Some(i) ==> final(self).next_id == old(self).next_id + 1 && (if pins_editable(old(self).nodes@[i], true) {
                r is Ok && pin_added(old(self).nodes@, final(self).nodes@, i, true, old(self).next_id, node_id)
            } else {
                r matches Err(e) && e@ == "Unsupported node kind for add input"@ && final(self).nodes@ == old(self).nodes@
            }),
    {
        self.add_pin(node_id, true)
    }

    /// Give an organizer a new output pin, with a fresh id.
    pub fn add_output_pin_to_node(&mut self, node_id: u64) -> (r: Result<(), String>)
        requires
            old(self).next_id < u64::MAX,
        ensures
            final(self).links@ == old(self).links@,
            node_index(old(self).nodes@, node_id) is None ==> (r matches Err(e) && e@ == "Node "@ + int_to_decimal(
                node_id as int,
            ) + " not found"@ && *final(self) == *old(self)),
            node_index(old(self).nodes@, node_id) matches Some(i) ==> final(self).next_id == old(self).next_id + 1 && (if pins_editable(old(self).nodes@[i], false) {
                r is Ok && pin_added(old(self).nodes@, final(self).nodes@, i, false, old(self).next_id, node_id)
            } else {
                r matches Err(e) && e@ == "Unsupported node kind for add output"@ && final(self).nodes@ == old(self).nodes@
            }),
    {
        self.add_pin(node_id, false)
    }

    /// Remove the pin at `idx` of one side of an organizer, or of a sink's
    /// inputs, after deleting the first link touching it.
    fn remove_pin(&mut self, node_id: u64, input: bool, idx: usize) -> (r: Result<(), String>)
        ensures
            final(self).next_id == old(self).next_id,
            node_index(old(self).nodes@, node_id) is None ==> (r matches Err(e) && e@ == "Node "@ + int_to_decimal(
                node_id as int,
            ) + " not found"@ && *final(self) == *old(self)),
            node_index(old(self).nodes@, node_id) matches Some(i) ==> if !pins_editable(old(self).nodes@[i], input) {
                r matches Err(e) && e@ == (if input {
                    "Unsupported node kind for remove input"@
                } else {
                    "Unsupported node kind for remove output"@
                }) && *final(self) == *old(self)
            } else if idx >= old(self).nodes@[i].side(input).len() {
                r matches Err(e) && e@ == (if input {
                    "Input index out of range"@
                } else {
                    "Output index out of range"@
                }) && *final(self) == *old(self)
            } else {
                r is Ok && exists|mid: Seq<AppNode>|
                    #[trigger] pin_link_deleted(
                        old(self).nodes@,
                        old(self).links@,
                        old(self).nodes@[i].side(input)[idx as int].id,
                        mid,
                        final(self).links@,
                    ) && final(self).nodes@.len() == mid.len() && (forall|m: int|
                        0 <= m < mid.len() && m != i ==> #[trigger] final(self).nodes@[m] == mid[m]) && pin_removed(
                        mid[i],
                        final(self).nodes@[i],
                        input,
                        idx as int,
                    )
            },
    {
        let ni = match self.find_node_index(node_id) {
            Some(i) => i,
            None => {
                return Err(node_not_found(node_id));
            },
        };
        let editable = match &self.nodes[ni] {
            AppNode::Organizer(_) => true,
            AppNode::Sink(_) => input,
            _ => false,
        };
        if !editable {
            if input {
                return Err("Unsupported node kind for remove input".to_owned());
            } else {
                return Err("Unsupported node kind for remove output".to_owned());
            }
        }
        if idx >= self.nodes[ni].side_len(input) {
            if input {
                return Err("Input index out of range".to_owned());
            } else {
                return Err("Output index out of range".to_owned());
            }
        }
        let pid = self.nodes[ni].pin(input, idx).id;
        let ghost a = self.nodes@;
        let ghost links = self.links@;
        match self.find_link_by_pin(pid) {
            Some(l) => {
                let lid = l.id;
                proof {
                    let k = choose|k: int| 0 <= k < links.len() && links[k] == *l && is_first_link(links, pid, k);
                    assert(links[k].id == lid);
                    assert(has_link_id(links, lid));
                }
                match self.delete_link(lid) {
                    Ok(()) => {},
                    Err(e) => {
                        return Err(e);
                    },
                }
                proof {
                    let k0 = choose|k: int| 0 <= k < links.len() && links[k] == *l && is_first_link(links, pid, k);
                    assert(is_first_link(links, pid, k0));
                    assert forall|k: int| #[trigger] is_first_link(links, pid, k) implies k == k0 by {
                        lemma_first_link_unique(links, pid, k, k0);
                    }
                    let (k, mid) = choose|k: int, mid: Seq<AppNode>|
                        #![trigger first_with_id(links, lid, k), unlinked(a, mid, links[k].start_pin_id)]
                        first_with_id(links, lid, k) && self.links@ == links.remove(k) && unlinked(a, mid, links[k].start_pin_id)
                            && unlinked(mid, self.nodes@, links[k].end_pin_id);
                    lemma_unlinked_link_only(a, mid, links[k].start_pin_id);
                    lemma_unlinked_link_only(mid, self.nodes@, links[k].end_pin_id);
                    lemma_link_only_trans(a, mid, self.nodes@);
                    assert(pin_link_deleted(a, links, pid, self.nodes@, self.links@));
                }
            },
            None => {
                proof {
                    lemma_link_only_refl(a);
                    assert forall|k: int| !#[trigger] is_first_link(links, pid, k) by {}
                }
            },
        }
        let ghost mid = self.nodes@;
        proof {
            assert(mid[ni as int].same_settings(a[ni as int]));
            assert(mid[ni as int].side(input).len() == a[ni as int].side(input).len());
        }
        match &mut self.nodes[ni] {
            AppNode::Organizer(o) => {
                if input {
                    o.base.ins.remove(idx);
                } else {
                    o.base.outs.remove(idx);
                }
            },
            AppNode::Sink(k) => {
                k.base.ins.remove(idx);
            },
            _ => {},
        }
        proof {
            assert(pin_link_deleted(a, links, pid, mid, self.links@));
        }
        Ok(())
    }

    /// Remove the input pin at `idx` of an organizer or a sink, after deleting
    /// the first link touching it.
    pub fn remove_input_pin_from_node(&mut self, node_id: u64, idx: usize) -> (r: Result<(), String>)
        ensures
            final(self).next_id == old(self).next_id,
            node_index(old(self).nodes@, node_id) is None ==> (r matches Err(e) && e@ == "Node "@ + int_to_decimal(
                node_id as int,
            ) + " not found"@ && *final(self) == *old(self)),
            node_index(old(self).nodes@, node_id) matches Some(i) ==> if !pins_editable(old(self).nodes@[i], true) {
                r matches Err(e) && e@ == "Unsupported node kind for remove input"@ && *final(self) == *old(self)
            } else if idx >= old(self).nodes@[i].ins().len() {
                r matches Err(e) && e@ == "Input index out of range"@ && *final(self) == *old(self)
            } else {
                r is Ok && exists|mid: Seq<AppNode>|
                    #[trigger] pin_link_deleted(
                        old(self).nodes@,
                        old(self).links@,
                        old(self).nodes@[i].ins()[idx as int].id,
                        mid,
                        final(self).links@,
                    ) && final(self).nodes@.len() == mid.len() && (forall|m: int|
                        0 <= m < mid.len() && m != i ==> #[trigger] final(self).nodes@[m] == mid[m]) && pin_removed(
                        mid[i],
                        final(self).nodes@[i],
                        true,
                        idx as int,
                    )
            },
    {
        self.remove_pin(node_id, true, idx)
    }

    /// Remove the output pin at `idx` of an organizer, after deleting the
    /// first link touching it.
    pub fn remove_output_pin_from_node(&mut self, node_id: u64, idx: usize) -> (r: Result<(), String>)
        ensures
            final(self).next_id == old(self).next_id,
            node_index(old(self).nodes@, node_id) is None ==> (r matches Err(e) && e@ == "Node "@ + int_to_decimal(
                node_id as int,
            ) + " not found"@ && *final(self) == *old(self)),
            node_index(old(self).nodes@, node_id) matches Some(i) ==> if !pins_editable(old(self).nodes@[i], false) {
                r matches Err(e) && e@ == "Unsupported node kind for remove output"@ && *final(self) == *old(self)
            } else if idx >= old(self).nodes@[i].outs().len() {
                r matches Err(e) && e@ == "Output index out of range"@ && *final(self) == *old(self)
            } else {
                r is Ok && exists|mid: Seq<AppNode>|
                    #[trigger] pin_link_deleted(
                        old(self).nodes@,
                        old(self).links@,
                        old(self).nodes@[i].outs()[idx as int].id,
                        mid,
                        final(self).links@,
                    ) && final(self).nodes@.len() == mid.len() && (forall|m: int|
                        0 <= m < mid.len() && m != i ==> #[trigger] final(self).nodes@[m] == mid[m]) && pin_removed(
                        mid[i],
                        final(self).nodes@[i],
                        false,
                        idx as int,
                    )
            },
    {
        self.remove_pin(node_id, false, idx)
    }

    /// Move a node; `pos` holds the bit patterns of the two coordinates.
    pub fn set_node_position(&mut self, node_id: u64, pos: (u32, u32)) -> (r: Result<(), String>)
        ensures
            final(self).links@ == old(self).links@,
            final(self).next_id == old(self).next_id,
            node_index(old(self).nodes@, node_id) is None ==> (r matches Err(e) && e@ == "Node "@ + int_to_decimal(
                node_id as int,
            ) + " not found"@ && *final(self) == *old(self)),
            node_index(old(self).nodes@, node_id) matches Some(i) ==> r is Ok && final(self).nodes@ == old(self).nodes@.update(
                i,
                with_position(old(self).nodes@[i], pos),
            ),
    {
        let ni = match self.find_node_index(node_id) {
            Some(i) => i,
            None => {
                return Err(node_not_found(node_id));
            },
        };
        match &mut self.nodes[ni] {
            AppNode::Craft(c) => c.base.position = pos,
            AppNode::Organizer(o) => o.base.position = pos,
            AppNode::Group(g) => g.base.position = pos,
            AppNode::Sink(k) => k.base.position = pos,
        }
        Ok(())
    }
}

} // verus!
