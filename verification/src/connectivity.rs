//! Which pins are connected: through links, and through the pins of a node
//! whose pins all carry one flow.
use vstd::prelude::*;
use crate::app_node::AppNode;
use crate::link::Link;
use crate::node::NodeKind;
use crate::production_app::{ProductionApp, pin_loc, node_has_pin, side_has_pin, is_first_link};

verus! {

broadcast use vstd::seq_lib::group_seq_properties;

/// Whether the pins of this node are joined to one another: for crafting
/// nodes, groups and game splitters; not for mergers, custom splitters and
/// sinks, whose pins carry independent flows.
pub open spec fn joins_all(node: AppNode) -> bool {
    match node {
        AppNode::Craft(_) => true,
        AppNode::Group(_) => true,
        AppNode::Organizer(n) => !(n.base.kind == NodeKind::Merger || n.base.kind
            == NodeKind::CustomSplitter),
        AppNode::Sink(_) => false,
    }
}

/// A link joins the two pins.
pub open spec fn linked(links: Seq<Link>, a: u64, b: u64) -> bool {
    exists|k: int|
        0 <= k < links.len() && ((#[trigger] links[k].start_pin_id == a && links[k].end_pin_id
            == b) || (links[k].end_pin_id == a && links[k].start_pin_id == b))
}

/// One step of connection from pin `a` to pin `b`.
pub open spec fn joined(nodes: Seq<AppNode>, links: Seq<Link>, a: u64, b: u64) -> bool {
    linked(links, a, b) || (pin_loc(nodes, a) matches Some(l) && joins_all(nodes[l.0])
        && node_has_pin(nodes[l.0], b))
}

/// The other end of a link, seen from pin `a`.
pub open spec fn other_end(l: Link, a: u64) -> u64 {
    if l.start_pin_id == a {
        l.end_pin_id
    } else {
        l.start_pin_id
    }
}

/// One step of the pins that a rate change at pin `a` reaches: every pin of
/// the node holding `a`, and the other end of the first link at `a`.
pub open spec fn prop_joined(nodes: Seq<AppNode>, links: Seq<Link>, a: u64, b: u64) -> bool {
    (pin_loc(nodes, a) matches Some(l) && node_has_pin(nodes[l.0], b)) || exists|k: int|
        #[trigger] is_first_link(links, a, k) && b == other_end(links[k], a)
}

/// One step: `joined` for the editor's connectivity, `prop_joined` for propagation.
pub open spec fn step(nodes: Seq<AppNode>, links: Seq<Link>, editor: bool, a: u64, b: u64) -> bool {
    if editor {
        joined(nodes, links, a, b)
    } else {
        prop_joined(nodes, links, a, b)
    }
}

/// `t` is reached from `s` in at most `n` steps.
pub open spec fn reach_n(
    nodes: Seq<AppNode>,
    links: Seq<Link>,
    editor: bool,
    s: u64,
    t: u64,
    n: nat,
) -> bool
    decreases n,
{
    if n == 0 {
        s == t
    } else {
        reach_n(nodes, links, editor, s, t, (n - 1) as nat) || exists|m: u64|
            reach_n(nodes, links, editor, s, m, (n - 1) as nat) && #[trigger] step(
                nodes,
                links,
                editor,
                m,
                t,
            )
    }
}

/// `t` is reached from `s`.
pub open spec fn reaches(nodes: Seq<AppNode>, links: Seq<Link>, editor: bool, s: u64, t: u64) -> bool {
    exists|n: nat| #[trigger] reach_n(nodes, links, editor, s, t, n)
}

/// `t` is connected to `s` in the editor's sense.
pub open spec fn connected(nodes: Seq<AppNode>, links: Seq<Link>, s: u64, t: u64) -> bool {
    reaches(nodes, links, true, s, t)
}

pub proof fn lemma_reaches_refl(nodes: Seq<AppNode>, links: Seq<Link>, editor: bool, s: u64)
    ensures
        reaches(nodes, links, editor, s, s),
{
    assert(reach_n(nodes, links, editor, s, s, 0));
}

pub proof fn lemma_reaches_step(
    nodes: Seq<AppNode>,
    links: Seq<Link>,
    editor: bool,
    s: u64,
    a: u64,
    b: u64,
)
    requires
        reaches(nodes, links, editor, s, a),
        step(nodes, links, editor, a, b),
    ensures
        reaches(nodes, links, editor, s, b),
{
    let n = choose|n: nat| #[trigger] reach_n(nodes, links, editor, s, a, n);
    assert(reach_n(nodes, links, editor, s, b, n + 1));
}

/// `r` is exactly the set of pins reached from `s`, without repetition.
pub open spec fn is_closure(
    nodes: Seq<AppNode>,
    links: Seq<Link>,
    editor: bool,
    s: u64,
    r: Seq<u64>,
) -> bool {
    &&& r.no_duplicates()
    &&& r.contains(s)
    &&& forall|a: u64, b: u64|
        r.contains(a) && #[trigger] step(nodes, links, editor, a, b) ==> r.contains(b)
    &&& forall|a: u64| #[trigger] r.contains(a) ==> reaches(nodes, links, editor, s, a)
}

/// `r` is exactly the set of pins connected to `s` in the editor's sense.
pub open spec fn is_component(nodes: Seq<AppNode>, links: Seq<Link>, s: u64, r: Seq<u64>) -> bool {
    is_closure(nodes, links, true, s, r)
}

/// A closed set holding `s` holds everything reached from `s`.
pub proof fn lemma_closed_holds_reach(
    nodes: Seq<AppNode>,
    links: Seq<Link>,
    editor: bool,
    s: u64,
    r: Seq<u64>,
    t: u64,
    n: nat,
)
    requires
        r.contains(s),
        forall|a: u64, b: u64|
            r.contains(a) && #[trigger] step(nodes, links, editor, a, b) ==> r.contains(b),
        reach_n(nodes, links, editor, s, t, n),
    ensures
        r.contains(t),
    decreases n,
{
    if n > 0 {
        if reach_n(nodes, links, editor, s, t, (n - 1) as nat) {
            lemma_closed_holds_reach(nodes, links, editor, s, r, t, (n - 1) as nat);
        } else {
            let m = choose|m: u64|
                reach_n(nodes, links, editor, s, m, (n - 1) as nat) && #[trigger] step(
                    nodes,
                    links,
                    editor,
                    m,
                    t,
                );
            lemma_closed_holds_reach(nodes, links, editor, s, r, m, (n - 1) as nat);
        }
    }
}

/// The members of a closure are exactly the pins reached from its start.
pub proof fn lemma_closure_exact(
    nodes: Seq<AppNode>,
    links: Seq<Link>,
    editor: bool,
    s: u64,
    r: Seq<u64>,
    t: u64,
)
    requires
        is_closure(nodes, links, editor, s, r),
    ensures
        r.contains(t) <==> reaches(nodes, links, editor, s, t),
{
    if reaches(nodes, links, editor, s, t) {
        let n = choose|n: nat| #[trigger] reach_n(nodes, links, editor, s, t, n);
        lemma_closed_holds_reach(nodes, links, editor, s, r, t, n);
    }
}

/// The members of a component are exactly the pins connected to its start.
pub proof fn lemma_component_exact(nodes: Seq<AppNode>, links: Seq<Link>, s: u64, r: Seq<u64>, t: u64)
    requires
        is_component(nodes, links, s, r),
    ensures
        r.contains(t) <==> connected(nodes, links, s, t),
{
    lemma_closure_exact(nodes, links, true, s, r, t);
}

/// Append `x` unless it is present.
pub fn push_new(v: &mut Vec<u64>, x: u64)
    ensures
        old(v)@.contains(x) ==> final(v)@ == old(v)@,
        !old(v)@.contains(x) ==> final(v)@ == old(v)@.push(x),
        final(v)@.contains(x),
{
    let mut i: usize = 0;
    while i < v.len()
        invariant
            0 <= i <= v.len(),
            forall|j: int| 0 <= j < i ==> v@[j] != x,
        decreases v.len() - i,
    {
        if v[i] == x {
            assert(v@.contains(x));
            return;
        }
        i += 1;
    }
    assert(!v@.contains(x));
    v.push(x);
    assert(v@[v@.len() - 1] == x);
}

/// Whether `v` holds `x`.
pub fn vec_contains(v: &Vec<u64>, x: u64) -> (r: bool)
    ensures
        r == v@.contains(x),
{
    let mut i: usize = 0;
    while i < v.len()
        invariant
            0 <= i <= v.len(),
            forall|j: int| 0 <= j < i ==> v@[j] != x,
        decreases v.len() - i,
    {
        if v[i] == x {
            return true;
        }
        i += 1;
    }
    false
}

/// Both ends of the link are in `r`.
pub open spec fn link_ends_in(l: Link, r: Seq<u64>) -> bool {
    r.contains(l.start_pin_id) && r.contains(l.end_pin_id)
}

/// Every pin id held by a node, every link end, and `s`.
pub open spec fn in_universe(nodes: Seq<AppNode>, links: Seq<Link>, s: u64, x: u64) -> bool {
    x == s || (exists|n: int| 0 <= n < nodes.len() && #[trigger] node_has_pin(nodes[n], x)) || (
    exists|k: int|
        0 <= k < links.len() && (#[trigger] links[k].start_pin_id == x || links[k].end_pin_id
            == x))
}

impl ProductionApp {
    /// A list holding every pin id of the graph, every link end, and `s`.
    fn universe(&self, s: u64) -> (r: Vec<u64>)
        ensures
            forall|x: u64| in_universe(self.nodes@, self.links@, s, x) ==> r@.contains(x),
    {
        let mut r: Vec<u64> = Vec::new();
        r.push(s);
        let mut n: usize = 0;
        while n < self.nodes.len()
            invariant
                0 <= n <= self.nodes.len(),
                r@.contains(s),
                forall|m: int, x: u64| 0 <= m < n && #[trigger] node_has_pin(self.nodes@[m], x) ==> r@.contains(x),
            decreases self.nodes.len() - n,
        {
            let node = &self.nodes[n];
            let mut side: usize = 0;
            while side < 2
                invariant
                    0 <= side <= 2,
                    n < self.nodes.len(),
                    *node == self.nodes@[n as int],
                    r@.contains(s),
                    forall|m: int, x: u64| 0 <= m < n && #[trigger] node_has_pin(self.nodes@[m], x) ==> r@.contains(x),
                    side >= 1 ==> forall|x: u64| side_has_pin(self.nodes@[n as int], true, x) ==> r@.contains(x),
                    side >= 2 ==> forall|x: u64| side_has_pin(self.nodes@[n as int], false, x) ==> r@.contains(x),
                decreases 2 - side,
            {
                let input = side == 0;
                let len = node.side_len(input);
                let mut j: usize = 0;
                while j < len
                    invariant
                        0 <= j <= len,
                        len == self.nodes@[n as int].side(input).len(),
                        n < self.nodes.len(),
                        *node == self.nodes@[n as int],
                        r@.contains(s),
                        forall|m: int, x: u64| 0 <= m < n && #[trigger] node_has_pin(self.nodes@[m], x) ==> r@.contains(x),
                        side >= 1 ==> forall|x: u64| side_has_pin(self.nodes@[n as int], true, x) ==> r@.contains(x),
                        forall|t: int| 0 <= t < j ==> r@.contains(#[trigger] self.nodes@[n as int].side(input)[t].id),
                    decreases len - j,
                {
                    r.push(node.pin(input, j).id);
                    j += 1;
                }
                assert forall|x: u64| side_has_pin(self.nodes@[n as int], input, x) implies r@.contains(x) by {
                    let t = choose|t: int| 0 <= t < self.nodes@[n as int].side(input).len() && (#[trigger] self.nodes@[n as int].side(input)[t]).id == x;
                }
                side += 1;
            }
            n += 1;
        }
        let mut k: usize = 0;
        while k < self.links.len()
            invariant
                0 <= k <= self.links.len(),
                r@.contains(s),
                forall|m: int, x: u64| 0 <= m < self.nodes@.len() && #[trigger] node_has_pin(self.nodes@[m], x) ==> r@.contains(x),
                forall|j: int| 0 <= j < k ==> link_ends_in(#[trigger] self.links@[j], r@),
            decreases self.links.len() - k,
        {
            let ghost r0 = r@;
            r.push(self.links[k].start_pin_id);
            r.push(self.links[k].end_pin_id);
            assert(r@[r@.len() - 2] == self.links@[k as int].start_pin_id);
            assert(r@[r@.len() - 1] == self.links@[k as int].end_pin_id);
            assert(r@.contains(self.links@[k as int].start_pin_id));
            assert(r@.contains(self.links@[k as int].end_pin_id));
            assert(link_ends_in(self.links@[k as int], r@));
            assert forall|j: int| 0 <= j < k implies link_ends_in(#[trigger] self.links@[j], r@) by {
                assert(link_ends_in(self.links@[j], r0));
                assert(r0.contains(self.links@[j].start_pin_id));
                assert(r0.contains(self.links@[j].end_pin_id));
                let i = choose|i: int| 0 <= i < r0.len() && r0[i] == self.links@[j].start_pin_id;
                assert(r@[i] == r0[i]);
                let i2 = choose|i: int| 0 <= i < r0.len() && r0[i] == self.links@[j].end_pin_id;
                assert(r@[i2] == r0[i2]);
            }
            assert forall|y: u64| r0.contains(y) implies r@.contains(y) by {
                let i = choose|i: int| 0 <= i < r0.len() && r0[i] == y;
                assert(r@[i] == y);
            }
            k += 1;
        }
        r
    }

    /// All pins connected to a pin, through links and through the pins of
    /// crafting nodes, groups and game splitters (not of mergers, custom
    /// splitters and sinks, whose pins carry independent flows).
    pub fn get_connected_pins(&self, start_pin_id: u64) -> (r: Vec<u64>)
        ensures
            is_component(self.nodes@, self.links@, start_pin_id, r@),
    {
        self.closure(start_pin_id, true)
    }

    /// The pins reached from a pin by `step`.
    pub fn closure(&self, start_pin_id: u64, editor: bool) -> (r: Vec<u64>)
        ensures
            is_closure(self.nodes@, self.links@, editor, start_pin_id, r@),
    {
        let ghost nodes = self.nodes@;
        let ghost links = self.links@;
        let ghost s = start_pin_id;
        let universe = self.universe(start_pin_id);
        let mut visited: Vec<u64> = Vec::new();
        visited.push(start_pin_id);
        proof {
            lemma_reaches_refl(nodes, links, editor, start_pin_id);
            assert(visited@[0] == start_pin_id);
        }
        let mut head: usize = 0;
        while head < visited.len()
            invariant
                nodes == self.nodes@,
                links == self.links@,
                forall|x: u64| in_universe(nodes, links, s, x) ==> universe@.contains(x),
                0 <= head <= visited@.len(),
                visited@.no_duplicates(),
                visited@.contains(s),
                forall|x: u64| #[trigger] visited@.contains(x) ==> in_universe(nodes, links, s, x),
                forall|x: u64| #[trigger] visited@.contains(x) ==> reaches(nodes, links, editor, s, x),
                forall|i: int, b: u64|
                    0 <= i < head && #[trigger] step(nodes, links, editor, visited@[i], b)
                        ==> visited@.contains(b),
            decreases universe@.len() - head,
        {
            proof {
                visited@.unique_seq_to_set();
                vstd::set_lib::lemma_len_subset(visited@.to_set(), universe@.to_set());
                universe@.lemma_cardinality_of_set();
            }
            let a = visited[head];
            assert(visited@.contains(a));
            let mut k: usize = 0;
            while editor && k < self.links.len()
                invariant
                    nodes == self.nodes@,
                    links == self.links@,
                    head < visited@.len(),
                    a == visited@[head as int],
                    visited@.contains(a),
                    visited@.no_duplicates(),
                    visited@.contains(s),
                    forall|x: u64| #[trigger] visited@.contains(x) ==> in_universe(nodes, links, s, x),
                    forall|x: u64| #[trigger] visited@.contains(x) ==> reaches(nodes, links, editor, s, x),
                    forall|i: int, b: u64|
                        0 <= i < head && #[trigger] step(nodes, links, editor, visited@[i], b)
                            ==> visited@.contains(b),
                    0 <= k <= links.len(),
                    forall|j: int|
                        0 <= j < k ==> (#[trigger] links[j].start_pin_id == a ==> visited@.contains(
                            links[j].end_pin_id,
                        )) && (links[j].end_pin_id == a ==> visited@.contains(links[j].start_pin_id)),
                decreases links.len() - k,
            {
                let l = self.links[k];
                if l.start_pin_id == a {
                    proof {
                        assert(joined(nodes, links, a, l.end_pin_id));
                        lemma_reaches_step(nodes, links, editor, s, a, l.end_pin_id);
                    }
                    push_new(&mut visited, l.end_pin_id);
                } else if l.end_pin_id == a {
                    proof {
                        assert(joined(nodes, links, a, l.start_pin_id));
                        lemma_reaches_step(nodes, links, editor, s, a, l.start_pin_id);
                    }
                    push_new(&mut visited, l.start_pin_id);
                }
                k += 1;
            }
            proof {
                if editor {
                    assert forall|b: u64| linked(links, a, b) implies visited@.contains(b) by {
                        let j = choose|j: int|
                            0 <= j < links.len() && ((#[trigger] links[j].start_pin_id == a
                                && links[j].end_pin_id == b) || (links[j].end_pin_id == a
                                && links[j].start_pin_id == b));
                    }
                }
            }
            if !editor {
                match self.find_link_by_pin(a) {
                    Some(l) => {
                        let other = if l.start_pin_id == a {
                            l.end_pin_id
                        } else {
                            l.start_pin_id
                        };
                        proof {
                            let k0 = choose|k0: int|
                                0 <= k0 < links.len() && links[k0] == *l && is_first_link(links, a, k0);
                            assert(prop_joined(nodes, links, a, other));
                            assert(in_universe(nodes, links, s, other));
                            lemma_reaches_step(nodes, links, editor, s, a, other);
                        }
                        push_new(&mut visited, other);
                        proof {
                            assert forall|k1: int|
                                #[trigger] is_first_link(links, a, k1)
                                    implies visited@.contains(other_end(links[k1], a)) by {
                                let k0 = choose|k0: int|
                                    0 <= k0 < links.len() && links[k0] == *l && is_first_link(links, a, k0);
                                if k1 < k0 {
                                    assert(!crate::production_app::link_touches(links[k1], a));
                                } else if k0 < k1 {
                                    assert(!crate::production_app::link_touches(links[k0], a));
                                }
                            }
                        }
                    },
                    None => {},
                }
            }
            let ghost links_done = visited@;
            proof {
                assert(!editor ==> forall|k1: int|
                    #[trigger] is_first_link(links, a, k1) ==> visited@.contains(other_end(links[k1], a)));
            }
            match self.locate_pin(a) {
                Some((n, _, _)) => {
                    let node = &self.nodes[n];
                    let joins = !editor || match node {
                        AppNode::Craft(_) => true,
                        AppNode::Group(_) => true,
                        AppNode::Organizer(o) => !(o.base.kind == NodeKind::Merger || o.base.kind
                            == NodeKind::CustomSplitter),
                        AppNode::Sink(_) => false,
                    };
                    if joins {
                        let mut side: usize = 0;
                        while side < 2
                            invariant
                                nodes == self.nodes@,
                                links == self.links@,
                                n < nodes.len(),
                                *node == nodes[n as int],
                                pin_loc(nodes, a) matches Some(l) && l.0 == n,
                                editor ==> joins_all(nodes[n as int]),
                                head < visited@.len(),
                                a == visited@[head as int],
                                visited@.contains(a),
                                visited@.no_duplicates(),
                                visited@.contains(s),
                                forall|x: u64| #[trigger] visited@.contains(x) ==> in_universe(nodes, links, s, x),
                                forall|x: u64| #[trigger] visited@.contains(x) ==> reaches(nodes, links, editor, s, x),
                                forall|i: int, b: u64|
                                    0 <= i < head && #[trigger] step(nodes, links, editor, visited@[i], b)
                                        ==> visited@.contains(b),
                                forall|x: u64| #[trigger] links_done.contains(x) ==> visited@.contains(x),
                                0 <= side <= 2,
                                side >= 1 ==> forall|x: u64|
                                    side_has_pin(nodes[n as int], true, x) ==> visited@.contains(x),
                                side >= 2 ==> forall|x: u64|
                                    side_has_pin(nodes[n as int], false, x) ==> visited@.contains(x),
                            decreases 2 - side,
                        {
                            let input = side == 0;
                            let len = node.side_len(input);
                            let mut j: usize = 0;
                            while j < len
                                invariant
                                    nodes == self.nodes@,
                                    links == self.links@,
                                    n < nodes.len(),
                                    *node == nodes[n as int],
                                    len == nodes[n as int].side(input).len(),
                                    pin_loc(nodes, a) matches Some(l) && l.0 == n,
                                    editor ==> joins_all(nodes[n as int]),
                                    head < visited@.len(),
                                    a == visited@[head as int],
                                    visited@.contains(a),
                                    visited@.no_duplicates(),
                                    visited@.contains(s),
                                    forall|x: u64| #[trigger] visited@.contains(x) ==> in_universe(nodes, links, s, x),
                                    forall|x: u64| #[trigger] visited@.contains(x) ==> reaches(nodes, links, editor, s, x),
                                    forall|i: int, b: u64|
                                        0 <= i < head && #[trigger] step(nodes, links, editor, visited@[i], b)
                                            ==> visited@.contains(b),
                                    forall|x: u64| #[trigger] links_done.contains(x) ==> visited@.contains(x),
                                    side >= 1 ==> forall|x: u64|
                                        side_has_pin(nodes[n as int], true, x) ==> visited@.contains(x),
                                    0 <= j <= len,
                                    forall|t: int|
                                        0 <= t < j ==> visited@.contains(
                                            #[trigger] nodes[n as int].side(input)[t].id,
                                        ),
                                decreases len - j,
                            {
                                let b = node.pin(input, j).id;
                                proof {
                                    assert(side_has_pin(nodes[n as int], input, b));
                                    assert(node_has_pin(nodes[n as int], b));
                                    assert(step(nodes, links, editor, a, b));
                                    assert(in_universe(nodes, links, s, b));
                                    lemma_reaches_step(nodes, links, editor, s, a, b);
                                }
                                push_new(&mut visited, b);
                                j += 1;
                            }
                            assert forall|x: u64| side_has_pin(nodes[n as int], input, x) implies visited@.contains(x) by {
                                let t = choose|t: int|
                                    0 <= t < nodes[n as int].side(input).len()
                                        && (#[trigger] nodes[n as int].side(input)[t]).id == x;
                            }
                            side += 1;
                        }
                    }
                },
                None => {},
            }
            assert forall|b: u64| step(nodes, links, editor, a, b) implies visited@.contains(b) by {
                if editor {
                    if linked(links, a, b) {
                        assert(links_done.contains(b));
                    }
                } else {
                    if exists|k1: int| #[trigger] is_first_link(links, a, k1) && b == other_end(links[k1], a) {
                        let k1 = choose|k1: int| #[trigger] is_first_link(links, a, k1) && b == other_end(links[k1], a);
                        assert(links_done.contains(other_end(links[k1], a)));
                    }
                }
            }
            head += 1;
        }
        visited
    }
}

} // verus!
