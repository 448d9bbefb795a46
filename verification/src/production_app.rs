//! The production graph: nodes, links between pins, and the operations of the
//! editor on them.
use vstd::prelude::*;
use crate::app_node::{AppNode, PinUpdate, updated_pin};
use crate::link::Link;
use crate::pin::{Pin, PinDirection};
use crate::node::NodeKind;
use crate::fractional_number::{FractionalNumber, fraction_text};

verus! {

/// Main production app that manages the graph of nodes and links.
#[derive(Debug)]
pub struct ProductionApp {
    /// All nodes in the graph.
    pub nodes: Vec<AppNode>,
    /// All links in the graph.
    pub links: Vec<Link>,
    /// Next available id for nodes, links and pins.
    pub next_id: u64,
}

/// `i` is the first node with the given id.
pub open spec fn is_first_node(nodes: Seq<AppNode>, id: u64, i: int) -> bool {
    &&& 0 <= i < nodes.len()
    &&& nodes[i].id() == id
    &&& forall|j: int| 0 <= j < i ==> (#[trigger] nodes[j]).id() != id
}

/// Index of the first node with the given id.
pub open spec fn node_index(nodes: Seq<AppNode>, id: u64) -> Option<int> {
    if exists|i: int| is_first_node(nodes, id, i) {
        Some(choose|i: int| is_first_node(nodes, id, i))
    } else {
        None
    }
}

pub proof fn lemma_first_node_unique(nodes: Seq<AppNode>, id: u64, i: int)
    requires
        is_first_node(nodes, id, i),
    ensures
        node_index(nodes, id) == Some(i),
{
    let k = choose|k: int| is_first_node(nodes, id, k);
    assert(is_first_node(nodes, id, k));
    if k < i {
        assert(nodes[k].id() != id);
    } else if i < k {
        assert(nodes[i].id() != id);
    }
}

pub proof fn lemma_no_node(nodes: Seq<AppNode>, id: u64)
    requires
        forall|j: int| 0 <= j < nodes.len() ==> (#[trigger] nodes[j]).id() != id,
    ensures
        node_index(nodes, id) is None,
{
}

/// One side of a node holds a pin with this id.
pub open spec fn side_has_pin(node: AppNode, input: bool, pid: u64) -> bool {
    exists|j: int| 0 <= j < node.side(input).len() && (#[trigger] node.side(input)[j]).id == pid
}

/// The node holds a pin with this id.
pub open spec fn node_has_pin(node: AppNode, pid: u64) -> bool {
    side_has_pin(node, true, pid) || side_has_pin(node, false, pid)
}

/// `(n, input, i)` is where a search finds the pin: the first node holding it,
/// its inputs before its outputs, the first index.
pub open spec fn is_pin_loc(nodes: Seq<AppNode>, pid: u64, n: int, input: bool, i: int) -> bool {
    &&& 0 <= n < nodes.len()
    &&& forall|m: int| 0 <= m < n ==> !node_has_pin(#[trigger] nodes[m], pid)
    &&& 0 <= i < nodes[n].side(input).len()
    &&& nodes[n].side(input)[i].id == pid
    &&& forall|j: int| 0 <= j < i ==> (#[trigger] nodes[n].side(input)[j]).id != pid
    &&& !input ==> !side_has_pin(nodes[n], true, pid)
}

/// Where the pin is found, if any node holds it.
pub open spec fn pin_loc(nodes: Seq<AppNode>, pid: u64) -> Option<(int, bool, int)> {
    if exists|l: (int, bool, int)| is_pin_loc(nodes, pid, l.0, l.1, l.2) {
        Some(choose|l: (int, bool, int)| is_pin_loc(nodes, pid, l.0, l.1, l.2))
    } else {
        None
    }
}

/// The pin at a location.
pub open spec fn pin_at(nodes: Seq<AppNode>, l: (int, bool, int)) -> Pin {
    nodes[l.0].side(l.1)[l.2]
}

pub proof fn lemma_pin_loc_unique(nodes: Seq<AppNode>, pid: u64, n: int, input: bool, i: int)
    requires
        is_pin_loc(nodes, pid, n, input, i),
    ensures
        pin_loc(nodes, pid) == Some((n, input, i)),
{
    assert(is_pin_loc(nodes, pid, (n, input, i).0, (n, input, i).1, (n, input, i).2));
    let l = choose|l: (int, bool, int)| is_pin_loc(nodes, pid, l.0, l.1, l.2);
    assert(is_pin_loc(nodes, pid, l.0, l.1, l.2));
    if l.0 < n {
        assert(node_has_pin(nodes[l.0], pid)) by {
            assert(nodes[l.0].side(l.1)[l.2].id == pid);
        }
    } else if n < l.0 {
        assert(node_has_pin(nodes[n], pid)) by {
            assert(nodes[n].side(input)[i].id == pid);
        }
    } else if l.1 != input {
        if input {
            assert(side_has_pin(nodes[n], true, pid)) by {
                assert(nodes[n].side(true)[i].id == pid);
            }
        } else {
            assert(side_has_pin(nodes[n], true, pid)) by {
                assert(nodes[n].side(true)[l.2].id == pid);
            }
        }
    } else if l.2 < i {
        assert(nodes[n].side(input)[l.2].id != pid);
    } else if i < l.2 {
        assert(nodes[n].side(input)[i].id != pid);
    }
}


/// The link starts or ends at the pin.
pub open spec fn link_touches(l: Link, pid: u64) -> bool {
    l.start_pin_id == pid || l.end_pin_id == pid
}

/// `k` is the first link that touches the pin.
pub open spec fn is_first_link(links: Seq<Link>, pid: u64, k: int) -> bool {
    &&& 0 <= k < links.len()
    &&& link_touches(links[k], pid)
    &&& forall|j: int| 0 <= j < k ==> !link_touches(#[trigger] links[j], pid)
}


/// `new` is `old` with one field of the pin at `l` changed.
pub open spec fn pin_updated(old: Seq<AppNode>, new: Seq<AppNode>, l: (int, bool, int), u: PinUpdate) -> bool {
    &&& new.len() == old.len()
    &&& forall|m: int| 0 <= m < old.len() && m != l.0 ==> #[trigger] new[m] == old[m]
    &&& new[l.0].same_settings(old[l.0])
    &&& new[l.0].side(l.1) == old[l.0].side(l.1).update(l.2, updated_pin(old[l.0].side(l.1)[l.2], u))
    &&& new[l.0].side(!l.1) == old[l.0].side(!l.1)
}


/// Two node lists with the same pin ids in the same places.
pub open spec fn same_pin_ids(a: Seq<AppNode>, b: Seq<AppNode>) -> bool {
    &&& a.len() == b.len()
    &&& forall|n: int, input: bool|
        0 <= n < a.len() ==> (#[trigger] a[n].side(input)).len() == b[n].side(input).len()
    &&& forall|n: int, input: bool, j: int|
        0 <= n < a.len() && 0 <= j < a[n].side(input).len() ==> (#[trigger] a[n].side(input)[j]).id
            == b[n].side(input)[j].id
}

proof fn lemma_same_ids_loc(a: Seq<AppNode>, b: Seq<AppNode>, pid: u64, l: (int, bool, int))
    requires
        same_pin_ids(a, b),
        is_pin_loc(a, pid, l.0, l.1, l.2),
    ensures
        is_pin_loc(b, pid, l.0, l.1, l.2),
{
    assert forall|m: int| 0 <= m < l.0 implies !node_has_pin(#[trigger] b[m], pid) by {
        assert(!node_has_pin(a[m], pid));
        if side_has_pin(b[m], true, pid) {
            let j = choose|j: int| 0 <= j < b[m].side(true).len() && (#[trigger] b[m].side(true)[j]).id == pid;
            assert(a[m].side(true)[j].id == pid);
        }
        if side_has_pin(b[m], false, pid) {
            let j = choose|j: int| 0 <= j < b[m].side(false).len() && (#[trigger] b[m].side(false)[j]).id == pid;
            assert(a[m].side(false)[j].id == pid);
        }
    }
    assert(a[l.0].side(l.1)[l.2].id == pid);
    assert forall|j: int| 0 <= j < l.2 implies (#[trigger] b[l.0].side(l.1)[j]).id != pid by {
        assert(a[l.0].side(l.1)[j].id != pid);
    }
    if !l.1 {
        if side_has_pin(b[l.0], true, pid) {
            let j = choose|j: int| 0 <= j < b[l.0].side(true).len() && (#[trigger] b[l.0].side(true)[j]).id == pid;
            assert(a[l.0].side(true)[j].id == pid);
        }
    }
}

/// Lists with the same pin ids locate every pin alike.
pub proof fn lemma_same_ids_pin_loc(a: Seq<AppNode>, b: Seq<AppNode>, pid: u64)
    requires
        same_pin_ids(a, b),
    ensures
        pin_loc(a, pid) == pin_loc(b, pid),
{
    if exists|l: (int, bool, int)| is_pin_loc(a, pid, l.0, l.1, l.2) {
        let l = choose|l: (int, bool, int)| is_pin_loc(a, pid, l.0, l.1, l.2);
        lemma_same_ids_loc(a, b, pid, l);
        lemma_pin_loc_unique(a, pid, l.0, l.1, l.2);
        lemma_pin_loc_unique(b, pid, l.0, l.1, l.2);
    } else if exists|l: (int, bool, int)| is_pin_loc(b, pid, l.0, l.1, l.2) {
        let l = choose|l: (int, bool, int)| is_pin_loc(b, pid, l.0, l.1, l.2);
        assert(same_pin_ids(b, a)) by {
            assert forall|n: int, input: bool, j: int|
                0 <= n < b.len() && 0 <= j < b[n].side(input).len() implies (#[trigger] b[n].side(input)[j]).id
                    == a[n].side(input)[j].id by {
                assert(a[n].side(input).len() == b[n].side(input).len());
                assert(a[n].side(input)[j].id == b[n].side(input)[j].id);
            }
            assert forall|n: int, input: bool| 0 <= n < b.len() implies (#[trigger] b[n].side(input)).len() == a[n].side(input).len() by {
                assert(a[n].side(input).len() == b[n].side(input).len());
            }
        }
        lemma_same_ids_loc(b, a, pid, l);
    }
}

/// The direction of a side.
pub open spec fn dir_of(input: bool) -> PinDirection {
    if input {
        PinDirection::Input
    } else {
        PinDirection::Output
    }
}


/// The text is present and reads `t`.
pub open spec fn text_is(o: Option<String>, t: Seq<char>) -> bool {
    o matches Some(x) && x@ == t
}

/// The item names of some pins.
pub fn pin_item_names(pins: &Vec<Pin>) -> (r: Vec<Option<String>>)
    ensures
        r@.len() == pins@.len(),
        forall|i: int| 0 <= i < pins@.len() ==> #[trigger] r@[i] == pins@[i].item_name,
{
    let mut r: Vec<Option<String>> = Vec::new();
    let mut i: usize = 0;
    while i < pins.len()
        invariant
            0 <= i <= pins.len(),
            r@.len() == i,
            forall|t: int| 0 <= t < i ==> #[trigger] r@[t] == pins@[t].item_name,
        decreases pins.len() - i,
    {
        r.push(pins[i].item_name.clone());
        i += 1;
    }
    r
}

/// The current rates of some pins, as fraction text.
pub fn pin_rate_texts(pins: &Vec<Pin>) -> (r: Vec<Option<String>>)
    ensures
        r@.len() == pins@.len(),
        forall|i: int|
            0 <= i < pins@.len() ==> text_is(#[trigger] r@[i], fraction_text(pins@[i].current_rate@)),
{
    let mut r: Vec<Option<String>> = Vec::new();
    let mut i: usize = 0;
    while i < pins.len()
        invariant
            0 <= i <= pins.len(),
            r@.len() == i,
            forall|t: int|
                0 <= t < i ==> text_is(#[trigger] r@[t], fraction_text(pins@[t].current_rate@)),
        decreases pins.len() - i,
    {
        r.push(Some(pins[i].current_rate.to_fraction_string()));
        i += 1;
    }
    r
}

/// The lock flags of some pins.
pub fn pin_locked_flags(pins: &Vec<Pin>) -> (r: Vec<bool>)
    ensures
        r@.len() == pins@.len(),
        forall|i: int| 0 <= i < pins@.len() ==> #[trigger] r@[i] == pins@[i].locked,
{
    let mut r: Vec<bool> = Vec::new();
    let mut i: usize = 0;
    while i < pins.len()
        invariant
            0 <= i <= pins.len(),
            r@.len() == i,
            forall|t: int| 0 <= t < i ==> #[trigger] r@[t] == pins@[t].locked,
        decreases pins.len() - i,
    {
        r.push(pins[i].locked);
        i += 1;
    }
    r
}

/// The label of an organizer of the given kind.
pub open spec fn organizer_label(kind: NodeKind) -> Seq<char> {
    match kind {
        NodeKind::Merger => "Merger"@,
        NodeKind::CustomSplitter => "Splitter*"@,
        NodeKind::GameSplitter => "Splitter"@,
        _ => "Organizer"@,
    }
}

/// The label shown for a node.
pub open spec fn node_label(node: AppNode) -> Seq<char> {
    match node {
        AppNode::Craft(n) => n.recipe_name@,
        AppNode::Organizer(n) => organizer_label(n.base.kind),
        AppNode::Group(n) => if n.name@.len() == 0 {
            "Group"@
        } else {
            n.name@
        },
        AppNode::Sink(n) => "Sink"@,
    }
}

/// A negative `f64`, by its bit pattern: sign bit set, not zero and not NaN.
pub open spec fn f64_bits_negative(b: u64) -> bool {
    (b >> 63u64) == 1 && (b & 0x7fff_ffff_ffff_ffffu64) != 0 && (b & 0x7fff_ffff_ffff_ffffu64)
        <= 0x7ff0_0000_0000_0000u64
}

impl ProductionApp {
    /// An empty graph whose first id is 1.
    pub fn new() -> (r: Self)
        ensures
            r.nodes@.len() == 0,
            r.links@.len() == 0,
            r.next_id == 1,
    {
        ProductionApp { nodes: Vec::new(), links: Vec::new(), next_id: 1 }
    }

    /// Hand out the next id.
    pub fn get_next_id(&mut self) -> (r: u64)
        requires
            old(self).next_id < u64::MAX,
        ensures
            r == old(self).next_id,
            final(self).next_id == old(self).next_id + 1,
            final(self).nodes@ == old(self).nodes@,
            final(self).links@ == old(self).links@,
    {
        let id = self.next_id;
        self.next_id = self.next_id + 1;
        id
    }

    /// Index of the first node with the given id.
    pub fn find_node_index(&self, node_id: u64) -> (r: Option<usize>)
        ensures
            r matches Some(i) ==> node_index(self.nodes@, node_id) == Some(i as int),
            r is None ==> node_index(self.nodes@, node_id) is None,
    {
        let mut i: usize = 0;
        while i < self.nodes.len()
            invariant
                0 <= i <= self.nodes.len(),
                forall|j: int| 0 <= j < i ==> (#[trigger] self.nodes@[j]).id() != node_id,
            decreases self.nodes.len() - i,
        {
            if self.nodes[i].node_id() == node_id {
                proof {
                    lemma_first_node_unique(self.nodes@, node_id, i as int);
                }
                return Some(i);
            }
            i += 1;
        }
        proof {
            lemma_no_node(self.nodes@, node_id);
        }
        None
    }

    /// Where a pin is: the index of the node holding it, its side and index.
    pub fn locate_pin(&self, pin_id: u64) -> (r: Option<(usize, bool, usize)>)
        ensures
            r matches Some((n, input, i)) ==> pin_loc(self.nodes@, pin_id) == Some(
                (n as int, input, i as int),
            ),
            r is None ==> pin_loc(self.nodes@, pin_id) is None,
    {
        let ghost nodes = self.nodes@;
        let mut n: usize = 0;
        while n < self.nodes.len()
            invariant
                0 <= n <= self.nodes.len(),
                nodes == self.nodes@,
                forall|m: int| 0 <= m < n ==> !node_has_pin(#[trigger] nodes[m], pin_id),
            decreases self.nodes.len() - n,
        {
            let node = &self.nodes[n];
            let ilen = node.side_len(true);
            let mut i: usize = 0;
            while i < ilen
                invariant
                    0 <= i <= ilen,
                    n < nodes.len(),
                    nodes == self.nodes@,
                    forall|m: int| 0 <= m < n ==> !node_has_pin(#[trigger] nodes[m], pin_id),
                    ilen == nodes[n as int].side(true).len(),
                    *node == nodes[n as int],
                    forall|j: int| 0 <= j < i ==> (#[trigger] nodes[n as int].side(true)[j]).id
                        != pin_id,
                decreases ilen - i,
            {
                if node.pin(true, i).id == pin_id {
                    proof {
                        lemma_pin_loc_unique(nodes, pin_id, n as int, true, i as int);
                    }
                    return Some((n, true, i));
                }
                i += 1;
            }
            assert(!side_has_pin(nodes[n as int], true, pin_id));
            let olen = node.side_len(false);
            let mut k: usize = 0;
            while k < olen
                invariant
                    0 <= k <= olen,
                    n < nodes.len(),
                    nodes == self.nodes@,
                    forall|m: int| 0 <= m < n ==> !node_has_pin(#[trigger] nodes[m], pin_id),
                    !side_has_pin(nodes[n as int], true, pin_id),
                    olen == nodes[n as int].side(false).len(),
                    *node == nodes[n as int],
                    forall|j: int| 0 <= j < k ==> (#[trigger] nodes[n as int].side(false)[j]).id
                        != pin_id,
                decreases olen - k,
            {
                if node.pin(false, k).id == pin_id {
                    proof {
                        lemma_pin_loc_unique(nodes, pin_id, n as int, false, k as int);
                    }
                    return Some((n, false, k));
                }
                k += 1;
            }
            assert(!side_has_pin(nodes[n as int], false, pin_id));
            n += 1;
        }
        None
    }

    /// The kind of an organizer node; `None` for other nodes.
    pub fn get_node_kind(&self, node_id: u64) -> (r: Option<NodeKind>)
        ensures
            r == (match node_index(self.nodes@, node_id) {
                Some(i) => match self.nodes@[i] {
                    AppNode::Organizer(n) => Some(n.base.kind),
                    _ => None,
                },
                None => None,
            }),
    {
        let idx = match self.find_node_index(node_id) {
            Some(i) => i,
            None => return None,
        };
        match &self.nodes[idx] {
            AppNode::Organizer(n) => Some(n.base.kind),
            _ => None,
        }
    }

    /// The label of a node: the recipe of a crafting node, the kind of an
    /// organizer, the name of a group (or "Group"), or "Sink".
    pub fn get_node_label(&self, node_id: u64) -> (r: Option<String>)
        ensures
            node_index(self.nodes@, node_id) is None ==> r is None,
            node_index(self.nodes@, node_id) matches Some(i) ==> r matches Some(t) && t@
                == node_label(self.nodes@[i]),
    {
        let idx = match self.find_node_index(node_id) {
            Some(i) => i,
            None => return None,
        };
        match &self.nodes[idx] {
            AppNode::Craft(n) => Some(n.recipe_name.clone()),
            AppNode::Organizer(n) => {
                proof {
                    reveal_strlit("Merger");
                    reveal_strlit("Splitter*");
                    reveal_strlit("Splitter");
                    reveal_strlit("Organizer");
                }
                let label = match n.base.kind {
                    NodeKind::Merger => "Merger",
                    NodeKind::CustomSplitter => "Splitter*",
                    NodeKind::GameSplitter => "Splitter",
                    _ => "Organizer",
                };
                Some(label.to_owned())
            },
            AppNode::Group(n) => {
                if n.name.as_str().is_empty() {
                    Some("Group".to_owned())
                } else {
                    Some(n.name.clone())
                }
            },
            AppNode::Sink(_) => Some("Sink".to_owned()),
        }
    }

    /// The item names of a node's pins (inputs, outputs).
    pub fn get_node_pin_item_names(&self, node_id: u64) -> (r: Option<
        (Vec<Option<String>>, Vec<Option<String>>),
    >)
        ensures
            node_index(self.nodes@, node_id) is None ==> r is None,
            node_index(self.nodes@, node_id) matches Some(i) ==> r matches Some((ins, outs))
                && ins@.len() == self.nodes@[i].ins().len() && outs@.len()
                == self.nodes@[i].outs().len() && (forall|j: int|
                0 <= j < ins@.len() ==> #[trigger] ins@[j] == self.nodes@[i].ins()[j].item_name)
                && (forall|j: int|
                0 <= j < outs@.len() ==> #[trigger] outs@[j]
                    == self.nodes@[i].outs()[j].item_name),
    {
        let idx = match self.find_node_index(node_id) {
            Some(i) => i,
            None => return None,
        };
        match &self.nodes[idx] {
            AppNode::Craft(n) => Some((pin_item_names(&n.base.ins), pin_item_names(&n.base.outs))),
            AppNode::Organizer(n) => Some(
                (pin_item_names(&n.base.ins), pin_item_names(&n.base.outs)),
            ),
            AppNode::Group(n) => Some((pin_item_names(&n.base.ins), pin_item_names(&n.base.outs))),
            AppNode::Sink(n) => Some((pin_item_names(&n.base.ins), Vec::new())),
        }
    }

    /// The current rates of a node's pins as fraction text (inputs, outputs).
    pub fn get_node_pin_rates(&self, node_id: u64) -> (r: Option<
        (Vec<Option<String>>, Vec<Option<String>>),
    >)
        ensures
            node_index(self.nodes@, node_id) is None ==> r is None,
            node_index(self.nodes@, node_id) matches Some(i) ==> r matches Some((ins, outs))
                && ins@.len() == self.nodes@[i].ins().len() && outs@.len()
                == self.nodes@[i].outs().len() && (forall|j: int|
                0 <= j < ins@.len() ==> text_is(#[trigger] ins@[j], fraction_text(self.nodes@[i].ins()[j].current_rate@))) && (forall|j: int|
                0 <= j < outs@.len() ==> text_is(#[trigger] outs@[j], fraction_text(self.nodes@[i].outs()[j].current_rate@))),
    {
        let idx = match self.find_node_index(node_id) {
            Some(i) => i,
            None => return None,
        };
        match &self.nodes[idx] {
            AppNode::Craft(n) => Some((pin_rate_texts(&n.base.ins), pin_rate_texts(&n.base.outs))),
            AppNode::Organizer(n) => Some(
                (pin_rate_texts(&n.base.ins), pin_rate_texts(&n.base.outs)),
            ),
            AppNode::Group(n) => Some((pin_rate_texts(&n.base.ins), pin_rate_texts(&n.base.outs))),
            AppNode::Sink(n) => Some((pin_rate_texts(&n.base.ins), Vec::new())),
        }
    }

    /// The lock flags of a node's pins (inputs, outputs).
    pub fn get_node_pin_locked_flags(&self, node_id: u64) -> (r: Option<(Vec<bool>, Vec<bool>)>)
        ensures
            node_index(self.nodes@, node_id) is None ==> r is None,
            node_index(self.nodes@, node_id) matches Some(i) ==> r matches Some((ins, outs))
                && ins@.len() == self.nodes@[i].ins().len() && outs@.len()
                == self.nodes@[i].outs().len() && (forall|j: int|
                0 <= j < ins@.len() ==> #[trigger] ins@[j] == self.nodes@[i].ins()[j].locked) && (
            forall|j: int|
                0 <= j < outs@.len() ==> #[trigger] outs@[j] == self.nodes@[i].outs()[j].locked),
    {
        let idx = match self.find_node_index(node_id) {
            Some(i) => i,
            None => return None,
        };
        match &self.nodes[idx] {
            AppNode::Craft(n) => Some(
                (pin_locked_flags(&n.base.ins), pin_locked_flags(&n.base.outs)),
            ),
            AppNode::Organizer(n) => Some(
                (pin_locked_flags(&n.base.ins), pin_locked_flags(&n.base.outs)),
            ),
            AppNode::Group(n) => Some(
                (pin_locked_flags(&n.base.ins), pin_locked_flags(&n.base.outs)),
            ),
            AppNode::Sink(n) => Some((pin_locked_flags(&n.base.ins), Vec::new())),
        }
    }

    /// The id of a node's pin, by direction and index.
    pub fn get_pin_id(&self, node_id: u64, direction: PinDirection, idx: usize) -> (r: Option<u64>)
        ensures
            r == (match node_index(self.nodes@, node_id) {
                Some(i) => if idx < self.nodes@[i].side(direction == PinDirection::Input).len() {
                    Some(self.nodes@[i].side(direction == PinDirection::Input)[idx as int].id)
                } else {
                    None
                },
                None => None,
            }),
    {
        let ni = match self.find_node_index(node_id) {
            Some(i) => i,
            None => return None,
        };
        let input = direction == PinDirection::Input;
        let node = &self.nodes[ni];
        if idx < node.side_len(input) {
            Some(node.pin(input, idx).id)
        } else {
            None
        }
    }

    /// For a crafting node: its machine count as fraction text and its building name.
    pub fn get_node_building_info(&self, node_id: u64) -> (r: Option<(String, String)>)
        ensures
            r is Some <==> (node_index(self.nodes@, node_id) matches Some(i)
                && self.nodes@[i] is Craft),
            r matches Some((c, b)) ==> node_index(self.nodes@, node_id) matches Some(i)
                && self.nodes@[i] matches AppNode::Craft(n) && c@ == fraction_text(
                n.current_rate@,
            ) && b == n.building_name,
    {
        let idx = match self.find_node_index(node_id) {
            Some(i) => i,
            None => return None,
        };
        match &self.nodes[idx] {
            AppNode::Craft(n) => Some(
                (n.current_rate.to_fraction_string(), n.building_name.clone()),
            ),
            _ => None,
        }
    }

    /// For a crafting node: its somersloop count as fraction text and the
    /// somersloop multiplier of its building.
    pub fn get_node_somersloop_info(&self, node_id: u64) -> (r: Option<
        (String, Option<FractionalNumber>),
    >)
        ensures
            r is Some <==> (node_index(self.nodes@, node_id) matches Some(i)
                && self.nodes@[i] is Craft),
            r matches Some((c, m)) ==> node_index(self.nodes@, node_id) matches Some(i)
                && self.nodes@[i] matches AppNode::Craft(n) && c@ == fraction_text(
                n.num_somersloop@,
            ) && m == Some(n.somersloop_mult),
    {
        let idx = match self.find_node_index(node_id) {
            Some(i) => i,
            None => return None,
        };
        match &self.nodes[idx] {
            AppNode::Craft(n) => Some((n.num_somersloop.to_fraction_string(), Some(n.somersloop_mult))),
            _ => None,
        }
    }

    /// Whether a node is a crafting node whose recipe power is negative
    /// (a power generator).
    pub fn get_node_is_power_generator(&self, node_id: u64) -> (r: bool)
        ensures
            r == (node_index(self.nodes@, node_id) matches Some(i) && self.nodes@[i] matches AppNode::Craft(n)
                && f64_bits_negative(n.recipe_power)),
    {
        let idx = match self.find_node_index(node_id) {
            Some(i) => i,
            None => return false,
        };
        match &self.nodes[idx] {
            AppNode::Craft(n) => {
                let b = n.recipe_power;
                (b >> 63u64) == 1 && (b & 0x7fff_ffff_ffff_ffffu64) != 0 && (b
                    & 0x7fff_ffff_ffff_ffffu64) <= 0x7ff0_0000_0000_0000u64
            },
            _ => false,
        }
    }

    /// The item of an organizer node.
    pub fn get_node_item_name(&self, node_id: u64) -> (r: Option<String>)
        ensures
            r == (match node_index(self.nodes@, node_id) {
                Some(i) => match self.nodes@[i] {
                    AppNode::Organizer(n) => n.item_name,
                    _ => None,
                },
                None => None,
            }),
    {
        let idx = match self.find_node_index(node_id) {
            Some(i) => i,
            None => return None,
        };
        match &self.nodes[idx] {
            AppNode::Organizer(n) => n.item_name.clone(),
            _ => None,
        }
    }

    /// The rate of a group node.
    pub fn get_group_rate(&self, node_id: u64) -> (r: Option<FractionalNumber>)
        ensures
            r == (match node_index(self.nodes@, node_id) {
                Some(i) => match self.nodes@[i] {
                    AppNode::Group(n) => Some(n.current_rate),
                    _ => None,
                },
                None => None,
            }),
    {
        let idx = match self.find_node_index(node_id) {
            Some(i) => i,
            None => return None,
        };
        match &self.nodes[idx] {
            AppNode::Group(n) => Some(n.current_rate),
            _ => None,
        }
    }

    /// Whether the node with this id is a group.
    pub fn is_group_node(&self, node_id: u64) -> (r: bool)
        ensures
            r == (node_index(self.nodes@, node_id) matches Some(i) && self.nodes@[i] is Group),
    {
        match self.find_node_index(node_id) {
            Some(i) => match &self.nodes[i] {
                AppNode::Group(_) => true,
                _ => false,
            },
            None => false,
        }
    }

    /// The number of nodes.
    pub fn node_count(&self) -> (r: usize)
        ensures
            r == self.nodes@.len(),
    {
        self.nodes.len()
    }

    /// Recipe names in use; none are tracked, so the list is empty.
    pub fn get_recipe_names(&self) -> (r: Vec<String>)
        ensures
            r@.len() == 0,
    {
        Vec::new()
    }

    /// Whether there are unsaved changes; changes are not tracked, so never.
    pub fn has_unsaved_changes(&self) -> (r: bool)
        ensures
            !r,
    {
        false
    }

    /// The id of the node at an index.
    pub fn find_node_by_index(&self, index: usize) -> (r: Option<u64>)
        ensures
            r == (if index < self.nodes@.len() {
                Some(self.nodes@[index as int].id())
            } else {
                None
            }),
    {
        if index >= self.nodes.len() {
            return None;
        }
        Some(self.nodes[index].node_id())
    }

    /// The position of the node at an index (`f32` bit patterns).
    pub fn get_node_position(&self, index: usize) -> (r: Option<(u32, u32)>)
        ensures
            r == (if index < self.nodes@.len() {
                Some(self.nodes@[index as int].position())
            } else {
                None
            }),
    {
        if index >= self.nodes.len() {
            return None;
        }
        match &self.nodes[index] {
            AppNode::Craft(n) => Some(n.base.position),
            AppNode::Organizer(n) => Some(n.base.position),
            AppNode::Group(n) => Some(n.base.position),
            AppNode::Sink(n) => Some(n.base.position),
        }
    }

    /// The first link that starts or ends at the pin.
    pub fn find_link_by_pin(&self, pin_id: u64) -> (r: Option<&Link>)
        ensures
            r matches Some(l) ==> exists|k: int|
                0 <= k < self.links@.len() && self.links@[k] == *l && is_first_link(
                    self.links@,
                    pin_id,
                    k,
                ),
            r is None ==> forall|k: int|
                0 <= k < self.links@.len() ==> !link_touches(#[trigger] self.links@[k], pin_id),
    {
        let mut k: usize = 0;
        while k < self.links.len()
            invariant
                0 <= k <= self.links.len(),
                forall|j: int| 0 <= j < k ==> !link_touches(#[trigger] self.links@[j], pin_id),
            decreases self.links.len() - k,
        {
            if self.links[k].start_pin_id == pin_id || self.links[k].end_pin_id == pin_id {
                return Some(&self.links[k]);
            }
            k += 1;
        }
        None
    }

    /// Change one field of the pin at a location.
    pub fn update_pin_at(&mut self, n: usize, input: bool, i: usize, u: PinUpdate)
        requires
            n < old(self).nodes@.len(),
            i < old(self).nodes@[n as int].side(input).len(),
        ensures
            pin_updated(old(self).nodes@, final(self).nodes@, (n as int, input, i as int), u),
            final(self).links@ == old(self).links@,
            final(self).next_id == old(self).next_id,
    {
        self.nodes[n].update_pin(input, i, u);
    }

    /// Find a pin by its id across all nodes: the id of the node holding it,
    /// its direction, and its index among the pins of that direction.
    pub fn find_pin_location(&self, pin_id: u64) -> (r: Option<(u64, PinDirection, usize)>)
        ensures
            r is None <==> pin_loc(self.nodes@, pin_id) is None,
            r matches Some((nid, d, i)) ==> pin_loc(self.nodes@, pin_id) matches Some(l) && nid
                == self.nodes@[l.0].id() && d == dir_of(l.1) && i == l.2,
    {
        match self.locate_pin(pin_id) {
            Some((n, input, i)) => {
                let d = if input {
                    PinDirection::Input
                } else {
                    PinDirection::Output
                };
                Some((self.nodes[n].node_id(), d, i))
            },
            None => None,
        }
    }
}

} // verus!
