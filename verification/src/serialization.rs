//! The records of the save-file format, and the numeric ids of node kinds.
use vstd::prelude::*;
use crate::fractional_number::FractionalNumber;
use crate::node::NodeKind;
use crate::app_node::AppNode;
use crate::link::Link;
use crate::pin::Pin;
use crate::production_app::{ProductionApp, pin_loc};
use crate::node_edit::clone_item;

verus! {

/// The id of a node kind in save files.
pub open spec fn kind_id(k: NodeKind) -> u8 {
    match k {
        NodeKind::Craft => 0,
        NodeKind::CustomSplitter => 1,
        NodeKind::Merger => 2,
        NodeKind::Group => 3,
        NodeKind::GameSplitter => 4,
        NodeKind::Sink => 5,
    }
}

impl NodeKind {
    /// The id of the kind in save files.
    pub fn to_kind_id(&self) -> (r: u8)
        ensures
            r == kind_id(*self),
    {
        match self {
            NodeKind::Craft => 0,
            NodeKind::CustomSplitter => 1,
            NodeKind::Merger => 2,
            NodeKind::Group => 3,
            NodeKind::GameSplitter => 4,
            NodeKind::Sink => 5,
        }
    }

    /// The kind with the id, if any.
    pub fn from_kind_id(id: u8) -> (r: Option<NodeKind>)
        ensures
            r matches Some(k) ==> kind_id(k) == id,
            r is None <==> id > 5,
    {
        match id {
            0 => Some(NodeKind::Craft),
            1 => Some(NodeKind::CustomSplitter),
            2 => Some(NodeKind::Merger),
            3 => Some(NodeKind::Group),
            4 => Some(NodeKind::GameSplitter),
            5 => Some(NodeKind::Sink),
            _ => None,
        }
    }
}

/// Reading back the id of a kind gives the kind.
pub proof fn lemma_kind_id_roundtrip(k: NodeKind)
    ensures
        kind_id(k) <= 5,
        forall|j: NodeKind| kind_id(j) == kind_id(k) ==> j == k,
{
}

/// A rate as numerator and denominator.
#[derive(Debug, Clone, Copy, PartialEq, Eq, Structural)]
pub struct SerializedRate {
    pub num: i64,
    pub den: i64,
}

impl SerializedRate {
    /// The reduced numerator and denominator of the rate.
    pub fn from_fraction(f: FractionalNumber) -> (r: SerializedRate)
        ensures
            r.num == f@.0,
            r.den == f@.1,
    {
        SerializedRate { num: f.numerator(), den: f.denominator() }
    }

    /// The rate, where the denominator is not zero.
    pub fn to_fraction(&self) -> (r: Option<FractionalNumber>)
        ensures
            (self.den != 0 && self.num != i64::MIN && self.den != i64::MIN) ==> (r matches Some(f) && crate::rational::qeq(
                f@,
                (self.num as int, self.den as int),
            )),
            !(self.den != 0 && self.num != i64::MIN && self.den != i64::MIN) ==> r is None,
    {
        if self.den != 0 && self.num != i64::MIN && self.den != i64::MIN {
            Some(FractionalNumber::new(self.num, self.den))
        } else {
            None
        }
    }
}

/// One end of a saved link: the node's index, and the pin's index among the
/// node's outputs (start) or inputs (end).
#[derive(Debug, Clone, Copy, PartialEq, Eq, Structural)]
pub struct SerializedLinkEndpoint {
    pub node: usize,
    pub pin: usize,
}

/// A saved link.
#[derive(Debug, Clone, Copy, PartialEq, Eq, Structural)]
pub struct SerializedLink {
    pub start: SerializedLinkEndpoint,
    pub end: SerializedLinkEndpoint,
}

/// A saved sink input.
#[derive(Debug)]
pub struct SerializedSinkInput {
    pub item: String,
    pub num: i64,
    pub den: i64,
    pub locked: bool,
}

/// A saved organizer pin.
#[derive(Debug)]
pub struct SerializedPinEntry {
    pub item: Option<String>,
    pub num: i64,
    pub den: i64,
    pub locked: bool,
}


/// A saved crafting node.
#[derive(Debug)]
pub struct SerializedCraftNode {
    pub kind: u8,
    pub recipe: String,
    pub rate: SerializedRate,
    /// Position (`f32` bit patterns).
    pub pos: (u32, u32),
    pub built: bool,
    pub locked: bool,
    pub num_somersloop: u8,
}

/// A saved group node.
#[derive(Debug)]
pub struct SerializedGroupNode {
    pub kind: u8,
    pub pos: (u32, u32),
    pub rate: SerializedRate,
    pub locked: bool,
    pub name: String,
    pub nodes: Vec<SerializedNode>,
    pub links: Vec<SerializedLink>,
}

/// A saved sink node.
#[derive(Debug)]
pub struct SerializedSinkNode {
    pub kind: u8,
    pub pos: (u32, u32),
    pub ins: Vec<SerializedSinkInput>,
}

/// A saved organizer node, with its pins where they carry anything.
#[derive(Debug)]
pub struct SerializedOrganizerNode {
    pub kind: u8,
    pub pos: (u32, u32),
    pub item: Option<String>,
    pub ins: Option<Vec<SerializedPinEntry>>,
    pub outs: Option<Vec<SerializedPinEntry>>,
}

/// A saved node.
#[derive(Debug)]
pub enum SerializedNode {
    Group(SerializedGroupNode),
    Craft(SerializedCraftNode),
    Organizer(SerializedOrganizerNode),
    Sink(SerializedSinkNode),
}

/// A saved production chain.
#[derive(Debug)]
pub struct ProductionChainFile {
    pub game_version: String,
    pub save_version: u32,
    pub nodes: Vec<SerializedNode>,
    pub links: Vec<SerializedLink>,
}

/// Every pin is locked.
pub open spec fn all_locked(ps: Seq<Pin>) -> bool {
    forall|j: int| 0 <= j < ps.len() ==> (#[trigger] ps[j]).locked
}

/// A pin worth saving: a non-zero base rate, a lock or an item.
pub open spec fn pin_carries(p: Pin) -> bool {
    p.base_rate@.0 != 0 || p.locked || p.item_name is Some
}

pub open spec fn any_carries(ps: Seq<Pin>) -> bool {
    exists|j: int| 0 <= j < ps.len() && pin_carries(#[trigger] ps[j])
}

/// The saved entries of organizer pins.
pub open spec fn entries_saved(es: Seq<SerializedPinEntry>, ps: Seq<Pin>) -> bool {
    &&& es.len() == ps.len()
    &&& forall|j: int| 0 <= j < ps.len() ==> {
        &&& (#[trigger] es[j]).item == ps[j].item_name
        &&& es[j].num == ps[j].base_rate@.0
        &&& es[j].den == ps[j].base_rate@.1
        &&& es[j].locked == ps[j].locked
    }
}

/// The optional saved pins of an organizer side: present where some pin carries anything.
pub open spec fn side_saved(es: Option<Vec<SerializedPinEntry>>, ps: Seq<Pin>) -> bool {
    match es {
        Some(v) => any_carries(ps) && entries_saved(v@, ps),
        None => !any_carries(ps),
    }
}

/// The saved inputs of a sink (a missing item saved as empty text).
pub open spec fn sink_inputs_saved(es: Seq<SerializedSinkInput>, ps: Seq<Pin>) -> bool {
    &&& es.len() == ps.len()
    &&& forall|j: int| 0 <= j < ps.len() ==> {
        &&& (#[trigger] es[j]).item@ == (match ps[j].item_name {
            Some(s) => s@,
            None => Seq::<char>::empty(),
        })
        &&& es[j].num == ps[j].base_rate@.0
        &&& es[j].den == ps[j].base_rate@.1
        &&& es[j].locked == ps[j].locked
    }
}

/// `s` is the saved form of node `n`; a group node has none.
pub open spec fn saved_as(s: Option<SerializedNode>, n: AppNode) -> bool {
    match n {
        AppNode::Craft(c) => s matches Some(SerializedNode::Craft(x)) && {
            &&& x.kind == 0
            &&& x.recipe == c.recipe_name
            &&& x.rate.num == c.current_rate@.0
            &&& x.rate.den == c.current_rate@.1
            &&& x.pos == c.base.position
            &&& x.built == c.built
            &&& x.locked == all_locked(c.base.ins@ + c.base.outs@)
            &&& x.num_somersloop == c.num_somersloop@.0 as u8
        },
        AppNode::Sink(k) => s matches Some(SerializedNode::Sink(x)) && {
            &&& x.kind == 5
            &&& x.pos == k.base.position
            &&& sink_inputs_saved(x.ins@, k.base.ins@)
        },
        AppNode::Organizer(o) => s matches Some(SerializedNode::Organizer(x)) && {
            &&& x.kind == kind_id(o.base.kind)
            &&& x.pos == o.base.position
            &&& x.item == o.item_name
            &&& side_saved(x.ins, o.base.ins@)
            &&& side_saved(x.outs, o.base.outs@)
        },
        AppNode::Group(_) => s is None,
    }
}

/// Index of the last node with the id, if any.
pub open spec fn last_node_index(nodes: Seq<AppNode>, id: u64) -> Option<int>
    decreases nodes.len(),
{
    if nodes.len() == 0 {
        None
    } else if nodes.last().id() == id {
        Some(nodes.len() - 1)
    } else {
        last_node_index(nodes.drop_last(), id)
    }
}

/// The saved form of a link: each end by the index of the last node with the
/// id of the node holding its pin, and the pin's index on its side; none
/// where a pin is not found.
pub open spec fn link_saved(nodes: Seq<AppNode>, l: Link) -> Option<SerializedLink> {
    match (pin_loc(nodes, l.start_pin_id), pin_loc(nodes, l.end_pin_id)) {
        (Some(s), Some(e)) => match (last_node_index(nodes, nodes[s.0].id()), last_node_index(nodes, nodes[e.0].id())) {
            (Some(sn), Some(en)) => Some(SerializedLink {
                start: SerializedLinkEndpoint { node: sn as usize, pin: s.2 as usize },
                end: SerializedLinkEndpoint { node: en as usize, pin: e.2 as usize },
            }),
            _ => None,
        },
        _ => None,
    }
}

fn pins_all_locked(ps: &Vec<Pin>) -> (r: bool)
    ensures
        r == all_locked(ps@),
{
    let mut j: usize = 0;
    while j < ps.len()
        invariant
            j <= ps.len(),
            forall|q: int| 0 <= q < j ==> (#[trigger] ps@[q]).locked,
        decreases ps.len() - j,
    {
        if !ps[j].locked {
            return false;
        }
        j += 1;
    }
    true
}

fn save_entries(ps: &Vec<Pin>) -> (r: Option<Vec<SerializedPinEntry>>)
    ensures
        side_saved(r, ps@),
{
    let mut any = false;
    let mut j: usize = 0;
    while j < ps.len()
        invariant
            j <= ps.len(),
            any == exists|q: int| 0 <= q < j && pin_carries(#[trigger] ps@[q]),
        decreases ps.len() - j,
    {
        let p = &ps[j];
        if p.base_rate.numerator() != 0 || p.locked || p.item_name.is_some() {
            any = true;
        }
        j += 1;
    }
    if !any {
        return None;
    }
    let mut v: Vec<SerializedPinEntry> = Vec::new();
    let mut j: usize = 0;
    while j < ps.len()
        invariant
            j <= ps.len(),
            v@.len() == j,
            forall|q: int| 0 <= q < j ==> {
                &&& (#[trigger] v@[q]).item == ps@[q].item_name
                &&& v@[q].num == ps@[q].base_rate@.0
                &&& v@[q].den == ps@[q].base_rate@.1
                &&& v@[q].locked == ps@[q].locked
            },
        decreases ps.len() - j,
    {
        let p = &ps[j];
        v.push(SerializedPinEntry {
            item: clone_item(&p.item_name),
            num: p.base_rate.numerator(),
            den: p.base_rate.denominator(),
            locked: p.locked,
        });
        j += 1;
    }
    Some(v)
}

fn save_sink_inputs(ps: &Vec<Pin>) -> (r: Vec<SerializedSinkInput>)
    ensures
        sink_inputs_saved(r@, ps@),
{
    let mut v: Vec<SerializedSinkInput> = Vec::new();
    let mut j: usize = 0;
    while j < ps.len()
        invariant
            j <= ps.len(),
            v@.len() == j,
            forall|q: int| 0 <= q < j ==> {
                &&& (#[trigger] v@[q]).item@ == (match ps@[q].item_name {
                    Some(s) => s@,
                    None => Seq::<char>::empty(),
                })
                &&& v@[q].num == ps@[q].base_rate@.0
                &&& v@[q].den == ps@[q].base_rate@.1
                &&& v@[q].locked == ps@[q].locked
            },
        decreases ps.len() - j,
    {
        let p = &ps[j];
        let item = match &p.item_name {
            Some(s) => s.clone(),
            None => String::new(),
        };
        v.push(SerializedSinkInput { item, num: p.base_rate.numerator(), den: p.base_rate.denominator(), locked: p.locked });
        j += 1;
    }
    v
}

/// The saved form of a node (none for a group node).
pub fn serialize_node(n: &AppNode) -> (r: Option<SerializedNode>)
    ensures
        saved_as(r, *n),
{
    match n {
        AppNode::Craft(c) => {
            let locked = pins_all_locked(&c.base.ins) && pins_all_locked(&c.base.outs);
            proof {
                let all = c.base.ins@ + c.base.outs@;
                if all_locked(c.base.ins@) && all_locked(c.base.outs@) {
                    assert forall|j: int| 0 <= j < all.len() implies (#[trigger] all[j]).locked by {
                        if j >= c.base.ins@.len() {
                            assert(all[j] == c.base.outs@[j - c.base.ins@.len()]);
                        }
                    }
                } else if !all_locked(c.base.ins@) {
                    let j = choose|j: int| 0 <= j < c.base.ins@.len() && !(#[trigger] c.base.ins@[j]).locked;
                    assert(all[j] == c.base.ins@[j]);
                } else {
                    let j = choose|j: int| 0 <= j < c.base.outs@.len() && !(#[trigger] c.base.outs@[j]).locked;
                    assert(all[c.base.ins@.len() + j] == c.base.outs@[j]);
                }
            }
            Some(SerializedNode::Craft(SerializedCraftNode {
                kind: 0,
                recipe: c.recipe_name.clone(),
                rate: SerializedRate::from_fraction(c.current_rate),
                pos: c.base.position,
                built: c.built,
                locked,
                num_somersloop: c.num_somersloop.numerator() as u8,
            }))
        },
        AppNode::Sink(k) => Some(SerializedNode::Sink(SerializedSinkNode { kind: 5, pos: k.base.position, ins: save_sink_inputs(&k.base.ins) })),
        AppNode::Organizer(o) => Some(SerializedNode::Organizer(SerializedOrganizerNode {
            kind: o.base.kind.to_kind_id(),
            pos: o.base.position,
            item: clone_item(&o.item_name),
            ins: save_entries(&o.base.ins),
            outs: save_entries(&o.base.outs),
        })),
        AppNode::Group(_) => None,
    }
}

impl ProductionApp {
    /// The id of the node at an index.
    pub fn get_node_id(&self, idx: usize) -> (r: u64)
        requires
            idx < self.nodes@.len(),
        ensures
            r == self.nodes@[idx as int].id(),
    {
        self.nodes[idx].node_id()
    }

    /// Index of the last node with the id, if any.
    fn last_index_of(&self, id: u64) -> (r: Option<usize>)
        ensures
            r matches Some(i) ==> last_node_index(self.nodes@, id) == Some(i as int),
            r is None ==> last_node_index(self.nodes@, id) is None,
    {
        let mut k: usize = self.nodes.len();
        assert(self.nodes@.subrange(0, k as int) =~= self.nodes@);
        while k > 0
            invariant
                k <= self.nodes@.len(),
                last_node_index(self.nodes@, id) == last_node_index(self.nodes@.subrange(0, k as int), id),
            decreases k,
        {
            let ghost sub = self.nodes@.subrange(0, k as int);
            assert(sub.drop_last() =~= self.nodes@.subrange(0, k - 1));
            if self.nodes[k - 1].node_id() == id {
                return Some(k - 1);
            }
            k -= 1;
        }
        None
    }

    /// The saved form of a link.
    pub fn serialize_link(&self, link: &Link) -> (r: Option<SerializedLink>)
        ensures
            r == link_saved(self.nodes@, *link),
    {
        proof {
            assert(self.nodes@.subrange(0, self.nodes@.len() as int) =~= self.nodes@);
        }
        let s = self.locate_pin(link.start_pin_id);
        let e = self.locate_pin(link.end_pin_id);
        match (s, e) {
            (Some((sn, _, si)), Some((en, _, ei))) => {
                let sid = self.nodes[sn].node_id();
                let eid = self.nodes[en].node_id();
                match (self.last_index_of(sid), self.last_index_of(eid)) {
                    (Some(a), Some(b)) => Some(SerializedLink {
                        start: SerializedLinkEndpoint { node: a, pin: si },
                        end: SerializedLinkEndpoint { node: b, pin: ei },
                    }),
                    _ => None,
                }
            },
            _ => None,
        }
    }

    /// The saved production chain: the saved forms of the nodes (group nodes
    /// are not saved) and of the links whose pins are found.
    pub fn save_to_file(&self) -> (r: ProductionChainFile)
        ensures
            r.game_version@ == "1.0"@,
            r.save_version == 5,
            saved_nodes(r.nodes@, self.nodes@),
            r.links@ == saved_links(self.nodes@, self.links@),
    {
        let mut nodes: Vec<SerializedNode> = Vec::new();
        let mut k: usize = 0;
        assert(self.nodes@.subrange(0, 0) =~= Seq::<AppNode>::empty());
        assert(saved_options(Seq::<Option<SerializedNode>>::empty(), self.nodes@.subrange(0, 0)));
        assert(nodes_kept(nodes@, Seq::<Option<SerializedNode>>::empty()));
        while k < self.nodes.len()
            invariant
                k <= self.nodes@.len(),
                saved_nodes(nodes@, self.nodes@.subrange(0, k as int)),
            decreases self.nodes.len() - k,
        {
            let ghost before = nodes@;
            let ghost sub = self.nodes@.subrange(0, k as int + 1);
            assert(sub.drop_last() =~= self.nodes@.subrange(0, k as int));
            let s = serialize_node(&self.nodes[k]);
            match s {
                Some(x) => {
                    nodes.push(x);
                },
                None => {},
            }
            proof {
                let m = choose|m: Seq<Option<SerializedNode>>| #[trigger] saved_options(m, self.nodes@.subrange(0, k as int)) && nodes_kept(before, m);
                let m2 = m.push(s);
                assert forall|i: int| 0 <= i < sub.len() implies saved_as(#[trigger] m2[i], sub[i]) by {
                    if i < k {
                        assert(sub[i] == self.nodes@.subrange(0, k as int)[i]);
                    }
                }
                assert(saved_options(m2, sub));
                lemma_nodes_kept_push(before, m, s);
            }
            k += 1;
        }
        assert(self.nodes@.subrange(0, self.nodes@.len() as int) =~= self.nodes@);
        let mut links: Vec<SerializedLink> = Vec::new();
        let mut t: usize = 0;
        assert(self.links@.subrange(0, 0) =~= Seq::<Link>::empty());
        while t < self.links.len()
            invariant
                t <= self.links@.len(),
                links@ == saved_links(self.nodes@, self.links@.subrange(0, t as int)),
            decreases self.links.len() - t,
        {
            assert(self.links@.subrange(0, t as int + 1).drop_last() =~= self.links@.subrange(0, t as int));
            match self.serialize_link(&self.links[t]) {
                Some(l) => {
                    links.push(l);
                },
                None => {},
            }
            t += 1;
        }
        assert(self.links@.subrange(0, self.links@.len() as int) =~= self.links@);
        ProductionChainFile { game_version: "1.0".to_owned(), save_version: 5, nodes, links }
    }
}

/// The saved links, in order, skipping those not saved.
pub open spec fn saved_links(nodes: Seq<AppNode>, links: Seq<Link>) -> Seq<SerializedLink>
    decreases links.len(),
{
    if links.len() == 0 {
        Seq::empty()
    } else {
        let rest = saved_links(nodes, links.drop_last());
        match link_saved(nodes, links.last()) {
            Some(l) => rest.push(l),
            None => rest,
        }
    }
}

/// `m` holds the saved form (or none) of each node.
pub open spec fn saved_options(m: Seq<Option<SerializedNode>>, nodes: Seq<AppNode>) -> bool {
    &&& m.len() == nodes.len()
    &&& forall|i: int| 0 <= i < nodes.len() ==> saved_as(#[trigger] m[i], nodes[i])
}

/// `out` lists the present entries of `m`, in order.
pub open spec fn nodes_kept(out: Seq<SerializedNode>, m: Seq<Option<SerializedNode>>) -> bool
    decreases m.len(),
{
    if m.len() == 0 {
        out.len() == 0
    } else {
        match m.last() {
            Some(x) => out.len() > 0 && out.last() == x && nodes_kept(out.drop_last(), m.drop_last()),
            None => nodes_kept(out, m.drop_last()),
        }
    }
}

/// The saved nodes, in order, group nodes left out.
pub open spec fn saved_nodes(out: Seq<SerializedNode>, nodes: Seq<AppNode>) -> bool {
    exists|m: Seq<Option<SerializedNode>>| #[trigger] saved_options(m, nodes) && nodes_kept(out, m)
}

pub proof fn lemma_nodes_kept_push(out: Seq<SerializedNode>, m: Seq<Option<SerializedNode>>, s: Option<SerializedNode>)
    requires
        nodes_kept(out, m),
    ensures
        nodes_kept(
            match s {
                Some(x) => out.push(x),
                None => out,
            },
            m.push(s),
        ),
{
    assert(m.push(s).drop_last() =~= m);
    match s {
        Some(x) => {
            assert(out.push(x).drop_last() =~= out);
        },
        None => {},
    }
}

} // verus!
