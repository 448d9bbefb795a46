//! Nodes of the production graph: crafting machines, organizers (mergers and
//! splitters), sinks and groups.
//!
//! Floating-point quantities of the game data (power figures, exponents,
//! positions) are carried as their IEEE-754 bit patterns: the graph logic only
//! stores and copies them.
use vstd::prelude::*;
use crate::fractional_number::{FractionalNumber, add_fits, mul_fits};
use crate::pin::{Pin, PinDirection};
use crate::rational::{lemma_qadd_cong, lemma_qcanon, lemma_qeq_sym, lemma_qeq_trans, normalized, qadd, qcanon, qeq, qmul, qwf, qzero, qone};

verus! {

/// Kind of node in the production graph.
#[derive(Debug, Clone, Copy, PartialEq, Eq, Structural, Hash)]
pub enum NodeKind {
    Craft,
    CustomSplitter,
    Merger,
    Group,
    GameSplitter,
    Sink,
}

/// Bit pattern of the `f64` value `1.0`.
pub const F64_ONE_BITS: u64 = 0x3ff0_0000_0000_0000u64;

/// Data shared by every node.
#[derive(Debug)]
pub struct Node {
    pub id: u64,
    pub kind: NodeKind,
    /// Position in the editor: the bit patterns of two `f32` coordinates.
    pub position: (u32, u32),
    pub ins: Vec<Pin>,
    pub outs: Vec<Pin>,
}

/// `new` is `old` with every pin's current rate set to `base_rate * r`.
pub open spec fn scaled_pins(old: Seq<Pin>, new: Seq<Pin>, r: (int, int)) -> bool {
    &&& new.len() == old.len()
    &&& forall|i: int|
        0 <= i < old.len() ==> #[trigger] new[i] == (Pin { current_rate: new[i].current_rate, ..old[i] })
            && qeq(new[i].current_rate@, qmul(old[i].base_rate@, r))
}

/// Every `base_rate * r` of the pins fits in 64-bit integers.
pub open spec fn scale_fits(pins: Seq<Pin>, r: (int, int)) -> bool {
    forall|i: int| 0 <= i < pins.len() ==> mul_fits(#[trigger] pins[i].base_rate@, r)
}

/// Whether every `base_rate * rate` of the pins fits in 64-bit integers.
pub fn pins_scale_fit(pins: &Vec<Pin>, rate: FractionalNumber) -> (r: bool)
    ensures
        r == scale_fits(pins@, rate@),
        rate@ == qone() ==> r,
{
    let mut i: usize = 0;
    while i < pins.len()
        invariant
            0 <= i <= pins.len(),
            forall|t: int| 0 <= t < i ==> mul_fits(#[trigger] pins@[t].base_rate@, rate@),
        decreases pins.len() - i,
    {
        let b = pins[i].base_rate;
        proof {
            use_type_invariant(&b);
            crate::fractional_number::lemma_mul_one_fits(b);
        }
        if !b.fits_mul(&rate) {
            return false;
        }
        i += 1;
    }
    true
}

/// Set every pin's current rate to `base_rate * rate`.
pub fn scale_pins(pins: &mut Vec<Pin>, rate: FractionalNumber)
    requires
        scale_fits(old(pins)@, rate@),
    ensures
        scaled_pins(old(pins)@, final(pins)@, rate@),
{
    let ghost orig = pins@;
    let mut i: usize = 0;
    while i < pins.len()
        invariant
            0 <= i <= pins.len(),
            pins@.len() == orig.len(),
            scale_fits(orig, rate@),
            forall|t: int| i <= t < orig.len() ==> #[trigger] pins@[t] == orig[t],
            forall|t: int|
                0 <= t < i ==> #[trigger] pins@[t] == (Pin { current_rate: pins@[t].current_rate, ..orig[t] })
                    && qeq(pins@[t].current_rate@, qmul(orig[t].base_rate@, rate@)),
        decreases pins.len() - i,
    {
        let v = pins[i].base_rate.mul(rate);
        pins[i].current_rate = v;
        i += 1;
    }
}

impl Node {
    /// A node at the origin without pins.
    pub fn new(id: u64, kind: NodeKind) -> (r: Self)
        ensures
            r.id == id,
            r.kind == kind,
            r.position == (0u32, 0u32),
            r.ins@.len() == 0,
            r.outs@.len() == 0,
    {
        Node { id, kind, position: (0, 0), ins: Vec::new(), outs: Vec::new() }
    }

    /// Move the node (coordinates as `f32` bit patterns).
    pub fn set_position(&mut self, x: u32, y: u32)
        ensures
            final(self).position == (x, y),
            final(self).id == old(self).id,
            final(self).kind == old(self).kind,
            final(self).ins@ == old(self).ins@,
            final(self).outs@ == old(self).outs@,
    {
        self.position = (x, y);
    }

    /// Append a pin to the inputs or the outputs, by its direction.
    pub fn add_pin(&mut self, pin: Pin)
        ensures
            final(self).id == old(self).id,
            final(self).kind == old(self).kind,
            final(self).position == old(self).position,
            pin.direction == PinDirection::Input ==> final(self).ins@ == old(self).ins@.push(pin)
                && final(self).outs@ == old(self).outs@,
            pin.direction == PinDirection::Output ==> final(self).outs@ == old(self).outs@.push(pin)
                && final(self).ins@ == old(self).ins@,
    {
        match pin.direction {
            PinDirection::Input => self.ins.push(pin),
            PinDirection::Output => self.outs.push(pin),
        }
    }

    /// Append a pin to the inputs or the outputs, by its direction.
    pub fn push_pin(&mut self, pin: Pin)
        ensures
            final(self).id == old(self).id,
            final(self).kind == old(self).kind,
            final(self).position == old(self).position,
            pin.direction == PinDirection::Input ==> final(self).ins@ == old(self).ins@.push(pin)
                && final(self).outs@ == old(self).outs@,
            pin.direction == PinDirection::Output ==> final(self).outs@ == old(self).outs@.push(pin)
                && final(self).ins@ == old(self).ins@,
    {
        self.add_pin(pin)
    }

    /// The pins, inputs first.
    pub open spec fn all_pins(self) -> Seq<Pin> {
        self.ins@ + self.outs@
    }

    /// The first pin with the given id, inputs first.
    pub fn find_pin(&self, pin_id: u64) -> (r: Option<&Pin>)
        ensures
            r matches Some(p) ==> exists|i: int|
                0 <= i < self.all_pins().len() && self.all_pins()[i] == *p && p.id == pin_id
                    && forall|j: int| 0 <= j < i ==> (#[trigger] self.all_pins()[j]).id != pin_id,
            r is None ==> forall|i: int|
                0 <= i < self.all_pins().len() ==> (#[trigger] self.all_pins()[i]).id != pin_id,
    {
        let mut i: usize = 0;
        while i < self.ins.len()
            invariant
                0 <= i <= self.ins.len(),
                forall|j: int| 0 <= j < i ==> (#[trigger] self.ins@[j]).id != pin_id,
            decreases self.ins.len() - i,
        {
            if self.ins[i].id == pin_id {
                assert(self.all_pins()[i as int] == self.ins@[i as int]);
                return Some(&self.ins[i]);
            }
            i += 1;
        }
        let mut k: usize = 0;
        while k < self.outs.len()
            invariant
                0 <= k <= self.outs.len(),
                forall|j: int| 0 <= j < self.ins.len() ==> (#[trigger] self.ins@[j]).id != pin_id,
                forall|j: int| 0 <= j < k ==> (#[trigger] self.outs@[j]).id != pin_id,
            decreases self.outs.len() - k,
        {
            if self.outs[k].id == pin_id {
                assert(self.all_pins()[self.ins.len() + k] == self.outs@[k as int]);
                assert forall|j: int| 0 <= j < self.ins.len() + k implies (
                #[trigger] self.all_pins()[j]).id != pin_id by {
                    if j < self.ins.len() {
                        assert(self.all_pins()[j] == self.ins@[j]);
                    } else {
                        assert(self.all_pins()[j] == self.outs@[j - self.ins.len()]);
                    }
                }
                return Some(&self.outs[k]);
            }
            k += 1;
        }
        assert forall|j: int| 0 <= j < self.all_pins().len() implies (
        #[trigger] self.all_pins()[j]).id != pin_id by {
            if j < self.ins.len() {
                assert(self.all_pins()[j] == self.ins@[j]);
            } else {
                assert(self.all_pins()[j] == self.outs@[j - self.ins.len()]);
            }
        }
        None
    }

    /// The pin at `index` of the inputs followed by the outputs.
    pub fn get_pin_by_flat_index(&self, index: usize) -> (r: Option<&Pin>)
        ensures
            index < self.all_pins().len() ==> r == Some(&self.all_pins()[index as int]),
            index >= self.all_pins().len() ==> r is None,
    {
        if index < self.ins.len() {
            Some(&self.ins[index])
        } else if index - self.ins.len() < self.outs.len() {
            Some(&self.outs[index - self.ins.len()])
        } else {
            None
        }
    }

    /// Remove every pin.
    pub fn clear_pins(&mut self)
        ensures
            final(self).id == old(self).id,
            final(self).kind == old(self).kind,
            final(self).position == old(self).position,
            final(self).ins@.len() == 0,
            final(self).outs@.len() == 0,
    {
        self.ins.clear();
        self.outs.clear();
    }

    /// Crafting and group nodes draw power.
    pub fn is_powered(&self) -> (r: bool)
        ensures
            r == (self.kind == NodeKind::Craft || self.kind == NodeKind::Group),
    {
        match self.kind {
            NodeKind::Craft | NodeKind::Group => true,
            _ => false,
        }
    }

    /// Mergers and splitters.
    pub fn is_organizer(&self) -> (r: bool)
        ensures
            r == (self.kind == NodeKind::CustomSplitter || self.kind == NodeKind::Merger
                || self.kind == NodeKind::GameSplitter),
    {
        match self.kind {
            NodeKind::CustomSplitter | NodeKind::Merger | NodeKind::GameSplitter => true,
            _ => false,
        }
    }

    pub fn is_craft(&self) -> (r: bool)
        ensures
            r == (self.kind == NodeKind::Craft),
    {
        self.kind == NodeKind::Craft
    }

    pub fn is_group(&self) -> (r: bool)
        ensures
            r == (self.kind == NodeKind::Group),
    {
        self.kind == NodeKind::Group
    }

    pub fn is_merger(&self) -> (r: bool)
        ensures
            r == (self.kind == NodeKind::Merger),
    {
        self.kind == NodeKind::Merger
    }

    pub fn is_custom_splitter(&self) -> (r: bool)
        ensures
            r == (self.kind == NodeKind::CustomSplitter),
    {
        self.kind == NodeKind::CustomSplitter
    }

    pub fn is_game_splitter(&self) -> (r: bool)
        ensures
            r == (self.kind == NodeKind::GameSplitter),
    {
        self.kind == NodeKind::GameSplitter
    }

    pub fn is_sink(&self) -> (r: bool)
        ensures
            r == (self.kind == NodeKind::Sink),
    {
        self.kind == NodeKind::Sink
    }
}


/// A machine that runs a recipe.
#[derive(Debug)]
pub struct CraftNode {
    pub base: Node,
    pub recipe_name: String,
    /// Power of the recipe in MW (`f64` bit pattern); negative for generators.
    pub recipe_power: u64,
    /// Exponent of the underclocking power curve (`f64` bit pattern).
    pub power_exponent: u64,
    /// Exponent of the somersloop power curve (`f64` bit pattern).
    pub somersloop_power_exponent: u64,
    pub somersloop_mult: FractionalNumber,
    pub variable_power: bool,
    /// Number of machines (the node rate).
    pub current_rate: FractionalNumber,
    pub same_clock_power: FractionalNumber,
    pub last_underclock_power: FractionalNumber,
    pub num_somersloop: FractionalNumber,
    pub built: bool,
    pub building_name: String,
}

impl CraftNode {
    /// The fields of two crafting nodes other than their pins and node rate agree.
    pub open spec fn same_settings(self, other: CraftNode) -> bool {
        &&& self.base.id == other.base.id
        &&& self.base.kind == other.base.kind
        &&& self.base.position == other.base.position
        &&& self.recipe_name == other.recipe_name
        &&& self.recipe_power == other.recipe_power
        &&& self.power_exponent == other.power_exponent
        &&& self.somersloop_power_exponent == other.somersloop_power_exponent
        &&& self.somersloop_mult == other.somersloop_mult
        &&& self.variable_power == other.variable_power
        &&& self.same_clock_power == other.same_clock_power
        &&& self.last_underclock_power == other.last_underclock_power
        &&& self.num_somersloop == other.num_somersloop
        &&& self.built == other.built
        &&& self.building_name == other.building_name
    }

    /// A node for `recipe_name` without pins, at rate zero.
    pub fn new(id: u64, recipe_name: String) -> (r: Self)
        ensures
            r.base.id == id,
            r.base.kind == NodeKind::Craft,
            r.base.position == (0u32, 0u32),
            r.base.ins@.len() == 0,
            r.base.outs@.len() == 0,
            r.recipe_name == recipe_name,
            r.recipe_power == 0,
            r.power_exponent == F64_ONE_BITS,
            r.somersloop_power_exponent == F64_ONE_BITS,
            r.somersloop_mult@ == qone(),
            !r.variable_power,
            r.current_rate@ == qzero(),
            r.same_clock_power@ == qzero(),
            r.last_underclock_power@ == qzero(),
            r.num_somersloop@ == qzero(),
            !r.built,
            r.building_name@.len() == 0,
    {
        CraftNode {
            base: Node::new(id, NodeKind::Craft),
            recipe_name,
            recipe_power: 0,
            power_exponent: F64_ONE_BITS,
            somersloop_power_exponent: F64_ONE_BITS,
            somersloop_mult: FractionalNumber::one(),
            variable_power: false,
            current_rate: FractionalNumber::zero(),
            same_clock_power: FractionalNumber::zero(),
            last_underclock_power: FractionalNumber::zero(),
            num_somersloop: FractionalNumber::zero(),
            built: false,
            building_name: String::new(),
        }
    }

    /// Whether `update_rate(rate)` stays within 64-bit integers.
    pub fn rate_fits(&self, rate: FractionalNumber) -> (r: bool)
        ensures
            r == (scale_fits(self.base.ins@, rate@) && scale_fits(self.base.outs@, rate@)),
            rate@ == qone() ==> r,
    {
        pins_scale_fit(&self.base.ins, rate) && pins_scale_fit(&self.base.outs, rate)
    }

    /// Set the node rate; every pin then carries `base_rate * new_rate`.
    pub fn update_rate(&mut self, new_rate: FractionalNumber)
        requires
            scale_fits(old(self).base.ins@, new_rate@),
            scale_fits(old(self).base.outs@, new_rate@),
        ensures
            final(self).same_settings(*old(self)),
            final(self).current_rate == new_rate,
            scaled_pins(old(self).base.ins@, final(self).base.ins@, new_rate@),
            scaled_pins(old(self).base.outs@, final(self).base.outs@, new_rate@),
    {
        self.current_rate = new_rate;
        scale_pins(&mut self.base.ins, new_rate);
        scale_pins(&mut self.base.outs, new_rate);
    }
}

/// A merger, a custom splitter or a game splitter.
#[derive(Debug)]
pub struct OrganizerNode {
    pub base: Node,
    pub item_name: Option<String>,
}

impl OrganizerNode {
    /// An organizer of the given kind without pins.
    pub fn new(id: u64, kind: NodeKind, item_name: Option<String>) -> (r: Self)
        ensures
            r.base.id == id,
            r.base.kind == kind,
            r.base.position == (0u32, 0u32),
            r.base.ins@.len() == 0,
            r.base.outs@.len() == 0,
            r.item_name == item_name,
    {
        OrganizerNode { base: Node::new(id, kind), item_name }
    }
}

/// The sum of the rates of the pins.
pub open spec fn rate_total(pins: Seq<Pin>) -> (int, int)
    decreases pins.len(),
{
    if pins.len() == 0 {
        qzero()
    } else {
        qadd(rate_total(pins.drop_last()), pins.last().current_rate@)
    }
}

/// The sum of the rates of the pins, added up in order and kept in lowest terms.
pub open spec fn rate_run(pins: Seq<Pin>) -> (int, int)
    decreases pins.len(),
{
    if pins.len() == 0 {
        qzero()
    } else {
        qcanon(qadd(rate_run(pins.drop_last()), pins.last().current_rate@))
    }
}

/// Each addition of `rate_run` fits in 64-bit integers.
pub open spec fn rate_run_fits(pins: Seq<Pin>) -> bool
    decreases pins.len(),
{
    pins.len() == 0 || (rate_run_fits(pins.drop_last()) && add_fits(rate_run(pins.drop_last()), pins.last().current_rate@))
}

/// The sum of the rates of the pins.
fn pins_rate_total(pins: &Vec<Pin>) -> (r: FractionalNumber)
    requires
        rate_run_fits(pins@),
    ensures
        r@ == rate_run(pins@),
        qeq(r@, rate_total(pins@)),
        qwf(rate_total(pins@)),
{
    let mut sum = FractionalNumber::zero();
    let mut i: usize = 0;
    proof {
        assert(pins@.subrange(0, 0) =~= Seq::<Pin>::empty());
    }
    while i < pins.len()
        invariant
            i <= pins@.len(),
            rate_run_fits(pins@),
            sum@ == rate_run(pins@.subrange(0, i as int)),
            qeq(sum@, rate_total(pins@.subrange(0, i as int))),
            qwf(rate_total(pins@.subrange(0, i as int))),
        decreases pins.len() - i,
    {
        let ghost pre = pins@.subrange(0, i as int);
        let ghost next = pins@.subrange(0, i + 1);
        proof {
            assert(next.drop_last() =~= pre);
            assert(next.last() == pins@[i as int]);
            lemma_fits_prefix(pins@, i + 1);
        }
        let rate = pins[i].current_rate;
        let new_sum = sum.add(rate);
        proof {
            use_type_invariant(&sum);
            use_type_invariant(&rate);
            use_type_invariant(&new_sum);
            lemma_qeq_sym(sum@, rate_total(pre));
            lemma_qadd_cong(rate_total(pre), sum@, rate@, rate@);
            lemma_qadd_cong(sum@, sum@, rate@, rate@);
            lemma_qcanon(new_sum@, qadd(sum@, rate@));
            lemma_qeq_sym(qadd(rate_total(pre), rate@), qadd(sum@, rate@));
            lemma_qeq_trans(new_sum@, qadd(sum@, rate@), qadd(rate_total(pre), rate@));
        }
        sum = new_sum;
        i += 1;
    }
    proof {
        assert(pins@.subrange(0, pins@.len() as int) =~= pins@);
    }
    sum
}

/// The running sums of a prefix fit where those of the whole list do.
proof fn lemma_fits_prefix(pins: Seq<Pin>, n: int)
    requires
        0 <= n <= pins.len(),
        rate_run_fits(pins),
    ensures
        rate_run_fits(pins.subrange(0, n)),
    decreases pins.len() - n,
{
    if n < pins.len() {
        lemma_fits_prefix(pins, n + 1);
        assert(pins.subrange(0, n + 1).drop_last() =~= pins.subrange(0, n));
    } else {
        assert(pins.subrange(0, n) =~= pins);
    }
}

impl OrganizerNode {
    /// Whether as much goes in as comes out.
    pub fn is_balanced(&self) -> (r: bool)
        requires
            rate_run_fits(self.base.ins@),
            rate_run_fits(self.base.outs@),
        ensures
            r == qeq(rate_total(self.base.ins@), rate_total(self.base.outs@)),
    {
        let a = pins_rate_total(&self.base.ins);
        let b = pins_rate_total(&self.base.outs);
        let r = a.value_eq(&b);
        proof {
            use_type_invariant(&a);
            use_type_invariant(&b);
            let (ti, to) = (rate_total(self.base.ins@), rate_total(self.base.outs@));
            lemma_qeq_sym(a@, ti);
            lemma_qeq_sym(b@, to);
            if r {
                lemma_qeq_trans(ti, a@, b@);
                lemma_qeq_trans(ti, b@, to);
            }
            if qeq(ti, to) {
                lemma_qeq_trans(a@, ti, to);
                lemma_qeq_trans(a@, to, b@);
            }
        }
        r
    }
}

/// A node that consumes items.
#[derive(Debug)]
pub struct SinkNode {
    pub base: Node,
    pub item_name: Option<String>,
}

impl SinkNode {
    /// A sink without pins.
    pub fn new(id: u64, item_name: Option<String>) -> (r: Self)
        ensures
            r.base.id == id,
            r.base.kind == NodeKind::Sink,
            r.base.position == (0u32, 0u32),
            r.base.ins@.len() == 0,
            r.base.outs@.len() == 0,
            r.item_name == item_name,
    {
        SinkNode { base: Node::new(id, NodeKind::Sink), item_name }
    }
}


/// A pin of a node stored inside a group.
#[derive(Debug)]
pub struct GroupedPin {
    pub item_name: Option<String>,
    pub base_rate: FractionalNumber,
    pub current_rate: FractionalNumber,
    pub locked: bool,
}

/// A link inside a group, by indices into the group's nodes and their pins.
#[derive(Debug, Clone, Copy, PartialEq, Eq, Structural)]
pub struct GroupedLink {
    pub start_node_idx: usize,
    pub start_pin_idx: usize,
    pub end_node_idx: usize,
    pub end_pin_idx: usize,
}

/// A node stored inside a group, with its position relative to the group.
#[derive(Debug)]
pub struct GroupedNode {
    pub node_data: GroupedNodeData,
    /// Offset from the group's position (`f32` bit patterns).
    pub relative_pos: (u32, u32),
}

/// The data of a node stored inside a group.
#[derive(Debug)]
pub enum GroupedNodeData {
    Craft {
        recipe_name: String,
        current_rate: FractionalNumber,
        num_somersloop: FractionalNumber,
        built: bool,
        building_name: String,
        recipe_power: u64,
        power_exponent: u64,
        somersloop_power_exponent: u64,
        somersloop_mult: FractionalNumber,
        variable_power: bool,
        ins: Vec<GroupedPin>,
        outs: Vec<GroupedPin>,
    },
    Organizer {
        kind: NodeKind,
        item_name: Option<String>,
        ins: Vec<GroupedPin>,
        outs: Vec<GroupedPin>,
    },
    Sink { item_name: Option<String>, ins: Vec<GroupedPin> },
    Group {
        name: String,
        current_rate: FractionalNumber,
        nodes: Vec<GroupedNode>,
        links: Vec<GroupedLink>,
        ins: Vec<GroupedPin>,
        outs: Vec<GroupedPin>,
    },
}

/// A node that stands for a set of nodes and the links between them.
#[derive(Debug)]
pub struct GroupNode {
    pub base: Node,
    pub current_rate: FractionalNumber,
    pub same_clock_power: FractionalNumber,
    pub last_underclock_power: FractionalNumber,
    /// The nodes inside the group.
    pub grouped_nodes: Vec<GroupedNode>,
    /// The rate of each inside node at group rate one.
    pub nodes_base_rate: Vec<FractionalNumber>,
    /// The links inside the group.
    pub grouped_links: Vec<GroupedLink>,
    /// Total consumption per item name.
    pub inputs: Vec<(String, FractionalNumber)>,
    /// Total production per item name.
    pub outputs: Vec<(String, FractionalNumber)>,
    /// Sink points per item name.
    pub detailed_sinked_points: Vec<(String, FractionalNumber)>,
    pub name: String,
    pub variable_power: bool,
    /// Machines per building name.
    pub total_machines: Vec<(String, FractionalNumber)>,
    /// Built machines per building name.
    pub built_machines: Vec<(String, FractionalNumber)>,
    pub loading_error: bool,
}

impl GroupNode {
    /// An empty group at rate one.
    pub fn new(id: u64) -> (r: Self)
        ensures
            r.base.id == id,
            r.base.kind == NodeKind::Group,
            r.base.position == (0u32, 0u32),
            r.base.ins@.len() == 0,
            r.base.outs@.len() == 0,
            r.current_rate@ == qone(),
            r.same_clock_power@ == qzero(),
            r.last_underclock_power@ == qzero(),
            r.grouped_nodes@.len() == 0,
            r.nodes_base_rate@.len() == 0,
            r.grouped_links@.len() == 0,
            r.inputs@.len() == 0,
            r.outputs@.len() == 0,
            r.detailed_sinked_points@.len() == 0,
            r.name@.len() == 0,
            !r.variable_power,
            r.total_machines@.len() == 0,
            r.built_machines@.len() == 0,
            !r.loading_error,
    {
        GroupNode {
            base: Node::new(id, NodeKind::Group),
            current_rate: FractionalNumber::one(),
            same_clock_power: FractionalNumber::zero(),
            last_underclock_power: FractionalNumber::zero(),
            grouped_nodes: Vec::new(),
            nodes_base_rate: Vec::new(),
            grouped_links: Vec::new(),
            inputs: Vec::new(),
            outputs: Vec::new(),
            detailed_sinked_points: Vec::new(),
            name: String::new(),
            variable_power: false,
            total_machines: Vec::new(),
            built_machines: Vec::new(),
            loading_error: false,
        }
    }
}


/// Whether every `base_rate * rate` of the grouped pins fits in 64-bit integers.
pub fn grouped_pins_scale_fit(pins: &Vec<GroupedPin>, rate: FractionalNumber) -> (r: bool)
    ensures
        r == forall|i: int| 0 <= i < pins@.len() ==> mul_fits(#[trigger] pins@[i].base_rate@, rate@),
{
    let mut i: usize = 0;
    while i < pins.len()
        invariant
            0 <= i <= pins.len(),
            forall|t: int| 0 <= t < i ==> mul_fits(#[trigger] pins@[t].base_rate@, rate@),
        decreases pins.len() - i,
    {
        if !pins[i].base_rate.fits_mul(&rate) {
            return false;
        }
        i += 1;
    }
    true
}

/// Set every grouped pin's current rate to `base_rate * rate`.
pub fn scale_grouped_pins(pins: &mut Vec<GroupedPin>, rate: FractionalNumber)
    requires
        forall|i: int| 0 <= i < old(pins)@.len() ==> mul_fits(#[trigger] old(pins)@[i].base_rate@, rate@),
    ensures
        final(pins)@.len() == old(pins)@.len(),
        forall|i: int|
            0 <= i < old(pins)@.len() ==> qeq(#[trigger] final(pins)@[i].current_rate@, qmul(old(pins)@[i].base_rate@, rate@))
                && final(pins)@[i].base_rate == old(pins)@[i].base_rate && final(pins)@[i].item_name == old(pins)@[i].item_name
                && final(pins)@[i].locked == old(pins)@[i].locked,
{
    let ghost orig = pins@;
    let mut i: usize = 0;
    while i < pins.len()
        invariant
            0 <= i <= pins.len(),
            pins@.len() == orig.len(),
            forall|t: int| 0 <= t < orig.len() ==> mul_fits(#[trigger] orig[t].base_rate@, rate@),
            forall|t: int| i <= t < orig.len() ==> #[trigger] pins@[t] == orig[t],
            forall|t: int|
                0 <= t < i ==> qeq(#[trigger] pins@[t].current_rate@, qmul(orig[t].base_rate@, rate@))
                    && pins@[t].base_rate == orig[t].base_rate && pins@[t].item_name == orig[t].item_name
                    && pins@[t].locked == orig[t].locked,
        decreases pins.len() - i,
    {
        let v = pins[i].base_rate.mul(rate);
        pins[i].current_rate = v;
        i += 1;
    }
}

/// Every `base_rate * r` of the grouped pins fits in 64-bit integers.
pub open spec fn grouped_scale_fits(pins: Seq<GroupedPin>, r: (int, int)) -> bool {
    forall|i: int| 0 <= i < pins.len() ==> mul_fits(#[trigger] pins[i].base_rate@, r)
}

/// The grouped node at `i` of `g` can be scaled to the group rate `r`: its
/// base rate (zero where none is stored) times `r`, and the base rates of its
/// pins times `r`, fit in 64-bit integers.
pub open spec fn inner_scale_fits(g: GroupNode, i: int, r: (int, int)) -> bool {
    let base = if 0 <= i < g.nodes_base_rate@.len() { g.nodes_base_rate@[i]@ } else { qzero() };
    &&& mul_fits(base, r)
    &&& match g.grouped_nodes@[i].node_data {
        GroupedNodeData::Craft { ins, outs, .. } => grouped_scale_fits(ins@, r) && grouped_scale_fits(outs@, r),
        GroupedNodeData::Organizer { ins, outs, .. } => grouped_scale_fits(ins@, r) && grouped_scale_fits(outs@, r),
        GroupedNodeData::Sink { ins, .. } => grouped_scale_fits(ins@, r),
        GroupedNodeData::Group { ins, outs, .. } => grouped_scale_fits(ins@, r) && grouped_scale_fits(outs@, r),
    }
}

impl GroupNode {
    /// Whether the grouped node at `i` can be scaled to the group rate `rate`.
    fn inner_fits(&self, i: usize, rate: FractionalNumber) -> (r: bool)
        requires
            i < self.grouped_nodes@.len(),
        ensures
            r == inner_scale_fits(*self, i as int, rate@),
    {
        let base = if i < self.nodes_base_rate.len() {
            self.nodes_base_rate[i]
        } else {
            FractionalNumber::zero()
        };
        if !base.fits_mul(&rate) {
            return false;
        }
        match &self.grouped_nodes[i].node_data {
            GroupedNodeData::Craft { ins, outs, .. } => grouped_pins_scale_fit(ins, rate)
                && grouped_pins_scale_fit(outs, rate),
            GroupedNodeData::Organizer { ins, outs, .. } => grouped_pins_scale_fit(ins, rate)
                && grouped_pins_scale_fit(outs, rate),
            GroupedNodeData::Sink { ins, .. } => grouped_pins_scale_fit(ins, rate),
            GroupedNodeData::Group { ins, outs, .. } => grouped_pins_scale_fit(ins, rate)
                && grouped_pins_scale_fit(outs, rate),
        }
    }

    /// Whether `update_rate(new_rate)` succeeds: every product it makes fits
    /// in 64-bit integers.
    pub fn rate_fits(&self, new_rate: FractionalNumber) -> (r: bool)
        ensures
            r <==> scale_fits(self.base.ins@, new_rate@) && scale_fits(self.base.outs@, new_rate@) && forall|i: int|
                0 <= i < self.grouped_nodes@.len() ==> #[trigger] inner_scale_fits(*self, i, new_rate@),
    {
        if !pins_scale_fit(&self.base.ins, new_rate) || !pins_scale_fit(&self.base.outs, new_rate) {
            return false;
        }
        let mut i: usize = 0;
        while i < self.grouped_nodes.len()
            invariant
                0 <= i <= self.grouped_nodes@.len(),
                forall|j: int| 0 <= j < i ==> #[trigger] inner_scale_fits(*self, j, new_rate@),
            decreases self.grouped_nodes.len() - i,
        {
            if !self.inner_fits(i, new_rate) {
                return false;
            }
            i += 1;
        }
        true
    }

    /// Set the group rate: the group's pins carry `base_rate * new_rate`, and
    /// every node inside is scaled to it (pins `base_rate * new_rate`; crafting
    /// nodes and nested groups at their base rate times `new_rate`).
    /// Returns false, changing nothing, where a product does not fit in 64-bit
    /// integers.
    pub fn update_rate(&mut self, new_rate: FractionalNumber) -> (ok: bool)
        ensures
            !ok ==> *final(self) == *old(self),
            ok ==> final(self).current_rate == new_rate && scaled_pins(old(self).base.ins@, final(self).base.ins@, new_rate@)
                && scaled_pins(old(self).base.outs@, final(self).base.outs@, new_rate@)
                && final(self).grouped_nodes@.len() == old(self).grouped_nodes@.len()
                && final(self).base.id == old(self).base.id && final(self).base.kind == old(self).base.kind
                && final(self).base.position == old(self).base.position
                && final(self).same_clock_power == old(self).same_clock_power
                && final(self).last_underclock_power == old(self).last_underclock_power
                && final(self).nodes_base_rate@ == old(self).nodes_base_rate@
                && final(self).grouped_links@ == old(self).grouped_links@
                && final(self).inputs@ == old(self).inputs@ && final(self).outputs@ == old(self).outputs@
                && final(self).detailed_sinked_points@ == old(self).detailed_sinked_points@
                && final(self).name == old(self).name && final(self).variable_power == old(self).variable_power
                && final(self).total_machines@ == old(self).total_machines@
                && final(self).built_machines@ == old(self).built_machines@
                && final(self).loading_error == old(self).loading_error,
            ok <==> scale_fits(old(self).base.ins@, new_rate@) && scale_fits(old(self).base.outs@, new_rate@) && forall|i: int|
                0 <= i < old(self).grouped_nodes@.len() ==> #[trigger] inner_scale_fits(*old(self), i, new_rate@),
    {
        if !pins_scale_fit(&self.base.ins, new_rate) || !pins_scale_fit(&self.base.outs, new_rate) {
            return false;
        }
        let mut i: usize = 0;
        while i < self.grouped_nodes.len()
            invariant
                0 <= i <= self.grouped_nodes@.len(),
                *self == *old(self),
                forall|j: int| 0 <= j < i ==> #[trigger] inner_scale_fits(*old(self), j, new_rate@),
            decreases self.grouped_nodes.len() - i,
        {
            if !self.inner_fits(i, new_rate) {
                return false;
            }
            i += 1;
        }
        self.current_rate = new_rate;
        scale_pins(&mut self.base.ins, new_rate);
        scale_pins(&mut self.base.outs, new_rate);
        let n = self.grouped_nodes.len();
        let ghost snap = *self;
        let mut i: usize = 0;
        while i < n
            invariant
                0 <= i <= n,
                n == self.grouped_nodes@.len(),
                self.base == snap.base,
                self.current_rate == snap.current_rate,
                self.same_clock_power == snap.same_clock_power,
                self.last_underclock_power == snap.last_underclock_power,
                self.nodes_base_rate == snap.nodes_base_rate,
                self.grouped_links == snap.grouped_links,
                self.inputs == snap.inputs,
                self.outputs == snap.outputs,
                self.detailed_sinked_points == snap.detailed_sinked_points,
                self.name == snap.name,
                self.variable_power == snap.variable_power,
                self.total_machines == snap.total_machines,
                self.built_machines == snap.built_machines,
                self.loading_error == snap.loading_error,
            decreases n - i,
        {
            let base = if i < self.nodes_base_rate.len() {
                self.nodes_base_rate[i]
            } else {
                FractionalNumber::zero()
            };
            if let Some(scaled) = base.checked_mul(new_rate) {
                match &mut self.grouped_nodes[i].node_data {
                    GroupedNodeData::Craft { current_rate, ins, outs, .. } => {
                        *current_rate = scaled;
                        if grouped_pins_scale_fit(ins, new_rate) {
                            scale_grouped_pins(ins, new_rate);
                        }
                        if grouped_pins_scale_fit(outs, new_rate) {
                            scale_grouped_pins(outs, new_rate);
                        }
                    },
                    GroupedNodeData::Organizer { ins, outs, .. } => {
                        if grouped_pins_scale_fit(ins, new_rate) {
                            scale_grouped_pins(ins, new_rate);
                        }
                        if grouped_pins_scale_fit(outs, new_rate) {
                            scale_grouped_pins(outs, new_rate);
                        }
                    },
                    GroupedNodeData::Sink { ins, .. } => {
                        if grouped_pins_scale_fit(ins, new_rate) {
                            scale_grouped_pins(ins, new_rate);
                        }
                    },
                    GroupedNodeData::Group { current_rate, ins, outs, .. } => {
                        *current_rate = scaled;
                        if grouped_pins_scale_fit(ins, new_rate) {
                            scale_grouped_pins(ins, new_rate);
                        }
                        if grouped_pins_scale_fit(outs, new_rate) {
                            scale_grouped_pins(outs, new_rate);
                        }
                    },
                }
            }
            i += 1;
        }
        true
    }
}

} // verus!
