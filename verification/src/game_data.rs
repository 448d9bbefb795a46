//! Game data: items, buildings and recipes, and crafting nodes made from
//! recipes.
use vstd::prelude::*;
use crate::app_node::AppNode;
use crate::fractional_number::FractionalNumber;
use crate::node::{CraftNode, F64_ONE_BITS, NodeKind, scaled_pins};
use crate::pin::{Pin, PinDirection};
use crate::production_app::ProductionApp;
use crate::rate_change::overflow_text;
use crate::rational::{qeq, qone, qzero};
use crate::text::{concat, find_text, first_occurrence, string_from_chars, to_lowercase, unicode_lowercase};
use vstd::utf8::encode_utf8;
use vstd::string::StrSliceExecFns;

verus! {

/// The name with every space replaced by a line break, for display.
pub open spec fn spaces_to_newlines(s: Seq<char>) -> Seq<char> {
    s.map_values(|c: char| if c == ' ' { '\n' } else { c })
}

/// An item of the game.
#[derive(Debug)]
pub struct Item {
    pub name: String,
    /// The name with spaces replaced by line breaks.
    pub new_line_name: String,
    /// Relative path of the icon.
    pub icon_path: String,
    /// Points the item is worth in the sink.
    pub sink_value: i32,
}

impl Item {
    pub fn new(name: String, icon_path: &str, sink_value: i32) -> (r: Self)
        ensures
            r.name == name,
            r.new_line_name@ == spaces_to_newlines(name@),
            r.icon_path@ == icon_path@,
            r.sink_value == sink_value,
    {
        let n = name.as_str().unicode_len();
        let mut chars: Vec<char> = Vec::new();
        let mut i: usize = 0;
        while i < n
            invariant
                0 <= i <= n,
                n == name@.len(),
                chars@ == spaces_to_newlines(name@.subrange(0, i as int)),
            decreases n - i,
        {
            let c = name.as_str().get_char(i);
            proof {
                assert(spaces_to_newlines(name@.subrange(0, i + 1)) =~= spaces_to_newlines(name@.subrange(0, i as int)).push(
                    if c == ' ' { '\n' } else { c },
                ));
            }
            if c == ' ' {
                chars.push('\n');
            } else {
                chars.push(c);
            }
            i += 1;
        }
        proof {
            assert(name@.subrange(0, n as int) =~= name@);
        }
        let new_line_name = string_from_chars(chars.as_slice());
        Item { name, new_line_name, icon_path: icon_path.to_owned(), sink_value }
    }
}

/// An item with a quantity, in a recipe.
#[derive(Debug)]
pub struct CountedItem {
    pub item_name: String,
    pub quantity: FractionalNumber,
}

/// A building that runs recipes.
#[derive(Debug)]
pub struct Building {
    pub name: String,
    pub somersloop_mult: FractionalNumber,
    /// Power in MW (`f64` bit pattern).
    pub power: u64,
    /// Exponent of the underclocking power curve (`f64` bit pattern).
    pub power_exponent: u64,
    /// Exponent of the somersloop power curve (`f64` bit pattern).
    pub somersloop_power_exponent: u64,
    pub variable_power: bool,
}

impl Building {
    pub fn new(
        name: String,
        somersloop_mult: FractionalNumber,
        power: u64,
        power_exponent: u64,
        somersloop_power_exponent: u64,
        variable_power: bool,
    ) -> (r: Self)
        ensures
            r == (Building { name, somersloop_mult, power, power_exponent, somersloop_power_exponent, variable_power }),
    {
        Building { name, somersloop_mult, power, power_exponent, somersloop_power_exponent, variable_power }
    }

    /// A copy of the building.
    pub fn duplicate(&self) -> (r: Self)
        ensures
            r == *self,
    {
        Building {
            name: self.name.clone(),
            somersloop_mult: self.somersloop_mult,
            power: self.power,
            power_exponent: self.power_exponent,
            somersloop_power_exponent: self.somersloop_power_exponent,
            variable_power: self.variable_power,
        }
    }
}

/// A crafting recipe.
#[derive(Debug)]
pub struct Recipe {
    pub name: String,
    /// The name, after a `*` for alternate recipes.
    pub display_name: String,
    pub ins: Vec<CountedItem>,
    pub outs: Vec<CountedItem>,
    /// The building, once buildings are known.
    pub building: Option<Building>,
    pub building_name: String,
    pub alternate: bool,
    pub is_spoiler: bool,
    /// Power in MW (`f64` bit pattern).
    pub power: u64,
    /// The name in lowercase, for searching.
    pub lower_name: String,
    /// The item names of the inputs, then of the outputs, in lowercase.
    pub lower_ingredients: Vec<String>,
}

/// The lowercase item names of the inputs, then of the outputs.
pub open spec fn lowercase_ingredients(ins: Seq<CountedItem>, outs: Seq<CountedItem>) -> Seq<Seq<char>> {
    ins.map_values(|c: CountedItem| unicode_lowercase(c.item_name@)) + outs.map_values(
        |c: CountedItem| unicode_lowercase(c.item_name@),
    )
}

/// The earliest byte position at which `needle` occurs in one of `hays`.
pub open spec fn earliest_occurrence(hays: Seq<Seq<char>>, needle: Seq<u8>) -> Option<int>
    decreases hays.len(),
{
    if hays.len() == 0 {
        None
    } else {
        let rest = earliest_occurrence(hays.drop_last(), needle);
        match (rest, first_occurrence(encode_utf8(hays.last()), needle)) {
            (Some(a), Some(b)) => Some(if b < a { b } else { a }),
            (Some(a), None) => Some(a),
            (None, b) => b,
        }
    }
}

/// The lowercase names of the items.
fn lowercase_names(items: &Vec<CountedItem>, out: &mut Vec<String>)
    ensures
        final(out)@.map_values(|t: String| t@) == old(out)@.map_values(|t: String| t@) + items@.map_values(
            |c: CountedItem| unicode_lowercase(c.item_name@),
        ),
{
    let ghost start = out@.map_values(|t: String| t@);
    let mut i: usize = 0;
    while i < items.len()
        invariant
            i <= items@.len(),
            out@.map_values(|t: String| t@) == start + items@.subrange(0, i as int).map_values(
                |c: CountedItem| unicode_lowercase(c.item_name@),
            ),
        decreases items.len() - i,
    {
        let ghost before = out@;
        out.push(to_lowercase(items[i].item_name.as_str()));
        proof {
            assert(out@.map_values(|t: String| t@) =~= before.map_values(|t: String| t@).push(
                unicode_lowercase(items@[i as int].item_name@),
            ));
            assert(items@.subrange(0, i + 1).map_values(|c: CountedItem| unicode_lowercase(c.item_name@))
                =~= items@.subrange(0, i as int).map_values(|c: CountedItem| unicode_lowercase(c.item_name@)).push(
                unicode_lowercase(items@[i as int].item_name@),
            ));
        }
        i += 1;
    }
    proof {
        assert(items@.subrange(0, items@.len() as int) =~= items@);
    }
}

impl Recipe {
    pub fn new(
        ins: Vec<CountedItem>,
        outs: Vec<CountedItem>,
        building_name: String,
        alternate: bool,
        power: u64,
        name: String,
        is_spoiler: bool,
    ) -> (r: Self)
        ensures
            r.name == name,
            r.display_name@ == (if alternate { "*"@ + name@ } else { name@ }),
            r.ins == ins,
            r.outs == outs,
            r.building is None,
            r.building_name == building_name,
            r.alternate == alternate,
            r.is_spoiler == is_spoiler,
            r.power == power,
            r.lower_name@ == unicode_lowercase(name@),
            r.lower_ingredients@.map_values(|t: String| t@) == lowercase_ingredients(ins@, outs@),
    {
        let display_name = if alternate {
            concat("*".to_owned(), name.as_str())
        } else {
            name.clone()
        };
        let lower_name = to_lowercase(name.as_str());
        let mut lower_ingredients: Vec<String> = Vec::new();
        proof {
            assert(lower_ingredients@.map_values(|t: String| t@) =~= Seq::<Seq<char>>::empty());
        }
        lowercase_names(&ins, &mut lower_ingredients);
        lowercase_names(&outs, &mut lower_ingredients);
        proof {
            assert(Seq::<Seq<char>>::empty() + ins@.map_values(|c: CountedItem| unicode_lowercase(c.item_name@))
                =~= ins@.map_values(|c: CountedItem| unicode_lowercase(c.item_name@)));
        }
        Recipe {
            name,
            display_name,
            ins,
            outs,
            building: None,
            building_name,
            alternate,
            is_spoiler,
            power,
            lower_name,
            lower_ingredients,
        }
    }

    /// The byte position at which `s`, in any case, first occurs in the name.
    pub fn find_in_name(&self, s: &str) -> (r: Option<usize>)
        ensures
            r matches Some(i) ==> first_occurrence(encode_utf8(self.lower_name@), encode_utf8(unicode_lowercase(s@))) == Some(
                i as int,
            ),
            r is None ==> first_occurrence(encode_utf8(self.lower_name@), encode_utf8(unicode_lowercase(s@))) is None,
    {
        let lower_s = to_lowercase(s);
        find_text(self.lower_name.as_str(), lower_s.as_str())
    }

    /// The earliest byte position at which `s`, in any case, occurs in the
    /// name of an input or output item.
    pub fn find_in_ingredients(&self, s: &str) -> (r: Option<usize>)
        ensures
            r matches Some(i) ==> earliest_occurrence(
                self.lower_ingredients@.map_values(|t: String| t@),
                encode_utf8(unicode_lowercase(s@)),
            ) == Some(i as int),
            r is None ==> earliest_occurrence(
                self.lower_ingredients@.map_values(|t: String| t@),
                encode_utf8(unicode_lowercase(s@)),
            ) is None,
    {
        let lower_s = to_lowercase(s);
        let ghost needle = encode_utf8(unicode_lowercase(s@));
        let ghost hays = self.lower_ingredients@.map_values(|t: String| t@);
        let mut best: Option<usize> = None;
        let mut i: usize = 0;
        while i < self.lower_ingredients.len()
            invariant
                i <= self.lower_ingredients@.len(),
                hays == self.lower_ingredients@.map_values(|t: String| t@),
                needle == encode_utf8(lower_s@),
                (match best {
                    Some(b) => earliest_occurrence(hays.subrange(0, i as int), needle) == Some(b as int),
                    None => earliest_occurrence(hays.subrange(0, i as int), needle) is None,
                }),
            decreases self.lower_ingredients.len() - i,
        {
            proof {
                assert(hays.subrange(0, i + 1).drop_last() =~= hays.subrange(0, i as int));
                assert(hays.subrange(0, i + 1).last() == self.lower_ingredients@[i as int]@);
            }
            let found = find_text(self.lower_ingredients[i].as_str(), lower_s.as_str());
            best = match (best, found) {
                (Some(a), Some(b)) => Some(if b < a { b } else { a }),
                (Some(a), None) => Some(a),
                (None, b) => b,
            };
            i += 1;
        }
        proof {
            assert(hays.subrange(0, hays.len() as int) =~= hays);
        }
        best
    }

    /// Attach the building.
    pub fn set_building(&mut self, building: Building)
        ensures
            *final(self) == (Recipe { building: Some(building), ..*old(self) }),
    {
        self.building = Some(building);
    }
}

/// The index of the first entry with the name.
pub open spec fn first_named<T>(names: Seq<Seq<char>>, name: Seq<char>) -> Option<int> {
    if exists|i: int| 0 <= i < names.len() && names[i] == name {
        Some(choose|i: int| 0 <= i < names.len() && names[i] == name && forall|j: int| 0 <= j < i ==> names[j] != name)
    } else {
        None
    }
}

/// Items, buildings and recipes of a game version.
#[derive(Debug)]
pub struct GameData {
    pub version: String,
    /// Items, each name once.
    pub items: Vec<Item>,
    /// Buildings, each name once.
    pub buildings: Vec<Building>,
    pub recipes: Vec<Recipe>,
}

/// The names of some items.
pub open spec fn item_names(items: Seq<Item>) -> Seq<Seq<char>> {
    items.map_values(|i: Item| i.name@)
}

/// The names of some buildings.
pub open spec fn building_names(bs: Seq<Building>) -> Seq<Seq<char>> {
    bs.map_values(|b: Building| b.name@)
}

/// The names of some recipes.
pub open spec fn recipe_names(rs: Seq<Recipe>) -> Seq<Seq<char>> {
    rs.map_values(|r: Recipe| r.name@)
}

/// The entries of `(name, thousandths)` whose item is known, in order, as counted items.
pub open spec fn known_counted(known: Seq<Seq<char>>, entries: Seq<(String, i64)>, out: Seq<CountedItem>) -> bool
    decreases entries.len(),
{
    if entries.len() == 0 {
        out.len() == 0
    } else {
        let e = entries.last();
        if known.contains(e.0@) {
            out.len() > 0 && out.last().item_name == e.0 && qeq(out.last().quantity@, (e.1 as int, 1000int))
                && known_counted(known, entries.drop_last(), out.drop_last())
        } else {
            known_counted(known, entries.drop_last(), out)
        }
    }
}

/// The position of the first entry whose name is `name`.
fn find_name(names: &Vec<String>, name: &String) -> (r: Option<usize>)
    ensures
        r matches Some(i) ==> i < names@.len() && names@[i as int]@ == name@ && forall|j: int| 0 <= j < i ==> (#[trigger] names@[j])@ != name@,
        r is None ==> forall|j: int| 0 <= j < names@.len() ==> (#[trigger] names@[j])@ != name@,
{
    let mut i: usize = 0;
    while i < names.len()
        invariant
            0 <= i <= names@.len(),
            forall|j: int| 0 <= j < i ==> (#[trigger] names@[j])@ != name@,
        decreases names.len() - i,
    {
        if names[i] == *name {
            return Some(i);
        }
        i += 1;
    }
    None
}

impl GameData {
    pub fn new() -> (r: Self)
        ensures
            r.version@ == "1.0"@,
            r.items@.len() == 0,
            r.buildings@.len() == 0,
            r.recipes@.len() == 0,
    {
        GameData { version: "1.0".to_owned(), items: Vec::new(), buildings: Vec::new(), recipes: Vec::new() }
    }

    /// The position of the item with the name.
    pub fn find_item(&self, name: &String) -> (r: Option<usize>)
        ensures
            r matches Some(i) ==> i < self.items@.len() && self.items@[i as int].name@ == name@,
            r is None ==> !item_names(self.items@).contains(name@),
    {
        let mut i: usize = 0;
        while i < self.items.len()
            invariant
                0 <= i <= self.items@.len(),
                forall|j: int| 0 <= j < i ==> (#[trigger] self.items@[j]).name@ != name@,
            decreases self.items.len() - i,
        {
            if self.items[i].name == *name {
                return Some(i);
            }
            i += 1;
        }
        proof {
            if item_names(self.items@).contains(name@) {
                let j = choose|j: int| 0 <= j < item_names(self.items@).len() && item_names(self.items@)[j] == name@;
                assert(self.items@[j].name@ == name@);
            }
        }
        None
    }

    /// The position of the building with the name.
    pub fn find_building(&self, name: &String) -> (r: Option<usize>)
        ensures
            r matches Some(i) ==> i < self.buildings@.len() && self.buildings@[i as int].name@ == name@,
            r is None ==> !building_names(self.buildings@).contains(name@),
    {
        let mut i: usize = 0;
        while i < self.buildings.len()
            invariant
                0 <= i <= self.buildings@.len(),
                forall|j: int| 0 <= j < i ==> (#[trigger] self.buildings@[j]).name@ != name@,
            decreases self.buildings.len() - i,
        {
            if self.buildings[i].name == *name {
                return Some(i);
            }
            i += 1;
        }
        proof {
            if building_names(self.buildings@).contains(name@) {
                let j = choose|j: int| 0 <= j < building_names(self.buildings@).len() && building_names(self.buildings@)[j] == name@;
                assert(self.buildings@[j].name@ == name@);
            }
        }
        None
    }

    /// The position of the first recipe with the name.
    pub fn find_recipe(&self, name: &String) -> (r: Option<usize>)
        ensures
            r matches Some(i) ==> i < self.recipes@.len() && self.recipes@[i as int].name@ == name@ && forall|j: int|
                0 <= j < i ==> (#[trigger] self.recipes@[j]).name@ != name@,
            r is None ==> forall|j: int| 0 <= j < self.recipes@.len() ==> (#[trigger] self.recipes@[j]).name@ != name@,
    {
        let mut i: usize = 0;
        while i < self.recipes.len()
            invariant
                0 <= i <= self.recipes@.len(),
                forall|j: int| 0 <= j < i ==> (#[trigger] self.recipes@[j]).name@ != name@,
            decreases self.recipes.len() - i,
        {
            if self.recipes[i].name == *name {
                return Some(i);
            }
            i += 1;
        }
        None
    }

    /// Add an item; it replaces an item of the same name.
    pub fn add_item(&mut self, item: Item)
        ensures
            final(self).buildings@ == old(self).buildings@,
            final(self).recipes@ == old(self).recipes@,
            final(self).version == old(self).version,
            item_names(old(self).items@).contains(item.name@) ==> exists|i: int|
                0 <= i < old(self).items@.len() && old(self).items@[i].name@ == item.name@ && final(self).items@
                    == old(self).items@.update(i, item),
            !item_names(old(self).items@).contains(item.name@) ==> final(self).items@ == old(self).items@.push(item),
    {
        match self.find_item(&item.name) {
            Some(i) => {
                proof {
                    assert(item_names(self.items@)[i as int] == item.name@);
                }
                self.items.set(i, item);
            },
            None => {
                self.items.push(item);
            },
        }
    }

    /// Add a building; it replaces a building of the same name.
    pub fn add_building(&mut self, building: Building)
        ensures
            final(self).items@ == old(self).items@,
            final(self).recipes@ == old(self).recipes@,
            final(self).version == old(self).version,
            building_names(old(self).buildings@).contains(building.name@) ==> exists|i: int|
                0 <= i < old(self).buildings@.len() && old(self).buildings@[i].name@ == building.name@ && final(self).buildings@ == old(self).buildings@.update(i, building),
            !building_names(old(self).buildings@).contains(building.name@) ==> final(self).buildings@ == old(self).buildings@.push(building),
    {
        match self.find_building(&building.name) {
            Some(i) => {
                proof {
                    assert(building_names(self.buildings@)[i as int] == building.name@);
                }
                self.buildings.set(i, building);
            },
            None => {
                self.buildings.push(building);
            },
        }
    }

    /// The counted items of the entries `(item name, thousandths)` whose item is known.
    pub fn counted_items(&self, entries: &Vec<(String, i64)>) -> (r: Vec<CountedItem>)
        requires
            forall|j: int| 0 <= j < entries@.len() ==> (#[trigger] entries@[j]).1 != i64::MIN,
        ensures
            known_counted(item_names(self.items@), entries@, r@),
    {
        let mut out: Vec<CountedItem> = Vec::new();
        let mut i: usize = 0;
        while i < entries.len()
            invariant
                0 <= i <= entries@.len(),
                forall|j: int| 0 <= j < entries@.len() ==> (#[trigger] entries@[j]).1 != i64::MIN,
                known_counted(item_names(self.items@), entries@.subrange(0, i as int), out@),
            decreases entries.len() - i,
        {
            proof {
                assert(entries@.subrange(0, i + 1).drop_last() =~= entries@.subrange(0, i as int));
            }
            let name = &entries[i].0;
            let milli = entries[i].1;
            match self.find_item(name) {
                Some(_) => {
                    let ghost before = out@;
                    out.push(CountedItem { item_name: name.clone(), quantity: FractionalNumber::new(milli, 1000) });
                    proof {
                        assert(out@.drop_last() =~= before);
                        assert(item_names(self.items@).contains(name@)) by {
                            let k = choose|k: int| 0 <= k < self.items@.len() && self.items@[k].name@ == name@;
                            assert(item_names(self.items@)[k] == name@);
                        }
                    }
                },
                None => {},
            }
            i += 1;
        }
        proof {
            assert(entries@.subrange(0, entries@.len() as int) =~= entries@);
        }
        out
    }

    /// Add a recipe: inputs and outputs are `(item name, thousandths)`
    /// entries, of which those with a known item are kept; the recipe gets
    /// the building of its building name, where there is one.
    pub fn add_recipe(
        &mut self,
        name: String,
        building_name: String,
        inputs: &Vec<(String, i64)>,
        outputs: &Vec<(String, i64)>,
        power: u64,
        alternate: bool,
        is_spoiler: bool,
    )
        requires
            forall|j: int| 0 <= j < inputs@.len() ==> (#[trigger] inputs@[j]).1 != i64::MIN,
            forall|j: int| 0 <= j < outputs@.len() ==> (#[trigger] outputs@[j]).1 != i64::MIN,
        ensures
            final(self).items@ == old(self).items@,
            final(self).buildings@ == old(self).buildings@,
            final(self).version == old(self).version,
            final(self).recipes@.drop_last() == old(self).recipes@,
            final(self).recipes@.len() == old(self).recipes@.len() + 1,
            ({
                let r = final(self).recipes@.last();
                &&& r.name == name
                &&& r.display_name@ == (if alternate { "*"@ + name@ } else { name@ })
                &&& r.building_name == building_name
                &&& r.power == power
                &&& r.alternate == alternate
                &&& r.is_spoiler == is_spoiler
                &&& known_counted(item_names(old(self).items@), inputs@, r.ins@)
                &&& known_counted(item_names(old(self).items@), outputs@, r.outs@)
                &&& (building_names(old(self).buildings@).contains(building_name@) ==> (r.building matches Some(b) && b.name@ == building_name@
                    && old(self).buildings@.contains(b)))
                &&& (!building_names(old(self).buildings@).contains(building_name@) ==> r.building is None)
            }),
    {
        let ins = self.counted_items(inputs);
        let outs = self.counted_items(outputs);
        let found = self.find_building(&building_name);
        let mut recipe = Recipe::new(ins, outs, building_name, alternate, power, name, is_spoiler);
        match found {
            Some(i) => {
                let b = self.buildings[i].duplicate();
                proof {
                    assert(self.buildings@[i as int] == b);
                    assert(self.buildings@.contains(b));
                    assert(building_names(self.buildings@)[i as int] == recipe.building_name@);
                }
                recipe.set_building(b);
            },
            None => {},
        }
        proof {
            assert(recipe.name == name);
            assert(recipe.building_name == building_name);
            assert(known_counted(item_names(self.items@), inputs@, recipe.ins@));
            assert(known_counted(item_names(self.items@), outputs@, recipe.outs@));
            assert(building_names(self.buildings@).contains(building_name@) ==> (recipe.building matches Some(b) && b.name@ == building_name@
                    && self.buildings@.contains(b)));
            assert(!building_names(self.buildings@).contains(building_name@) ==> recipe.building is None);
        }
        self.recipes.push(recipe);
    }
}

/// The pins of a new crafting node: ids `first, first + 1, ...`, the items
/// and quantities of the recipe side, unlocked, rate `quantity`.
pub open spec fn recipe_pins_ok(pins: Seq<Pin>, items: Seq<CountedItem>, first: int, dir: PinDirection, node_id: u64) -> bool {
    &&& pins.len() == items.len()
    &&& forall|j: int|
        0 <= j < items.len() ==> {
            let p = #[trigger] pins[j];
            &&& p.id == first + j
            &&& p.direction == dir
            &&& p.node_id == node_id
            &&& p.item_name == Some(items[j].item_name)
            &&& !p.locked
            &&& p.base_rate == items[j].quantity
            &&& qeq(p.current_rate@, items[j].quantity@)
            &&& !p.error
            &&& p.link_id is None
        }
}

/// A zero `f64` bit pattern (either sign).
pub open spec fn is_zero_bits(bits: u64) -> bool {
    bits == 0 || bits == 0x8000_0000_0000_0000u64
}

/// The crafting node made from the recipe with id `id`: the recipe's
/// building name and power; with a building, its exponents, multiplier and
/// variable power, and its power where the recipe's is zero; one building.
pub open spec fn craft_from_recipe(c: CraftNode, recipe: Recipe, id: u64) -> bool {
    &&& c.base.id == id
    &&& c.base.kind == NodeKind::Craft
    &&& c.base.position == (0u32, 0u32)
    &&& c.recipe_name@ == recipe.name@
    &&& c.building_name == recipe.building_name
    &&& match recipe.building {
        Some(b) => {
            &&& c.power_exponent == b.power_exponent
            &&& c.somersloop_power_exponent == b.somersloop_power_exponent
            &&& c.somersloop_mult == b.somersloop_mult
            &&& c.variable_power == b.variable_power
            &&& c.recipe_power == (if is_zero_bits(recipe.power) { b.power } else { recipe.power })
        },
        None => {
            &&& c.power_exponent == F64_ONE_BITS
            &&& c.somersloop_power_exponent == F64_ONE_BITS
            &&& c.somersloop_mult@ == qone()
            &&& !c.variable_power
            &&& c.recipe_power == recipe.power
        },
    }
    &&& c.current_rate@ == qone()
    &&& c.same_clock_power@ == qzero()
    &&& c.last_underclock_power@ == qzero()
    &&& c.num_somersloop@ == qzero()
    &&& !c.built
    &&& recipe_pins_ok(c.base.ins@, recipe.ins@, id + 1, PinDirection::Input, id)
    &&& recipe_pins_ok(c.base.outs@, recipe.outs@, id + 1 + recipe.ins@.len(), PinDirection::Output, id)
}

impl ProductionApp {
    /// Pins for the items of one side of a recipe.
    pub(crate) fn recipe_pins(&mut self, items: &Vec<CountedItem>, dir: PinDirection, node_id: u64) -> (r: Vec<Pin>)
        requires
            old(self).next_id + items@.len() < u64::MAX,
        ensures
            final(self).next_id == old(self).next_id + items@.len(),
            final(self).nodes@ == old(self).nodes@,
            final(self).links@ == old(self).links@,
            r@.len() == items@.len(),
            forall|j: int|
                0 <= j < items@.len() ==> {
                    let p = #[trigger] r@[j];
                    &&& p.id == old(self).next_id + j
                    &&& p.direction == dir
                    &&& p.node_id == node_id
                    &&& p.item_name == Some(items@[j].item_name)
                    &&& !p.locked
                    &&& p.base_rate == items@[j].quantity
                    &&& p.current_rate@ == qzero()
                    &&& !p.error
                    &&& p.link_id is None
                },
    {
        let mut pins: Vec<Pin> = Vec::new();
        let mut j: usize = 0;
        while j < items.len()
            invariant
                0 <= j <= items@.len(),
                self.next_id == old(self).next_id + j,
                old(self).next_id + items@.len() < u64::MAX,
                self.nodes@ == old(self).nodes@,
                self.links@ == old(self).links@,
                pins@.len() == j,
                forall|q: int|
                    0 <= q < j ==> {
                        let p = #[trigger] pins@[q];
                        &&& p.id == old(self).next_id + q
                        &&& p.direction == dir
                        &&& p.node_id == node_id
                        &&& p.item_name == Some(items@[q].item_name)
                        &&& !p.locked
                        &&& p.base_rate == items@[q].quantity
                        &&& p.current_rate@ == qzero()
                        &&& !p.error
                        &&& p.link_id is None
                    },
            decreases items.len() - j,
        {
            let id = self.get_next_id();
            pins.push(Pin::new(id, dir, node_id, Some(items[j].item_name.clone()), false, items[j].quantity));
            j += 1;
        }
        pins
    }

    /// Add a crafting node for the recipe named `recipe_name`, at one
    /// building, with a pin per recipe input and output.
    pub fn add_craft_node(&mut self, recipe_name: &str, game_data: &GameData) -> (r: Result<u64, String>)
        requires
            forall|k: int|
                0 <= k < game_data.recipes@.len() && (#[trigger] game_data.recipes@[k]).name@ == recipe_name@ && (forall|j: int|
                    0 <= j < k ==> game_data.recipes@[j].name@ != recipe_name@) ==> old(self).next_id + 1 + game_data.recipes@[k].ins@.len()
                    + game_data.recipes@[k].outs@.len() < u64::MAX,
        ensures
            final(self).links@ == old(self).links@,
            (forall|k: int| 0 <= k < game_data.recipes@.len() ==> (#[trigger] game_data.recipes@[k]).name@ != recipe_name@) ==> (r matches Err(e)
                && e@ == "Recipe '"@ + recipe_name@ + "' not found"@ && *final(self) == *old(self)),
            r matches Ok(id) ==> id == old(self).next_id && exists|k: int|
                0 <= k < game_data.recipes@.len() && (#[trigger] game_data.recipes@[k]).name@ == recipe_name@ && (forall|j: int|
                    0 <= j < k ==> (#[trigger] game_data.recipes@[j]).name@ != recipe_name@) && final(self).next_id == old(self).next_id + 1 + game_data.recipes@[k].ins@.len() + game_data.recipes@[k].outs@.len() && final(self).nodes@.drop_last()
                    == old(self).nodes@ && final(self).nodes@.len() == old(self).nodes@.len() + 1 && (final(self).nodes@.last() matches AppNode::Craft(c)
                    && craft_from_recipe(c, game_data.recipes@[k], id)),
            (exists|k: int| 0 <= k < game_data.recipes@.len() && (#[trigger] game_data.recipes@[k]).name@ == recipe_name@)
                ==> r is Ok,
    {
        let name = recipe_name.to_owned();
        let k = match game_data.find_recipe(&name) {
            Some(k) => k,
            None => {
                let msg = concat(concat("Recipe '".to_owned(), recipe_name), "' not found");
                return Err(msg);
            },
        };
        let recipe = &game_data.recipes[k];
        let node_id = self.get_next_id();
        let mut craft = CraftNode::new(node_id, name);
        craft.building_name = recipe.building_name.clone();
        craft.recipe_power = recipe.power;
        match &recipe.building {
            Some(b) => {
                craft.power_exponent = b.power_exponent;
                craft.somersloop_power_exponent = b.somersloop_power_exponent;
                craft.somersloop_mult = b.somersloop_mult;
                craft.variable_power = b.variable_power;
                if craft.recipe_power == 0 || craft.recipe_power == 0x8000_0000_0000_0000u64 {
                    craft.recipe_power = b.power;
                }
            },
            None => {},
        }
        let ins = self.recipe_pins(&recipe.ins, PinDirection::Input, node_id);
        let outs = self.recipe_pins(&recipe.outs, PinDirection::Output, node_id);
        craft.base.ins = ins;
        craft.base.outs = outs;
        let one = FractionalNumber::one();
        if !craft.rate_fits(one) {
            proof {
                assert(false);
            }
            return Err("Arithmetic overflow while propagating rates".to_owned());
        }
        craft.update_rate(one);
        proof {
            assert forall|j: int| 0 <= j < recipe.ins@.len() implies qeq(#[trigger] craft.base.ins@[j].current_rate@, recipe.ins@[j].quantity@) by {
                assert(crate::rational::qmul(recipe.ins@[j].quantity@, qone()) == recipe.ins@[j].quantity@);
            }
            assert forall|j: int| 0 <= j < recipe.outs@.len() implies qeq(#[trigger] craft.base.outs@[j].current_rate@, recipe.outs@[j].quantity@) by {
                assert(crate::rational::qmul(recipe.outs@[j].quantity@, qone()) == recipe.outs@[j].quantity@);
            }
        }
        let ghost before = self.nodes@;
        self.nodes.push(AppNode::Craft(craft));
        proof {
            assert(self.nodes@.drop_last() =~= before);
        }
        Ok(node_id)
    }
}

} // verus!
