use ficsit_companion_rs::utils::{load_texture_from_file, ItemCompare, RecipeCompare};
use std::cmp::Ordering;

#[test]
fn test_item_compare() {
    assert_eq!(ItemCompare::compare("Apple", "Banana"), Ordering::Less);
    assert_eq!(ItemCompare::compare("Banana", "Apple"), Ordering::Greater);
    assert_eq!(ItemCompare::compare("Apple", "Apple"), Ordering::Equal);
}

#[test]
fn test_recipe_compare() {
    assert_eq!(RecipeCompare::compare("Recipe A", "Recipe B"), Ordering::Less);
    assert_eq!(RecipeCompare::compare("Recipe B", "Recipe A"), Ordering::Greater);
    assert_eq!(RecipeCompare::compare("Recipe A", "Recipe A"), Ordering::Equal);
}

#[test]
fn compare_prefix_comes_first() {
    assert_eq!(ItemCompare::compare("Iron", "Iron Ore"), Ordering::Less);
    assert_eq!(ItemCompare::compare("", "a"), Ordering::Less);
    assert_eq!(ItemCompare::compare("b", ""), Ordering::Greater);
    assert_eq!(ItemCompare::compare("Z", "a"), Ordering::Less);
}

#[test]
fn no_texture_is_loaded() {
    assert!(load_texture_from_file("icon.png").is_none());
}

use ficsit_companion_rs::json::JsonValue;
use ficsit_companion_rs::save_upgrade::{try_update_save, update_save};

fn obj(fields: Vec<(&str, JsonValue)>) -> JsonValue {
    JsonValue::Object(fields.into_iter().map(|(k, v)| (k.to_string(), v)).collect())
}

fn get<'a>(v: &'a JsonValue, key: &str) -> Option<&'a JsonValue> {
    v.field(&key.to_string())
}

#[test]
fn test_save_version_no_change() {
    let mut save = obj(vec![
        ("save_version", JsonValue::Int(3)),
        ("nodes", JsonValue::Array(vec![])),
        ("links", JsonValue::Array(vec![])),
    ]);
    assert!(update_save(&mut save, 3));
    assert_eq!(get(&save, "save_version"), Some(&JsonValue::Int(3)));
}

#[test]
fn test_save_version_forward_fails() {
    let mut save = obj(vec![
        ("save_version", JsonValue::Int(3)),
        ("nodes", JsonValue::Array(vec![])),
        ("links", JsonValue::Array(vec![])),
    ]);
    assert!(!update_save(&mut save, 2));
}

#[test]
fn test_save_version_1_to_2() {
    let mut save = obj(vec![
        ("save_version", JsonValue::Int(1)),
        (
            "links",
            JsonValue::Array(vec![obj(vec![
                ("start", obj(vec![("is_out", JsonValue::Bool(false)), ("id", JsonValue::Int(1))])),
                ("end", obj(vec![("is_out", JsonValue::Bool(true)), ("id", JsonValue::Int(2))])),
            ])]),
        ),
    ]);
    assert!(update_save(&mut save, 2));
    assert_eq!(get(&save, "save_version"), Some(&JsonValue::Int(2)));
    let links = match get(&save, "links") {
        Some(JsonValue::Array(l)) => l,
        other => panic!("links: {:?}", other),
    };
    assert!(get(get(&links[0], "start").unwrap(), "is_out").is_none());
    assert!(get(get(&links[0], "end").unwrap(), "is_out").is_none());
    assert_eq!(get(get(&links[0], "start").unwrap(), "id"), Some(&JsonValue::Int(1)));
}

#[test]
fn save_without_version_counts_as_version_one() {
    let mut save = obj(vec![("links", JsonValue::Array(vec![]))]);
    assert!(update_save(&mut save, 2));
    assert_eq!(get(&save, "save_version"), Some(&JsonValue::Int(2)));
}

#[test]
fn save_upgrade_through_all_versions() {
    let craft = obj(vec![("kind", JsonValue::Int(0))]);
    let inner_craft = obj(vec![("kind", JsonValue::Int(0))]);
    let splitter = obj(vec![
        ("kind", JsonValue::Int(1)),
        ("ins", JsonValue::Array(vec![obj(vec![("num", JsonValue::Int(1))])])),
    ]);
    let holder = obj(vec![
        ("kind", JsonValue::Int(3)),
        ("nodes", JsonValue::Array(vec![inner_craft, splitter])),
    ]);
    let mut save = obj(vec![
        ("save_version", JsonValue::Int(2)),
        ("nodes", JsonValue::Array(vec![craft, holder])),
        ("links", JsonValue::Array(vec![])),
    ]);
    assert!(update_save(&mut save, 5));
    assert_eq!(get(&save, "save_version"), Some(&JsonValue::Int(5)));
    let nodes = match get(&save, "nodes") {
        Some(JsonValue::Array(n)) => n,
        other => panic!("nodes: {:?}", other),
    };
    // 2 -> 3: every node gets a somersloop count
    assert_eq!(get(&nodes[0], "num_somersloop"), Some(&JsonValue::Int(0)));
    assert_eq!(get(&nodes[1], "num_somersloop"), Some(&JsonValue::Int(0)));
    // 3 -> 4: crafting nodes, also inside others, are not built
    assert_eq!(get(&nodes[0], "built"), Some(&JsonValue::Bool(false)));
    let inner = match get(&nodes[1], "nodes") {
        Some(JsonValue::Array(n)) => n,
        other => panic!("inner nodes: {:?}", other),
    };
    assert_eq!(get(&inner[0], "built"), Some(&JsonValue::Bool(false)));
    // 4 -> 5: crafting nodes and groups are unlocked, as are the pins
    // of the splitter held by the group
    assert_eq!(get(&nodes[0], "locked"), Some(&JsonValue::Bool(false)));
    assert_eq!(get(&nodes[1], "locked"), Some(&JsonValue::Bool(false)));
    assert!(get(&inner[0], "locked").is_none());
    let pins = match get(&inner[1], "ins") {
        Some(JsonValue::Array(p)) => p,
        other => panic!("pins: {:?}", other),
    };
    assert_eq!(get(&pins[0], "locked"), Some(&JsonValue::Bool(false)));
}

#[test]
fn save_upgrade_refuses_a_link_that_is_no_object() {
    let save = obj(vec![
        ("save_version", JsonValue::Int(1)),
        ("links", JsonValue::Array(vec![JsonValue::Int(7)])),
    ]);
    assert!(try_update_save(save, 2).is_none());
}

#[test]
fn save_upgrade_from_unknown_version_fails() {
    let save = obj(vec![("save_version", JsonValue::Int(0))]);
    let (kept, reached) = try_update_save(save, 3).unwrap();
    assert!(!reached);
    assert_eq!(get(&kept, "save_version"), Some(&JsonValue::Int(0)));
}

#[test]
fn save_upgrade_unlocks_a_group() {
    let group = obj(vec![
        ("kind", JsonValue::Int(3)),
        ("nodes", JsonValue::Array(vec![])),
        ("links", JsonValue::Array(vec![])),
    ]);
    let mut save = obj(vec![
        ("save_version", JsonValue::Int(4)),
        ("nodes", JsonValue::Array(vec![group])),
        ("links", JsonValue::Array(vec![])),
    ]);
    assert!(update_save(&mut save, 5));
    assert_eq!(get(&save, "save_version"), Some(&JsonValue::Int(5)));
    let nodes = match get(&save, "nodes") {
        Some(JsonValue::Array(n)) => n,
        other => panic!("nodes: {:?}", other),
    };
    assert_eq!(get(&nodes[0], "locked"), Some(&JsonValue::Bool(false)));
}

#[test]
fn save_upgrade_unlocks_the_pins_of_a_game_splitter() {
    let splitter = obj(vec![
        ("kind", JsonValue::Int(4)),
        ("ins", JsonValue::Array(vec![obj(vec![("num", JsonValue::Int(1))])])),
        ("outs", JsonValue::Array(vec![obj(vec![("num", JsonValue::Int(2))])])),
    ]);
    let mut save = obj(vec![
        ("save_version", JsonValue::Int(4)),
        ("nodes", JsonValue::Array(vec![splitter])),
        ("links", JsonValue::Array(vec![])),
    ]);
    assert!(update_save(&mut save, 5));
    let nodes = match get(&save, "nodes") {
        Some(JsonValue::Array(n)) => n,
        other => panic!("nodes: {:?}", other),
    };
    assert!(get(&nodes[0], "locked").is_none());
    for side in ["ins", "outs"] {
        let pins = match get(&nodes[0], side) {
            Some(JsonValue::Array(p)) => p,
            other => panic!("pins: {:?}", other),
        };
        assert_eq!(get(&pins[0], "locked"), Some(&JsonValue::Bool(false)));
    }
}
