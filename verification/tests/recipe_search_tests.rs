use ficsit_companion_rs::game_data::{CountedItem, Recipe};
use ficsit_companion_rs::FractionalNumber;

fn item(name: &str) -> CountedItem {
    CountedItem { item_name: name.to_string(), quantity: FractionalNumber::from_integer(1) }
}

fn recipe() -> Recipe {
    Recipe::new(
        vec![item("Iron Ore"), item("Coal")],
        vec![item("Steel Ingot")],
        "Foundry".to_string(),
        false,
        0,
        "Steel Ingot".to_string(),
        false,
    )
}

#[test]
fn recipe_keeps_lowercase_names() {
    let r = recipe();
    assert_eq!(r.lower_name, "steel ingot");
    assert_eq!(r.lower_ingredients, vec!["iron ore", "coal", "steel ingot"]);
}

#[test]
fn find_in_name_ignores_case() {
    let r = recipe();
    assert_eq!(r.find_in_name("INGOT"), Some(6));
    assert_eq!(r.find_in_name("steel"), Some(0));
    assert_eq!(r.find_in_name("copper"), None);
    assert_eq!(r.find_in_name(""), Some(0));
}

#[test]
fn find_in_ingredients_takes_the_earliest_position() {
    let r = recipe();
    // "o" is at 5 in "iron ore", 1 in "coal" and absent from "steel ingot"
    assert_eq!(r.find_in_ingredients("O"), Some(1));
    assert_eq!(r.find_in_ingredients("ingot"), Some(6));
    assert_eq!(r.find_in_ingredients("ore"), Some(5));
    assert_eq!(r.find_in_ingredients("water"), None);
}

#[test]
fn find_counts_bytes_of_wider_characters() {
    let r = Recipe::new(vec![item("Érz Öl")], vec![], "B".to_string(), false, 0, "Über Öl".to_string(), false);
    // "ü" and "é" take two bytes each in UTF-8
    assert_eq!(r.find_in_name("öl"), Some(6));
    assert_eq!(r.find_in_ingredients("öl"), Some(5));
}
