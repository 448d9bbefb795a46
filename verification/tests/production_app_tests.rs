use ficsit_companion_rs::app_node::AppNode;
use ficsit_companion_rs::node::{CraftNode, NodeKind, OrganizerNode};
use ficsit_companion_rs::pin::{Pin, PinDirection};
use ficsit_companion_rs::production_app::ProductionApp;
use ficsit_companion_rs::FractionalNumber;
use std::collections::HashSet;

fn pin(id: u64, dir: PinDirection, node: u64, item: Option<&str>, locked: bool, base: FractionalNumber) -> Pin {
    Pin::new(id, dir, node, item.map(|s| s.to_owned()), locked, base)
}

fn craft(app: &ProductionApp, idx: usize) -> &CraftNode {
    match &app.nodes[idx] {
        AppNode::Craft(c) => c,
        _ => panic!("expected craft node"),
    }
}

fn organizer(app: &ProductionApp, idx: usize) -> &OrganizerNode {
    match &app.nodes[idx] {
        AppNode::Organizer(o) => o,
        _ => panic!("expected organizer node"),
    }
}

fn locked_pins(app: &ProductionApp) -> HashSet<u64> {
    let mut locked = HashSet::new();
    for node in &app.nodes {
        let (ins, outs) = match node {
            AppNode::Craft(n) => (&n.base.ins, &n.base.outs),
            AppNode::Organizer(n) => (&n.base.ins, &n.base.outs),
            AppNode::Group(n) => (&n.base.ins, &n.base.outs),
            AppNode::Sink(n) => (&n.base.ins, &n.base.outs),
        };
        for p in ins.iter().chain(outs.iter()) {
            if p.locked {
                locked.insert(p.id);
            }
        }
    }
    locked
}

/// Two crafting nodes, each with one input and one output of base rate zero.
fn two_crafts(app: &mut ProductionApp) -> (u64, u64, u64, u64) {
    let a_id = app.get_next_id();
    let mut a = CraftNode::new(a_id, "A".to_owned());
    let a_in = app.get_next_id();
    a.base.ins.push(pin(a_in, PinDirection::Input, a_id, None, false, FractionalNumber::default()));
    let a_out = app.get_next_id();
    a.base.outs.push(pin(a_out, PinDirection::Output, a_id, None, false, FractionalNumber::default()));
    app.nodes.push(AppNode::Craft(a));
    let b_id = app.get_next_id();
    let mut b = CraftNode::new(b_id, "B".to_owned());
    let b_in = app.get_next_id();
    b.base.ins.push(pin(b_in, PinDirection::Input, b_id, None, false, FractionalNumber::default()));
    let b_out = app.get_next_id();
    b.base.outs.push(pin(b_out, PinDirection::Output, b_id, None, false, FractionalNumber::default()));
    app.nodes.push(AppNode::Craft(b));
    (a_in, a_out, b_in, b_out)
}

#[test]
fn set_pin_rate_updates_craft_node_output() {
    let mut app = ProductionApp::new();
    let node_id = app.get_next_id();
    let mut c = CraftNode::new(node_id, "test_recipe".to_owned());
    let in_pin = app.get_next_id();
    c.base.ins.push(pin(in_pin, PinDirection::Input, node_id, None, false, FractionalNumber::new(1, 1)));
    let out_pin = app.get_next_id();
    c.base.outs.push(pin(out_pin, PinDirection::Output, node_id, None, false, FractionalNumber::new(1, 1)));
    app.nodes.push(AppNode::Craft(c));

    let node_idx = app.find_node_index(node_id).expect("find node");

    app.set_pin_rate(node_id, PinDirection::Input, 0, FractionalNumber::new(4, 1))
        .expect("set_pin_rate");

    let n = craft(&app, node_idx);
    assert_eq!(n.base.ins[0].current_rate, FractionalNumber::new(4, 1));
    assert_eq!(n.base.outs[0].current_rate, FractionalNumber::new(4, 1));
    assert_eq!(n.current_rate, FractionalNumber::new(4, 1));
}

#[test]
fn looped_graph_has_valid_solution() {
    let mut app = ProductionApp::new();

    let a_id = app.get_next_id();
    let mut a = CraftNode::new(a_id, "AluminaProducer".to_owned());
    let a_in_water = app.get_next_id();
    a.base.ins.push(pin(a_in_water, PinDirection::Input, a_id, Some("Water"), false, FractionalNumber::new(2, 1)));
    let a_in_bauxite = app.get_next_id();
    a.base.ins.push(pin(a_in_bauxite, PinDirection::Input, a_id, Some("Bauxite"), false, FractionalNumber::new(1, 1)));
    let a_out_alum = app.get_next_id();
    a.base.outs.push(pin(a_out_alum, PinDirection::Output, a_id, Some("Alumina Solution"), false, FractionalNumber::new(4, 1)));
    app.nodes.push(AppNode::Craft(a));

    let b_id = app.get_next_id();
    let mut b = CraftNode::new(b_id, "AluminumScrapProducer".to_owned());
    let b_in_alum = app.get_next_id();
    b.base.ins.push(pin(b_in_alum, PinDirection::Input, b_id, Some("Alumina Solution"), false, FractionalNumber::new(2, 1)));
    let b_out_water = app.get_next_id();
    b.base.outs.push(pin(b_out_water, PinDirection::Output, b_id, Some("Water"), false, FractionalNumber::new(5, 6)));
    let b_out_scrap = app.get_next_id();
    b.base.outs.push(pin(b_out_scrap, PinDirection::Output, b_id, Some("Aluminum Scrap"), false, FractionalNumber::new(1, 1)));
    app.nodes.push(AppNode::Craft(b));

    let m_id = app.get_next_id();
    let mut m = OrganizerNode::new(m_id, NodeKind::Merger, None);
    let m_in0 = app.get_next_id();
    m.base.ins.push(pin(m_in0, PinDirection::Input, m_id, Some("Water"), false, FractionalNumber::default()));
    let m_in1 = app.get_next_id();
    m.base.ins.push(pin(m_in1, PinDirection::Input, m_id, Some("Water"), true, FractionalNumber::default()));
    m.base.ins[1].current_rate = FractionalNumber::new(1, 1);
    let m_out = app.get_next_id();
    m.base.outs.push(pin(m_out, PinDirection::Output, m_id, Some("Water"), false, FractionalNumber::default()));
    app.nodes.push(AppNode::Organizer(m));

    let (_link1, _warn1) = app.create_link(a_out_alum, b_in_alum).expect("create link");
    let (_link2, _warn2) = app.create_link(b_out_water, m_in0).expect("create link");
    let (_link3, _warn3) = app.create_link(m_out, a_in_water).expect("create link");

    app.update_nodes_rate(a_out_alum, FractionalNumber::new(12, 1))
        .expect("propagation should succeed");

    let a_idx = app.find_node_index(a_id).unwrap();
    let b_idx = app.find_node_index(b_id).unwrap();
    let m_idx = app.find_node_index(m_id).unwrap();
    let a_node = craft(&app, a_idx);
    let b_node = craft(&app, b_idx);
    let m_node = organizer(&app, m_idx);

    assert_eq!(a_node.base.outs[0].current_rate, FractionalNumber::new(12, 1));
    assert_eq!(b_node.base.ins[0].current_rate, FractionalNumber::new(12, 1));
    assert_eq!(b_node.base.outs[0].current_rate, FractionalNumber::new(5, 1));
    assert_eq!(m_node.base.ins[1].current_rate, FractionalNumber::new(1, 1));
    assert_eq!(m_node.base.ins[0].current_rate, FractionalNumber::new(5, 1));
    assert_eq!(m_node.base.outs[0].current_rate, FractionalNumber::new(6, 1));
    assert_eq!(a_node.base.ins[0].current_rate, FractionalNumber::new(6, 1));
    assert_eq!(a_node.current_rate, FractionalNumber::new(3, 1));
    assert_eq!(b_node.current_rate, FractionalNumber::new(6, 1));
}

#[test]
fn get_connected_pins_chain() {
    let mut app = ProductionApp::new();
    let (a_in, a_out, b_in, b_out) = two_crafts(&mut app);
    let (_l, _w) = app.create_link(a_out, b_in).expect("create link");

    let set: HashSet<u64> = app.get_connected_pins(a_out).into_iter().collect();
    let expected: HashSet<u64> = [a_in, a_out, b_in, b_out].iter().cloned().collect();
    assert_eq!(set, expected);
}

#[test]
fn get_connected_pins_loop() {
    let mut app = ProductionApp::new();
    let (a_in, a_out, b_in, b_out) = two_crafts(&mut app);
    let (_l1, _w1) = app.create_link(a_out, b_in).expect("create link");
    let (_l2, _w2) = app.create_link(b_out, a_in).expect("create link");

    let set: HashSet<u64> = app.get_connected_pins(a_out).into_iter().collect();
    let expected: HashSet<u64> = [a_in, a_out, b_in, b_out].iter().cloned().collect();
    assert_eq!(set, expected);
}

/// An organizer of the given kind with the given numbers of pins, all carrying `item`.
fn add_organizer(app: &mut ProductionApp, kind: NodeKind, n_in: usize, n_out: usize, item: Option<&str>) -> (u64, Vec<u64>, Vec<u64>) {
    let id = app.get_next_id();
    let mut o = OrganizerNode::new(id, kind, None);
    let mut ins = Vec::new();
    for _ in 0..n_in {
        let p = app.get_next_id();
        o.base.ins.push(pin(p, PinDirection::Input, id, item, false, FractionalNumber::default()));
        ins.push(p);
    }
    let mut outs = Vec::new();
    for _ in 0..n_out {
        let p = app.get_next_id();
        o.base.outs.push(pin(p, PinDirection::Output, id, item, false, FractionalNumber::default()));
        outs.push(p);
    }
    app.nodes.push(AppNode::Organizer(o));
    (id, ins, outs)
}

#[test]
fn get_connected_pins_merger() {
    let mut app = ProductionApp::new();
    let (_m_id, m_ins, _m_outs) = add_organizer(&mut app, NodeKind::Merger, 2, 1, Some("X"));
    let n_id = app.get_next_id();
    let mut n = CraftNode::new(n_id, "N".to_owned());
    let n_out = app.get_next_id();
    n.base.outs.push(pin(n_out, PinDirection::Output, n_id, Some("X"), false, FractionalNumber::default()));
    app.nodes.push(AppNode::Craft(n));

    let (_l, _w) = app.create_link(n_out, m_ins[0]).expect("create link");

    let set: HashSet<u64> = app.get_connected_pins(m_ins[0]).into_iter().collect();
    let expected: HashSet<u64> = [m_ins[0], n_out].iter().copied().collect();
    assert_eq!(set, expected);
}

#[test]
fn get_connected_pins_custom_splitter() {
    let mut app = ProductionApp::new();
    let (_s_id, _s_ins, s_outs) = add_organizer(&mut app, NodeKind::CustomSplitter, 1, 2, Some("Y"));
    let n_id = app.get_next_id();
    let mut n = CraftNode::new(n_id, "N".to_owned());
    let n_in = app.get_next_id();
    n.base.ins.push(pin(n_in, PinDirection::Input, n_id, Some("Y"), false, FractionalNumber::default()));
    app.nodes.push(AppNode::Craft(n));

    let (_l, _w) = app.create_link(s_outs[0], n_in).expect("create link");

    let set: HashSet<u64> = app.get_connected_pins(s_outs[0]).into_iter().collect();
    let expected: HashSet<u64> = [s_outs[0], n_in].iter().copied().collect();
    assert_eq!(set, expected);
}

#[test]
fn get_connected_pins_game_splitter() {
    let mut app = ProductionApp::new();
    let (_s_id, s_ins, s_outs) = add_organizer(&mut app, NodeKind::GameSplitter, 1, 2, Some("Z"));
    let n_id = app.get_next_id();
    let mut n = CraftNode::new(n_id, "N".to_owned());
    let n_in = app.get_next_id();
    n.base.ins.push(pin(n_in, PinDirection::Input, n_id, Some("Z"), false, FractionalNumber::default()));
    app.nodes.push(AppNode::Craft(n));

    let (_l, _w) = app.create_link(s_outs[0], n_in).expect("create link");

    let set: HashSet<u64> = app.get_connected_pins(s_outs[0]).into_iter().collect();
    let expected: HashSet<u64> = [s_outs[0], s_outs[1], s_ins[0], n_in].iter().copied().collect();
    assert_eq!(set, expected);
}

#[test]
fn get_connected_pins_lock_propagation() {
    let mut app = ProductionApp::new();

    let a_id = app.get_next_id();
    let mut a = CraftNode::new(a_id, "A".to_owned());
    let a_in = app.get_next_id();
    a.base.ins.push(pin(a_in, PinDirection::Input, a_id, None, false, FractionalNumber::default()));
    let a_out = app.get_next_id();
    a.base.outs.push(pin(a_out, PinDirection::Output, a_id, None, false, FractionalNumber::default()));
    app.nodes.push(AppNode::Craft(a));

    let (_s_id, s_ins, s_outs) = add_organizer(&mut app, NodeKind::GameSplitter, 1, 2, None);

    let (b_in, _b_out, c_in, _c_out) = two_crafts(&mut app);

    app.create_link(a_out, s_ins[0]).expect("create link");
    app.create_link(s_outs[0], b_in).expect("create link");
    app.create_link(s_outs[1], c_in).expect("create link");

    let connected_set: HashSet<u64> = app.get_connected_pins(a_out).into_iter().collect();

    assert!(locked_pins(&app).is_empty());

    app.set_pin_locked(a_out, true).expect("set_pin_locked");

    assert_eq!(locked_pins(&app), connected_set);
}

#[test]
fn create_link_rejects_unknown_pins() {
    let mut app = ProductionApp::new();
    let (_a_in, a_out, _b_in, _b_out) = two_crafts(&mut app);
    assert_eq!(app.create_link(999, a_out), Err("Start pin not found".to_owned()));
    assert_eq!(app.create_link(a_out, 999), Err("End pin not found".to_owned()));
    assert!(app.links.is_empty());
}

#[test]
fn create_link_records_the_link_on_both_pins() {
    let mut app = ProductionApp::new();
    let (_a_in, a_out, b_in, _b_out) = two_crafts(&mut app);
    let (id, warn) = app.create_link(a_out, b_in).expect("create link");
    assert!(warn.is_none());
    assert_eq!(app.links.len(), 1);
    assert_eq!(app.links[0].id, id);
    assert_eq!(craft(&app, 0).base.outs[0].link_id, Some(id));
    assert_eq!(craft(&app, 1).base.ins[0].link_id, Some(id));
    app.delete_link(id).expect("delete link");
    assert!(app.links.is_empty());
    assert_eq!(craft(&app, 0).base.outs[0].link_id, None);
    assert_eq!(craft(&app, 1).base.ins[0].link_id, None);
    assert_eq!(app.delete_link(id), Err("Link not found".to_owned()));
}

#[test]
fn contradictory_locked_rates_are_refused() {
    let mut app = ProductionApp::new();
    let (_a_in, a_out, b_in, _b_out) = two_crafts(&mut app);
    app.create_link(a_out, b_in).expect("create link");
    // Lock both ends of the link at different rates.
    match &mut app.nodes[0] {
        AppNode::Craft(c) => {
            c.base.outs[0].locked = true;
            c.base.outs[0].current_rate = FractionalNumber::new(2, 1);
        }
        _ => panic!(),
    }
    match &mut app.nodes[1] {
        AppNode::Craft(c) => {
            c.base.ins[0].locked = true;
            c.base.ins[0].current_rate = FractionalNumber::new(3, 1);
        }
        _ => panic!(),
    }
    assert_eq!(
        app.update_nodes_rate(a_out, FractionalNumber::new(2, 1)),
        Err("Contradictory locked rates".to_owned())
    );
}

#[test]
fn setting_a_rate_propagates_across_a_link() {
    let mut app = ProductionApp::new();
    let a_id = app.get_next_id();
    let mut a = CraftNode::new(a_id, "A".to_owned());
    let a_out = app.get_next_id();
    a.base.outs.push(pin(a_out, PinDirection::Output, a_id, Some("Iron"), false, FractionalNumber::new(30, 1)));
    app.nodes.push(AppNode::Craft(a));
    let b_id = app.get_next_id();
    let mut b = CraftNode::new(b_id, "B".to_owned());
    let b_in = app.get_next_id();
    b.base.ins.push(pin(b_in, PinDirection::Input, b_id, Some("Iron"), false, FractionalNumber::new(15, 1)));
    app.nodes.push(AppNode::Craft(b));
    app.create_link(a_out, b_in).expect("create link");

    app.set_pin_rate(a_id, PinDirection::Output, 0, FractionalNumber::new(60, 1)).expect("set rate");
    assert_eq!(craft(&app, 0).current_rate, FractionalNumber::new(2, 1));
    assert_eq!(craft(&app, 1).base.ins[0].current_rate, FractionalNumber::new(60, 1));
    assert_eq!(craft(&app, 1).current_rate, FractionalNumber::new(4, 1));
}

#[test]
fn invalid_rate_edits_are_refused() {
    let mut app = ProductionApp::new();
    let (_a_in, _a_out, _b_in, _b_out) = two_crafts(&mut app);
    let a_id = app.find_node_by_index(0).unwrap();
    assert_eq!(
        app.set_pin_rate(a_id, PinDirection::Input, 0, FractionalNumber::new(-1, 1)),
        Err("Invalid rate".to_owned())
    );
    assert_eq!(
        app.set_pin_rate(777, PinDirection::Input, 0, FractionalNumber::new(1, 1)),
        Err("Node 777 not found".to_owned())
    );
    assert_eq!(
        app.set_pin_rate(a_id, PinDirection::Input, 5, FractionalNumber::new(1, 1)),
        Err("Input pin out of range".to_owned())
    );
    assert_eq!(
        app.set_pin_rate(a_id, PinDirection::Output, 0, FractionalNumber::new(1, 1)),
        Err("Base rate is zero".to_owned())
    );
}

#[test]
fn added_organizers_and_sinks_have_fresh_pins() {
    let mut app = ProductionApp::new();
    let m = app.add_merger_node();
    let s = app.add_custom_splitter_node();
    let g = app.add_game_splitter_node();
    let k = app.add_sink_node();
    assert_eq!((m, s, g, k), (1, 5, 9, 13));
    assert_eq!(app.node_count(), 4);
    match &app.nodes[2] {
        AppNode::Organizer(o) => {
            assert_eq!(o.base.kind, NodeKind::GameSplitter);
            assert_eq!(o.base.ins[0].base_rate, FractionalNumber::new(1, 1));
            assert_eq!(o.base.outs[1].base_rate, FractionalNumber::new(1, 2));
            assert_eq!(o.base.outs[1].id, 12);
        }
        _ => panic!(),
    }
    app.add_input_pin_to_node(m).expect("add input");
    assert_eq!(app.add_output_pin_to_node(k), Err("Unsupported node kind for add output".to_owned()));
    assert_eq!(app.remove_input_pin_from_node(m, 9), Err("Input index out of range".to_owned()));
    app.remove_input_pin_from_node(m, 0).expect("remove input");
    app.delete_node(s).expect("delete node");
    assert_eq!(app.node_count(), 3);
    assert_eq!(app.delete_node(s), Err(format!("Node {} not found", s)));
}

#[test]
fn organizer_balance_compares_the_sums_of_rates() {
    let mut merger = OrganizerNode::new(1, NodeKind::Merger, None);
    let half = FractionalNumber::new(1, 2);
    let third = FractionalNumber::new(1, 3);
    merger.base.ins.push(pin(2, PinDirection::Input, 1, None, false, half));
    merger.base.ins.push(pin(3, PinDirection::Input, 1, None, false, third));
    merger.base.outs.push(pin(4, PinDirection::Output, 1, None, false, FractionalNumber::new(5, 6)));
    for p in merger.base.ins.iter_mut().chain(merger.base.outs.iter_mut()) {
        p.current_rate = p.base_rate;
    }
    assert!(merger.is_balanced());
    merger.base.outs[0].current_rate = FractionalNumber::new(2, 3);
    assert!(!merger.is_balanced());
    let empty = OrganizerNode::new(5, NodeKind::Merger, None);
    assert!(empty.is_balanced());
}

#[test]
fn deleting_a_node_linked_to_itself_removes_the_link() {
    let mut app = ProductionApp::new();
    let m = app.add_merger_node();
    // merger pins: inputs m + 1, m + 2; output m + 3
    app.create_link(m + 3, m + 1).expect("link");
    assert_eq!(app.delete_node(m), Ok(()));
    assert!(app.links.is_empty());
    assert!(app.nodes.is_empty());
}

#[test]
fn deleting_a_node_removes_its_links_to_others() {
    let mut app = ProductionApp::new();
    let a = app.add_merger_node();
    let b = app.add_merger_node();
    app.create_link(a + 3, b + 1).expect("link");
    app.create_link(b + 3, a + 2).expect("link");
    assert_eq!(app.delete_node(a), Ok(()));
    assert!(app.links.is_empty());
    assert_eq!(app.nodes.len(), 1);
}

#[test]
fn a_fresh_sink_is_a_sink() {
    let mut app = ProductionApp::new();
    let s = app.add_sink_node();
    assert!(matches!(app.nodes[0], AppNode::Sink(_)));
    assert_eq!(app.get_node_label(s), Some("Sink".to_owned()));
}

#[test]
fn somersloop_edit_on_a_crafting_node_succeeds() {
    let mut app = ProductionApp::new();
    let mut c = CraftNode::new(1, "test_recipe".to_owned());
    c.base.ins.push(pin(2, PinDirection::Input, 1, Some("Ore"), false, FractionalNumber::new(1, 1)));
    c.base.outs.push(pin(3, PinDirection::Output, 1, Some("Ingot"), false, FractionalNumber::new(1, 1)));
    app.nodes.push(AppNode::Craft(c));
    app.next_id = 4;
    // the multiplier is one, so the count is capped at one
    assert_eq!(app.set_node_somersloop(1, FractionalNumber::new(2, 1)), Ok(()));
    assert_eq!(craft(&app, 0).num_somersloop, FractionalNumber::new(1, 1));
}

#[test]
fn a_locked_pin_refuses_a_different_rate() {
    let mut app = ProductionApp::new();
    let s = app.add_sink_node();
    let p = s + 1;
    assert_eq!(app.set_pin_locked(p, true), Ok(()));
    assert_eq!(
        app.update_nodes_rate(p, FractionalNumber::new(7, 1)),
        Err("Contradiction with locked constraint value".to_owned())
    );
    match &app.nodes[0] {
        AppNode::Sink(k) => {
            assert_eq!(k.base.ins[0].current_rate, FractionalNumber::new(0, 1));
            assert!(k.base.ins[0].locked);
        },
        _ => panic!("expected sink"),
    }
    assert_eq!(app.update_nodes_rate(p, FractionalNumber::new(0, 1)), Ok(()));
}

#[test]
fn building_count_edit_cancels_before_it_overflows() {
    let mut app = ProductionApp::new();
    let mut c = CraftNode::new(1, "test_recipe".to_owned());
    c.base.outs.push(pin(2, PinDirection::Output, 1, Some("Ingot"), false, FractionalNumber::new(4611686018427387904, 3)));
    app.nodes.push(AppNode::Craft(c));
    app.next_id = 3;
    let count = FractionalNumber::new(3, 4611686018427387904);
    assert_eq!(app.set_node_building_count(1, count), Ok(()));
    assert_eq!(app.get_node_building_info(1).unwrap().0, count.to_fraction_string());
    assert_eq!(craft(&app, 0).base.outs[0].current_rate, FractionalNumber::new(1, 1));
}

#[test]
fn somersloop_edit_cancels_before_it_overflows() {
    let mut app = ProductionApp::new();
    let mut c = CraftNode::new(1, "test_recipe".to_owned());
    c.base.ins.push(pin(2, PinDirection::Input, 1, Some("Ore"), false, FractionalNumber::new(4611686018427387904, 3)));
    c.current_rate = FractionalNumber::new(3, 4611686018427387904);
    app.nodes.push(AppNode::Craft(c));
    app.next_id = 3;
    assert_eq!(app.set_node_somersloop(1, FractionalNumber::new(1, 1)), Ok(()));
}

#[test]
fn deleting_a_new_link_restores_the_links() {
    let mut app = ProductionApp::new();
    let (_a_in, a_out, b_in, _b_out) = two_crafts(&mut app);
    let before = app.links.clone();
    let (id, _) = app.create_link(a_out, b_in).unwrap();
    assert_eq!(app.links.len(), before.len() + 1);
    assert_eq!(app.delete_link(id), Ok(()));
    assert_eq!(app.links, before);
}

#[test]
fn a_pin_is_found_where_it_was_taken() {
    let mut app = ProductionApp::new();
    let (_a_in, a_out, b_in, _b_out) = two_crafts(&mut app);
    let b_id = match &app.nodes[1] {
        AppNode::Craft(c) => c.base.id,
        _ => panic!("expected craft node"),
    };
    assert_eq!(app.get_pin_id(b_id, PinDirection::Input, 0), Some(b_in));
    assert_eq!(app.find_pin_location(b_in), Some((b_id, PinDirection::Input, 0)));
    assert!(app.find_pin_location(a_out).is_some());
}
