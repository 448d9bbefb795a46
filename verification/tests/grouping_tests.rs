use ficsit_companion_rs::app_node::AppNode;
use ficsit_companion_rs::node::{CraftNode, GroupedNodeData, NodeKind};
use ficsit_companion_rs::pin::{Pin, PinDirection};
use ficsit_companion_rs::production_app::ProductionApp;
use ficsit_companion_rs::FractionalNumber;

fn pin(id: u64, dir: PinDirection, node: u64, item: &str, base: FractionalNumber) -> Pin {
    let mut p = Pin::new(id, dir, node, Some(item.to_owned()), false, base);
    p.current_rate = base;
    p
}

/// Ore -> Ingot -> Plate, each a crafting node with named items.
fn chain(app: &mut ProductionApp) -> (u64, u64, u64) {
    let mut ids = Vec::new();
    let specs = [("Ore", None, Some("ore")), ("Ingot", Some("ore"), Some("ingot")), ("Plate", Some("ingot"), Some("plate"))];
    for (name, input, output) in specs.iter() {
        let id = app.get_next_id();
        let mut c = CraftNode::new(id, name.to_string());
        c.current_rate = FractionalNumber::new(1, 1);
        c.building_name = "Smelter".to_owned();
        if let Some(i) = input {
            let pid = app.get_next_id();
            c.base.ins.push(pin(pid, PinDirection::Input, id, i, FractionalNumber::new(2, 1)));
        }
        if let Some(o) = output {
            let pid = app.get_next_id();
            c.base.outs.push(pin(pid, PinDirection::Output, id, o, FractionalNumber::new(2, 1)));
        }
        app.nodes.push(AppNode::Craft(c));
        ids.push(id);
    }
    (ids[0], ids[1], ids[2])
}

fn out_pin(app: &ProductionApp, idx: usize) -> u64 {
    match &app.nodes[idx] {
        AppNode::Craft(c) => c.base.outs[0].id,
        _ => panic!("craft expected"),
    }
}

fn in_pin(app: &ProductionApp, idx: usize) -> u64 {
    match &app.nodes[idx] {
        AppNode::Craft(c) => c.base.ins[0].id,
        _ => panic!("craft expected"),
    }
}

#[test]
fn grouping_keeps_inner_links_and_drops_border_links() {
    let mut app = ProductionApp::new();
    let (ore, ingot, plate) = chain(&mut app);
    let (l1, _) = app.create_link(out_pin(&app, 0), in_pin(&app, 1)).unwrap();
    let (l2, _) = app.create_link(out_pin(&app, 1), in_pin(&app, 2)).unwrap();
    let next = app.next_id;
    let gid = app.group_nodes(&[ingot, plate], (0, 0), &vec![(0, 0), (0, 0)]).unwrap();
    assert_eq!(gid, next);
    assert_eq!(app.nodes.len(), 2);
    assert_eq!(app.nodes[0].node_id(), ore);
    // The border link (ore -> ingot) is gone; the inner one is copied into the
    // group and stays listed.
    assert!(app.links.iter().all(|l| l.id != l1));
    assert_eq!(app.links.len(), 1);
    assert_eq!(app.links[0].id, l2);
    match &app.nodes[1] {
        AppNode::Group(g) => {
            assert_eq!(g.base.id, gid);
            assert_eq!(g.grouped_nodes.len(), 2);
            assert_eq!(g.grouped_links.len(), 1);
            assert_eq!(g.grouped_links[0].start_node_idx, 0);
            assert_eq!(g.grouped_links[0].end_node_idx, 1);
            // Net: consumes ore, produces plate (ingot cancels out).
            assert_eq!(g.base.ins.len(), 1);
            assert_eq!(g.base.ins[0].item_name.as_deref(), Some("ore"));
            assert_eq!(g.base.ins[0].id, gid + 1);
            assert_eq!(g.base.outs.len(), 1);
            assert_eq!(g.base.outs[0].item_name.as_deref(), Some("plate"));
            assert_eq!(g.base.outs[0].id, gid + 2);
            assert_eq!(g.base.outs[0].current_rate, FractionalNumber::new(2, 1));
            assert!(matches!(g.grouped_nodes[0].node_data, GroupedNodeData::Craft { .. }));
        },
        _ => panic!("group expected"),
    }
    assert_eq!(app.next_id, gid + 3);
    assert!(app.is_group_node(gid));
}

#[test]
fn grouping_refusals() {
    let mut app = ProductionApp::new();
    chain(&mut app);
    assert_eq!(app.group_nodes(&[], (0, 0), &Vec::new()), Err("No nodes selected for grouping".to_owned()));
    assert_eq!(app.group_nodes(&[999], (0, 0), &Vec::new()), Err("No valid nodes found for grouping".to_owned()));
    assert_eq!(app.nodes.len(), 3);
}

#[test]
fn ungrouping_restores_nodes_and_inner_links() {
    let mut app = ProductionApp::new();
    let (_ore, ingot, plate) = chain(&mut app);
    app.create_link(out_pin(&app, 1), in_pin(&app, 2)).unwrap();
    let gid = app.group_nodes(&[ingot, plate], (0, 0), &vec![(0, 0), (0, 0)]).unwrap();
    app.set_group_rate(gid, FractionalNumber::new(2, 1)).unwrap();
    let restored = app.ungroup_node(gid, None, &vec![(1, 2), (3, 4)]).unwrap();
    assert_eq!(restored.len(), 2);
    assert_eq!(app.nodes.len(), 3);
    assert!(!app.is_group_node(gid));
    match &app.nodes[1] {
        AppNode::Craft(c) => {
            assert_eq!(c.recipe_name, "Ingot");
            assert_eq!(c.base.id, restored[0]);
            assert_eq!(c.base.position, (1, 2));
        },
        _ => panic!("craft expected"),
    }
    assert_eq!(app.ungroup_node(12345, None, &Vec::new()), Err("Group node 12345 not found".to_owned()));
    let ore = app.nodes[0].node_id();
    assert_eq!(app.ungroup_node(ore, None, &Vec::new()), Err("Node is not a group".to_owned()));
}

#[test]
fn ungrouping_scales_organizer_pins() {
    let mut app = ProductionApp::new();
    let m = app.add_merger_node();
    match &mut app.nodes[0] {
        AppNode::Organizer(o) => {
            for p in o.base.ins.iter_mut().chain(o.base.outs.iter_mut()) {
                p.current_rate = FractionalNumber::new(3, 1);
            }
        },
        _ => panic!(),
    }
    let gid = app.group_nodes(&[m], (0, 0), &vec![(0, 0)]).unwrap();
    match &mut app.nodes[0] {
        AppNode::Group(g) => g.current_rate = FractionalNumber::new(2, 1),
        _ => panic!(),
    }
    let restored = app.ungroup_node(gid, None, &vec![(0, 0)]).unwrap();
    assert_eq!(restored.len(), 1);
    match &app.nodes[0] {
        AppNode::Organizer(o) => {
            assert_eq!(o.base.kind, NodeKind::Merger);
            assert_eq!(o.base.outs[0].current_rate, FractionalNumber::new(6, 1));
            assert_eq!(o.base.outs[0].id, restored[0] + 1 + o.base.ins.len() as u64);
        },
        _ => panic!("organizer expected"),
    }
}

#[test]
fn craft_settings_are_edited() {
    let mut app = ProductionApp::new();
    let (ore, _, _) = chain(&mut app);
    app.set_node_building_count(ore, FractionalNumber::new(3, 1)).unwrap();
    match &app.nodes[0] {
        AppNode::Craft(c) => {
            assert_eq!(c.current_rate, FractionalNumber::new(3, 1));
            assert_eq!(c.base.outs[0].current_rate, FractionalNumber::new(6, 1));
        },
        _ => panic!(),
    }
    assert_eq!(app.set_node_building_count(ore, FractionalNumber::new(-1, 1)), Err("Invalid count".to_owned()));
    match &mut app.nodes[0] {
        AppNode::Craft(c) => c.somersloop_mult = FractionalNumber::new(1, 2),
        _ => panic!(),
    }
    app.set_node_somersloop(ore, FractionalNumber::new(4, 1)).unwrap();
    match &app.nodes[0] {
        AppNode::Craft(c) => assert_eq!(c.num_somersloop, FractionalNumber::new(2, 1)),
        _ => panic!(),
    }
    assert_eq!(
        app.set_node_somersloop(ore, FractionalNumber::new(1, 2)),
        Err("somersloop num can only be positive whole integers".to_owned())
    );
    assert_eq!(app.set_node_somersloop(777, FractionalNumber::new(1, 1)), Err("Node 777 not found".to_owned()));
    assert_eq!(app.get_node_build_progress(ore), Some((0, 1)));
    app.set_node_built_state(ore, true).unwrap();
    assert_eq!(app.get_node_build_progress(ore), Some((1, 1)));
    assert_eq!(app.get_node_build_progress(4242), None);
}

#[test]
fn group_built_state_and_rate() {
    let mut app = ProductionApp::new();
    let (_, ingot, plate) = chain(&mut app);
    let gid = app.group_nodes(&[ingot, plate], (0, 0), &vec![(0, 0), (0, 0)]).unwrap();
    assert_eq!(app.get_node_build_progress(gid), Some((0, 2)));
    app.set_node_built_state(gid, true).unwrap();
    assert_eq!(app.get_node_build_progress(gid), Some((2, 2)));
    assert_eq!(app.set_group_rate(gid, FractionalNumber::new(-2, 1)), Err("Invalid rate".to_owned()));
    app.set_group_rate(gid, FractionalNumber::new(3, 1)).unwrap();
    assert_eq!(app.get_group_rate(gid), Some(FractionalNumber::new(3, 1)));
    let ore = app.nodes[0].node_id();
    assert_eq!(app.set_group_rate(ore, FractionalNumber::new(1, 1)), Err("Node is not a group".to_owned()));
}
