use ficsit_companion_rs::app_node::AppNode;
use ficsit_companion_rs::node::NodeKind;
use ficsit_companion_rs::production_app::ProductionApp;
use ficsit_companion_rs::serialization::{
    ProductionChainFile, SerializedCraftNode, SerializedLink, SerializedLinkEndpoint, SerializedNode,
    SerializedOrganizerNode, SerializedPinEntry, SerializedRate, SerializedSinkInput, SerializedSinkNode,
};
use ficsit_companion_rs::FractionalNumber;

fn sample_file() -> ProductionChainFile {
    ProductionChainFile {
        game_version: "1.0".to_owned(),
        save_version: 5,
        nodes: vec![
            SerializedNode::Craft(SerializedCraftNode {
                kind: 0,
                recipe: "Iron Ingot".to_owned(),
                rate: SerializedRate { num: 3, den: 2 },
                pos: (0, 0),
                built: true,
                locked: false,
                num_somersloop: 0,
            }),
            SerializedNode::Organizer(SerializedOrganizerNode {
                kind: 2,
                pos: (10, 20),
                item: Some("Iron Ingot".to_owned()),
                ins: Some(vec![SerializedPinEntry { item: None, num: 1, den: 1, locked: false }]),
                outs: None,
            }),
            SerializedNode::Sink(SerializedSinkNode {
                kind: 5,
                pos: (30, 40),
                ins: vec![SerializedSinkInput { item: "Iron Ingot".to_owned(), num: 2, den: 1, locked: false }],
            }),
        ],
        links: vec![SerializedLink {
            start: SerializedLinkEndpoint { node: 1, pin: 0 },
            end: SerializedLinkEndpoint { node: 2, pin: 0 },
        }],
    }
}

#[test]
fn loading_builds_nodes_and_links() {
    let mut app = ProductionApp::new();
    app.load_from_file(&sample_file(), None).unwrap();
    assert_eq!(app.nodes.len(), 3);
    assert_eq!(app.links.len(), 1);
    match &app.nodes[0] {
        AppNode::Craft(c) => {
            assert_eq!(c.recipe_name, "Iron Ingot");
            assert!(c.built);
            assert_eq!(c.current_rate, FractionalNumber::new(3, 2));
        },
        _ => panic!("craft expected"),
    }
    match &app.nodes[1] {
        AppNode::Organizer(o) => {
            assert_eq!(o.base.kind, NodeKind::Merger);
            assert_eq!(o.base.position, (10, 20));
            assert_eq!(o.base.ins.len(), 1);
            assert_eq!(o.base.ins[0].item_name.as_deref(), Some("Iron Ingot"));
            // The link asked for output 0, which the organizer gets on load.
            assert_eq!(o.base.outs.len(), 1);
            assert_eq!(o.base.outs[0].link_id, Some(app.links[0].id));
        },
        _ => panic!("organizer expected"),
    }
}

#[test]
fn saving_writes_what_loading_reads() {
    let mut app = ProductionApp::new();
    app.load_from_file(&sample_file(), None).unwrap();
    let saved = app.save_to_file();
    assert_eq!(saved.save_version, 5);
    assert_eq!(saved.game_version, "1.0");
    assert_eq!(saved.nodes.len(), 3);
    assert_eq!(saved.links.len(), 1);
    assert_eq!(saved.links[0], SerializedLink {
        start: SerializedLinkEndpoint { node: 1, pin: 0 },
        end: SerializedLinkEndpoint { node: 2, pin: 0 },
    });
    match &saved.nodes[0] {
        SerializedNode::Craft(c) => {
            assert_eq!(c.recipe, "Iron Ingot");
            assert_eq!((c.rate.num, c.rate.den), (3, 2));
            assert!(c.built);
        },
        _ => panic!("craft expected"),
    }
    let mut again = ProductionApp::new();
    again.load_from_file(&saved, None).unwrap();
    assert_eq!(again.nodes.len(), 3);
    assert_eq!(again.links.len(), 1);
}

#[test]
fn loading_refuses_bad_records() {
    let mut file = sample_file();
    file.nodes.push(SerializedNode::Organizer(SerializedOrganizerNode { kind: 9, pos: (0, 0), item: None, ins: None, outs: None }));
    let mut app = ProductionApp::new();
    assert_eq!(app.load_from_file(&file, None), Err("Invalid node kind: 9".to_owned()));
    let mut file = sample_file();
    file.links.push(SerializedLink {
        start: SerializedLinkEndpoint { node: 7, pin: 0 },
        end: SerializedLinkEndpoint { node: 0, pin: 0 },
    });
    assert_eq!(app.load_from_file(&file, None), Err("Invalid start node index: 7".to_owned()));
    let mut file = sample_file();
    file.nodes.push(SerializedNode::Sink(SerializedSinkNode {
        kind: 5,
        pos: (0, 0),
        ins: vec![SerializedSinkInput { item: "x".to_owned(), num: 1, den: 0, locked: false }],
    }));
    assert_eq!(app.load_from_file(&file, None), Err("Invalid rate".to_owned()));
}

#[test]
fn group_nodes_are_not_saved() {
    let mut app = ProductionApp::new();
    app.load_from_file(&sample_file(), None).unwrap();
    let sink_id = app.nodes[2].node_id();
    app.group_nodes(&[sink_id], (0, 0), &vec![(0, 0)]).unwrap();
    let saved = app.save_to_file();
    assert_eq!(saved.nodes.len(), 2);
}

#[test]
fn loaded_links_join_the_pins_at_the_saved_places() {
    let mut app = ProductionApp::new();
    app.load_from_file(&sample_file(), None).unwrap();
    let out_pin = match &app.nodes[1] {
        AppNode::Organizer(o) => o.base.outs[0].id,
        _ => panic!("organizer expected"),
    };
    let in_pin = match &app.nodes[2] {
        AppNode::Sink(k) => k.base.ins[0].id,
        _ => panic!("sink expected"),
    };
    assert_eq!(app.links[0].start_pin_id, out_pin);
    assert_eq!(app.links[0].end_pin_id, in_pin);
    let saved = app.save_to_file();
    let mut again = ProductionApp::new();
    again.load_from_file(&saved, None).unwrap();
    let out2 = match &again.nodes[1] {
        AppNode::Organizer(o) => o.base.outs[0].id,
        _ => panic!("organizer expected"),
    };
    let in2 = match &again.nodes[2] {
        AppNode::Sink(k) => k.base.ins[0].id,
        _ => panic!("sink expected"),
    };
    assert_eq!(again.links[0].start_pin_id, out2);
    assert_eq!(again.links[0].end_pin_id, in2);
    assert!(again.find_pin_location(again.links[0].start_pin_id).is_some());
    assert!(again.find_pin_location(again.links[0].end_pin_id).is_some());
    let saved2 = again.save_to_file();
    assert_eq!(saved2.links, saved.links);
    assert_eq!(saved2.nodes.len(), saved.nodes.len());
}
