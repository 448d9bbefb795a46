//! Production-chain planning library: exact rational rates, a linear-equation
//! solver, and the production graph of crafting, organizer, sink and group nodes.

pub mod rational;
pub mod fractional_number;
pub mod linear;
pub mod rate_calculator;

pub use fractional_number::FractionalNumber;
pub mod pin;
pub mod link;
pub mod node;
pub mod app_node;
pub mod production_app;
pub mod text;
pub mod connectivity;
pub mod locking;
pub mod auto_lock;
pub mod propagation;
pub mod row_meaning;
pub mod equations;
pub mod rate_update;
pub mod rate_change;
pub mod rate_edit;
pub mod link_edit;
pub mod graph_edit;
pub mod node_edit;
pub mod serialization;
pub mod utils;
pub mod bytes;
pub mod graph_node;
pub mod assoc;
pub mod game_data;
pub mod sort;
pub mod group;
pub mod expression;
pub mod grouping;
pub mod ungrouping;
pub mod node_settings;
pub mod loading;
pub mod json;
pub mod save_upgrade;
