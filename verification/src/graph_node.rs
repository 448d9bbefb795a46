//! Handles and display records for the graph editor.
use vstd::prelude::*;
use crate::node::NodeKind;

verus! {

/// A handle on a node of the production graph, for the editor.
#[derive(Debug, Clone, Copy)]
pub struct GraphNode {
    /// The id of the node.
    pub id: u64,
    /// The kind of the node, kept for quick access.
    pub node_type: GraphNodeType,
}

impl GraphNode {
    pub fn new(id: u64, node_type: GraphNodeType) -> (r: Self)
        ensures
            r.id == id,
            r.node_type == node_type,
    {
        GraphNode { id, node_type }
    }
}

/// The kinds of nodes the editor draws.
#[derive(Debug, Clone, Copy, PartialEq, Eq, Structural)]
pub enum GraphNodeType {
    Craft,
    Merger,
    GameSplitter,
    CustomSplitter,
    Sink,
    Group,
}

/// The editor kind of a node kind.
pub open spec fn graph_type_of(kind: NodeKind) -> GraphNodeType {
    match kind {
        NodeKind::Craft => GraphNodeType::Craft,
        NodeKind::Merger => GraphNodeType::Merger,
        NodeKind::GameSplitter => GraphNodeType::GameSplitter,
        NodeKind::CustomSplitter => GraphNodeType::CustomSplitter,
        NodeKind::Sink => GraphNodeType::Sink,
        NodeKind::Group => GraphNodeType::Group,
    }
}

/// The name the editor shows for a kind.
pub open spec fn graph_type_name(t: GraphNodeType) -> Seq<char> {
    match t {
        GraphNodeType::Craft => "Craft"@,
        GraphNodeType::Merger => "Merger"@,
        GraphNodeType::GameSplitter => "GameSplitter"@,
        GraphNodeType::CustomSplitter => "CustomSplitter"@,
        GraphNodeType::Sink => "Sink"@,
        GraphNodeType::Group => "Group"@,
    }
}

impl GraphNodeType {
    pub fn from_node_kind(kind: NodeKind) -> (r: Self)
        ensures
            r == graph_type_of(kind),
    {
        match kind {
            NodeKind::Craft => GraphNodeType::Craft,
            NodeKind::Merger => GraphNodeType::Merger,
            NodeKind::GameSplitter => GraphNodeType::GameSplitter,
            NodeKind::CustomSplitter => GraphNodeType::CustomSplitter,
            NodeKind::Sink => GraphNodeType::Sink,
            NodeKind::Group => GraphNodeType::Group,
        }
    }

    /// Mergers and splitters are organizers.
    pub fn is_organizer(&self) -> (r: bool)
        ensures
            r == (*self == GraphNodeType::Merger || *self == GraphNodeType::GameSplitter || *self
                == GraphNodeType::CustomSplitter),
    {
        match self {
            GraphNodeType::Merger | GraphNodeType::GameSplitter | GraphNodeType::CustomSplitter => true,
            _ => false,
        }
    }

    /// The name of the kind.
    pub fn name(&self) -> (r: String)
        ensures
            r@ == graph_type_name(*self),
    {
        match self {
            GraphNodeType::Craft => "Craft".to_owned(),
            GraphNodeType::Merger => "Merger".to_owned(),
            GraphNodeType::GameSplitter => "GameSplitter".to_owned(),
            GraphNodeType::CustomSplitter => "CustomSplitter".to_owned(),
            GraphNodeType::Sink => "Sink".to_owned(),
            GraphNodeType::Group => "Group".to_owned(),
        }
    }
}

/// Display data of a group.
#[derive(Debug, Clone, Copy, PartialEq, Eq, Structural)]
pub struct GroupData {
    pub is_built: bool,
}

impl GroupData {
    pub fn new(is_built: bool) -> (r: Self)
        ensures
            r.is_built == is_built,
    {
        GroupData { is_built }
    }
}

/// A node of the editor: id, label and type name.
#[derive(Debug)]
pub struct EditorNode {
    pub id: u64,
    pub label: String,
    pub node_type: String,
}

impl EditorNode {
    pub fn new(id: u64, label: String, node_type: String) -> (r: Self)
        ensures
            r.id == id,
            r.label == label,
            r.node_type == node_type,
    {
        EditorNode { id, label, node_type }
    }
}

} // verus!
