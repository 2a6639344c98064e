use nodegraph::NodeGraph;

#[derive(Debug, Clone, PartialEq)]
pub enum NodeData {
    Text(String),
    Number(i32),
    Position(u8, u8),
}

fn round_trip_keyed(graph: &NodeGraph<u32, String, String>) -> NodeGraph<u32, String, String> {
    let parts = graph.to_parts();
    let serialized = serde_json::to_string(&parts).expect("Failed to serialize graph");
    let (nodes, edges): (Vec<(u32, String)>, Vec<(u32, u32, String)>) =
        serde_json::from_str(&serialized).expect("Failed to deserialize graph");
    NodeGraph::from_parts(&nodes, &edges).expect("Failed to deserialize graph")
}

#[test]
fn nodegraph_test_new_graph_is_empty() {
    let graph: NodeGraph<i32, String, String> = NodeGraph::new();
    assert_eq!(graph.node_count(), 0);
    assert_eq!(graph.edge_count(), 0);
}

#[test]
fn nodegraph_test_add_and_remove_node() {
    let mut graph: NodeGraph<i32, String, String> = NodeGraph::new();
    let node_id = 1;
    let node_data = "Node 1 data".to_string();
    graph.add_node(node_id, node_data.clone());

    assert!(graph.contains_node(&node_id));
    assert_eq!(graph.node_data(&node_id), Some(&node_data));

    let removed_data = graph.remove_node(node_id).unwrap();
    assert_eq!(removed_data, node_data);
    assert!(!graph.contains_node(&node_id));
}

#[test]
fn nodegraph_test_add_and_remove_edge() {
    let mut graph: NodeGraph<i32, String, String> = NodeGraph::new();
    graph.add_node(1, "Node 1".to_string());
    graph.add_node(2, "Node 2".to_string());
    let edge_value = "connects".to_string();

    graph.add_edge(1, 2, edge_value.clone()).unwrap();
    assert!(graph.contains_edge(&1, &2));

    let removed_edge_value = graph.remove_edge(1, 2).unwrap();
    assert_eq!(removed_edge_value, edge_value);
    assert!(!graph.contains_edge(&1, &2));
}

#[test]
fn nodegraph_test_edge_cases() {
    let mut graph: NodeGraph<i32, String, String> = NodeGraph::new();
    graph.add_node(1, "Node 1".to_string());
    // Attempt to add an edge where one node does not exist
    assert!(graph.add_edge(1, 2, "connects".to_string()).is_err());
    // Attempt to remove a non-existent edge
    assert!(graph.remove_edge(1, 2).is_none());
    // Attempt to remove a non-existent node
    assert!(graph.remove_node(2).is_none());
}

#[test]
fn nodegraph_test_graph_with_enum_node_data() {
    let mut graph: NodeGraph<i32, String, NodeData> = NodeGraph::new();

    graph.add_node(1, NodeData::Text("Node 1 data".to_string()));
    graph.add_node(2, NodeData::Number(42));
    graph.add_node(3, NodeData::Position(3, 4));

    graph.add_edge(1, 2, "Edge 1-2".to_string()).unwrap();
    graph.add_edge(2, 3, "Edge 2-3".to_string()).unwrap();

    assert!(graph.contains_edge(&1, &2));
    assert!(graph.contains_edge(&2, &3));

    graph.remove_node(2);
    assert!(!graph.contains_node(&2));
    assert!(!graph.contains_edge(&1, &2));
    assert!(!graph.contains_edge(&2, &3));
}

#[test]
fn nodegraph_test_serialization_and_deserialization() {
    let mut graph: NodeGraph<u32, String, String> = NodeGraph::new();
    graph.add_node(1, "Node1".to_string());
    graph.add_node(2, "Node2".to_string());
    graph.add_edge(1, 2, "Edge1-2".to_string()).unwrap();

    let deserialized = round_trip_keyed(&graph);

    assert!(deserialized.contains_node(&1));
    assert!(deserialized.contains_node(&2));
    assert!(deserialized.contains_edge(&1, &2));
    assert_eq!(deserialized.node_data(&1), Some(&"Node1".to_string()));
    assert_eq!(deserialized.node_data(&2), Some(&"Node2".to_string()));
}

#[test]
fn nodegraph_test_graphviz_output() {
    let mut graph: NodeGraph<u32, &'static str, NodeData> = NodeGraph::new();
    graph.add_node(1, NodeData::Text("Hello!".to_string()));
    graph.add_node(2, NodeData::Number(3));
    graph.add_node(3, NodeData::Position(0, 1));
    graph.add_edge(1, 2, "Edge 1-2").unwrap();
    graph.add_edge(2, 3, "Edge 2-3").unwrap();

    let dot_output = graph.to_dot();
    assert!(!dot_output.is_empty());
    println!("DOT GraphViz Representation:\n{}", dot_output);
}

#[test]
fn nodegraph_test_get_node_data_by_id() {
    let mut graph: NodeGraph<String, String, NodeData> = NodeGraph::new();
    let node_id = "node1".to_string();
    graph.add_node(node_id.clone(), NodeData::Text("Node 1 data".to_string()));

    let node_data = graph.node_data(&node_id);
    assert_eq!(node_data, Some(&NodeData::Text("Node 1 data".to_string())));
}

#[test]
fn nodegraph_test_traverse_dfs() {
    let mut graph: NodeGraph<String, String, NodeData> = NodeGraph::new();
    graph.add_node("root".to_string(), NodeData::Text("Root".to_string()));
    graph.add_node("child1".to_string(), NodeData::Text("Child 1".to_string()));
    graph.add_node("child2".to_string(), NodeData::Text("Child 2".to_string()));
    graph
        .add_edge(
            "root".to_string(),
            "child1".to_string(),
            "edge1".to_string(),
        )
        .unwrap();
    graph
        .add_edge(
            "root".to_string(),
            "child2".to_string(),
            "edge2".to_string(),
        )
        .unwrap();

    let dfs_nodes = graph.traverse_dfs(&"root".to_string());
    assert_eq!(
        dfs_nodes,
        Some(vec![
            "root".to_string(),
            "child1".to_string(),
            "child2".to_string()
        ])
    );
}

#[test]
fn nodegraph_test_get_edges_connected_to_node() {
    let mut graph: NodeGraph<String, String, NodeData> = NodeGraph::new();
    graph.add_node("node1".to_string(), NodeData::Text("Node 1".to_string()));
    graph.add_node("node2".to_string(), NodeData::Number(2));
    graph
        .add_edge(
            "node1".to_string(),
            "node2".to_string(),
            "edge1-2".to_string(),
        )
        .unwrap();

    let edges = graph
        .get_edges_connected_to_node(&"node1".to_string())
        .unwrap();

    assert_eq!(edges, vec![("node2".to_string(), "edge1-2".to_string())]);
}
