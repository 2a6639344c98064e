use nodegraph::dot::dot_of;
use nodegraph::scene::Node;
use nodegraph::NodeGraph;
use nodegraph::NodeGraphError;
use nodegraph::NodeKey;

fn text(s: &str) -> String {
    s.to_string()
}

#[test]
fn inserted_node_is_found_with_its_payload() {
    let mut graph: NodeGraph<u64, u8, String> = NodeGraph::new();
    for key in [7u64, 0, u64::MAX, 42] {
        let payload = format!("payload {}", key);
        let back = graph.add_node(key, payload.clone());
        assert_eq!(back, key);
        assert!(graph.contains_node(&key));
        assert_eq!(graph.node_data(&key), Some(&payload));
    }
    assert_eq!(graph.node_count(), 4);
    assert_eq!(graph.node_data(&7), Some(&text("payload 7")));
    assert_eq!(graph.node_data(&8), None);
}

#[test]
fn removed_node_is_gone_with_its_edges() {
    let mut graph: NodeGraph<i32, String, String> = NodeGraph::new();
    graph.add_node(1, text("one"));
    graph.add_node(2, text("two"));
    graph.add_node(3, text("three"));
    graph.add_edge(1, 2, text("a")).unwrap();
    graph.add_edge(2, 3, text("b")).unwrap();
    graph.add_edge(3, 2, text("c")).unwrap();
    graph.add_edge(2, 2, text("d")).unwrap();
    graph.add_edge(1, 3, text("e")).unwrap();
    assert_eq!(graph.edge_count(), 5);

    assert_eq!(graph.remove_node(2), Some(text("two")));
    assert!(!graph.contains_node(&2));
    for other in [1, 2, 3] {
        assert!(!graph.contains_edge(&2, &other));
        assert!(!graph.contains_edge(&other, &2));
    }
    assert!(graph.contains_edge(&1, &3));
    assert_eq!(graph.edge_count(), 1);
    assert_eq!(graph.node_count(), 2);
}

#[test]
fn other_nodes_keep_their_payload_when_one_is_removed() {
    let mut graph: NodeGraph<i32, String, String> = NodeGraph::new();
    graph.add_node(1, text("one"));
    graph.add_node(2, text("two"));
    graph.add_node(3, text("three"));
    graph.add_edge(3, 1, text("back")).unwrap();
    graph.remove_node(2);
    assert_eq!(graph.node_data(&1), Some(&text("one")));
    assert_eq!(graph.node_data(&3), Some(&text("three")));
    assert!(graph.contains_edge(&3, &1));
    graph.add_node(4, text("four"));
    assert_eq!(graph.node_data(&3), Some(&text("three")));
    assert_eq!(graph.node_data(&4), Some(&text("four")));
    assert_eq!(
        graph.get_edges_from(&3),
        Some(vec![(1, text("back"))])
    );
    assert_eq!(graph.get_edges_from(&4), Some(vec![]));
}

#[test]
fn edge_needs_both_ends() {
    let mut graph: NodeGraph<i32, String, String> = NodeGraph::new();
    graph.add_node(1, text("one"));
    assert!(matches!(
        graph.add_edge(1, 2, text("x")),
        Err(NodeGraphError::NodeNotFound)
    ));
    assert!(matches!(
        graph.add_edge(2, 1, text("x")),
        Err(NodeGraphError::NodeNotFound)
    ));
    assert!(matches!(
        graph.add_edge(5, 6, text("x")),
        Err(NodeGraphError::NodeNotFound)
    ));
    assert_eq!(graph.edge_count(), 0);
    assert_eq!(graph.node_count(), 1);
    assert!(!graph.contains_edge(&1, &2));
    assert!(graph.add_edge(1, 1, text("loop")).is_ok());
    assert!(graph.contains_edge(&1, &1));
}

#[test]
fn edge_round_trip() {
    let mut graph: NodeGraph<String, u32, ()> = NodeGraph::new();
    graph.add_node(text("a"), ());
    graph.add_node(text("b"), ());
    graph.add_edge(text("a"), text("b"), 17).unwrap();
    assert!(graph.contains_edge(&text("a"), &text("b")));
    assert!(!graph.contains_edge(&text("b"), &text("a")));
    assert_eq!(graph.remove_edge(text("a"), text("b")), Some(17));
    assert!(!graph.contains_edge(&text("a"), &text("b")));
    assert_eq!(graph.remove_edge(text("a"), text("b")), None);
}

#[test]
fn newest_of_parallel_edges_leaves_first() {
    let mut graph: NodeGraph<u8, u32, ()> = NodeGraph::new();
    graph.add_node(1, ());
    graph.add_node(2, ());
    graph.add_edge(1, 2, 100).unwrap();
    graph.add_edge(1, 2, 200).unwrap();
    graph.add_edge(1, 2, 300).unwrap();
    assert_eq!(graph.edge_count(), 3);
    assert_eq!(graph.remove_edge(1, 2), Some(300));
    assert!(graph.contains_edge(&1, &2));
    graph.add_edge(1, 2, 400).unwrap();
    assert_eq!(graph.get_edges_from(&1), Some(vec![(2, 400), (2, 200), (2, 100)]));
    assert_eq!(graph.remove_edge(1, 2), Some(400));
    assert_eq!(graph.remove_edge(1, 2), Some(200));
    assert_eq!(graph.remove_edge(1, 2), Some(100));
    assert_eq!(graph.remove_edge(1, 2), None);
    assert!(!graph.contains_edge(&1, &2));
    assert_eq!(graph.edge_count(), 0);
}

#[test]
fn parts_round_trip_keeps_nodes_and_edges() {
    let mut graph: NodeGraph<u32, String, String> = NodeGraph::new();
    for key in 0..6u32 {
        graph.add_node(key, format!("n{}", key));
    }
    let wanted = [(0u32, 1u32), (0, 2), (2, 3), (3, 0), (4, 4), (1, 5), (1, 5)];
    for (a, b) in wanted {
        graph.add_edge(a, b, format!("{}-{}", a, b)).unwrap();
    }
    graph.remove_node(2);

    let (nodes, edges) = graph.to_parts();
    assert_eq!(nodes.len(), 5);
    assert_eq!(edges.len(), 5);
    let rebuilt: NodeGraph<u32, String, String> = NodeGraph::from_parts(&nodes, &edges).unwrap();
    for key in 0..6u32 {
        assert_eq!(rebuilt.contains_node(&key), graph.contains_node(&key));
        assert_eq!(rebuilt.node_data(&key), graph.node_data(&key));
        for other in 0..6u32 {
            assert_eq!(
                rebuilt.contains_edge(&key, &other),
                graph.contains_edge(&key, &other)
            );
        }
    }
    assert_eq!(rebuilt.edge_count(), graph.edge_count());
    assert_eq!(rebuilt.node_count(), graph.node_count());
}

#[test]
fn parts_with_an_unknown_end_do_not_load() {
    let nodes = vec![(1u32, text("one")), (2, text("two"))];
    let edges = vec![(1u32, 2u32, text("fine")), (2, 3, text("dangling"))];
    let loaded: Result<NodeGraph<u32, String, String>, NodeGraphError> =
        NodeGraph::from_parts(&nodes, &edges);
    assert!(matches!(loaded, Err(NodeGraphError::NodeNotFound)));
    let loaded: Result<NodeGraph<u32, String, String>, NodeGraphError> =
        NodeGraph::from_parts(&nodes, &edges[..1]);
    let graph = loaded.unwrap();
    assert!(graph.contains_edge(&1, &2));
    assert_eq!(graph.node_count(), 2);
}

#[test]
fn dfs_visits_each_reachable_node_once() {
    let mut graph: NodeGraph<String, (), ()> = NodeGraph::new();
    for key in ["root", "child1", "child2", "elsewhere"] {
        graph.add_node(text(key), ());
    }
    graph.add_edge(text("root"), text("child1"), ()).unwrap();
    graph.add_edge(text("root"), text("child2"), ()).unwrap();
    let walk = graph.traverse_dfs(&text("root")).unwrap();
    assert_eq!(walk[0], text("root"));
    assert_eq!(walk.len(), 3);
    assert_eq!(walk.iter().filter(|k| **k == text("child1")).count(), 1);
    assert_eq!(walk.iter().filter(|k| **k == text("child2")).count(), 1);
    assert_eq!(walk.iter().filter(|k| **k == text("root")).count(), 1);
    assert_eq!(graph.traverse_dfs(&text("elsewhere")), Some(vec![text("elsewhere")]));
}

#[test]
fn dfs_follows_the_oldest_edge_first_and_stops_at_cycles() {
    let mut graph: NodeGraph<String, (), ()> = NodeGraph::new();
    for key in ["a", "b", "c", "d", "e"] {
        graph.add_node(text(key), ());
    }
    for (from, to) in [("a", "b"), ("a", "c"), ("b", "d"), ("c", "d"), ("d", "a")] {
        graph.add_edge(text(from), text(to), ()).unwrap();
    }
    assert_eq!(
        graph.traverse_dfs(&text("a")),
        Some(vec![text("a"), text("b"), text("d"), text("c")])
    );
    assert_eq!(
        graph.traverse_dfs(&text("c")),
        Some(vec![text("c"), text("d"), text("a"), text("b")])
    );
    assert_eq!(graph.traverse_dfs(&text("e")), Some(vec![text("e")]));
}

#[test]
fn absent_keys_give_nothing() {
    let mut graph: NodeGraph<i64, String, String> = NodeGraph::new();
    graph.add_node(1, text("one"));
    graph.add_node(2, text("two"));
    assert_eq!(graph.remove_edge(1, 2), None);
    assert_eq!(graph.remove_edge(1, 9), None);
    assert_eq!(graph.remove_edge(9, 1), None);
    assert_eq!(graph.remove_node(9), None);
    assert_eq!(graph.traverse_dfs(&9), None);
    assert_eq!(graph.get_edges_from(&9), None);
    assert_eq!(graph.get_edges_connected_to_node(&9), None);
    assert_eq!(graph.node_data(&9), None);
    assert!(!graph.contains_node(&9));
    assert!(!graph.contains_edge(&9, &1));
    assert_eq!(graph.node_count(), 2);
}

#[test]
fn rectangles_joined_by_one_edge() {
    let mut graph: NodeGraph<String, String, Node> = NodeGraph::new();
    graph.add_node(text("node1"), Node::Rectangle);
    graph.add_node(text("node2"), Node::Rectangle);
    graph.add_edge(text("node1"), text("node2"), text("edge1-2")).unwrap();
    assert_eq!(
        graph.get_edges_connected_to_node(&text("node1")),
        Some(vec![(text("node2"), text("edge1-2"))])
    );
    assert_eq!(
        graph.get_edges_connected_to_node(&text("node2")),
        Some(vec![(text("node1"), text("edge1-2"))])
    );
    assert_eq!(graph.get_edges_from(&text("node2")), Some(vec![]));
    assert_eq!(graph.node_data(&text("node1")), Some(&Node::Rectangle));
}

#[test]
fn root_with_two_children_is_walked_in_insertion_order() {
    let mut graph: NodeGraph<String, (), Node> = NodeGraph::new();
    graph.add_node(text("root"), Node::Rectangle);
    graph.add_node(text("child1"), Node::Rectangle);
    graph.add_node(text("child2"), Node::Rectangle);
    graph.add_edge(text("root"), text("child1"), ()).unwrap();
    graph.add_edge(text("root"), text("child2"), ()).unwrap();
    assert_eq!(
        graph.traverse_dfs(&text("root")),
        Some(vec![text("root"), text("child1"), text("child2")])
    );
}

#[test]
fn connected_edges_list_outgoing_then_incoming_and_a_loop_once() {
    let mut graph: NodeGraph<u16, &'static str, ()> = NodeGraph::new();
    for key in [1u16, 2, 3] {
        graph.add_node(key, ());
    }
    graph.add_edge(1, 2, "1-2 old").unwrap();
    graph.add_edge(2, 1, "2-1").unwrap();
    graph.add_edge(1, 1, "loop").unwrap();
    graph.add_edge(3, 1, "3-1").unwrap();
    graph.add_edge(1, 2, "1-2 new").unwrap();
    graph.add_edge(2, 3, "2-3").unwrap();
    assert_eq!(
        graph.get_edges_from(&1),
        Some(vec![(2, "1-2 new"), (1, "loop"), (2, "1-2 old")])
    );
    assert_eq!(
        graph.get_edges_connected_to_node(&1),
        Some(vec![
            (2, "1-2 new"),
            (1, "loop"),
            (2, "1-2 old"),
            (3, "3-1"),
            (2, "2-1")
        ])
    );
    assert_eq!(
        graph.get_edges_connected_to_node(&3),
        Some(vec![(1, "3-1"), (2, "2-3")])
    );
}

#[test]
fn adding_under_a_key_in_use_replaces_the_node() {
    let mut graph: NodeGraph<u32, String, String> = NodeGraph::new();
    graph.add_node(1, text("first"));
    graph.add_node(2, text("other"));
    graph.add_edge(1, 2, text("out")).unwrap();
    graph.add_edge(2, 1, text("in")).unwrap();
    graph.add_edge(2, 2, text("stays")).unwrap();
    graph.add_node(1, text("second"));
    assert_eq!(graph.node_count(), 2);
    assert_eq!(graph.node_data(&1), Some(&text("second")));
    assert!(!graph.contains_edge(&1, &2));
    assert!(!graph.contains_edge(&2, &1));
    assert!(graph.contains_edge(&2, &2));
    assert_eq!(graph.edge_count(), 1);
    assert_eq!(graph.traverse_dfs(&2), Some(vec![2]));
}

#[test]
fn batches_apply_in_order_and_stop_at_the_first_failure() {
    let mut graph: NodeGraph<u32, String, String> = NodeGraph::new();
    graph.add_nodes(&[(1, text("a")), (2, text("b")), (1, text("c"))]);
    assert_eq!(graph.node_count(), 2);
    assert_eq!(graph.node_data(&1), Some(&text("c")));
    assert_eq!(graph.node_data(&2), Some(&text("b")));

    let outcome = graph.add_edges(&[
        (1, 2, text("first")),
        (2, 1, text("second")),
        (2, 7, text("broken")),
        (1, 1, text("never")),
    ]);
    assert!(matches!(outcome, Err(NodeGraphError::NodeNotFound)));
    assert_eq!(graph.edge_count(), 2);
    assert!(graph.contains_edge(&1, &2));
    assert!(graph.contains_edge(&2, &1));
    assert!(!graph.contains_edge(&1, &1));
    assert!(graph.add_edges(&[(1, 1, text("now"))]).is_ok());
    assert!(graph.contains_edge(&1, &1));
    assert!(graph.add_edges(&[]).is_ok());
    assert_eq!(graph.edge_count(), 3);
}

#[test]
fn counts_follow_the_contents() {
    let mut graph: NodeGraph<u8, (), ()> = NodeGraph::new();
    assert!(graph.is_empty());
    graph.add_node(1, ());
    assert!(!graph.is_empty());
    graph.add_node(2, ());
    graph.add_edge(1, 2, ()).unwrap();
    graph.add_edge(1, 2, ()).unwrap();
    assert_eq!((graph.node_count(), graph.edge_count()), (2, 2));
    graph.remove_edge(1, 2);
    assert_eq!((graph.node_count(), graph.edge_count()), (2, 1));
    graph.remove_node(1);
    assert_eq!((graph.node_count(), graph.edge_count()), (1, 0));
    graph.remove_node(2);
    assert!(graph.is_empty());
}

#[test]
fn slots_are_reused_without_mixing_up_nodes() {
    let mut graph: NodeGraph<u32, u32, u32> = NodeGraph::new();
    for round in 0..4u32 {
        for key in 0..8u32 {
            graph.add_node(key, key * 10 + round);
        }
        for key in 0..8u32 {
            graph.add_edge(key, (key + 1) % 8, key).unwrap();
        }
        for key in (0..8u32).filter(|k| k % 2 == round % 2) {
            assert_eq!(graph.remove_node(key), Some(key * 10 + round));
        }
        for key in 0..8u32 {
            let kept = key % 2 != round % 2;
            assert_eq!(graph.contains_node(&key), kept);
            if kept {
                assert_eq!(graph.node_data(&key), Some(&(key * 10 + round)));
            }
        }
        assert_eq!(graph.edge_count(), 0);
        assert_eq!(graph.node_count(), 4);
    }
}

#[test]
fn dot_output_has_a_statement_for_each_node_and_edge() {
    let mut graph: NodeGraph<u32, &'static str, i32> = NodeGraph::new();
    graph.add_node(10, 3);
    graph.add_node(20, -4);
    graph.add_node(30, 5);
    graph.remove_node(20);
    graph.add_edge(10, 30, "Edge \"x\"").unwrap();
    let expected = "    0 [ label = \"3\" ]\n    1 [ label = \"5\" ]\n    0 -> 1 [ label = \"\\\"Edge \\\\\\\"x\\\\\\\"\\\"\" ]\n";
    assert_eq!(graph.to_dot(), expected);
    let empty: NodeGraph<u32, &'static str, i32> = NodeGraph::new();
    assert_eq!(empty.to_dot(), "");
}

#[test]
fn dot_of_labels_and_arrows() {
    let labels = vec![text("a"), text("b\nc")];
    let arrows = vec![(1usize, 0usize, text("to a")), (1, 1, text(""))];
    let expected = "    0 [ label = \"a\" ]\n    1 [ label = \"b\\lc\" ]\n    1 -> 0 [ label = \"to a\" ]\n    1 -> 1 [ label = \"\" ]\n";
    assert_eq!(dot_of(&labels, &arrows), expected);
}

#[test]
fn keys_of_walk_skips_empty_slots() {
    let mut graph: NodeGraph<String, (), ()> = NodeGraph::new();
    graph.add_node(text("a"), ());
    graph.add_node(text("b"), ());
    graph.add_node(text("c"), ());
    graph.remove_node(text("b"));
    let keys = graph.keys_of_walk(&vec![2, 1, 0, 2, 99]);
    assert_eq!(keys, vec![text("c"), text("a"), text("c")]);
}

#[test]
fn error_messages() {
    assert_eq!(
        NodeGraphError::NodeAlreadyExists.message(),
        "Node with this ID already exists"
    );
    assert_eq!(
        NodeGraphError::NodeNotFound.message(),
        "Node with this ID does not exist"
    );
    assert_eq!(
        NodeGraphError::EdgeError.message(),
        "One of the node IDs does not exist"
    );
    assert_eq!(
        NodeGraphError::SerializationError(text("boom")).message(),
        "Serialization error: boom"
    );
    assert_eq!(
        NodeGraphError::DeserializationError(text("eof")).message(),
        "Deserialization error: eof"
    );
}

#[test]
fn keys_compare_by_value() {
    assert!(5u32.same(&5));
    assert!(!5u32.same(&6));
    assert!((-3i32).same(&-3));
    assert!(!(-3i64).same(&3));
    assert!(text("k").same(&text("k")));
    assert!(!text("k").same(&text("K")));
    assert_eq!(text("copy").duplicate(), text("copy"));
    assert_eq!(9u8.duplicate(), 9);
    assert_eq!(9u16.duplicate(), 9);
    assert_eq!(9u64.duplicate(), 9);
    assert_eq!(9usize.duplicate(), 9);
    assert!(7usize.same(&7) && 7u64.same(&7) && 7u16.same(&7) && 7u8.same(&7));
}
