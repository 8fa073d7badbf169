use stack_graphs::graph::NodeID;
use stack_graphs::graph::Position;
use stack_graphs::graph::SourceInfo;
use stack_graphs::graph::Span;
use stack_graphs::graph::StackGraph;
use stack_graphs::NoCancellation;
use stack_graphs::assertions::AssertionSource;
use stack_graphs::stitching::Database;
use stack_graphs::stitching::ForwardPartialPathStitcher;

fn pos(line: usize, col: usize) -> Position {
    Position { line, column_utf8: col, column_grapheme: col }
}

fn span(sl: usize, sc: usize, el: usize, ec: usize) -> Span {
    Span { start: pos(sl, sc), end: pos(el, ec) }
}

#[test]
fn interning_same_string_gives_same_handle() {
    let mut graph = StackGraph::new();
    let a = graph.add_symbol("x");
    let b = graph.add_symbol("y");
    let c = graph.add_symbol("x");
    assert_eq!(a, c);
    assert_ne!(a, b);
    assert_eq!(graph.symbol(a).as_str(), "x");
    assert_eq!(graph.symbol(b).as_str(), "y");

    let f1 = graph.get_or_create_file("a.py");
    let f2 = graph.get_or_create_file("b.py");
    let f3 = graph.get_or_create_file("a.py");
    assert_eq!(f1, f3);
    assert_ne!(f1, f2);
    assert_eq!(graph.file_name(f1).as_str(), "a.py");
}

#[test]
fn duplicate_node_id_is_rejected() {
    let mut graph = StackGraph::new();
    let file = graph.get_or_create_file("a.py");
    let id = NodeID::new_in_file(file, 0);
    let first = graph.add_scope_node(id, false);
    assert!(first.is_some());
    let second = graph.add_internal_node(id);
    assert!(second.is_none());
    let other = graph.add_internal_node(NodeID::new_in_file(file, 1));
    assert!(other.is_some());
}

#[test]
fn add_edge_is_idempotent_with_precedence_maximisation() {
    let mut graph = StackGraph::new();
    let file = graph.get_or_create_file("a.py");
    let a = graph.add_scope_node(NodeID::new_in_file(file, 0), false).unwrap();
    let b = graph.add_scope_node(NodeID::new_in_file(file, 1), false).unwrap();

    graph.add_edge(a, b, 1);
    assert_eq!(graph.outgoing_edges(a).len(), 1);
    assert_eq!(graph.outgoing_edges(a)[0].precedence, 1);

    // re-adding the same edge keeps one edge and the higher precedence
    graph.add_edge(a, b, 0);
    assert_eq!(graph.outgoing_edges(a).len(), 1);
    assert_eq!(graph.outgoing_edges(a)[0].precedence, 1);

    graph.add_edge(a, b, 3);
    assert_eq!(graph.outgoing_edges(a).len(), 1);
    assert_eq!(graph.outgoing_edges(a)[0].precedence, 3);

    // an edge to a different sink is appended
    let c = graph.add_scope_node(NodeID::new_in_file(file, 2), false).unwrap();
    graph.add_edge(a, c, 0);
    assert_eq!(graph.outgoing_edges(a).len(), 2);
}

#[test]
fn nodes_for_file_lists_only_that_file() {
    let mut graph = StackGraph::new();
    let fa = graph.get_or_create_file("a.py");
    let fb = graph.get_or_create_file("b.py");
    let a0 = graph.add_scope_node(NodeID::new_in_file(fa, 0), false).unwrap();
    let b0 = graph.add_scope_node(NodeID::new_in_file(fb, 0), false).unwrap();
    let a1 = graph.add_internal_node(NodeID::new_in_file(fa, 1)).unwrap();

    let nodes_a = graph.nodes_for_file(fa);
    assert_eq!(nodes_a, vec![a0, a1]);
    let nodes_b = graph.nodes_for_file(fb);
    assert_eq!(nodes_b, vec![b0]);
}

#[test]
fn span_contains_is_half_open() {
    let s = span(3, 5, 3, 8);
    assert!(s.contains(&pos(3, 5)));
    assert!(s.contains(&pos(3, 7)));
    assert!(!s.contains(&pos(3, 8)));
    assert!(!s.contains(&pos(2, 7)));
    assert!(!s.contains(&pos(4, 0)));
}

#[test]
fn find_references_in_range_matches_overlapping_spans() {
    let mut graph = StackGraph::new();
    let file = graph.get_or_create_file("a.py");
    let x = graph.add_symbol("x");
    let r1 = graph
        .add_push_symbol_node(NodeID::new_in_file(file, 0), x, true)
        .unwrap();
    let r2 = graph
        .add_push_symbol_node(NodeID::new_in_file(file, 1), x, true)
        .unwrap();
    let d = graph
        .add_pop_symbol_node(NodeID::new_in_file(file, 2), x, true)
        .unwrap();
    graph.set_source_info(r1, SourceInfo { span: span(2, 0, 2, 1) });
    graph.set_source_info(r2, SourceInfo { span: span(7, 0, 7, 1) });
    graph.set_source_info(d, SourceInfo { span: span(3, 0, 3, 1) });

    let hits = graph.find_references_in_range(file, 0, 4);
    assert_eq!(hits, vec![r1]);
    let hits = graph.find_references_in_range(file, 0, 9);
    assert_eq!(hits, vec![r1, r2]);
    let hits = graph.find_references_in_range(file, 8, 9);
    assert!(hits.is_empty());
}

#[test]
fn serialised_graph_round_trips() {
    let mut graph = StackGraph::new();
    let file = graph.get_or_create_file("a.py");
    let x = graph.add_symbol("x");
    let d = graph
        .add_pop_symbol_node(NodeID::new_in_file(file, 0), x, true)
        .unwrap();
    let s = graph.add_scope_node(NodeID::new_in_file(file, 1), true).unwrap();
    graph.add_edge(s, d, 7);
    graph.set_source_info(d, SourceInfo { span: span(1, 0, 1, 3) });

    let data = stack_graphs::serde::StackGraph::from_graph(&graph);
    let loaded = data.load().unwrap();

    // files and nodes for each file are preserved
    assert_eq!(loaded.nodes_for_file(file), graph.nodes_for_file(file));
    // edges with precedence are preserved
    assert_eq!(loaded.outgoing_edges(s), graph.outgoing_edges(s));
    assert_eq!(loaded.outgoing_edges(s)[0].precedence, 7);
    // source spans are preserved
    assert_eq!(loaded.source_info(d), graph.source_info(d));
    assert_eq!(loaded.file_name(file).as_str(), "a.py");
}

#[test]
fn malformed_graph_data_is_rejected() {
    let mut graph = StackGraph::new();
    let file = graph.get_or_create_file("a.py");
    graph.add_scope_node(NodeID::new_in_file(file, 0), false).unwrap();
    let mut data = stack_graphs::serde::StackGraph::from_graph(&graph);
    // truncate the parallel vectors so the data no longer lines up
    data.source_info.pop();
    assert!(data.load().is_err());
}

#[test]
fn serialised_database_round_trips() {
    let mut graph = StackGraph::new();
    let root = StackGraph::root_node();
    let file = graph.get_or_create_file("b.py");
    let x = graph.add_symbol("x");
    let pop_x = graph
        .add_pop_symbol_node(NodeID::new_in_file(file, 0), x, true)
        .unwrap();
    graph.add_edge(root, pop_x, 0);
    let fragments =
        ForwardPartialPathStitcher::find_all_partial_paths_in_file(&graph, file, &NoCancellation)
            .unwrap();
    assert!(!fragments.is_empty());
    let mut db = Database::new();
    for p in fragments {
        db.add_partial_path(&graph, p);
    }

    let data = stack_graphs::serde::Database::from_database(&db);
    let loaded = data.load(&graph).unwrap();
    assert_eq!(loaded.len(), db.len());
    for i in 0..db.len() {
        let h = stack_graphs::stitching::PartialPathHandle { index: i };
        assert!(loaded.get(h).equals(db.get(h)));
    }

    // data whose handles point outside the graph is rejected
    let mut bad = stack_graphs::serde::Database::from_database(&db);
    bad.paths[0].end_node = stack_graphs::graph::NodeHandle { index: 999 };
    assert!(bad.load(&graph).is_err());
}

#[test]
fn assertion_source_renders_one_based_location() {
    let mut graph = StackGraph::new();
    let file = graph.get_or_create_file("a.py");
    let source = AssertionSource { file, position: pos(3, 5) };
    assert_eq!(source.display_string(&graph), "a.py:4:6");
}
