use stack_graphs::graph::NodeHandle;
use stack_graphs::graph::NodeID;
use stack_graphs::graph::Position;
use stack_graphs::graph::SourceInfo;
use stack_graphs::graph::Span;
use stack_graphs::graph::StackGraph;
use stack_graphs::partial::PartialPath;
use stack_graphs::stitching::Database;
use stack_graphs::stitching::ForwardPartialPathStitcher;
use stack_graphs::stitching::StitcherConfig;
use stack_graphs::CancelAfterDuration;
use stack_graphs::NoCancellation;
use stack_graphs::assertions::Assertion;
use stack_graphs::assertions::AssertionError;
use stack_graphs::assertions::AssertionSource;
use stack_graphs::assertions::AssertionTarget;

fn pos(line: usize, col: usize) -> Position {
    Position { line, column_utf8: col, column_grapheme: col }
}

fn span(sl: usize, sc: usize, el: usize, ec: usize) -> Span {
    Span { start: pos(sl, sc), end: pos(el, ec) }
}

fn config() -> StitcherConfig {
    StitcherConfig::default()
}

fn stitch(graph: &StackGraph, db: &Database, starts: Vec<NodeHandle>) -> Vec<PartialPath> {
    ForwardPartialPathStitcher::find_all_complete_partial_paths(
        graph,
        db,
        &starts,
        config(),
        &NoCancellation,
    )
    .unwrap()
}

/// A single file with a reference on line 3 bound to a definition on
/// line 1 through an internal node.
fn single_file_graph() -> (StackGraph, NodeHandle, NodeHandle) {
    let mut graph = StackGraph::new();
    let file = graph.get_or_create_file("a.py");
    let x = graph.add_symbol("x");
    let r = graph
        .add_push_symbol_node(NodeID::new_in_file(file, 0), x, true)
        .unwrap();
    let i = graph.add_internal_node(NodeID::new_in_file(file, 1)).unwrap();
    let d = graph
        .add_pop_symbol_node(NodeID::new_in_file(file, 2), x, true)
        .unwrap();
    graph.add_edge(r, i, 0);
    graph.add_edge(i, d, 0);
    graph.set_source_info(r, SourceInfo { span: span(3, 5, 3, 6) });
    graph.set_source_info(d, SourceInfo { span: span(1, 0, 1, 1) });
    (graph, r, d)
}

#[test]
fn single_file_local_binding_resolves() {
    let (graph, r, d) = single_file_graph();
    let db = Database::new();
    let paths = stitch(&graph, &db, vec![r]);
    assert_eq!(paths.len(), 1);
    assert_eq!(paths[0].start_node, r);
    assert_eq!(paths[0].end_node, d);
    // the emitted path has both stacks empty with no variables left
    assert_eq!(paths[0].symbol_stack_postcondition.len(), 0);
    assert!(!paths[0].symbol_stack_postcondition.has_variable());
    assert_eq!(paths[0].scope_stack_postcondition.len(), 0);
    assert!(!paths[0].scope_stack_postcondition.has_variable());
    // the edge list is connected from the seed to the definition
    assert_eq!(paths[0].edges.len(), 2);
    assert_eq!(paths[0].edges[0].source, r);
    assert_eq!(paths[0].edges[0].sink, paths[0].edges[1].source);
    assert_eq!(paths[0].edges[1].sink, d);
}

#[test]
fn single_file_defined_assertion_succeeds() {
    let (graph, _r, _d) = single_file_graph();
    let file = graph.nodes[2].id.file.unwrap();
    let db = Database::new();
    let assertion = Assertion::Defined {
        source: AssertionSource { file, position: pos(3, 5) },
        targets: vec![AssertionTarget { file, line: 1 }],
    };
    let result = assertion.run(&graph, &db, config(), &NoCancellation);
    assert!(result.is_ok());
}

#[test]
fn empty_graph_emits_no_complete_paths() {
    let graph = StackGraph::new();
    let db = Database::new();
    let root = StackGraph::root_node();
    let paths = stitch(&graph, &db, vec![root]);
    assert!(paths.is_empty());
}

#[test]
fn seed_that_is_a_definition_emits_zero_edge_path() {
    let mut graph = StackGraph::new();
    let file = graph.get_or_create_file("a.py");
    let x = graph.add_symbol("x");
    let d = graph
        .add_pop_symbol_node(NodeID::new_in_file(file, 0), x, true)
        .unwrap();
    let db = Database::new();
    let paths = stitch(&graph, &db, vec![d]);
    assert_eq!(paths.len(), 1);
    assert_eq!(paths[0].start_node, d);
    assert_eq!(paths[0].end_node, d);
    assert!(paths[0].edges.is_empty());
}

#[test]
fn shadowed_binding_keeps_higher_precedence_path() {
    let mut graph = StackGraph::new();
    let file = graph.get_or_create_file("a.py");
    let x = graph.add_symbol("x");
    let r = graph
        .add_push_symbol_node(NodeID::new_in_file(file, 0), x, true)
        .unwrap();
    let d1 = graph
        .add_pop_symbol_node(NodeID::new_in_file(file, 1), x, true)
        .unwrap();
    let d2 = graph
        .add_pop_symbol_node(NodeID::new_in_file(file, 2), x, true)
        .unwrap();
    graph.add_edge(r, d1, 1);
    graph.add_edge(r, d2, 0);
    graph.set_source_info(r, SourceInfo { span: span(9, 0, 9, 1) });
    graph.set_source_info(d1, SourceInfo { span: span(1, 0, 1, 1) });
    graph.set_source_info(d2, SourceInfo { span: span(5, 0, 5, 1) });

    let db = Database::new();
    // both complete paths are emitted; shadowing is applied by the caller
    let paths = stitch(&graph, &db, vec![r]);
    assert_eq!(paths.len(), 2);
    let survivors = stack_graphs::assertions::filter_unshadowed(&paths);
    assert_eq!(survivors.len(), 1);
    assert_eq!(survivors[0].end_node, d1);

    // expecting the precedence-1 target succeeds
    let source = AssertionSource { file, position: pos(9, 0) };
    let good = Assertion::Defined { source, targets: vec![AssertionTarget { file, line: 1 }] };
    assert!(good.run(&graph, &db, config(), &NoCancellation).is_ok());

    // expecting the precedence-0 target fails, naming what went wrong
    let bad = Assertion::Defined { source, targets: vec![AssertionTarget { file, line: 5 }] };
    match bad.run(&graph, &db, config(), &NoCancellation) {
        Err(AssertionError::IncorrectlyDefined { missing_targets, unexpected_paths, .. }) => {
            assert_eq!(missing_targets.len(), 1);
            assert_eq!(missing_targets[0].line, 5);
            assert_eq!(unexpected_paths.len(), 1);
            assert_eq!(unexpected_paths[0].end_node, d1);
        },
        other => panic!("expected an incorrectly-defined error, got {:?}", other.is_ok()),
    }
}

/// Cross-file member access: file a references `foo` on `A`; file b pops
/// `A` into an exported scope that defines `foo`.
fn cross_file_graph() -> (StackGraph, NodeHandle, NodeHandle) {
    let mut graph = StackGraph::new();
    let root = StackGraph::root_node();
    let fa = graph.get_or_create_file("a.py");
    let fb = graph.get_or_create_file("b.py");
    let foo = graph.add_symbol("foo");
    let a_sym = graph.add_symbol("A");

    // file a: [ref foo] -> [push A] -> root
    let r_foo = graph
        .add_push_symbol_node(NodeID::new_in_file(fa, 0), foo, true)
        .unwrap();
    let push_a = graph
        .add_push_symbol_node(NodeID::new_in_file(fa, 1), a_sym, false)
        .unwrap();
    graph.add_edge(r_foo, push_a, 0);
    graph.add_edge(push_a, root, 0);

    // file b: root -> [pop A] -> [exported scope] -> [def foo]
    let pop_a = graph
        .add_pop_symbol_node(NodeID::new_in_file(fb, 0), a_sym, false)
        .unwrap();
    let sa = graph.add_scope_node(NodeID::new_in_file(fb, 1), true).unwrap();
    let d_foo = graph
        .add_pop_symbol_node(NodeID::new_in_file(fb, 2), foo, true)
        .unwrap();
    graph.add_edge(root, pop_a, 0);
    graph.add_edge(pop_a, sa, 0);
    graph.add_edge(sa, d_foo, 0);
    (graph, r_foo, d_foo)
}

#[test]
fn cross_file_member_access_resolves_through_root() {
    let (mut graph, r_foo, d_foo) = cross_file_graph();
    let fb = graph.get_or_create_file("b.py");
    let fragments =
        ForwardPartialPathStitcher::find_all_partial_paths_in_file(&graph, fb, &NoCancellation)
            .unwrap();
    assert!(!fragments.is_empty());
    let mut db = Database::new();
    for p in fragments {
        db.add_partial_path(&graph, p);
    }
    let paths = stitch(&graph, &db, vec![r_foo]);
    assert_eq!(paths.len(), 1);
    assert_eq!(paths[0].start_node, r_foo);
    assert_eq!(paths[0].end_node, d_foo);
}

#[test]
fn stored_partial_paths_bind_postcondition_variables() {
    // every stack variable of a stored postcondition appears in the
    // matching precondition
    let (mut graph, _r, _d) = cross_file_graph();
    let fb = graph.get_or_create_file("b.py");
    let fragments =
        ForwardPartialPathStitcher::find_all_partial_paths_in_file(&graph, fb, &NoCancellation)
            .unwrap();
    assert!(!fragments.is_empty());
    for p in &fragments {
        if p.symbol_stack_postcondition.has_variable() {
            assert!(p.symbol_stack_precondition.has_variable());
        }
        if p.scope_stack_postcondition.has_variable() {
            assert!(p.scope_stack_precondition.has_variable());
        }
    }
}

#[test]
fn mutually_recursive_imports_terminate() {
    let mut graph = StackGraph::new();
    let root = StackGraph::root_node();
    let fa = graph.get_or_create_file("a.py");
    let fb = graph.get_or_create_file("b.py");
    let x = graph.add_symbol("x");
    let a_sym = graph.add_symbol("A");
    let b_sym = graph.add_symbol("B");

    // file a: [ref x] -> scope_a -> [push B] -> root (import of b),
    //         root -> [pop A] -> scope_a (a's exported surface)
    let r_x = graph
        .add_push_symbol_node(NodeID::new_in_file(fa, 0), x, true)
        .unwrap();
    let scope_a = graph.add_scope_node(NodeID::new_in_file(fa, 1), false).unwrap();
    let push_b = graph
        .add_push_symbol_node(NodeID::new_in_file(fa, 2), b_sym, false)
        .unwrap();
    let pop_a = graph
        .add_pop_symbol_node(NodeID::new_in_file(fa, 3), a_sym, false)
        .unwrap();
    graph.add_edge(r_x, scope_a, 0);
    graph.add_edge(scope_a, push_b, 0);
    graph.add_edge(push_b, root, 0);
    graph.add_edge(root, pop_a, 0);
    graph.add_edge(pop_a, scope_a, 0);

    // file b: root -> [pop B] -> scope_b -> [def x],
    //         scope_b -> [push A] -> root (import of a, closing the loop)
    let pop_b = graph
        .add_pop_symbol_node(NodeID::new_in_file(fb, 0), b_sym, false)
        .unwrap();
    let scope_b = graph.add_scope_node(NodeID::new_in_file(fb, 1), false).unwrap();
    let d_x = graph
        .add_pop_symbol_node(NodeID::new_in_file(fb, 2), x, true)
        .unwrap();
    let push_a = graph
        .add_push_symbol_node(NodeID::new_in_file(fb, 3), a_sym, false)
        .unwrap();
    graph.add_edge(root, pop_b, 0);
    graph.add_edge(pop_b, scope_b, 0);
    graph.add_edge(scope_b, d_x, 0);
    graph.add_edge(scope_b, push_a, 0);
    graph.add_edge(push_a, root, 0);

    let db = Database::new();
    // stitching over the whole graph terminates and finds the one
    // non-cyclic resolution
    let paths = stitch(&graph, &db, vec![r_x]);
    assert_eq!(paths.len(), 1);
    assert_eq!(paths[0].end_node, d_x);
}

#[test]
fn unavoidable_cycle_terminates_with_bounded_output() {
    let mut graph = StackGraph::new();
    let file = graph.get_or_create_file("a.py");
    let x = graph.add_symbol("x");
    let r = graph
        .add_push_symbol_node(NodeID::new_in_file(file, 0), x, true)
        .unwrap();
    let s1 = graph.add_scope_node(NodeID::new_in_file(file, 1), false).unwrap();
    let s2 = graph.add_scope_node(NodeID::new_in_file(file, 2), false).unwrap();
    let d = graph
        .add_pop_symbol_node(NodeID::new_in_file(file, 3), x, true)
        .unwrap();
    graph.add_edge(r, s1, 0);
    graph.add_edge(s1, s2, 0);
    graph.add_edge(s2, s1, 0);  // the cycle
    graph.add_edge(s2, d, 0);
    let db = Database::new();
    let paths = stitch(&graph, &db, vec![r]);
    assert_eq!(paths.len(), 1);
    assert_eq!(paths[0].end_node, d);
}

#[test]
fn stitching_is_deterministic_and_re_emits_the_same_paths() {
    let (mut graph, r_foo, _d_foo) = cross_file_graph();
    let fb = graph.get_or_create_file("b.py");
    let fragments =
        ForwardPartialPathStitcher::find_all_partial_paths_in_file(&graph, fb, &NoCancellation)
            .unwrap();
    let mut db = Database::new();
    for p in fragments {
        db.add_partial_path(&graph, p);
    }
    let first = stitch(&graph, &db, vec![r_foo]);
    let second = stitch(&graph, &db, vec![r_foo]);
    assert_eq!(first.len(), second.len());
    for (a, b) in first.iter().zip(second.iter()) {
        assert!(a.equals(b));
    }
}

#[test]
fn cancellation_on_first_check_aborts_with_no_paths() {
    let (graph, r, _d) = single_file_graph();
    let db = Database::new();
    let cancel = CancelAfterDuration::new(0);
    let result = ForwardPartialPathStitcher::find_all_complete_partial_paths(
        &graph,
        &db,
        &vec![r],
        config(),
        &cancel,
    );
    assert!(result.is_err());
}

#[test]
fn cancellation_during_assertion_surfaces_as_cancelled() {
    let (graph, _r, _d) = single_file_graph();
    let file = graph.nodes[2].id.file.unwrap();
    let db = Database::new();
    let cancel = CancelAfterDuration::new(0);
    let assertion = Assertion::Defined {
        source: AssertionSource { file, position: pos(3, 5) },
        targets: vec![AssertionTarget { file, line: 1 }],
    };
    match assertion.run(&graph, &db, config(), &cancel) {
        Err(AssertionError::Cancelled(_)) => {},
        other => panic!("expected cancellation, got ok={:?}", other.is_ok()),
    }
}

#[test]
fn composition_identity_leaves_a_path_unchanged() {
    let (graph, r, _d) = single_file_graph();
    let db = Database::new();
    let paths = stitch(&graph, &db, vec![r]);
    assert_eq!(paths.len(), 1);
    let p = &paths[0];
    // compose the identity partial path at p's start in front of p
    let mut composed = PartialPath::from_node(&graph, p.start_node);
    p.append_to(&graph, &mut composed).unwrap();
    assert!(composed.equals(p));
}

#[test]
fn scoped_symbols_carry_scopes_through_jump() {
    // a push-scoped symbol attaches an exported scope; popping it moves
    // the scope onto the scope stack, and the jump node teleports there
    let mut graph = StackGraph::new();
    let file = graph.get_or_create_file("a.py");
    let jump = StackGraph::jump_to_node();
    let m = graph.add_symbol("m");
    let x = graph.add_symbol("x");
    let exported = graph.add_scope_node(NodeID::new_in_file(file, 0), true).unwrap();
    let d = graph
        .add_pop_symbol_node(NodeID::new_in_file(file, 1), x, true)
        .unwrap();
    graph.add_edge(exported, d, 0);
    let r = graph
        .add_push_symbol_node(NodeID::new_in_file(file, 2), x, true)
        .unwrap();
    let push_scoped = graph
        .add_push_scoped_symbol_node(NodeID::new_in_file(file, 3), m, exported, false)
        .unwrap();
    let pop_scoped = graph
        .add_pop_scoped_symbol_node(NodeID::new_in_file(file, 4), m, false)
        .unwrap();
    graph.add_edge(r, push_scoped, 0);
    graph.add_edge(push_scoped, pop_scoped, 0);
    graph.add_edge(pop_scoped, jump, 0);

    let db = Database::new();
    let paths = stitch(&graph, &db, vec![r]);
    assert_eq!(paths.len(), 1);
    assert_eq!(paths[0].end_node, d);
}
