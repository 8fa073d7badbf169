use stack_graphs::assertions::Assertion;
use stack_graphs::assertions::AssertionError;
use stack_graphs::assertions::AssertionSource;
use stack_graphs::cycles::SimilarPathDetector;
use stack_graphs::graph::NodeID;
use stack_graphs::graph::Position;
use stack_graphs::graph::SourceInfo;
use stack_graphs::graph::Span;
use stack_graphs::graph::StackGraph;
use stack_graphs::partial::PartialPath;
use stack_graphs::paths::PathResolutionError;
use stack_graphs::stats::FrequencyDistribution;
use stack_graphs::stitching::Database;
use stack_graphs::stitching::StitcherConfig;
use stack_graphs::CancellationFlag;
use stack_graphs::NoCancellation;
use stack_graphs::graph::Edge;
use stack_graphs::cycles::Appendables;
use stack_graphs::cycles::AppendingCycleDetector;
use stack_graphs::stitching::Appendable;

fn pos(line: usize, col: usize) -> Position {
    Position { line, column_utf8: col, column_grapheme: col }
}

fn span(sl: usize, sc: usize, el: usize, ec: usize) -> Span {
    Span { start: pos(sl, sc), end: pos(el, ec) }
}

#[test]
fn frequency_distribution_counts_and_uniques() {
    let mut dist = FrequencyDistribution::new();
    dist.record(3);
    dist.record(5);
    dist.record(3);
    dist.record(7);
    dist.record(3);
    assert_eq!(dist.count(), 5);
    assert_eq!(dist.unique(), 3);
}

#[test]
fn frequencies_of_frequencies() {
    let mut dist = FrequencyDistribution::new();
    // one value once, two values twice, one value three times
    dist.record(1);
    dist.record(2);
    dist.record(2);
    dist.record(3);
    dist.record(3);
    dist.record(4);
    dist.record(4);
    dist.record(4);
    let fs = dist.frequencies();
    assert_eq!(fs.count(), 4);
    assert_eq!(fs.unique(), 3);
}

#[test]
fn quantiles_of_one_to_one_hundred() {
    let mut dist = FrequencyDistribution::new();
    for i in 1..=100 {
        dist.record(i);
    }
    let quartiles = dist.quantiles(4);
    assert_eq!(quartiles.len(), 5);
    assert_eq!(quartiles[0], 1);
    assert_eq!(quartiles[1], 25);
    assert_eq!(quartiles[2], 50);
    assert_eq!(quartiles[3], 75);
    assert_eq!(quartiles[4], 100);
}

#[test]
fn quantiles_respect_uneven_counts() {
    let mut dist = FrequencyDistribution::new();
    // 9 is recorded so often that every upper quantile lands on it
    dist.record(1);
    for _ in 0..9 {
        dist.record(9);
    }
    let q = dist.quantiles(2);
    // thresholds: round(10*1/2)=5 and round(10*2/2)=10, both inside 9's run
    assert_eq!(q, vec![1, 9, 9]);
    assert!(dist.quantiles(0).is_empty());
    assert!(FrequencyDistribution::new().quantiles(4).is_empty());
}

#[test]
fn distributions_merge_by_adding_counts() {
    let mut a = FrequencyDistribution::new();
    a.record(1);
    a.record(2);
    let mut b = FrequencyDistribution::new();
    b.record(2);
    b.record(3);
    a.add_assign(&b);
    assert_eq!(a.count(), 4);
    assert_eq!(a.unique(), 3);
    assert_eq!(b.count(), 2);
}

#[test]
fn similar_path_detector_rejects_equal_paths() {
    let mut graph = StackGraph::new();
    let file = graph.get_or_create_file("a.py");
    let x = graph.add_symbol("x");
    let r = graph
        .add_push_symbol_node(NodeID::new_in_file(file, 0), x, true)
        .unwrap();
    let p = PartialPath::initial(&graph, r).unwrap();
    let q = p.clone();
    let mut detector = SimilarPathDetector::new();
    assert!(!detector.add_path(&p));
    // an equal path is similar and must not be processed again
    assert!(detector.add_path(&q));
    assert_eq!(detector.max_bucket_size(), 1);
}

#[test]
fn similar_path_detector_evicts_shadowed_paths() {
    let mut graph = StackGraph::new();
    let file = graph.get_or_create_file("a.py");
    let s0 = graph.add_scope_node(NodeID::new_in_file(file, 0), false).unwrap();
    let s1 = graph.add_scope_node(NodeID::new_in_file(file, 1), false).unwrap();
    // two parallel edges cannot exist, so shadowing paths are built by hand
    let low = {
        let mut p = PartialPath::initial(&graph, s0).unwrap();
        p.append(
            &graph,
            stack_graphs::graph::Edge { source: s0, sink: s1, precedence: 0 },
        )
        .unwrap();
        p
    };
    let mut high = low.clone();
    high.edges[0].precedence = 5;
    assert!(high.shadows(&low));

    let mut detector = SimilarPathDetector::new();
    assert!(!detector.add_path(&low));
    // the better path evicts the shadowed one and is kept itself
    assert!(!detector.add_path(&high));
    // the worse path is rejected outright now
    assert!(detector.add_path(&low));
}

#[test]
fn defines_assertion_reports_unexpected_symbols() {
    // a position defining my_fn, x and y, asserted to define only my_fn
    let mut graph = StackGraph::new();
    let file = graph.get_or_create_file("a.py");
    let my_fn = graph.add_symbol("my_fn");
    let x = graph.add_symbol("x");
    let y = graph.add_symbol("y");
    let d0 = graph
        .add_pop_symbol_node(NodeID::new_in_file(file, 0), my_fn, true)
        .unwrap();
    let d1 = graph
        .add_pop_symbol_node(NodeID::new_in_file(file, 1), x, true)
        .unwrap();
    let d2 = graph
        .add_pop_symbol_node(NodeID::new_in_file(file, 2), y, true)
        .unwrap();
    graph.set_source_info(d0, SourceInfo { span: span(4, 0, 4, 20) });
    graph.set_source_info(d1, SourceInfo { span: span(4, 0, 4, 20) });
    graph.set_source_info(d2, SourceInfo { span: span(4, 0, 4, 20) });

    let db = Database::new();
    let assertion = Assertion::Defines {
        source: AssertionSource { file, position: pos(4, 3) },
        symbols: vec![my_fn],
    };
    match assertion.run(&graph, &db, StitcherConfig::default(), &NoCancellation) {
        Err(AssertionError::IncorrectDefinitions { missing_symbols, unexpected_symbols, .. }) => {
            assert!(missing_symbols.is_empty());
            assert_eq!(unexpected_symbols, vec![x, y]);
        },
        other => panic!("expected incorrect definitions, got ok={:?}", other.is_ok()),
    }

    let exact = Assertion::Defines {
        source: AssertionSource { file, position: pos(4, 3) },
        symbols: vec![my_fn, x, y],
    };
    assert!(exact.run(&graph, &db, StitcherConfig::default(), &NoCancellation).is_ok());
}

#[test]
fn refers_assertion_checks_reference_symbols() {
    let mut graph = StackGraph::new();
    let file = graph.get_or_create_file("a.py");
    let v = graph.add_symbol("my_variable");
    let w = graph.add_symbol("other");
    let r = graph
        .add_push_symbol_node(NodeID::new_in_file(file, 0), v, true)
        .unwrap();
    graph.set_source_info(r, SourceInfo { span: span(2, 6, 2, 17) });

    let db = Database::new();
    let good = Assertion::Refers {
        source: AssertionSource { file, position: pos(2, 8) },
        symbols: vec![v],
    };
    assert!(good.run(&graph, &db, StitcherConfig::default(), &NoCancellation).is_ok());

    let bad = Assertion::Refers {
        source: AssertionSource { file, position: pos(2, 8) },
        symbols: vec![w],
    };
    match bad.run(&graph, &db, StitcherConfig::default(), &NoCancellation) {
        Err(AssertionError::IncorrectReferences { missing_symbols, unexpected_symbols, .. }) => {
            assert_eq!(missing_symbols, vec![w]);
            assert_eq!(unexpected_symbols, vec![v]);
        },
        other => panic!("expected incorrect references, got ok={:?}", other.is_ok()),
    }
}

#[test]
fn defined_assertion_without_references_reports_none() {
    let mut graph = StackGraph::new();
    let file = graph.get_or_create_file("a.py");
    let db = Database::new();
    let assertion = Assertion::Defined {
        source: AssertionSource { file, position: pos(1, 0) },
        targets: vec![],
    };
    match assertion.run(&graph, &db, StitcherConfig::default(), &NoCancellation) {
        Err(AssertionError::NoReferences { .. }) => {},
        other => panic!("expected no-references, got ok={:?}", other.is_ok()),
    }
}

#[test]
fn no_cancellation_never_cancels() {
    assert!(NoCancellation.check("anywhere").is_ok());
}

#[test]
fn step_errors_reject_invalid_paths() {
    let mut graph = StackGraph::new();
    let file = graph.get_or_create_file("a.py");
    let x = graph.add_symbol("x");
    let y = graph.add_symbol("y");
    let s = graph.add_scope_node(NodeID::new_in_file(file, 0), false).unwrap();
    let hidden = graph.add_scope_node(NodeID::new_in_file(file, 1), false).unwrap();
    let pop_x = graph
        .add_pop_symbol_node(NodeID::new_in_file(file, 2), x, false)
        .unwrap();
    let push_y = graph
        .add_push_symbol_node(NodeID::new_in_file(file, 3), y, false)
        .unwrap();
    let push_scoped = graph
        .add_push_scoped_symbol_node(NodeID::new_in_file(file, 4), x, hidden, false)
        .unwrap();
    let pop_scoped_x = graph
        .add_pop_scoped_symbol_node(NodeID::new_in_file(file, 5), x, false)
        .unwrap();
    let jump = StackGraph::jump_to_node();

    // popping from an empty, closed symbol stack
    let mut p = PartialPath::initial(&graph, s).unwrap();
    p.eliminate_precondition_stack_variables();
    graph.add_edge(s, pop_x, 0);
    let err = p.clone().append(&graph, Edge { source: s, sink: pop_x, precedence: 0 });
    assert_eq!(err.unwrap_err(), PathResolutionError::EmptySymbolStack);

    // an edge that does not leave the path's end
    let err = p.clone().append(&graph, Edge { source: pop_x, sink: s, precedence: 0 });
    assert_eq!(err.unwrap_err(), PathResolutionError::IncorrectSourceNode);

    // popping a different symbol than the top of the stack
    graph.add_edge(s, push_y, 0);
    graph.add_edge(push_y, pop_x, 0);
    let mut q = p.clone();
    q.append(&graph, Edge { source: s, sink: push_y, precedence: 0 }).unwrap();
    let err = q.clone().append(&graph, Edge { source: push_y, sink: pop_x, precedence: 0 });
    assert_eq!(err.unwrap_err(), PathResolutionError::IncorrectPoppedSymbol);

    // a pop-scoped-symbol needs an attached scope list
    let push_x = graph
        .add_push_symbol_node(NodeID::new_in_file(file, 6), x, false)
        .unwrap();
    graph.add_edge(s, push_x, 0);
    graph.add_edge(push_x, pop_scoped_x, 0);
    let mut q2 = p.clone();
    q2.append(&graph, Edge { source: s, sink: push_x, precedence: 0 }).unwrap();
    let err = q2.clone().append(
        &graph,
        Edge { source: push_x, sink: pop_scoped_x, precedence: 0 },
    );
    assert_eq!(err.unwrap_err(), PathResolutionError::MissingAttachedScopeList);

    // a plain pop-symbol refuses a symbol that carries an attached scope
    let exported = graph.add_scope_node(NodeID::new_in_file(file, 7), true).unwrap();
    let push_scoped_ok = graph
        .add_push_scoped_symbol_node(NodeID::new_in_file(file, 8), x, exported, false)
        .unwrap();
    graph.add_edge(s, push_scoped_ok, 0);
    graph.add_edge(push_scoped_ok, pop_x, 0);
    let mut q3 = p.clone();
    q3.append(&graph, Edge { source: s, sink: push_scoped_ok, precedence: 0 }).unwrap();
    let err = q3.clone().append(&graph, Edge { source: push_scoped_ok, sink: pop_x, precedence: 0 });
    assert_eq!(err.unwrap_err(), PathResolutionError::UnexpectedAttachedScopeList);

    // a push-scoped symbol demands an exported scope
    graph.add_edge(s, push_scoped, 0);
    let err = p.clone().append(&graph, Edge { source: s, sink: push_scoped, precedence: 0 });
    assert_eq!(err.unwrap_err(), PathResolutionError::UnknownAttachedScope);

    // jumping with an empty scope stack
    graph.add_edge(s, jump, 0);
    let err = p.clone().append(&graph, Edge { source: s, sink: jump, precedence: 0 });
    assert_eq!(err.unwrap_err(), PathResolutionError::EmptyScopeStack);
}

#[test]
fn composition_errors_reject_unsatisfied_preconditions() {
    let mut graph = StackGraph::new();
    let file = graph.get_or_create_file("a.py");
    let x = graph.add_symbol("x");
    let s = graph.add_scope_node(NodeID::new_in_file(file, 0), false).unwrap();
    let pop_x = graph
        .add_pop_symbol_node(NodeID::new_in_file(file, 1), x, false)
        .unwrap();
    graph.add_edge(s, pop_x, 0);

    // a fragment that demands `x` from its caller
    let mut demanding = PartialPath::initial(&graph, s).unwrap();
    demanding.append(&graph, Edge { source: s, sink: pop_x, precedence: 0 }).unwrap();
    assert_eq!(demanding.symbol_stack_precondition.len(), 1);

    // a closed path offering an empty symbol stack cannot satisfy it
    let mut closed = PartialPath::initial(&graph, s).unwrap();
    closed.eliminate_precondition_stack_variables();
    let err = demanding.append_to(&graph, &mut closed);
    assert_eq!(err.unwrap_err(), PathResolutionError::SymbolStackUnsatisfied);
}

#[test]
fn symbol_stack_growth_is_one_push_per_step() {
    let mut graph = StackGraph::new();
    let file = graph.get_or_create_file("a.py");
    let x = graph.add_symbol("x");
    let s = graph.add_scope_node(NodeID::new_in_file(file, 0), false).unwrap();
    let push_x = graph
        .add_push_symbol_node(NodeID::new_in_file(file, 1), x, false)
        .unwrap();
    let t = graph.add_scope_node(NodeID::new_in_file(file, 2), false).unwrap();
    graph.add_edge(s, push_x, 0);
    graph.add_edge(push_x, t, 0);

    let mut p = PartialPath::initial(&graph, s).unwrap();
    assert_eq!(p.symbol_stack_postcondition.len(), 0);
    p.append(&graph, Edge { source: s, sink: push_x, precedence: 0 }).unwrap();
    assert_eq!(p.symbol_stack_postcondition.len(), 1);
    // a step onto a non-push node does not grow the symbol stack
    p.append(&graph, Edge { source: push_x, sink: t, precedence: 0 }).unwrap();
    assert_eq!(p.symbol_stack_postcondition.len(), 1);
}

#[test]
fn detector_statistics_count_similar_paths() {
    let mut graph = StackGraph::new();
    let file = graph.get_or_create_file("a.py");
    let x = graph.add_symbol("x");
    let r = graph
        .add_push_symbol_node(NodeID::new_in_file(file, 0), x, true)
        .unwrap();
    let p = PartialPath::initial(&graph, r).unwrap();
    let mut detector = SimilarPathDetector::new();
    detector.set_collect_stats(true);
    assert!(!detector.add_path(&p));
    assert!(detector.add_path(&p.clone()));
    assert!(detector.add_path(&p.clone()));
    let stats = detector.stats();
    // one bucket of one retained path, seen again twice
    assert_eq!(stats.similar_path_bucket_size.count(), 1);
    assert_eq!(stats.similar_path_count.count(), 1);
    assert_eq!(stats.similar_path_count.unique(), 1);
}

#[test]
fn composition_rejects_unconsumed_scope_stacks() {
    // a fragment that leaves a scope on the scope stack cannot be
    // followed by a fragment whose scope precondition is closed and empty
    let mut graph = StackGraph::new();
    let file = graph.get_or_create_file("a.py");
    let m = graph.add_symbol("m");
    let s = graph.add_scope_node(NodeID::new_in_file(file, 0), false).unwrap();
    let exported = graph.add_scope_node(NodeID::new_in_file(file, 1), true).unwrap();
    let push_scoped = graph
        .add_push_scoped_symbol_node(NodeID::new_in_file(file, 2), m, exported, false)
        .unwrap();
    let pop_scoped = graph
        .add_pop_scoped_symbol_node(NodeID::new_in_file(file, 3), m, false)
        .unwrap();
    graph.add_edge(s, push_scoped, 0);
    graph.add_edge(push_scoped, pop_scoped, 0);

    let mut carrying = PartialPath::initial(&graph, s).unwrap();
    carrying.append(&graph, Edge { source: s, sink: push_scoped, precedence: 0 }).unwrap();
    carrying.append(&graph, Edge { source: push_scoped, sink: pop_scoped, precedence: 0 }).unwrap();
    assert_eq!(carrying.scope_stack_postcondition.len(), 1);

    let mut closed = PartialPath::from_node(&graph, pop_scoped);
    closed.eliminate_precondition_stack_variables();
    let err = closed.append_to(&graph, &mut carrying);
    assert_eq!(err.unwrap_err(), PathResolutionError::ScopeStackUnsatisfied);
}

#[test]
fn appending_cycle_detector_classifies_loops() {
    let mut graph = StackGraph::new();
    let file = graph.get_or_create_file("a.py");
    let s1 = graph.add_scope_node(NodeID::new_in_file(file, 0), false).unwrap();
    let s2 = graph.add_scope_node(NodeID::new_in_file(file, 1), false).unwrap();
    let e12 = Edge { source: s1, sink: s2, precedence: 0 };
    let e21 = Edge { source: s2, sink: s1, precedence: 0 };
    graph.add_edge(s1, s2, 0);
    graph.add_edge(s2, s1, 0);
    let db = Database::new();

    let mut appendables = Appendables::new();
    let seed = PartialPath::initial(&graph, s1).unwrap();
    let mut detector = AppendingCycleDetector::from(&mut appendables, seed);

    // an acyclic history closes no cycle
    detector.append(Appendable::Edge(e12));
    let cycles = detector.is_cyclic(&graph, &db, &appendables).unwrap();
    assert!(cycles.is_empty());

    // returning to the start closes a cycle with no stack effect: free
    detector.append(Appendable::Edge(e21));
    let cycles = detector.is_cyclic(&graph, &db, &appendables).unwrap();
    assert!(!cycles.is_empty());
    assert!(cycles.contains(stack_graphs::partial::Cyclicity::Free));
    assert!(!cycles.contains(stack_graphs::partial::Cyclicity::StrengthensPostcondition));
}

#[test]
fn add_path_verdict_matches_prior_retention() {
    let mut graph = StackGraph::new();
    let file = graph.get_or_create_file("a.py");
    let s0 = graph.add_scope_node(NodeID::new_in_file(file, 0), false).unwrap();
    let p = PartialPath::initial(&graph, s0).unwrap();
    let mut detector = SimilarPathDetector::new();
    // a fresh detector retains nothing, so the first add stores
    assert!(!detector.add_path(&p));
    // nothing outside the path's bucket is touched
    assert_eq!(detector.buckets.len(), 1);
    assert_eq!(detector.buckets[0].1.len(), 1);
}
