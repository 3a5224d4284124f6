use unsafe_path_finder::analyzer::analyze_parsed;
use unsafe_path_finder::ast::Expr;
use unsafe_path_finder::ast::FnArg;
use unsafe_path_finder::ast::FnItem;
use unsafe_path_finder::ast::FnSig;
use unsafe_path_finder::ast::Item;
use unsafe_path_finder::ast::SourceFile;
use unsafe_path_finder::ast::Visibility;
use unsafe_path_finder::call_graph::CallGraph;
use unsafe_path_finder::models::FunctionInfo;
use unsafe_path_finder::models::VisibilityKind;

fn call_expr(target: &str) -> Expr {
    Expr::Call {
        callee: Box::new(Expr::Path {
            segments: vec![target.to_string()],
            leading_colon: false,
            text: target.to_string(),
        }),
        args: vec![],
        text: format!("{}()", target),
    }
}

fn fn_item(name: &str, vis: Visibility, is_unsafe: bool, body: Vec<Expr>) -> Item {
    Item::Function(FnItem {
        vis,
        sig: FnSig {
            name: name.to_string(),
            is_unsafe,
            inputs: Vec::<FnArg>::new(),
            output: None,
        },
        body,
        text: format!("fn {}()", name),
    })
}

fn analyze(items: Vec<Item>) -> Option<unsafe_path_finder::models::FileAnalysisResult> {
    analyze_parsed(
        &"input.rs".to_string(),
        &String::new(),
        &SourceFile { items },
        20,
    )
}

fn route(path: &Vec<unsafe_path_finder::models::PathNodeInfo>) -> Vec<String> {
    path.iter().map(|n| n.full_path.clone()).collect()
}

#[test]
fn one_private_hop_to_unsafe() {
    let res = analyze(vec![
        fn_item("a", Visibility::Public, false, vec![call_expr("b")]),
        fn_item("b", Visibility::Inherited, false, vec![Expr::Unsafe(vec![])]),
    ])
    .expect("one path expected");
    assert_eq!(res.paths.len(), 1);
    assert_eq!(route(&res.paths[0]), vec!["a".to_string(), "b".to_string()]);
    assert_eq!(res.paths[0][0].visibility, VisibilityKind::Public);
    assert_eq!(res.paths[0][1].visibility, VisibilityKind::Module);
}

#[test]
fn two_private_hops_to_unsafe() {
    let res = analyze(vec![
        fn_item("a", Visibility::Public, false, vec![call_expr("b")]),
        fn_item("b", Visibility::Inherited, false, vec![call_expr("c")]),
        fn_item("c", Visibility::Inherited, false, vec![Expr::Unsafe(vec![])]),
    ])
    .expect("one path expected");
    assert_eq!(res.paths.len(), 1);
    assert_eq!(
        route(&res.paths[0]),
        vec!["a".to_string(), "b".to_string(), "c".to_string()]
    );
}

#[test]
fn public_sink_reported_once_as_degenerate() {
    let res = analyze(vec![
        fn_item("a", Visibility::Public, false, vec![call_expr("b")]),
        fn_item("b", Visibility::Public, false, vec![Expr::Unsafe(vec![])]),
    ])
    .expect("one degenerate path expected");
    assert_eq!(res.paths.len(), 1);
    assert_eq!(route(&res.paths[0]), vec!["b".to_string()]);
}

#[test]
fn declared_unsafe_public_function_is_not_reported() {
    let res = analyze(vec![fn_item(
        "f",
        Visibility::Public,
        true,
        vec![Expr::Unsafe(vec![])],
    )]);
    assert!(res.is_none());
}

#[test]
fn cycle_without_unsafe_terminates_with_no_path() {
    let res = analyze(vec![
        fn_item("a", Visibility::Public, false, vec![call_expr("b")]),
        fn_item("b", Visibility::Inherited, false, vec![call_expr("a")]),
    ]);
    assert!(res.is_none());
}

#[test]
fn cycle_beside_a_real_path_is_still_found() {
    let res = analyze(vec![
        fn_item(
            "a",
            Visibility::Public,
            false,
            vec![call_expr("b")],
        ),
        fn_item(
            "b",
            Visibility::Inherited,
            false,
            vec![call_expr("a"), call_expr("c")],
        ),
        fn_item("c", Visibility::Inherited, false, vec![Expr::Unsafe(vec![])]),
    ])
    .expect("one path expected");
    assert_eq!(res.paths.len(), 1);
    assert_eq!(
        route(&res.paths[0]),
        vec!["a".to_string(), "b".to_string(), "c".to_string()]
    );
}

#[test]
fn unsafe_intermediate_blocks_the_longer_path() {
    // b is itself a sink, so a -> b is reported and a -> b -> c is not:
    // the search stops at the first sink on the branch.
    let res = analyze(vec![
        fn_item("a", Visibility::Public, false, vec![call_expr("b")]),
        fn_item(
            "b",
            Visibility::Inherited,
            false,
            vec![Expr::Unsafe(vec![]), call_expr("c")],
        ),
        fn_item("c", Visibility::Inherited, false, vec![Expr::Unsafe(vec![])]),
    ])
    .expect("paths expected");
    let routes: Vec<Vec<String>> = res.paths.iter().map(route).collect();
    assert!(routes.contains(&vec!["a".to_string(), "b".to_string()]));
    assert!(!routes.contains(&vec!["a".to_string(), "b".to_string(), "c".to_string()]));
}

#[test]
fn identical_runs_report_the_same_paths() {
    let build = || {
        vec![
            fn_item("a", Visibility::Public, false, vec![call_expr("b")]),
            fn_item("b", Visibility::Inherited, false, vec![call_expr("c")]),
            fn_item("c", Visibility::Inherited, false, vec![Expr::Unsafe(vec![])]),
            fn_item("d", Visibility::Public, false, vec![Expr::Unsafe(vec![])]),
        ]
    };
    let r1 = analyze(build()).expect("paths expected");
    let r2 = analyze(build()).expect("paths expected");
    let routes1: Vec<Vec<String>> = r1.paths.iter().map(route).collect();
    let routes2: Vec<Vec<String>> = r2.paths.iter().map(route).collect();
    assert_eq!(routes1, routes2);
}

fn plain_info(name: &str, vis: VisibilityKind, internal: bool, declared: bool) -> FunctionInfo {
    FunctionInfo {
        name: name.to_string(),
        module: String::new(),
        visibility: vis,
        has_internal_unsafe: internal,
        is_unsafe_fn: declared,
        file_path: "input.rs".to_string(),
        source_code: format!("fn {}()", name),
        param_custom_types: vec![],
        return_custom_types: vec![],
        has_self_param: false,
        owner_type: None,
        unsafe_operations: vec![],
    }
}

#[test]
fn graph_classifies_functions_into_the_right_sets() {
    let mut g = CallGraph::new(20);
    g.add_function(
        "a".to_string(),
        plain_info("a", VisibilityKind::Public, false, false),
    );
    g.add_function(
        "b".to_string(),
        plain_info("b", VisibilityKind::Module, true, false),
    );
    g.add_function(
        "c".to_string(),
        plain_info("c", VisibilityKind::Public, true, false),
    );
    g.add_function(
        "d".to_string(),
        plain_info("d", VisibilityKind::Public, false, true),
    );
    assert_eq!(g.public_functions.len(), 3);
    assert!(g.unsafe_functions.contains(&"b".to_string()));
    assert!(g.unsafe_functions.contains(&"c".to_string()));
    assert!(g.unsafe_functions.contains(&"d".to_string()));
    assert!(!g.unsafe_functions.contains(&"a".to_string()));
    assert!(g.public_unsafe_functions.contains(&"c".to_string()));
    assert!(g.public_non_unsafe_functions.contains(&"a".to_string()));
    assert!(g.public_non_unsafe_functions.contains(&"c".to_string()));
    assert!(!g.public_non_unsafe_functions.contains(&"d".to_string()));
}

#[test]
fn valid_and_minimal_path_checks() {
    let mut g = CallGraph::new(20);
    g.add_function(
        "a".to_string(),
        plain_info("a", VisibilityKind::Public, false, false),
    );
    g.add_function(
        "b".to_string(),
        plain_info("b", VisibilityKind::Module, false, false),
    );
    g.add_function(
        "c".to_string(),
        plain_info("c", VisibilityKind::Module, true, false),
    );
    g.add_function(
        "p".to_string(),
        plain_info("p", VisibilityKind::Public, false, false),
    );
    let abc = vec!["a".to_string(), "b".to_string(), "c".to_string()];
    assert!(g.is_valid_path(&abc));
    assert!(g.is_minimal_path(&abc));
    let apc = vec!["a".to_string(), "p".to_string(), "c".to_string()];
    assert!(!g.is_minimal_path(&apc));
    let ab = vec!["a".to_string(), "b".to_string()];
    assert!(!g.is_valid_path(&ab));
    let empty: Vec<String> = vec![];
    assert!(!g.is_valid_path(&empty));
}

#[test]
fn duplicate_call_sites_collapse_into_one_edge() {
    let mut g = CallGraph::new(20);
    g.add_call("a".to_string(), "b".to_string());
    g.add_call("a".to_string(), "b".to_string());
    g.add_call("a".to_string(), "c".to_string());
    assert_eq!(g.calls.len(), 2);
    let callees = g.get_callees(&"a".to_string());
    assert_eq!(callees, vec!["b".to_string(), "c".to_string()]);
}

#[test]
fn reachable_targets_follow_call_chains() {
    let mut g = CallGraph::new(20);
    g.add_call("a".to_string(), "b".to_string());
    g.add_call("b".to_string(), "c".to_string());
    g.add_call("x".to_string(), "y".to_string());
    let targets = vec!["c".to_string(), "y".to_string()];
    let reach = g.precompute_reachable_targets(&"a".to_string(), &targets);
    assert!(reach.contains(&"c".to_string()));
    assert!(!reach.contains(&"y".to_string()));
}

#[test]
fn conversion_snapshots_known_and_unknown_functions() {
    let mut g = CallGraph::new(20);
    g.add_function(
        "a".to_string(),
        plain_info("a", VisibilityKind::Public, false, false),
    );
    let nodes = g.convert_path_to_node_info(vec!["a".to_string(), "ghostly".to_string()]);
    assert_eq!(nodes.len(), 2);
    assert_eq!(nodes[0].full_path, "a");
    assert_eq!(nodes[0].visibility, VisibilityKind::Public);
    assert_eq!(nodes[0].source_code, "fn a()");
    assert_eq!(nodes[1].full_path, "ghostly");
    assert_eq!(nodes[1].visibility, VisibilityKind::Module);
    assert_eq!(nodes[1].source_code, "");
    assert!(nodes[1].owner_type.is_none());
}

#[test]
fn public_intermediate_suppresses_the_longer_path() {
    // a -> b -> c with b public: only b -> c is minimal, so the chain
    // through the public intermediate is never reported.
    let res = analyze(vec![
        fn_item("a", Visibility::Public, false, vec![call_expr("b")]),
        fn_item("b", Visibility::Public, false, vec![call_expr("c")]),
        fn_item("c", Visibility::Inherited, false, vec![Expr::Unsafe(vec![])]),
    ])
    .expect("one path expected");
    let routes: Vec<Vec<String>> = res.paths.iter().map(route).collect();
    assert_eq!(routes, vec![vec!["b".to_string(), "c".to_string()]]);
}
