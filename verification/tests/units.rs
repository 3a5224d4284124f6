use unsafe_path_finder::analyzer::should_analyze_source;
use unsafe_path_finder::analyzer::usize_to_string;
use unsafe_path_finder::ast::Expr;
use unsafe_path_finder::ast::FnArg;
use unsafe_path_finder::ast::FnItem;
use unsafe_path_finder::ast::FnSig;
use unsafe_path_finder::ast::ImplBlock;
use unsafe_path_finder::ast::Item;
use unsafe_path_finder::ast::PathType;
use unsafe_path_finder::ast::SelfType;
use unsafe_path_finder::ast::SourceFile;
use unsafe_path_finder::ast::TypeExpr;
use unsafe_path_finder::ast::TypeItem;
use unsafe_path_finder::ast::UseTree;
use unsafe_path_finder::ast::Visibility;
use unsafe_path_finder::call_visitor::CallVisitor;
use unsafe_path_finder::format::enhanced_format_source_code;
use unsafe_path_finder::format::ensure_complete_function;
use unsafe_path_finder::format::extract_from_mod;
use unsafe_path_finder::function_visitor::FunctionVisitor;
use unsafe_path_finder::models::TypeDefinition;
use unsafe_path_finder::models::UnsafeOperationType;
use unsafe_path_finder::models::VisibilityKind;
use unsafe_path_finder::text::str_contains;
use unsafe_path_finder::text::str_eq;
use unsafe_path_finder::text::str_starts_with;

fn strip_ws(s: &str) -> String {
    s.chars().filter(|c| !c.is_whitespace()).collect()
}

#[test]
fn kind_labels() {
    assert_eq!(
        UnsafeOperationType::RawPointerDereference.to_string(),
        "raw pointer dereference"
    );
    assert_eq!(
        UnsafeOperationType::Other("odd".to_string()).to_string(),
        "other unsafe operation: odd"
    );
}

#[test]
fn visibility_labels_and_check() {
    assert_eq!(VisibilityKind::Public.to_string(), "pub ");
    assert_eq!(VisibilityKind::Crate.to_string(), "pub(crate) ");
    assert_eq!(VisibilityKind::Module.to_string(), "");
    assert_eq!(VisibilityKind::Restricted.to_string(), "pub(restricted) ");
    assert!(VisibilityKind::Public.is_public());
    assert!(!VisibilityKind::Crate.is_public());
}

#[test]
fn contains_impl_checks_every_entry() {
    let td = TypeDefinition {
        name: "Widget".to_string(),
        module: String::new(),
        visibility: VisibilityKind::Public,
        source_code: "pub struct Widget;".to_string(),
        file_path: "w.rs".to_string(),
        constructors: vec!["one".to_string(), "two".to_string()],
    };
    assert!(td.contains_impl(&vec![]));
    assert!(td.contains_impl(&vec!["two".to_string()]));
    assert!(td.contains_impl(&vec!["one".to_string(), "two".to_string()]));
    assert!(!td.contains_impl(&vec!["three".to_string()]));
}

#[test]
fn text_helpers() {
    assert!(str_eq("abc", "abc"));
    assert!(!str_eq("abc", "abd"));
    assert!(str_contains("std::mem::transmute", "transmute"));
    assert!(!str_contains("read", "ready"));
    assert!(str_contains("anything", ""));
    assert!(str_starts_with("pub fn a", "pub"));
    assert!(!str_starts_with("fn a", "pub"));
}

#[test]
fn textual_gate() {
    assert!(should_analyze_source(
        &"pub fn a() { unsafe {} }".to_string()
    ));
    assert!(!should_analyze_source(&"pub fn a() {}".to_string()));
    assert!(!should_analyze_source(&"unsafe fn a() {}".to_string()));
}

#[test]
fn decimal_spelling() {
    assert_eq!(usize_to_string(0), "0");
    assert_eq!(usize_to_string(7), "7");
    assert_eq!(usize_to_string(12034), "12034");
}

#[test]
fn completion_appends_missing_braces() {
    assert_eq!(
        ensure_complete_function(&"fn a() { if x {".to_string()),
        "fn a() { if x {\n}\n}"
    );
    assert_eq!(ensure_complete_function(&"fn a() {}".to_string()), "fn a() {}");
}

#[test]
fn short_well_formatted_text_comes_back_unchanged() {
    let src = "fn a() {\n    let x = 1;\n}".to_string();
    assert_eq!(enhanced_format_source_code(&src), src);
}

#[test]
fn reindenting_keeps_the_token_stream() {
    let mut src = String::new();
    for i in 0..6 {
        src.push_str(&format!("fn f{}() {{\nlet x = {};\nif x > 0 {{\nx;\n}}\n}}\n", i, i));
    }
    let out = enhanced_format_source_code(&src);
    assert_eq!(strip_ws(&out), strip_ws(&src));
}

#[test]
fn long_single_line_is_broken_but_token_equivalent() {
    let src = "fn a() { let x = 1; let y = 2; if x < y { x = y; } else { y = x; } x; y; }"
        .to_string();
    assert!(src.len() <= 100);
    let mut long = src.clone();
    long.push_str(" fn b() { let z = 3; z; } fn c() { let w = 4; w; }");
    assert!(long.len() > 100);
    let out = enhanced_format_source_code(&long);
    assert_eq!(strip_ws(&out), strip_ws(&long));
    assert!(out.contains('\n'));
}

#[test]
fn mod_body_extraction() {
    let text = "mod dummy {\nfn a() {\n}\n}\n".to_string();
    let out = extract_from_mod(&text);
    assert_eq!(strip_ws(&out), "fna(){}");
}

#[test]
fn visitor_flags_unsafe_bodies_and_declarations() {
    let mut v = FunctionVisitor::new("input.rs".to_string(), String::new());
    let file = SourceFile {
        items: vec![
            Item::Function(FnItem {
                vis: Visibility::Public,
                sig: FnSig {
                    name: "safe_one".to_string(),
                    is_unsafe: false,
                    inputs: vec![],
                    output: None,
                },
                body: vec![Expr::Leaf],
                text: "fn safe_one()".to_string(),
            }),
            Item::Function(FnItem {
                vis: Visibility::Inherited,
                sig: FnSig {
                    name: "inner".to_string(),
                    is_unsafe: false,
                    inputs: vec![],
                    output: None,
                },
                body: vec![Expr::Group(vec![Expr::Unsafe(vec![])])],
                text: "fn inner()".to_string(),
            }),
            Item::Function(FnItem {
                vis: Visibility::Public,
                sig: FnSig {
                    name: "declared".to_string(),
                    is_unsafe: true,
                    inputs: vec![],
                    output: None,
                },
                body: vec![],
                text: "unsafe fn declared()".to_string(),
            }),
        ],
    };
    v.visit_file(&file);
    assert_eq!(v.functions.len(), 3);
    assert!(!v.unsafe_functions.contains(&"safe_one".to_string()));
    assert!(v.unsafe_functions.contains(&"inner".to_string()));
    assert!(v.unsafe_functions.contains(&"declared".to_string()));
    let inner = v
        .functions
        .iter()
        .find(|e| e.path == "inner")
        .expect("inner recorded");
    assert!(inner.info.has_internal_unsafe);
    assert!(!inner.info.is_unsafe_fn);
}

#[test]
fn visitor_records_operations_and_module_paths() {
    let mut v = FunctionVisitor::new("input.rs".to_string(), String::new());
    let call = Expr::Call {
        callee: Box::new(Expr::Path {
            segments: vec![
                "std".to_string(),
                "ptr".to_string(),
                "copy".to_string(),
            ],
            leading_colon: false,
            text: "std::ptr::copy".to_string(),
        }),
        args: vec![],
        text: "std::ptr::copy(src, dst, 4)".to_string(),
    };
    let file = SourceFile {
        items: vec![Item::Module {
            name: "inner".to_string(),
            items: vec![Item::Function(FnItem {
                vis: Visibility::Public,
                sig: FnSig {
                    name: "copies".to_string(),
                    is_unsafe: false,
                    inputs: vec![],
                    output: None,
                },
                body: vec![Expr::Unsafe(vec![call])],
                text: "fn copies()".to_string(),
            })],
        }],
    };
    v.visit_file(&file);
    let e = v
        .functions
        .iter()
        .find(|e| e.path == "inner::copies")
        .expect("function recorded under its module path");
    assert!(e.info.has_internal_unsafe);
    assert!(!e.info.unsafe_operations.is_empty());
    assert_eq!(
        e.info.unsafe_operations[0].code_snippet,
        "std::ptr::copy(src, dst, 4)"
    );
}

#[test]
fn visitor_gathers_custom_types_and_constructors() {
    let mut v = FunctionVisitor::new("input.rs".to_string(), String::new());
    let widget_path = TypeExpr::Path(PathType {
        segments: vec!["Widget".to_string()],
        args: vec![],
    });
    let file = SourceFile {
        items: vec![
            Item::TypeDef(TypeItem {
                name: "Widget".to_string(),
                vis: Visibility::Public,
                text: "pub struct Widget;".to_string(),
            }),
            Item::Impl(ImplBlock {
                self_type: SelfType::Named(vec!["Widget".to_string()]),
                trait_name: None,
                methods: vec![FnItem {
                    vis: Visibility::Public,
                    sig: FnSig {
                        name: "new".to_string(),
                        is_unsafe: false,
                        inputs: vec![],
                        output: Some(widget_path),
                    },
                    body: vec![],
                    text: "pub fn new() -> Widget".to_string(),
                }],
                text: "impl Widget".to_string(),
            }),
        ],
    };
    v.visit_file(&file);
    let td = v
        .type_definitions
        .iter()
        .find(|t| t.path == "Widget")
        .expect("type recorded");
    assert_eq!(td.def.constructors.len(), 1);
    assert!(td.def.constructors[0].contains("pub fn new() -> Widget"));
    let new_fn = v
        .functions
        .iter()
        .find(|e| e.path == "new")
        .expect("method recorded");
    assert!(new_fn
        .info
        .return_custom_types
        .contains(&"Widget".to_string()));
}

#[test]
fn unsafe_constructors_are_never_collected() {
    let mut v = FunctionVisitor::new("input.rs".to_string(), String::new());
    let file = SourceFile {
        items: vec![
            Item::TypeDef(TypeItem {
                name: "Widget".to_string(),
                vis: Visibility::Public,
                text: "pub struct Widget;".to_string(),
            }),
            Item::Impl(ImplBlock {
                self_type: SelfType::Named(vec!["Widget".to_string()]),
                trait_name: None,
                methods: vec![FnItem {
                    vis: Visibility::Public,
                    sig: FnSig {
                        name: "forge".to_string(),
                        is_unsafe: true,
                        inputs: vec![],
                        output: Some(TypeExpr::Path(PathType {
                            segments: vec!["Self".to_string()],
                            args: vec![],
                        })),
                    },
                    body: vec![],
                    text: "pub unsafe fn forge() -> Self".to_string(),
                }],
                text: "impl Widget".to_string(),
            }),
        ],
    };
    v.visit_file(&file);
    let td = v
        .type_definitions
        .iter()
        .find(|t| t.path == "Widget")
        .expect("type recorded");
    assert!(td.def.constructors.is_empty());
}

#[test]
fn detector_tables() {
    let v = FunctionVisitor::new("input.rs".to_string(), String::new());
    assert!(v.is_known_unsafe_function(&"std::mem::transmute".to_string()));
    assert!(!v.is_known_unsafe_function(&"std::mem::swap".to_string()));
    assert!(v.has_unsafe_keywords("get_unchecked"));
    assert!(v.has_unsafe_keywords("set_len"));
    assert!(!v.has_unsafe_keywords("get"));
    assert!(v.is_known_unsafe_full_path(&vec![
        "core".to_string(),
        "ptr".to_string(),
        "read".to_string()
    ]));
    assert!(v.is_known_unsafe_full_path(&vec!["transmute".to_string()]));
    assert!(!v.is_known_unsafe_full_path(&vec![
        "my".to_string(),
        "queue".to_string(),
        "read".to_string()
    ]));
    assert!(v.is_primitive_type(&vec!["u32".to_string()]));
    assert!(!v.is_primitive_type(&vec!["Widget".to_string()]));
    assert!(!v.is_primitive_type(&vec!["std".to_string(), "u32".to_string()]));
    match v.is_common_unsafe_operation(&"ptr.offset".to_string()) {
        Some(UnsafeOperationType::RawPointerDereference) => {}
        other => panic!("unexpected classification: {:?}", other),
    }
    match v.is_common_unsafe_operation(&"mem::transmute".to_string()) {
        Some(UnsafeOperationType::Other(d)) => assert_eq!(d, "memory transmute"),
        other => panic!("unexpected classification: {:?}", other),
    }
    assert!(v.is_common_unsafe_operation(&"plain_helper".to_string()).is_none());
}

#[test]
fn call_edges_resolve_imports_and_modules() {
    let mut v = CallVisitor::new();
    let file = SourceFile {
        items: vec![
            Item::Use(UseTree::Path {
                ident: "helpers".to_string(),
                tree: Box::new(UseTree::Name {
                    ident: "boost".to_string(),
                }),
            }),
            Item::Module {
                name: "work".to_string(),
                items: vec![Item::Function(FnItem {
                    vis: Visibility::Public,
                    sig: FnSig {
                        name: "run".to_string(),
                        is_unsafe: false,
                        inputs: vec![],
                        output: None,
                    },
                    body: vec![
                        Expr::Call {
                            callee: Box::new(Expr::Path {
                                segments: vec!["boost".to_string()],
                                leading_colon: false,
                                text: "boost".to_string(),
                            }),
                            args: vec![],
                            text: "boost()".to_string(),
                        },
                        Expr::Call {
                            callee: Box::new(Expr::Path {
                                segments: vec!["local".to_string()],
                                leading_colon: false,
                                text: "local".to_string(),
                            }),
                            args: vec![],
                            text: "local()".to_string(),
                        },
                        Expr::MethodCall {
                            receiver: Box::new(Expr::Leaf),
                            method: "push_back".to_string(),
                            args: vec![],
                            text: "q.push_back(x)".to_string(),
                        },
                    ],
                    text: "fn run()".to_string(),
                })],
            },
        ],
    };
    v.visit_file(&file);
    let edges: Vec<(String, String)> = v
        .calls
        .iter()
        .map(|c| (c.caller.clone(), c.callee.clone()))
        .collect();
    assert!(edges.contains(&("work::run".to_string(), "helpers::boost".to_string())));
    assert!(edges.contains(&("work::run".to_string(), "work::local".to_string())));
    assert!(edges.contains(&("work::run".to_string(), "work::push_back".to_string())));
}

#[test]
fn import_rename_wins_over_plain_name() {
    let mut v = CallVisitor::new();
    v.process_use(
        &UseTree::Path {
            ident: "outer".to_string(),
            tree: Box::new(UseTree::Rename {
                ident: "long_name".to_string(),
                alias: "short".to_string(),
            }),
        },
        &String::new(),
    );
    let resolved = v.resolve_path(&vec!["short".to_string(), "go".to_string()], false);
    assert_eq!(resolved, "outer::long_name::go");
    let unresolved = v.resolve_path(&vec!["crate".to_string(), "go".to_string()], false);
    assert_eq!(unresolved, "crate::go");
}

#[test]
fn impl_methods_carry_their_owning_type() {
    let mut v = FunctionVisitor::new("input.rs".to_string(), String::new());
    let file = SourceFile {
        items: vec![Item::Impl(ImplBlock {
            self_type: SelfType::Named(vec!["Widget".to_string()]),
            trait_name: None,
            methods: vec![FnItem {
                vis: Visibility::Public,
                sig: FnSig {
                    name: "poke".to_string(),
                    is_unsafe: false,
                    inputs: vec![FnArg::Receiver],
                    output: None,
                },
                body: vec![],
                text: "pub fn poke(&self)".to_string(),
            }],
            text: "impl Widget".to_string(),
        })],
    };
    v.visit_file(&file);
    let m = v
        .functions
        .iter()
        .find(|e| e.path == "poke")
        .expect("method recorded");
    assert!(m.info.has_self_param);
    assert_eq!(m.info.owner_type, Some("Widget".to_string()));
    assert!(m.info.param_custom_types.contains(&"Widget".to_string()));
}

#[test]
fn repeated_parameter_types_are_collected_once() {
    let v = FunctionVisitor::new("input.rs".to_string(), String::new());
    let widget = |_i: usize| TypeExpr::Path(PathType {
        segments: vec!["Widget".to_string()],
        args: vec![],
    });
    let sig = FnSig {
        name: "pair".to_string(),
        is_unsafe: false,
        inputs: vec![
            FnArg::Typed {
                name: Some("a".to_string()),
                ty: widget(0),
            },
            FnArg::Typed {
                name: Some("b".to_string()),
                ty: widget(1),
            },
        ],
        output: None,
    };
    let (params, rets) = v.analyze_function_signature(&sig);
    assert_eq!(params, vec!["Widget".to_string()]);
    assert!(rets.is_empty());
}

#[test]
fn mod_body_extraction_keeps_nested_braces() {
    let text = "mod dummy {\nfn a() {\nif x {\n}\n}\n}\ntrailing\n".to_string();
    let out = extract_from_mod(&text);
    assert_eq!(strip_ws(&out), "fna(){ifx{}}");
    assert!(!out.contains("trailing"));
}

#[test]
fn resolution_keeps_absolute_prefixes_and_grounds_bare_crate() {
    let mut v = CallVisitor::new();
    v.current_module = vec!["work".to_string()];
    v.process_use(
        &UseTree::Path {
            ident: "outer".to_string(),
            tree: Box::new(UseTree::Name {
                ident: "helper".to_string(),
            }),
        },
        &String::new(),
    );
    // An absolute path keeps its prefix even through import substitution.
    assert_eq!(
        v.resolve_path(&vec!["helper".to_string(), "go".to_string()], true),
        "::outer::helper::go"
    );
    // A lone `crate` segment is a relative name; `crate::` paths are not.
    assert_eq!(v.resolve_path(&vec!["crate".to_string()], false), "work::crate");
    assert_eq!(
        v.resolve_path(&vec!["crate".to_string(), "go".to_string()], false),
        "crate::go"
    );
}

#[test]
fn default_impl_text_is_collected_whole() {
    let mut v = FunctionVisitor::new("input.rs".to_string(), String::new());
    let file = SourceFile {
        items: vec![
            Item::TypeDef(TypeItem {
                name: "Widget".to_string(),
                vis: Visibility::Public,
                text: "pub struct Widget;".to_string(),
            }),
            Item::Impl(ImplBlock {
                self_type: SelfType::Named(vec!["Widget".to_string()]),
                trait_name: Some("Default".to_string()),
                methods: vec![FnItem {
                    vis: Visibility::Inherited,
                    sig: FnSig {
                        name: "default".to_string(),
                        is_unsafe: false,
                        inputs: vec![],
                        output: Some(TypeExpr::Path(PathType {
                            segments: vec!["Self".to_string()],
                            args: vec![],
                        })),
                    },
                    body: vec![],
                    text: "fn default() -> Self".to_string(),
                }],
                text: "impl Default for Widget".to_string(),
            }),
        ],
    };
    v.visit_file(&file);
    let td = v
        .type_definitions
        .iter()
        .find(|t| t.path == "Widget")
        .expect("type recorded");
    assert_eq!(td.def.constructors, vec!["impl Default for Widget".to_string()]);
}
