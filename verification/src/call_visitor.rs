use vstd::prelude::*;
use vstd::string::StrSliceExecFns;
use vstd::string::StringExecFns;

use crate::ast::Expr;
use crate::ast::FnItem;
use crate::ast::Item;
use crate::ast::SourceFile;
use crate::ast::UseTree;
use crate::function_visitor::fn_defs_methods;
use crate::function_visitor::lemma_fn_defs_methods_at;
use crate::function_visitor::lemma_fn_defs_methods_len;
use crate::models::FunctionCall;
use crate::text::clone_string;
use crate::text::join_module_path;
use crate::text::join_path;
use crate::text::joined_path;
use crate::text::path_join;
use crate::text::str_eq;

verus! {

/// One import binding: a bare name or alias, and the path it stands for.
pub struct ImportEntry {
    pub name: String,
    pub target: String,
}

/// The single-pass visitor that extracts caller-to-callee edges from one
/// parsed file, resolving call names through the imports it has seen and
/// the module the call stands in.
pub struct CallVisitor {
    pub current_module: Vec<String>,
    pub current_function: Option<String>,
    pub calls: Vec<FunctionCall>,
    pub imports: Vec<ImportEntry>,
}

/// The target bound to `n` among the imports, scanning from index `i`.
pub open spec fn lookup_import(imps: Seq<ImportEntry>, n: Seq<char>, i: int) -> Option<Seq<char>>
    decreases imps.len() - i,
{
    if i < 0 || i >= imps.len() {
        None
    } else if imps[i].name@ == n {
        Some(imps[i].target@)
    } else {
        lookup_import(imps, n, i + 1)
    }
}

/// The full path a binding spells: `prefix::ident`, or the name alone
/// when the prefix is empty.
pub open spec fn bind_target(prefix: Seq<char>, ident: Seq<char>) -> Seq<char> {
    if prefix.len() == 0 {
        ident
    } else {
        prefix + "::"@ + ident
    }
}

/// What one `use` tree binds the name `n` to: a plain name binds itself,
/// a rename binds its alias, a path recurses with the prefix extended, a
/// group takes the latest binding among its members, and a glob binds
/// nothing.
pub open spec fn spec_use_binds(tree: UseTree, prefix: Seq<char>, n: Seq<char>) -> Option<
    Seq<char>,
>
    decreases tree, 0int,
{
    match tree {
        UseTree::Path { ident, tree } => spec_use_binds(*tree, bind_target(prefix, ident@), n),
        UseTree::Name { ident } => if n == ident@ {
            Some(bind_target(prefix, ident@))
        } else {
            None
        },
        UseTree::Rename { ident, alias } => if n == alias@ {
            Some(bind_target(prefix, ident@))
        } else {
            None
        },
        UseTree::Glob => None,
        UseTree::Group(ts) => spec_group_binds(ts@, ts@.len() as int, prefix, n),
    }
}

/// The latest binding of `n` among the first `i` trees of a group.
pub open spec fn spec_group_binds(ts: Seq<UseTree>, i: int, prefix: Seq<char>, n: Seq<char>) -> Option<
    Seq<char>,
>
    decreases ts, i,
{
    if i <= 0 || i > ts.len() {
        None
    } else {
        match spec_use_binds(ts[i - 1], prefix, n) {
            Some(t) => Some(t),
            None => spec_group_binds(ts, i - 1, prefix, n),
        }
    }
}

/// How a call path is resolved: the first segment is substituted through
/// the import table where it is bound, any absolute prefix kept;
/// otherwise a relative path — a lone `crate` included — is prefixed with
/// the current module, while a path under `crate::` or behind a leading
/// `::` stands as written.
pub open spec fn spec_resolve(
    imps: Seq<ImportEntry>,
    module: Seq<Seq<char>>,
    segments: Seq<Seq<char>>,
    leading: bool,
) -> Seq<char> {
    if segments.len() == 0 {
        Seq::empty()
    } else {
        match lookup_import(imps, segments[0], 0) {
            Some(t) => {
                let swapped: Seq<char> = if segments.len() == 1 {
                    t
                } else {
                    t + "::"@ + joined_path(segments.drop_first())
                };
                if leading {
                    "::"@ + swapped
                } else {
                    swapped
                }
            },
            None => {
                if !leading && !(segments[0] == "crate"@ && segments.len() > 1) && module.len()
                    > 0 {
                    joined_path(module) + "::"@ + joined_path(segments)
                } else if leading {
                    "::"@ + joined_path(segments)
                } else {
                    joined_path(segments)
                }
            },
        }
    }
}

/// The functions whose bodies the edge walk enters, from item `i` on:
/// unlike the function registry, the walk descends into every impl block,
/// whatever the shape of its self type.
pub open spec fn caller_defs_in(items: Seq<Item>, module: Seq<Seq<char>>, i: int) -> Seq<
    (Seq<char>, FnItem),
>
    decreases items, 1int, items.len() - i,
{
    if i < 0 || i >= items.len() {
        Seq::empty()
    } else {
        caller_defs_of_item(items[i], module) + caller_defs_in(items, module, i + 1)
    }
}

/// The functions of one item whose bodies the edge walk enters.
pub open spec fn caller_defs_of_item(it: Item, module: Seq<Seq<char>>) -> Seq<(Seq<char>, FnItem)>
    decreases it, 0int, 0int,
{
    match it {
        Item::Module { name, items } => caller_defs_in(items@, module.push(name@), 0),
        Item::Function(f) => seq![
            (crate::text::join_path(crate::text::joined_path(module), f.sig.name@), f),
        ],
        Item::Impl(b) => fn_defs_methods(b.methods@, module, 0),
        _ => Seq::empty(),
    }
}

/// Whether `c` is the path of one of the listed definitions.
pub open spec fn among_caller_paths(defs: Seq<(Seq<char>, FnItem)>, c: Seq<char>) -> bool {
    exists|t: int| 0 <= t < defs.len() && (#[trigger] defs[t]).0 == c
}

/// A caller drawn from one item's definitions is drawn from the whole
/// list's, from any earlier starting index.
proof fn lemma_caller_defs_block(
    items: Seq<Item>,
    m: Seq<Seq<char>>,
    j: int,
    i: int,
    c: Seq<char>,
)
    requires
        0 <= j <= i < items.len(),
        among_caller_paths(caller_defs_of_item(items[i], m), c),
    ensures
        among_caller_paths(caller_defs_in(items, m, j), c),
    decreases i - j,
{
    if j == i {
        let t = choose|t: int|
            0 <= t < caller_defs_of_item(items[i], m).len() && (#[trigger] caller_defs_of_item(
                items[i],
                m,
            )[t]).0 == c;
        assert((caller_defs_in(items, m, j)[t]).0 == c);
    } else {
        lemma_caller_defs_block(items, m, j + 1, i, c);
        let u = choose|u: int|
            0 <= u < caller_defs_in(items, m, j + 1).len() && (#[trigger] caller_defs_in(
                items,
                m,
                j + 1,
            )[u]).0 == c;
        let head = caller_defs_of_item(items[j], m);
        assert((caller_defs_in(items, m, j)[head.len() + u]).0 == c);
    }
}

impl CallVisitor {
    /// No two import bindings carry the same name.
    pub open spec fn imports_ok(self) -> bool {
        forall|i: int, j: int|
            0 <= i < j < self.imports@.len() ==> (#[trigger] self.imports@[i]).name@ != (
            #[trigger] self.imports@[j]).name@
    }

    /// A fresh visitor with no module, no open function, no edges and no
    /// imports.
    pub fn new() -> (r: CallVisitor)
        ensures
            r.imports_ok(),
            r.current_module@.len() == 0,
            r.current_function is None,
            r.calls@.len() == 0,
            r.imports@.len() == 0,
    {
        CallVisitor {
            current_module: Vec::new(),
            current_function: None,
            calls: Vec::new(),
            imports: Vec::new(),
        }
    }

    /// The current module stack as one `::`-joined path.
    pub fn get_current_module_path(&self) -> (r: String)
        ensures
            r@ == joined_path(self.current_module.deep_view()),
    {
        join_module_path(&self.current_module)
    }

    /// The resolved form of a call path seen at the current position.
    pub fn resolve_path(&self, segments: &Vec<String>, leading_colon: bool) -> (r: String)
        ensures
            r@ == spec_resolve(
                self.imports@,
                self.current_module.deep_view(),
                segments.deep_view(),
                leading_colon,
            ),
    {
        if segments.len() == 0 {
            return String::new();
        }
        proof {
            assert(segments.deep_view()[0] == segments@[0]@);
        }
        let mut i: usize = 0;
        let n = self.imports.len();
        while i < n
            invariant
                n == self.imports@.len(),
                i <= n,
                segments@.len() > 0,
                segments.deep_view()[0] == segments@[0]@,
                lookup_import(self.imports@, segments@[0]@, 0) == lookup_import(
                    self.imports@,
                    segments@[0]@,
                    i as int,
                ),
            decreases n - i,
        {
            if str_eq(self.imports[i].name.as_str(), segments[0].as_str()) {
                let mut swapped = clone_string(&self.imports[i].target);
                if segments.len() > 1 {
                    swapped.append("::");
                    let rest = join_rest(segments, 1);
                    swapped.append(rest.as_str());
                    proof {
                        assert(segments.deep_view().drop_first() =~= segments.deep_view().subrange(
                            1,
                            segments.deep_view().len() as int,
                        ));
                    }
                }
                if leading_colon {
                    let mut out = "::".to_owned();
                    out.append(swapped.as_str());
                    return out;
                }
                return swapped;
            }
            i += 1;
        }
        let crate_qualified = str_eq(segments[0].as_str(), "crate") && segments.len() > 1;
        if !leading_colon && !crate_qualified && self.current_module.len() > 0 {
            let mut out = self.get_current_module_path();
            out.append("::");
            let all = join_module_path(segments);
            out.append(all.as_str());
            out
        } else if leading_colon {
            let mut out = "::".to_owned();
            let all = join_module_path(segments);
            out.append(all.as_str());
            out
        } else {
            join_module_path(segments)
        }
    }

    /// Files one call edge from the open function to the resolved callee;
    /// outside any function nothing is recorded.
    pub fn handle_call(&mut self, segments: &Vec<String>, leading_colon: bool)
        ensures
            *final(self) == (CallVisitor { calls: final(self).calls, ..*old(self) }),
            ({
                match old(self).current_function {
                    None => final(self).calls@ == old(self).calls@,
                    Some(c) => {
                        &&& final(self).calls@.len() == old(self).calls@.len() + 1
                        &&& forall|j: int|
                            0 <= j < old(self).calls@.len() ==> final(self).calls@[j] == old(
                                self,
                            ).calls@[j]
                        &&& final(self).calls@.last().caller@ == c@
                        &&& final(self).calls@.last().callee@ == spec_resolve(
                            old(self).imports@,
                            old(self).current_module.deep_view(),
                            segments.deep_view(),
                            leading_colon,
                        )
                    },
                }
            }),
    {
        let caller = match &self.current_function {
            Some(c) => clone_string(c),
            None => {
                return ;
            },
        };
        let callee = self.resolve_path(segments, leading_colon);
        self.calls.push(FunctionCall { caller, callee });
    }

    /// Records the bindings that one `use` tree brings in. A rebound name
    /// takes the latest binding.
    pub fn process_use(&mut self, tree: &UseTree, prefix: &String)
        requires
            old(self).imports_ok(),
        ensures
            final(self).imports_ok(),
            *final(self) == (CallVisitor { imports: final(self).imports, ..*old(self) }),
            forall|n: Seq<char>|
                lookup_import(final(self).imports@, n, 0) == (match spec_use_binds(
                    *tree,
                    prefix@,
                    n,
                ) {
                    Some(t) => Some(t),
                    None => lookup_import(old(self).imports@, n, 0),
                }),
        decreases *tree,
    {
        match tree {
            UseTree::Path { ident, tree: rest } => {
                let next = if prefix.as_str().is_empty() {
                    clone_string(ident)
                } else {
                    let mut p = clone_string(prefix);
                    p.append("::");
                    p.append(ident.as_str());
                    p
                };
                proof {
                    assert(next@ == bind_target(prefix@, ident@));
                }
                self.process_use(&**rest, &next);
            },
            UseTree::Name { ident } => {
                let full = if prefix.as_str().is_empty() {
                    clone_string(ident)
                } else {
                    let mut p = clone_string(prefix);
                    p.append("::");
                    p.append(ident.as_str());
                    p
                };
                proof {
                    assert(full@ == bind_target(prefix@, ident@));
                }
                self.insert_import(clone_string(ident), full);
            },
            UseTree::Rename { ident, alias } => {
                let full = if prefix.as_str().is_empty() {
                    clone_string(ident)
                } else {
                    let mut p = clone_string(prefix);
                    p.append("::");
                    p.append(ident.as_str());
                    p
                };
                proof {
                    assert(full@ == bind_target(prefix@, ident@));
                }
                self.insert_import(clone_string(alias), full);
            },
            UseTree::Glob => {},
            UseTree::Group(trees) => {
                self.process_use_group(trees, prefix);
            },
        }
    }

    /// Records the bindings of every tree of a `use` group.
    fn process_use_group(&mut self, trees: &Vec<UseTree>, prefix: &String)
        requires
            old(self).imports_ok(),
        ensures
            final(self).imports_ok(),
            *final(self) == (CallVisitor { imports: final(self).imports, ..*old(self) }),
            forall|n: Seq<char>|
                lookup_import(final(self).imports@, n, 0) == (match spec_group_binds(
                    trees@,
                    trees@.len() as int,
                    prefix@,
                    n,
                ) {
                    Some(t) => Some(t),
                    None => lookup_import(old(self).imports@, n, 0),
                }),
        decreases trees@,
    {
        let mut i: usize = 0;
        let n = trees.len();
        while i < n
            invariant
                n == trees@.len(),
                i <= n,
                self.imports_ok(),
                *self == (CallVisitor { imports: self.imports, ..*old(self) }),
                forall|q: Seq<char>|
                    lookup_import(self.imports@, q, 0) == (match spec_group_binds(
                        trees@,
                        i as int,
                        prefix@,
                        q,
                    ) {
                        Some(t) => Some(t),
                        None => lookup_import(old(self).imports@, q, 0),
                    }),
            decreases n - i,
        {
            let ghost pre = self.imports@;
            self.process_use(&trees[i], prefix);
            proof {
                assert forall|q: Seq<char>|
                    lookup_import(self.imports@, q, 0) == (match spec_group_binds(
                        trees@,
                        i + 1,
                        prefix@,
                        q,
                    ) {
                        Some(t) => Some(t),
                        None => lookup_import(old(self).imports@, q, 0),
                    }) by {
                    let after = lookup_import(self.imports@, q, 0);
                    let mid = lookup_import(pre, q, 0);
                    assert(spec_group_binds(trees@, i + 1, prefix@, q) == (
                    match spec_use_binds(trees@[i as int], prefix@, q) {
                        Some(t) => Some(t),
                        None => spec_group_binds(trees@, i as int, prefix@, q),
                    }));
                }
            }
            i += 1;
        }
        proof {
            assert(trees@.len() as int == n as int);
        }
    }

    /// Binds `name` to `target`, replacing any earlier binding of the
    /// same name.
    fn insert_import(&mut self, name: String, target: String)
        requires
            old(self).imports_ok(),
        ensures
            final(self).imports_ok(),
            *final(self) == (CallVisitor { imports: final(self).imports, ..*old(self) }),
            lookup_import(final(self).imports@, name@, 0) == Some(target@),
            forall|n: Seq<char>|
                lookup_import(final(self).imports@, n, 0) == (if n == name@ {
                    Some(target@)
                } else {
                    lookup_import(old(self).imports@, n, 0)
                }),
    {
        let mut i: usize = 0;
        let n = self.imports.len();
        while i < n
            invariant
                n == self.imports@.len(),
                i <= n,
                *self == *old(self),
                old(self).imports_ok(),
                forall|j: int| 0 <= j < i ==> (#[trigger] self.imports@[j]).name@ != name@,
            decreases n - i,
        {
            if str_eq(self.imports[i].name.as_str(), name.as_str()) {
                let ghost before = self.imports@;
                self.imports[i] = ImportEntry { name, target };
                proof {
                    let g1 = *self;
                    let nm = g1.imports@[i as int].name@;
                    let tg = g1.imports@[i as int].target@;
                    assert(before[i as int].name@ == nm);
                    lemma_lookup_found(g1.imports@, nm, 0, i as int);
                    assert forall|q: Seq<char>| q != nm implies lookup_import(g1.imports@, q, 0)
                        == lookup_import(before, q, 0) by {
                        assert(forall|j: int|
                            0 <= j < before.len() ==> (#[trigger] before[j]).name@
                                == g1.imports@[j].name@);
                        assert forall|j: int|
                            0 <= j < before.len() && (#[trigger] before[j]).name@ == q implies
                            before[j].target@ == g1.imports@[j].target@ by {
                            assert(j != i);
                        }
                        lemma_lookup_same(before, g1.imports@, q, 0);
                    }
                }
                return ;
            }
            i += 1;
        }
        let ghost before = self.imports@;
        self.imports.push(ImportEntry { name, target });
        proof {
            let g1 = *self;
            let nm = g1.imports@[n as int].name@;
            lemma_lookup_found(g1.imports@, nm, 0, n as int);
            assert forall|q: Seq<char>| q != nm implies lookup_import(g1.imports@, q, 0)
                == lookup_import(before, q, 0) by {
                assert(g1.imports@ == before.push(g1.imports@[n as int]));
                lemma_lookup_push_other(before, g1.imports@[n as int], q, 0);
            }
        }
    }

    /// Walks one expression, filing an edge for every call by path and,
    /// name-only, for every method call, taken to live in the caller's
    /// own module.
    pub fn visit_expr(&mut self, e: &Expr)
        requires
            old(self).imports_ok(),
        ensures
            final(self).imports_ok(),
            final(self).current_module == old(self).current_module,
            final(self).current_function == old(self).current_function,
            old(self).calls@.is_prefix_of(final(self).calls@),
            old(self).current_function is None ==> final(self).calls@ == old(self).calls@,
            forall|k: int|
                old(self).calls@.len() <= k < final(self).calls@.len() ==> (old(
                    self,
                ).current_function matches Some(c) && (#[trigger] final(self).calls@[k]).caller@
                    == c@),
        decreases *e,
    {
        proof {
            assert(old(self).calls@.subrange(0, old(self).calls@.len() as int) =~= old(
                self,
            ).calls@);
        }
        match e {
            Expr::Call { callee, args, .. } => {
                if let Expr::Path { segments, leading_colon, .. } = &**callee {
                    self.handle_call(segments, *leading_colon);
                    proof {
                        assert(self.calls@.subrange(0, old(self).calls@.len() as int) =~= old(
                            self,
                        ).calls@);
                    }
                }
                let ghost pre = self.calls@;
                self.visit_exprs(args);
                proof {
                    lemma_prefix_trans(old(self).calls@, pre, self.calls@);
                }
            },
            Expr::MethodCall { receiver, method, args, .. } => {
                match &self.current_function {
                    Some(c) => {
                        let caller = clone_string(c);
                        let module = self.get_current_module_path();
                        let callee = path_join(&module, method);
                        self.calls.push(FunctionCall { caller, callee });
                        proof {
                            assert(self.calls@.subrange(0, old(self).calls@.len() as int) =~= old(
                                self,
                            ).calls@);
                        }
                    },
                    None => {},
                }
                let ghost pre = self.calls@;
                self.visit_expr(&**receiver);
                proof {
                    lemma_prefix_trans(old(self).calls@, pre, self.calls@);
                }
                let ghost pre2 = self.calls@;
                self.visit_exprs(args);
                proof {
                    lemma_prefix_trans(old(self).calls@, pre2, self.calls@);
                }
            },
            Expr::Unsafe(es) => {
                self.visit_exprs(es);
            },
            Expr::Deref { operand, .. } => {
                self.visit_expr(&**operand);
            },
            Expr::Cast { operand, .. } => {
                self.visit_expr(&**operand);
            },
            Expr::Path { .. } => {},
            Expr::Group(es) => {
                self.visit_exprs(es);
            },
            Expr::Leaf => {},
        }
    }

    /// Walks every expression of the list.
    pub fn visit_exprs(&mut self, es: &Vec<Expr>)
        requires
            old(self).imports_ok(),
        ensures
            final(self).imports_ok(),
            final(self).current_module == old(self).current_module,
            final(self).current_function == old(self).current_function,
            old(self).calls@.is_prefix_of(final(self).calls@),
            old(self).current_function is None ==> final(self).calls@ == old(self).calls@,
            forall|k: int|
                old(self).calls@.len() <= k < final(self).calls@.len() ==> (old(
                    self,
                ).current_function matches Some(c) && (#[trigger] final(self).calls@[k]).caller@
                    == c@),
        decreases es@,
    {
        let mut i: usize = 0;
        let n = es.len();
        proof {
            assert(self.calls@.subrange(0, self.calls@.len() as int) =~= self.calls@);
        }
        while i < n
            invariant
                n == es@.len(),
                i <= n,
                self.imports_ok(),
                self.current_module == old(self).current_module,
                self.current_function == old(self).current_function,
                old(self).calls@.is_prefix_of(self.calls@),
                old(self).current_function is None ==> self.calls@ == old(self).calls@,
                forall|k: int|
                    old(self).calls@.len() <= k < self.calls@.len() ==> (old(
                        self,
                    ).current_function matches Some(c) && (#[trigger] self.calls@[k]).caller@
                        == c@),
            decreases n - i,
        {
            let ghost pre = self.calls@;
            self.visit_expr(&es[i]);
            proof {
                lemma_prefix_trans(old(self).calls@, pre, self.calls@);
            }
            i += 1;
        }
    }

    /// Walks one function definition: its full path becomes the caller of
    /// every edge found in its body.
    fn visit_fn(&mut self, f: &FnItem)
        requires
            old(self).imports_ok(),
            old(self).current_function is None,
        ensures
            final(self).imports_ok(),
            final(self).current_function is None,
            final(self).current_module == old(self).current_module,
            old(self).calls@.is_prefix_of(final(self).calls@),
            forall|k: int|
                old(self).calls@.len() <= k < final(self).calls@.len() ==> (
                #[trigger] final(self).calls@[k]).caller@ == join_path(
                    joined_path(old(self).current_module.deep_view()),
                    f.sig.name@,
                ),
    {
        let module = self.get_current_module_path();
        let full = path_join(&module, &f.sig.name);
        proof {
            assert(full@ == join_path(
                joined_path(old(self).current_module.deep_view()),
                f.sig.name@,
            ));
        }
        self.current_function = Some(full);
        self.visit_exprs(&f.body);
        self.current_function = None;
    }

    /// Walks one item.
    pub fn visit_item(&mut self, it: &Item)
        requires
            old(self).imports_ok(),
            old(self).current_function is None,
        ensures
            final(self).imports_ok(),
            final(self).current_function is None,
            final(self).current_module@ == old(self).current_module@,
            old(self).calls@.is_prefix_of(final(self).calls@),
            forall|k: int|
                old(self).calls@.len() <= k < final(self).calls@.len() ==> among_caller_paths(
                    caller_defs_of_item(*it, old(self).current_module.deep_view()),
                    (#[trigger] final(self).calls@[k]).caller@,
                ),
        decreases *it,
    {
        proof {
            assert(old(self).calls@.subrange(0, old(self).calls@.len() as int) =~= old(
                self,
            ).calls@);
        }
        match it {
            Item::Module { name, items } => {
                self.current_module.push(clone_string(name));
                proof {
                    assert(self.current_module.deep_view() =~= old(
                        self,
                    ).current_module.deep_view().push(name@));
                }
                self.visit_items(items);
                self.current_module.pop();
                proof {
                    assert(self.current_module@ =~= old(self).current_module@);
                    let defs = caller_defs_of_item(*it, old(self).current_module.deep_view());
                    let inner = caller_defs_in(
                        items@,
                        old(self).current_module.deep_view().push(name@),
                        0,
                    );
                    assert(defs == inner);
                }
            },
            Item::Function(f) => {
                self.visit_fn(f);
                proof {
                    let defs = caller_defs_of_item(*it, old(self).current_module.deep_view());
                    assert((defs[0]).0 == join_path(
                        joined_path(old(self).current_module.deep_view()),
                        f.sig.name@,
                    ));
                    assert forall|k: int|
                        old(self).calls@.len() <= k < self.calls@.len() implies
                        among_caller_paths(defs, (#[trigger] self.calls@[k]).caller@) by {
                        assert((defs[0]).0 == self.calls@[k].caller@);
                    }
                }
            },
            Item::Impl(b) => {
                let ghost m0 = old(self).current_module.deep_view();
                let ghost mdefs = fn_defs_methods(b.methods@, m0, 0);
                proof {
                    lemma_fn_defs_methods_len(b.methods@, m0, 0);
                }
                let mut k: usize = 0;
                let n = b.methods.len();
                while k < n
                    invariant
                        n == b.methods@.len(),
                        k <= n,
                        self.imports_ok(),
                        self.current_function is None,
                        self.current_module == old(self).current_module,
                        self.current_module.deep_view() == m0,
                        mdefs == fn_defs_methods(b.methods@, m0, 0),
                        mdefs.len() == n,
                        old(self).calls@.is_prefix_of(self.calls@),
                        forall|j: int|
                            old(self).calls@.len() <= j < self.calls@.len() ==> among_caller_paths(
                                mdefs,
                                (#[trigger] self.calls@[j]).caller@,
                            ),
                    decreases n - k,
                {
                    let ghost pre = self.calls@;
                    self.visit_fn(&b.methods[k]);
                    proof {
                        lemma_prefix_trans(old(self).calls@, pre, self.calls@);
                        lemma_fn_defs_methods_at(b.methods@, m0, 0, k as int);
                        assert forall|j: int|
                            old(self).calls@.len() <= j < self.calls@.len() implies
                            among_caller_paths(mdefs, (#[trigger] self.calls@[j]).caller@) by {
                            if j < pre.len() {
                                assert(self.calls@[j] == pre[j]);
                                assert(among_caller_paths(mdefs, pre[j].caller@));
                            } else {
                                assert((mdefs[k as int]).0 == self.calls@[j].caller@);
                            }
                        }
                    }
                    k += 1;
                }
                proof {
                    let defs = caller_defs_of_item(*it, old(self).current_module.deep_view());
                    assert(defs == mdefs);
                }
            },
            Item::Use(tree) => {
                self.process_use(tree, &String::new());
            },
            Item::TypeDef(_) => {},
            Item::Other => {},
        }
    }

    /// Walks every item of the list.
    pub fn visit_items(&mut self, items: &Vec<Item>)
        requires
            old(self).imports_ok(),
            old(self).current_function is None,
        ensures
            final(self).imports_ok(),
            final(self).current_function is None,
            final(self).current_module@ == old(self).current_module@,
            old(self).calls@.is_prefix_of(final(self).calls@),
            forall|k: int|
                old(self).calls@.len() <= k < final(self).calls@.len() ==> among_caller_paths(
                    caller_defs_in(items@, old(self).current_module.deep_view(), 0),
                    (#[trigger] final(self).calls@[k]).caller@,
                ),
        decreases items@,
    {
        let ghost m0 = old(self).current_module.deep_view();
        let ghost full = caller_defs_in(items@, m0, 0);
        proof {
            assert(old(self).calls@.subrange(0, old(self).calls@.len() as int) =~= old(
                self,
            ).calls@);
        }
        let mut i: usize = 0;
        let n = items.len();
        while i < n
            invariant
                n == items@.len(),
                i <= n,
                self.imports_ok(),
                self.current_function is None,
                self.current_module@ == old(self).current_module@,
                self.current_module.deep_view() == m0,
                full == caller_defs_in(items@, m0, 0),
                old(self).calls@.is_prefix_of(self.calls@),
                forall|k: int|
                    old(self).calls@.len() <= k < self.calls@.len() ==> among_caller_paths(
                        full,
                        (#[trigger] self.calls@[k]).caller@,
                    ),
            decreases n - i,
        {
            let ghost pre = self.calls@;
            self.visit_item(&items[i]);
            proof {
                lemma_prefix_trans(old(self).calls@, pre, self.calls@);
                assert forall|k: int|
                    old(self).calls@.len() <= k < self.calls@.len() implies among_caller_paths(
                    full,
                    (#[trigger] self.calls@[k]).caller@,
                ) by {
                    if k < pre.len() {
                        assert(self.calls@[k] == pre[k]);
                        assert(among_caller_paths(full, pre[k].caller@));
                    } else {
                        assert(among_caller_paths(
                            caller_defs_of_item(items@[i as int], m0),
                            self.calls@[k].caller@,
                        ));
                        lemma_caller_defs_block(items@, m0, 0, i as int, self.calls@[k].caller@);
                    }
                }
            }
            i += 1;
        }
    }

    /// Walks one whole parsed file: every edge the walk appends names as
    /// its caller the full path of a function defined in the file.
    pub fn visit_file(&mut self, file: &SourceFile)
        requires
            old(self).imports_ok(),
            old(self).current_function is None,
        ensures
            final(self).imports_ok(),
            final(self).current_function is None,
            old(self).calls@.is_prefix_of(final(self).calls@),
            forall|k: int|
                old(self).calls@.len() <= k < final(self).calls@.len() ==> among_caller_paths(
                    caller_defs_in(file.items@, old(self).current_module.deep_view(), 0),
                    (#[trigger] final(self).calls@[k]).caller@,
                ),
    {
        self.visit_items(&file.items);
    }
}

/// A prefix of a prefix is a prefix, and prefix entries keep their place.
proof fn lemma_prefix_trans(a: Seq<FunctionCall>, b: Seq<FunctionCall>, c: Seq<FunctionCall>)
    requires
        a.is_prefix_of(b),
        b.is_prefix_of(c),
    ensures
        a.is_prefix_of(c),
        forall|k: int| 0 <= k < b.len() ==> c[k] == b[k],
        forall|k: int| 0 <= k < a.len() ==> b[k] == a[k],
{
    assert forall|k: int| 0 <= k < b.len() implies c[k] == b[k] by {
        assert(c.subrange(0, b.len() as int)[k] == c[k]);
    }
    assert forall|k: int| 0 <= k < a.len() implies b[k] == a[k] by {
        assert(b.subrange(0, a.len() as int)[k] == b[k]);
    }
    assert(c.subrange(0, a.len() as int) =~= a);
}

/// A lookup for another name ignores an appended binding.
proof fn lemma_lookup_push_other(imps: Seq<ImportEntry>, e: ImportEntry, n: Seq<char>, i: int)
    requires
        e.name@ != n,
        0 <= i,
    ensures
        lookup_import(imps.push(e), n, i) == lookup_import(imps, n, i),
    decreases imps.len() + 1 - i,
{
    reveal_with_fuel(lookup_import, 3);
    if i < imps.len() {
        assert(imps.push(e)[i] == imps[i]);
        lemma_lookup_push_other(imps, e, n, i + 1);
    } else if i == imps.len() {
        assert(imps.push(e)[i] == e);
    }
}

/// Two tables with the same names in order, agreeing on every entry that
/// bears the sought name, answer the lookup alike.
proof fn lemma_lookup_same(a: Seq<ImportEntry>, b: Seq<ImportEntry>, n: Seq<char>, i: int)
    requires
        a.len() == b.len(),
        0 <= i,
        forall|j: int| 0 <= j < a.len() ==> (#[trigger] a[j]).name@ == b[j].name@,
        forall|j: int| 0 <= j < a.len() && (#[trigger] a[j]).name@ == n ==> a[j].target@ == b[j].target@,
    ensures
        lookup_import(a, n, i) == lookup_import(b, n, i),
    decreases a.len() + 1 - i,
{
    if i < a.len() {
        lemma_lookup_same(a, b, n, i + 1);
    }
}

/// A lookup that scans up to the binding of the name it seeks finds it.
proof fn lemma_lookup_found(imps: Seq<ImportEntry>, n: Seq<char>, i: int, at: int)
    requires
        0 <= i <= at < imps.len(),
        imps[at].name@ == n,
        forall|j: int| 0 <= j < at ==> (#[trigger] imps[j]).name@ != n,
    ensures
        lookup_import(imps, n, i) == Some(imps[at].target@),
    decreases at - i,
{
    if i < at {
        lemma_lookup_found(imps, n, i + 1, at);
    }
}

/// The joined tail of a path, from segment `from` on.
fn join_rest(segments: &Vec<String>, from: usize) -> (r: String)
    requires
        from <= segments@.len(),
    ensures
        r@ == joined_path(segments.deep_view().subrange(from as int, segments.deep_view().len() as int)),
{
    let mut out = String::new();
    let mut i: usize = from;
    proof {
        assert(segments.deep_view().subrange(from as int, from as int) =~= Seq::<Seq<char>>::empty());
    }
    while i < segments.len()
        invariant
            from <= i <= segments@.len(),
            out@ == joined_path(segments.deep_view().subrange(from as int, i as int)),
        decreases segments@.len() - i,
    {
        proof {
            assert(segments.deep_view().subrange(from as int, i + 1).drop_last()
                =~= segments.deep_view().subrange(from as int, i as int));
            assert(segments.deep_view().subrange(from as int, i + 1).last()
                == segments.deep_view()[i as int]);
        }
        if i > 0 && out.as_str().is_empty() == false {
            out.append("::");
            out.append(segments[i].as_str());
        } else if out.as_str().is_empty() {
            out = clone_string(&segments[i]);
        } else {
            out.append(segments[i].as_str());
        }
        i += 1;
    }
    proof {
        assert(segments.deep_view().subrange(from as int, segments.deep_view().len() as int)
            =~= segments.deep_view().subrange(from as int, segments@.len() as int));
    }
    out
}

} // verus!
