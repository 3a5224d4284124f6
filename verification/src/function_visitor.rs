use vstd::prelude::*;
use vstd::string::StrSliceExecFns;

use crate::ast::Expr;
use crate::ast::FnArg;
use crate::ast::FnItem;
use crate::ast::FnSig;
use crate::ast::ImplBlock;
use crate::ast::Item;
use crate::ast::PathType;
use crate::ast::SelfType;
use crate::ast::SourceFile;
use crate::ast::TypeExpr;
use crate::ast::Visibility;
use crate::ast::expr_has_unsafe;
use crate::ast::exprs_have_unsafe_in;
use crate::call_graph::FunctionEntry;
use crate::call_graph::distinct_seqs;
use crate::call_graph::lemma_push_contains;
use crate::models::FunctionInfo;
use crate::models::TypeDefEntry;
use crate::models::TypeDefinition;
use crate::models::UnsafeOperation;
use crate::models::UnsafeOperationType;
use crate::models::VisibilityKind;
use crate::text::clone_string;
use crate::text::is_substring;
use crate::text::join_module_path;
use crate::text::join_path;
use crate::text::joined_path;
use crate::text::path_join;
use crate::text::str_contains;
use crate::text::str_eq;
use crate::text::str_starts_with;
use crate::text::vec_contains_string;

verus! {

/// The single-pass visitor that extracts functions, type definitions and
/// unsafe-operation evidence from one parsed file.
pub struct FunctionVisitor {
    pub current_module: Vec<String>,
    pub functions: Vec<FunctionEntry>,
    pub unsafe_functions: Vec<String>,
    pub current_function: Option<String>,
    pub has_unsafe: bool,
    pub file_path: String,
    pub source_code: String,
    pub type_definitions: Vec<TypeDefEntry>,
    pub current_impl_type: Option<String>,
    pub in_unsafe_block: bool,
    pub current_unsafe_operations: Vec<UnsafeOperation>,
    pub known_unsafe_functions: Vec<String>,
}

/// How the parser's visibility maps onto the model's.
pub open spec fn spec_convert_visibility(v: Visibility) -> VisibilityKind {
    match v {
        Visibility::Public => VisibilityKind::Public,
        Visibility::Crate => VisibilityKind::Crate,
        Visibility::Restricted => VisibilityKind::Restricted,
        Visibility::Inherited => VisibilityKind::Module,
    }
}

/// The fixed table of fully or partly qualified standard-library
/// functions that are unsafe to call.
pub open spec fn known_unsafe_table() -> Seq<Seq<char>> {
    seq![
        "std::mem::transmute"@,
        "std::mem::transmute_copy"@,
        "ptr::read"@,
        "ptr::read_volatile"@,
        "ptr::write"@,
        "ptr::write_volatile"@,
        "ptr::copy"@,
        "ptr::copy_nonoverlapping"@,
        "std::ptr::drop_in_place"@,
        "from_raw_parts_mut"@,
        "slice::from_raw_parts_mut"@,
        "slice::from_raw_parts"@,
        "core::slice::from_raw_parts_mut"@,
        "core::slice::from_raw_parts"@,
        "from_utf8_unchecked"@,
        "from_utf8_unchecked_mut"@,
    ]
}

/// Whether a method name smells of unsafe behaviour.
pub open spec fn spec_unsafe_keywords(n: Seq<char>) -> bool {
    ||| is_substring("unsafe"@, n)
    ||| is_substring("unchecked"@, n)
    ||| is_substring("as_ptr"@, n)
    ||| is_substring("as_mut_ptr"@, n)
    ||| n == "assume_init"@
    ||| n == "set_len"@
    ||| is_substring("transmute"@, n)
    ||| is_substring("from_raw_parts"@, n)
}

/// Whether a bare function name is known unsafe wherever it appears.
pub open spec fn spec_unsafe_bare_name(s: Seq<char>) -> bool {
    ||| s == "from_raw_parts"@
    ||| s == "from_raw_parts_mut"@
    ||| s == "copy_nonoverlapping"@
    ||| s == "transmute"@
    ||| s == "forget"@
    ||| s == "offset"@
    ||| s == "from_utf8_unchecked"@
    ||| s == "from_utf8_unchecked_mut"@
    ||| s == "drop_in_place"@
}

/// Whether a call path is a known unsafe standard-library function: its
/// last segment is a known unsafe name, or it ends in a read, write or
/// copy of the `ptr` module of `std` or `core`.
pub open spec fn spec_known_unsafe_full_path(segs: Seq<Seq<char>>) -> bool {
    if segs.len() == 0 {
        false
    } else {
        ||| spec_unsafe_bare_name(segs.last())
        ||| (segs.len() >= 3 && (segs.last() == "read"@ || segs.last() == "write"@ || segs.last()
            == "copy"@) && segs[segs.len() - 2] == "ptr"@ && (segs[segs.len() - 3] == "std"@
            || segs[segs.len() - 3] == "core"@))
    }
}

/// Whether a type name is a primitive or a common standard-library type.
pub open spec fn spec_primitive_name(s: Seq<char>) -> bool {
    ||| s == "bool"@
    ||| s == "char"@
    ||| s == "str"@
    ||| s == "u8"@
    ||| s == "u16"@
    ||| s == "u32"@
    ||| s == "u64"@
    ||| s == "u128"@
    ||| s == "usize"@
    ||| s == "i8"@
    ||| s == "i16"@
    ||| s == "i32"@
    ||| s == "i64"@
    ||| s == "i128"@
    ||| s == "isize"@
    ||| s == "f32"@
    ||| s == "f64"@
    ||| s == "String"@
    ||| s == "Vec"@
    ||| s == "Option"@
    ||| s == "Result"@
    ||| s == "Box"@
    ||| s == "Rc"@
    ||| s == "Arc"@
    ||| s == "Cell"@
    ||| s == "RefCell"@
    ||| s == "HashMap"@
    ||| s == "HashSet"@
    ||| s == "BTreeMap"@
    ||| s == "BTreeSet"@
    ||| s == "VecDeque"@
    ||| s == "LinkedList"@
    ||| s == "Mutex"@
    ||| s == "RwLock"@
    ||| s == "Condvar"@
    ||| s == "Once"@
    ||| s == "Thread"@
    ||| s == "Duration"@
    ||| s == "Instant"@
    ||| s == "SystemTime"@
    ||| s == "Path"@
    ||| s == "PathBuf"@
}

/// Whether the path names a primitive or standard-library type: a single
/// segment from the fixed table.
pub open spec fn spec_primitive_type(segs: Seq<Seq<char>>) -> bool {
    segs.len() == 1 && spec_primitive_name(segs[0])
}

/// Whether an expression may denote a raw pointer, judged from its shape:
/// a cast to a pointer type, a path whose text smells of pointers, or a
/// pointer-arithmetic method call.
pub open spec fn spec_might_be_raw_pointer(e: Expr) -> bool {
    match e {
        Expr::Cast { to_pointer, .. } => to_pointer,
        Expr::Path { text, .. } => is_substring("ptr"@, text@) || is_substring("raw"@, text@)
            || is_substring("pointer"@, text@),
        Expr::MethodCall { method, .. } => method@ == "add"@ || method@ == "offset"@ || method@
            == "as_ptr"@ || method@ == "as_mut_ptr"@,
        _ => false,
    }
}

/// Which common unsafe operation a call path spells, by the first keyword
/// it contains: pointer operations first, then the memory helpers, then
/// the methods known to be unsafe.
pub open spec fn spec_common_unsafe_kind(p: Seq<char>, k: UnsafeOperationType) -> bool {
    if is_substring("from_raw_parts"@, p) || is_substring("copy_nonoverlapping"@, p)
        || is_substring("copy"@, p) || is_substring("write"@, p) || is_substring("read"@, p)
        || is_substring("offset"@, p) || is_substring("add"@, p) || is_substring(
        "drop_in_place"@,
        p,
    ) {
        k == UnsafeOperationType::RawPointerDereference
    } else if is_substring("transmute"@, p) {
        k matches UnsafeOperationType::Other(d) && d@ == "memory transmute"@
    } else if is_substring("forget"@, p) {
        k matches UnsafeOperationType::Other(d) && d@ == "memory forget"@
    } else if is_substring("zeroed"@, p) {
        k matches UnsafeOperationType::Other(d) && d@ == "zeroed memory"@
    } else if is_substring("uninitialized"@, p) {
        k matches UnsafeOperationType::Other(d) && d@ == "uninitialized memory"@
    } else if is_substring("set_len"@, p) || is_substring("as_ptr"@, p) || is_substring(
        "as_mut_ptr"@,
        p,
    ) || is_substring("from_utf8_unchecked"@, p) {
        k == UnsafeOperationType::UnsafeMethodCall
    } else {
        false
    }
}

/// Whether any keyword of the common-unsafe table occurs in the path.
pub open spec fn spec_common_unsafe_matches(p: Seq<char>) -> bool {
    ||| is_substring("from_raw_parts"@, p)
    ||| is_substring("copy_nonoverlapping"@, p)
    ||| is_substring("copy"@, p)
    ||| is_substring("write"@, p)
    ||| is_substring("read"@, p)
    ||| is_substring("offset"@, p)
    ||| is_substring("add"@, p)
    ||| is_substring("drop_in_place"@, p)
    ||| is_substring("transmute"@, p)
    ||| is_substring("forget"@, p)
    ||| is_substring("zeroed"@, p)
    ||| is_substring("uninitialized"@, p)
    ||| is_substring("set_len"@, p)
    ||| is_substring("as_ptr"@, p)
    ||| is_substring("as_mut_ptr"@, p)
    ||| is_substring("from_utf8_unchecked"@, p)
}

/// The function definitions that one walk of the items from index `i` on
/// registers: each full path under the module stack, paired with the
/// definition as written.
pub open spec fn fn_defs_in(items: Seq<Item>, module: Seq<Seq<char>>, i: int) -> Seq<
    (Seq<char>, FnItem),
>
    decreases items, 1int, items.len() - i,
{
    if i < 0 || i >= items.len() {
        Seq::empty()
    } else {
        fn_defs_of_item(items[i], module) + fn_defs_in(items, module, i + 1)
    }
}

/// The function definitions of one item: a function itself, an impl
/// block's methods, a module's content under the longer path, and nothing
/// from the rest.
pub open spec fn fn_defs_of_item(it: Item, module: Seq<Seq<char>>) -> Seq<(Seq<char>, FnItem)>
    decreases it, 0int, 0int,
{
    match it {
        Item::Module { name, items } => fn_defs_in(items@, module.push(name@), 0),
        Item::Function(f) => seq![(join_path(joined_path(module), f.sig.name@), f)],
        Item::Impl(b) => match b.self_type {
            SelfType::Named(segs) => if segs@.len() > 0 {
                fn_defs_methods(b.methods@, module, 0)
            } else {
                Seq::empty()
            },
            SelfType::Other => Seq::empty(),
        },
        _ => Seq::empty(),
    }
}

/// How many definitions the methods from index `i` on contribute.
pub(crate) proof fn lemma_fn_defs_methods_len(ms: Seq<FnItem>, m: Seq<Seq<char>>, i: int)
    requires
        0 <= i <= ms.len(),
    ensures
        fn_defs_methods(ms, m, i).len() == ms.len() - i,
    decreases ms.len() - i,
{
    if i < ms.len() {
        lemma_fn_defs_methods_len(ms, m, i + 1);
    }
}

/// The definition a method contributes, by its index.
pub(crate) proof fn lemma_fn_defs_methods_at(ms: Seq<FnItem>, m: Seq<Seq<char>>, i: int, t: int)
    requires
        0 <= i <= t < ms.len(),
    ensures
        fn_defs_methods(ms, m, i).len() == ms.len() - i,
        fn_defs_methods(ms, m, i)[t - i] == (join_path(joined_path(m), ms[t].sig.name@), ms[t]),
    decreases t - i,
{
    lemma_fn_defs_methods_len(ms, m, i);
    if i < t {
        lemma_fn_defs_methods_at(ms, m, i + 1, t);
    }
}

/// The definitions of an impl block's methods from index `i` on.
pub open spec fn fn_defs_methods(ms: Seq<FnItem>, module: Seq<Seq<char>>, i: int) -> Seq<
    (Seq<char>, FnItem),
>
    decreases ms.len() - i,
{
    if i < 0 || i >= ms.len() {
        Seq::empty()
    } else {
        seq![(join_path(joined_path(module), ms[i].sig.name@), ms[i])] + fn_defs_methods(
            ms,
            module,
            i + 1,
        )
    }
}

/// Whether no earlier definition of the list claims the same path.
pub open spec fn first_def_at(defs: Seq<(Seq<char>, FnItem)>, k: int) -> bool {
    forall|j: int| 0 <= j < k ==> (#[trigger] defs[j]).0 != defs[k].0
}

/// Whether the visitor's record under path `p` is the committed form of
/// the definition `f`: the written fields, the unsafe evidence of its
/// body, and the matching membership in the unsafe set.
pub open spec fn records_def(v: FunctionVisitor, p: Seq<char>, f: FnItem) -> bool {
    &&& v.has_entry(p)
    &&& v.entry_info(p).name@ == f.sig.name@
    &&& v.entry_info(p).visibility == spec_convert_visibility(f.vis)
    &&& v.entry_info(p).is_unsafe_fn == f.sig.is_unsafe
    &&& v.entry_info(p).has_internal_unsafe == exprs_have_unsafe_in(f.body@)
    &&& v.entry_info(p).source_code@ == f.text@
    &&& v.listed_unsafe(p) == (f.sig.is_unsafe || exprs_have_unsafe_in(f.body@))
}

/// One safe constructor method, wrapped in an impl header of its own.
pub open spec fn wrapped_ctor(tname: Seq<char>, mtext: Seq<char>) -> Seq<char> {
    "impl "@ + tname + " {\n    "@ + mtext + "\n}"@
}

/// The constructor fragments the methods from index `i` on contribute to
/// a type definition bearing the impl's type name: the wrapped text of
/// every method whose return type resolves to the type and which is not
/// declared unsafe, in order.
pub open spec fn ctor_fragments(ms: Seq<FnItem>, tname: Seq<char>, i: int) -> Seq<Seq<char>>
    decreases ms.len() - i,
{
    if i < 0 || i >= ms.len() {
        Seq::empty()
    } else {
        (if spec_is_constructor(ms[i], tname) && !ms[i].sig.is_unsafe {
            seq![wrapped_ctor(tname, ms[i].text@)]
        } else {
            Seq::empty()
        }) + ctor_fragments(ms, tname, i + 1)
    }
}

/// The constructor fragments one whole impl block contributes: its full
/// text for a `Default` implementation, the wrapped safe constructor
/// methods otherwise, and nothing when its self type is not a plain,
/// non-empty path.
pub open spec fn impl_ctor_fragments(b: ImplBlock) -> Seq<Seq<char>> {
    match b.self_type {
        SelfType::Named(segs) => if segs@.len() > 0 {
            if b.trait_name matches Some(t) && t@ == "Default"@ {
                seq![b.text@]
            } else {
                ctor_fragments(b.methods@, segs@.last()@, 0)
            }
        } else {
            Seq::empty()
        },
        SelfType::Other => Seq::empty(),
    }
}

/// The name the impl block's constructors attach to, where it has one.
pub open spec fn impl_target_name(b: ImplBlock) -> Option<Seq<char>> {
    match b.self_type {
        SelfType::Named(segs) => if segs@.len() > 0 {
            Some(segs@.last()@)
        } else {
            None
        },
        SelfType::Other => None,
    }
}

/// Two states with the same function registry and unsafe set hold the
/// same records, looked up by path.
pub(crate) proof fn lemma_entries_preserved(a: FunctionVisitor, b: FunctionVisitor)
    requires
        b.functions == a.functions,
        b.unsafe_functions == a.unsafe_functions,
        forall|i: int, j: int|
            0 <= i < j < b.functions@.len() ==> (#[trigger] b.functions@[i]).path@ != (
            #[trigger] b.functions@[j]).path@,
    ensures
        forall|q: Seq<char>|
            #[trigger] a.has_entry(q) ==> b.has_entry(q) && b.entry_info(q) == a.entry_info(q),
        forall|q: Seq<char>| #[trigger] b.has_entry(q) ==> a.has_entry(q),
        forall|q: Seq<char>| #[trigger] a.listed_unsafe(q) == b.listed_unsafe(q),
{
    assert forall|q: Seq<char>| #[trigger] a.has_entry(q) implies b.has_entry(q) && b.entry_info(
        q,
    ) == a.entry_info(q) by {
        let k0 = a.entry_index(q);
        assert(a.functions@[k0].path@ == q);
        assert(b.functions@[k0].path@ == q);
        assert(b.has_entry(q));
        let k1 = b.entry_index(q);
        if k1 != k0 {
            assert(b.functions@[k1].path@ == q);
            assert(false);
        }
    }
    assert forall|q: Seq<char>| #[trigger] b.has_entry(q) implies a.has_entry(q) by {
        let k1 = b.entry_index(q);
        assert(a.functions@[k1].path@ == q);
    }
}

/// After a fresh registration and its commit, every record that stood
/// before stands unchanged, and the only new path is the registered one.
proof fn lemma_walked_fn(
    a: FunctionVisitor,
    g1: FunctionVisitor,
    g3: FunctionVisitor,
    fp: Seq<char>,
)
    requires
        !a.has_entry(fp),
        g1.functions@.len() == a.functions@.len() + 1,
        forall|i: int| 0 <= i < a.functions@.len() ==> g1.functions@[i] == a.functions@[i],
        g1.functions@.last().path@ == fp,
        g1.unsafe_functions == a.unsafe_functions,
        forall|i: int, j: int|
            0 <= i < j < g1.functions@.len() ==> (#[trigger] g1.functions@[i]).path@ != (
            #[trigger] g1.functions@[j]).path@,
        forall|q: Seq<char>| q != fp ==> #[trigger] g3.has_entry(q) == g1.has_entry(q),
        forall|q: Seq<char>|
            q != fp && g1.has_entry(q) ==> #[trigger] g3.entry_info(q) == g1.entry_info(q),
        forall|q: Seq<char>| q != fp ==> #[trigger] g3.listed_unsafe(q) == g1.listed_unsafe(q),
        g3.has_entry(fp),
    ensures
        forall|q: Seq<char>|
            #[trigger] a.has_entry(q) ==> g3.has_entry(q) && g3.entry_info(q) == a.entry_info(q)
                && g3.listed_unsafe(q) == a.listed_unsafe(q),
        forall|q: Seq<char>| (#[trigger] g3.has_entry(q)) <==> (a.has_entry(q) || q == fp),
{
    assert forall|q: Seq<char>| #[trigger] a.has_entry(q) implies g3.has_entry(q)
        && g3.entry_info(q) == a.entry_info(q) && g3.listed_unsafe(q) == a.listed_unsafe(q) by {
        let k0 = a.entry_index(q);
        assert(a.functions@[k0].path@ == q);
        assert(g1.functions@[k0].path@ == q);
        assert(g1.has_entry(q));
        assert(q != fp);
        assert(g1.entry_index(q) == k0) by {
            let k1 = g1.entry_index(q);
            if k1 != k0 {
                assert(g1.functions@[k1].path@ == q);
                assert(false);
            }
        }
        assert(g1.entry_info(q) == a.entry_info(q));
        assert(g3.has_entry(q) && g3.entry_info(q) == g1.entry_info(q) && g3.listed_unsafe(q)
            == g1.listed_unsafe(q));
    }
    assert forall|q: Seq<char>| #[trigger] g3.has_entry(q) implies (a.has_entry(q) || q == fp) by {
        if q != fp {
            assert(g1.has_entry(q));
            let k = choose|k: int|
                0 <= k < g1.functions@.len() && (#[trigger] g1.functions@[k]).path@ == q;
            assert(k < a.functions@.len());
            assert(a.functions@[k].path@ == q);
        }
    }
}

/// What the registration steps leave untouched: the module stack, the
/// type definitions, the file identity and the fixed tables.
pub open spec fn same_context(a: FunctionVisitor, b: FunctionVisitor) -> bool {
    &&& b.current_module == a.current_module
    &&& b.type_definitions == a.type_definitions
    &&& b.file_path == a.file_path
    &&& b.source_code == a.source_code
    &&& b.known_unsafe_functions == a.known_unsafe_functions
    &&& b.current_impl_type == a.current_impl_type
    &&& b.in_unsafe_block == a.in_unsafe_block
}

/// What a walk of expressions leaves untouched: everything but the unsafe
/// evidence gathered along the way.
pub open spec fn same_registry(a: FunctionVisitor, b: FunctionVisitor) -> bool {
    &&& b.functions == a.functions
    &&& b.unsafe_functions == a.unsafe_functions
    &&& b.current_function == a.current_function
    &&& b.current_module == a.current_module
    &&& b.type_definitions == a.type_definitions
    &&& b.current_impl_type == a.current_impl_type
    &&& b.file_path == a.file_path
    &&& b.source_code == a.source_code
    &&& b.known_unsafe_functions == a.known_unsafe_functions
}

/// Whether one recorded operation already carries this code snippet.
pub open spec fn ops_have_snippet(ops: Seq<UnsafeOperation>, snippet: Seq<char>) -> bool {
    exists|i: int| 0 <= i < ops.len() && (#[trigger] ops[i]).code_snippet@ == snippet
}

/// The custom type names of one type expression: the final identifier of
/// every non-primitive path, descending through references, arrays,
/// slices, tuples and generic arguments.
pub open spec fn spec_custom_types(ty: TypeExpr) -> Set<Seq<char>>
    decreases ty, 0int,
{
    match ty {
        TypeExpr::Path(pt) => {
            let own: Set<Seq<char>> = if pt.segments@.len() > 0 && !spec_primitive_type(
                pt.segments.deep_view(),
            ) {
                Set::empty().insert(pt.segments@.last()@)
            } else {
                Set::empty()
            };
            own + spec_custom_types_list(pt.args@, 0)
        },
        TypeExpr::Reference(t) => spec_custom_types(*t),
        TypeExpr::Array(t) => spec_custom_types(*t),
        TypeExpr::Slice(t) => spec_custom_types(*t),
        TypeExpr::Tuple(ts) => spec_custom_types_list(ts@, 0),
        TypeExpr::Pointer(_) => Set::empty(),
        TypeExpr::Other => Set::empty(),
    }
}

/// The custom type names of the type expressions from index `i` on.
pub open spec fn spec_custom_types_list(ts: Seq<TypeExpr>, i: int) -> Set<Seq<char>>
    decreases ts, ts.len() - i + 1,
{
    if i < 0 || i >= ts.len() {
        Set::empty()
    } else {
        spec_custom_types(ts[i]) + spec_custom_types_list(ts, i + 1)
    }
}

/// The custom type names among the typed inputs from index `i` on.
pub open spec fn spec_param_types(inputs: Seq<FnArg>, i: int) -> Set<Seq<char>>
    decreases inputs.len() - i,
{
    if i < 0 || i >= inputs.len() {
        Set::empty()
    } else {
        let own: Set<Seq<char>> = match inputs[i] {
            FnArg::Typed { ty, .. } => spec_custom_types(ty),
            FnArg::Receiver => Set::empty(),
        };
        own + spec_param_types(inputs, i + 1)
    }
}

/// The custom type names of the return type, if any.
pub open spec fn spec_return_types(output: Option<TypeExpr>) -> Set<Seq<char>> {
    match output {
        Some(t) => spec_custom_types(t),
        None => Set::empty(),
    }
}

/// Whether an argument is a receiver or a parameter named `self`.
pub open spec fn spec_is_self_arg(a: FnArg) -> bool {
    match a {
        FnArg::Receiver => true,
        FnArg::Typed { name, .. } => match name {
            Some(n) => n@ == "self"@,
            None => false,
        },
    }
}

/// Whether any argument is self-like.
pub open spec fn spec_has_self_param(inputs: Seq<FnArg>) -> bool {
    exists|i: int| 0 <= i < inputs.len() && spec_is_self_arg(#[trigger] inputs[i])
}

/// Whether any argument is a plain receiver.
pub open spec fn spec_has_receiver(inputs: Seq<FnArg>) -> bool {
    exists|i: int| 0 <= i < inputs.len() && (#[trigger] inputs[i]) is Receiver
}

/// Whether a method's return type resolves to `Self` or to the named
/// type, directly or behind a reference.
pub open spec fn spec_is_constructor(m: FnItem, tname: Seq<char>) -> bool {
    match m.sig.output {
        Some(t) => spec_ctor_type(t, tname),
        None => false,
    }
}

/// Whether a type expression is the path `Self` or the named type, or a
/// reference to one.
pub open spec fn spec_ctor_type(t: TypeExpr, tname: Seq<char>) -> bool {
    match t {
        TypeExpr::Path(pt) => pt.segments@.len() > 0 && (pt.segments@.last()@ == "Self"@
            || pt.segments@.last()@ == tname),
        TypeExpr::Reference(inner) => match *inner {
            TypeExpr::Path(pt) => pt.segments@.len() > 0 && (pt.segments@.last()@ == "Self"@
                || pt.segments@.last()@ == tname),
            _ => false,
        },
        _ => false,
    }
}

impl FunctionVisitor {
    /// Whether a function with full path `p` has been recorded.
    pub open spec fn has_entry(self, p: Seq<char>) -> bool {
        exists|i: int| 0 <= i < self.functions@.len() && (#[trigger] self.functions@[i]).path@ == p
    }

    /// The index of the recorded function with full path `p`.
    pub open spec fn entry_index(self, p: Seq<char>) -> int {
        choose|i: int| 0 <= i < self.functions@.len() && (#[trigger] self.functions@[i]).path@ == p
    }

    /// The record of the function with full path `p`.
    pub open spec fn entry_info(self, p: Seq<char>) -> FunctionInfo {
        self.functions@[self.entry_index(p)].info
    }

    /// Membership in the visitor's set of unsafe functions.
    pub open spec fn listed_unsafe(self, p: Seq<char>) -> bool {
        self.unsafe_functions.deep_view().contains(p)
    }

    /// Whether a type definition with full path `p` has been recorded.
    pub open spec fn has_type(self, p: Seq<char>) -> bool {
        exists|i: int|
            0 <= i < self.type_definitions@.len() && (#[trigger] self.type_definitions@[i]).path@
                == p
    }

    /// Whether the record at index `i` agrees with the unsafe set.
    pub open spec fn entry_synced(self, i: int) -> bool {
        self.listed_unsafe(self.functions@[i].path@) <==> (self.functions@[i].info.is_unsafe_fn
            || self.functions@[i].info.has_internal_unsafe)
    }

    /// The visitor's registry invariant: recorded paths are unique, the
    /// unsafe set repeats nothing and names only recorded functions, and
    /// every record agrees with the unsafe set — except the function whose
    /// body is still being walked, which is committed only when the walk
    /// of its body ends.
    pub open spec fn registry_ok(self) -> bool {
        &&& forall|i: int, j: int|
            0 <= i < j < self.functions@.len() ==> (#[trigger] self.functions@[i]).path@ != (
            #[trigger] self.functions@[j]).path@
        &&& forall|i: int, j: int|
            0 <= i < j < self.type_definitions@.len() ==> (
            #[trigger] self.type_definitions@[i]).path@ != (
            #[trigger] self.type_definitions@[j]).path@
        &&& distinct_seqs(self.unsafe_functions.deep_view())
        &&& forall|p: Seq<char>| #[trigger] self.listed_unsafe(p) ==> self.has_entry(p)
        &&& match self.current_function {
            None => forall|i: int|
                0 <= i < self.functions@.len() ==> #[trigger] self.entry_synced(i),
            Some(cur) => {
                &&& self.has_entry(cur@)
                &&& !self.listed_unsafe(cur@)
                &&& self.entry_info(cur@).has_internal_unsafe == false
                &&& forall|i: int|
                    0 <= i < self.functions@.len() && (#[trigger] self.functions@[i]).path@ != cur@
                        ==> self.entry_synced(i)
            },
        }
    }

    /// The full path that the current module stack gives to `name`.
    pub open spec fn full_path_of(self, name: Seq<char>) -> Seq<char> {
        join_path(joined_path(self.current_module.deep_view()), name)
    }

    /// A fresh visitor for one file, with the fixed table of known unsafe
    /// standard-library functions loaded.
    pub fn new(file_path: String, source_code: String) -> (r: FunctionVisitor)
        ensures
            r.registry_ok(),
            r.current_function is None,
            r.functions@.len() == 0,
            r.unsafe_functions@.len() == 0,
            r.type_definitions@.len() == 0,
            r.current_module@.len() == 0,
            r.current_unsafe_operations@.len() == 0,
            r.has_unsafe == false,
            r.in_unsafe_block == false,
            r.current_impl_type is None,
            r.file_path == file_path,
            r.source_code == source_code,
            r.known_unsafe_functions.deep_view() == known_unsafe_table(),
    {
        let mut known: Vec<String> = Vec::new();
        known.push("std::mem::transmute".to_owned());
        known.push("std::mem::transmute_copy".to_owned());
        known.push("ptr::read".to_owned());
        known.push("ptr::read_volatile".to_owned());
        known.push("ptr::write".to_owned());
        known.push("ptr::write_volatile".to_owned());
        known.push("ptr::copy".to_owned());
        known.push("ptr::copy_nonoverlapping".to_owned());
        known.push("std::ptr::drop_in_place".to_owned());
        known.push("from_raw_parts_mut".to_owned());
        known.push("slice::from_raw_parts_mut".to_owned());
        known.push("slice::from_raw_parts".to_owned());
        known.push("core::slice::from_raw_parts_mut".to_owned());
        known.push("core::slice::from_raw_parts".to_owned());
        known.push("from_utf8_unchecked".to_owned());
        known.push("from_utf8_unchecked_mut".to_owned());
        proof {
            assert(known.deep_view() =~= known_unsafe_table());
        }
        FunctionVisitor {
            current_module: Vec::new(),
            functions: Vec::new(),
            unsafe_functions: Vec::new(),
            current_function: None,
            has_unsafe: false,
            file_path,
            source_code,
            type_definitions: Vec::new(),
            current_impl_type: None,
            in_unsafe_block: false,
            current_unsafe_operations: Vec::new(),
            known_unsafe_functions: known,
        }
    }

    /// The current module stack as one `::`-joined path.
    pub fn get_current_module_path(&self) -> (r: String)
        ensures
            r@ == joined_path(self.current_module.deep_view()),
    {
        join_module_path(&self.current_module)
    }

    /// The model's visibility for the parser's.
    pub fn convert_visibility(&self, v: &Visibility) -> (r: VisibilityKind)
        ensures
            r == spec_convert_visibility(*v),
    {
        match v {
            Visibility::Public => VisibilityKind::Public,
            Visibility::Crate => VisibilityKind::Crate,
            Visibility::Restricted => VisibilityKind::Restricted,
            Visibility::Inherited => VisibilityKind::Module,
        }
    }

    /// Whether the path is one of the known unsafe standard-library
    /// functions loaded at construction.
    pub fn is_known_unsafe_function(&self, path: &String) -> (r: bool)
        ensures
            r == self.known_unsafe_functions.deep_view().contains(path@),
    {
        vec_contains_string(&self.known_unsafe_functions, path)
    }

    /// Whether the method name smells of unsafe behaviour.
    pub fn has_unsafe_keywords(&self, name: &str) -> (r: bool)
        ensures
            r == spec_unsafe_keywords(name@),
    {
        str_contains(name, "unsafe") || str_contains(name, "unchecked") || str_contains(
            name,
            "as_ptr",
        ) || str_contains(name, "as_mut_ptr") || str_eq(name, "assume_init") || str_eq(
            name,
            "set_len",
        ) || str_contains(name, "transmute") || str_contains(name, "from_raw_parts")
    }

    /// Whether the segments end in a known unsafe standard-library call.
    pub fn is_known_unsafe_full_path(&self, segments: &Vec<String>) -> (r: bool)
        ensures
            r == spec_known_unsafe_full_path(segments.deep_view()),
    {
        let n = segments.len();
        if n == 0 {
            return false;
        }
        let last = &segments[n - 1];
        proof {
            assert(segments.deep_view()[n - 1] == last@);
            assert(segments.deep_view().last() == last@);
        }
        if str_eq(last.as_str(), "from_raw_parts") || str_eq(last.as_str(), "from_raw_parts_mut")
            || str_eq(last.as_str(), "copy_nonoverlapping") || str_eq(last.as_str(), "transmute")
            || str_eq(last.as_str(), "forget") || str_eq(last.as_str(), "offset") || str_eq(
            last.as_str(),
            "from_utf8_unchecked",
        ) || str_eq(last.as_str(), "from_utf8_unchecked_mut") || str_eq(
            last.as_str(),
            "drop_in_place",
        ) {
            return true;
        }
        if n >= 3 && (str_eq(last.as_str(), "read") || str_eq(last.as_str(), "write") || str_eq(
            last.as_str(),
            "copy",
        )) {
            let prev = &segments[n - 2];
            let prev2 = &segments[n - 3];
            proof {
                assert(segments.deep_view()[n - 2] == prev@);
                assert(segments.deep_view()[n - 3] == prev2@);
            }
            return str_eq(prev.as_str(), "ptr") && (str_eq(prev2.as_str(), "std") || str_eq(
                prev2.as_str(),
                "core",
            ));
        }
        false
    }

    /// Whether the path names a primitive or standard-library type.
    pub fn is_primitive_type(&self, segments: &Vec<String>) -> (r: bool)
        ensures
            r == spec_primitive_type(segments.deep_view()),
    {
        if segments.len() != 1 {
            return false;
        }
        let s = segments[0].as_str();
        proof {
            assert(segments.deep_view()[0] == segments@[0]@);
        }
        str_eq(s, "bool") || str_eq(s, "char") || str_eq(s, "str") || str_eq(s, "u8") || str_eq(
            s,
            "u16",
        ) || str_eq(s, "u32") || str_eq(s, "u64") || str_eq(s, "u128") || str_eq(s, "usize")
            || str_eq(s, "i8") || str_eq(s, "i16") || str_eq(s, "i32") || str_eq(s, "i64")
            || str_eq(s, "i128") || str_eq(s, "isize") || str_eq(s, "f32") || str_eq(s, "f64")
            || str_eq(s, "String") || str_eq(s, "Vec") || str_eq(s, "Option") || str_eq(s, "Result")
            || str_eq(s, "Box") || str_eq(s, "Rc") || str_eq(s, "Arc") || str_eq(s, "Cell")
            || str_eq(s, "RefCell") || str_eq(s, "HashMap") || str_eq(s, "HashSet") || str_eq(
            s,
            "BTreeMap",
        ) || str_eq(s, "BTreeSet") || str_eq(s, "VecDeque") || str_eq(s, "LinkedList") || str_eq(
            s,
            "Mutex",
        ) || str_eq(s, "RwLock") || str_eq(s, "Condvar") || str_eq(s, "Once") || str_eq(s, "Thread")
            || str_eq(s, "Duration") || str_eq(s, "Instant") || str_eq(s, "SystemTime") || str_eq(
            s,
            "Path",
        ) || str_eq(s, "PathBuf")
    }

    /// Whether the type expression is a raw-pointer type.
    pub fn is_raw_pointer_type(&self, ty: &TypeExpr) -> (r: bool)
        ensures
            r == (*ty is Pointer),
    {
        matches!(ty, TypeExpr::Pointer(_))
    }

    /// Whether the expression may denote a raw pointer.
    pub fn might_be_raw_pointer(&self, e: &Expr) -> (r: bool)
        ensures
            r == spec_might_be_raw_pointer(*e),
    {
        match e {
            Expr::Cast { to_pointer, .. } => *to_pointer,
            Expr::Path { text, .. } => str_contains(text.as_str(), "ptr") || str_contains(
                text.as_str(),
                "raw",
            ) || str_contains(text.as_str(), "pointer"),
            Expr::MethodCall { method, .. } => str_eq(method.as_str(), "add") || str_eq(
                method.as_str(),
                "offset",
            ) || str_eq(method.as_str(), "as_ptr") || str_eq(method.as_str(), "as_mut_ptr"),
            _ => false,
        }
    }

    /// Which common unsafe operation the path spells, if any: the first
    /// keyword of the fixed table that occurs in it decides the kind.
    pub fn is_common_unsafe_operation(&self, func_path: &String) -> (r: Option<
        UnsafeOperationType,
    >)
        ensures
            match r {
                Some(k) => spec_common_unsafe_matches(func_path@) && spec_common_unsafe_kind(
                    func_path@,
                    k,
                ),
                None => !spec_common_unsafe_matches(func_path@),
            },
    {
        let p = func_path.as_str();
        if str_contains(p, "from_raw_parts") || str_contains(p, "copy_nonoverlapping")
            || str_contains(p, "copy") || str_contains(p, "write") || str_contains(p, "read")
            || str_contains(p, "offset") || str_contains(p, "add") || str_contains(
            p,
            "drop_in_place",
        ) {
            Some(UnsafeOperationType::RawPointerDereference)
        } else if str_contains(p, "transmute") {
            Some(UnsafeOperationType::Other("memory transmute".to_owned()))
        } else if str_contains(p, "forget") {
            Some(UnsafeOperationType::Other("memory forget".to_owned()))
        } else if str_contains(p, "zeroed") {
            Some(UnsafeOperationType::Other("zeroed memory".to_owned()))
        } else if str_contains(p, "uninitialized") {
            Some(UnsafeOperationType::Other("uninitialized memory".to_owned()))
        } else if str_contains(p, "set_len") || str_contains(p, "as_ptr") || str_contains(
            p,
            "as_mut_ptr",
        ) || str_contains(p, "from_utf8_unchecked") {
            Some(UnsafeOperationType::UnsafeMethodCall)
        } else {
            None
        }
    }

    /// Whether the method's return type makes it a constructor of the
    /// named type.
    pub fn is_constructor(&self, method: &FnItem, tname: &String) -> (r: bool)
        ensures
            r == spec_is_constructor(*method, tname@),
    {
        let out = match &method.sig.output {
            Some(t) => t,
            None => {
                return false;
            },
        };
        match out {
            TypeExpr::Path(pt) => self.ctor_path(pt, tname),
            TypeExpr::Reference(inner) => match &**inner {
                TypeExpr::Path(pt) => self.ctor_path(pt, tname),
                _ => false,
            },
            _ => false,
        }
    }

    /// Whether a path type ends in `Self` or in the named type.
    fn ctor_path(&self, pt: &PathType, tname: &String) -> (r: bool)
        ensures
            r == (pt.segments@.len() > 0 && (pt.segments@.last()@ == "Self"@
                || pt.segments@.last()@ == tname@)),
    {
        let n = pt.segments.len();
        if n == 0 {
            return false;
        }
        let last = pt.segments[n - 1].as_str();
        str_eq(last, "Self") || str_eq(last, tname.as_str())
    }

    /// Gathers into `result` the custom type names of the type expression.
    pub fn extract_custom_types(&self, ty: &TypeExpr, result: &mut Vec<String>)
        ensures
            final(result).deep_view().to_set() == old(result).deep_view().to_set()
                + spec_custom_types(*ty),
            distinct_seqs(old(result).deep_view()) ==> distinct_seqs(final(result).deep_view()),
        decreases *ty, 0int,
    {
        match ty {
            TypeExpr::Path(pt) => {
                let ghost mid = result.deep_view();
                if pt.segments.len() > 0 && !self.is_primitive_type(&pt.segments) {
                    let ghost before = result.deep_view();
                    let name = clone_string(&pt.segments[pt.segments.len() - 1]);
                    proof {
                        assert(pt.segments.deep_view()[pt.segments@.len() - 1]
                            == pt.segments@.last()@);
                    }
                    if !vec_contains_string(result, &name) {
                        result.push(name);
                        proof {
                            assert(result.deep_view() =~= before.push(pt.segments@.last()@));
                            lemma_push_contains(before, result.deep_view(), pt.segments@.last()@);
                            assert(result.deep_view().to_set() =~= before.to_set().insert(
                                pt.segments@.last()@,
                            ));
                        }
                    } else {
                        proof {
                            assert(before.to_set().contains(pt.segments@.last()@));
                            assert(result.deep_view().to_set() =~= before.to_set().insert(
                                pt.segments@.last()@,
                            ));
                        }
                    }
                }
                let ghost own: Set<Seq<char>> = if pt.segments@.len() > 0 && !spec_primitive_type(
                    pt.segments.deep_view(),
                ) {
                    Set::empty().insert(pt.segments@.last()@)
                } else {
                    Set::empty()
                };
                proof {
                    assert(result.deep_view().to_set() =~= mid.to_set() + own);
                }
                self.extract_custom_types_list(&pt.args, result);
                proof {
                    assert(result.deep_view().to_set() =~= mid.to_set() + spec_custom_types(*ty));
                }
            },
            TypeExpr::Reference(t) => {
                self.extract_custom_types(t, result);
            },
            TypeExpr::Array(t) => {
                self.extract_custom_types(t, result);
            },
            TypeExpr::Slice(t) => {
                self.extract_custom_types(t, result);
            },
            TypeExpr::Tuple(ts) => {
                self.extract_custom_types_list(ts, result);
                proof {
                    assert(old(result).deep_view().to_set() + spec_custom_types_list(ts@, 0)
                        =~= old(result).deep_view().to_set() + spec_custom_types(*ty));
                }
            },
            TypeExpr::Pointer(_) => {
                proof {
                    assert(result.deep_view().to_set() =~= result.deep_view().to_set()
                        + spec_custom_types(*ty));
                }
            },
            TypeExpr::Other => {
                proof {
                    assert(result.deep_view().to_set() =~= result.deep_view().to_set()
                        + spec_custom_types(*ty));
                }
            },
        }
    }

    /// Gathers the custom type names of every expression of the list.
    pub fn extract_custom_types_list(&self, ts: &Vec<TypeExpr>, result: &mut Vec<String>)
        ensures
            final(result).deep_view().to_set() == old(result).deep_view().to_set()
                + spec_custom_types_list(ts@, 0),
            distinct_seqs(old(result).deep_view()) ==> distinct_seqs(final(result).deep_view()),
        decreases ts@, 0int,
    {
        let mut i: usize = 0;
        let n = ts.len();
        while i < n
            invariant
                n == ts@.len(),
                i <= n,
                result.deep_view().to_set() + spec_custom_types_list(ts@, i as int) == old(
                    result,
                ).deep_view().to_set() + spec_custom_types_list(ts@, 0),
                distinct_seqs(old(result).deep_view()) ==> distinct_seqs(result.deep_view()),
            decreases n - i,
        {
            let ghost before = result.deep_view();
            self.extract_custom_types(&ts[i], result);
            proof {
                assert(spec_custom_types_list(ts@, i as int) =~= spec_custom_types(ts@[i as int])
                    + spec_custom_types_list(ts@, i + 1));
                assert(result.deep_view().to_set() + spec_custom_types_list(ts@, i + 1)
                    =~= before.to_set() + spec_custom_types_list(ts@, i as int));
            }
            i += 1;
        }
        proof {
            assert(spec_custom_types_list(ts@, n as int) =~= Set::<Seq<char>>::empty());
            assert(result.deep_view().to_set() + spec_custom_types_list(ts@, n as int)
                =~= result.deep_view().to_set());
        }
    }

    /// The custom type names in the parameters and in the return type.
    pub fn analyze_function_signature(&self, sig: &FnSig) -> (r: (Vec<String>, Vec<String>))
        ensures
            r.0.deep_view().to_set() == spec_param_types(sig.inputs@, 0),
            r.1.deep_view().to_set() == spec_return_types(sig.output),
            distinct_seqs(r.0.deep_view()),
            distinct_seqs(r.1.deep_view()),
    {
        let mut params: Vec<String> = Vec::new();
        let mut i: usize = 0;
        let n = sig.inputs.len();
        proof {
            assert(params.deep_view() =~= Seq::<Seq<char>>::empty());
            assert(params.deep_view().to_set() =~= Set::<Seq<char>>::empty());
        }
        while i < n
            invariant
                n == sig.inputs@.len(),
                i <= n,
                params.deep_view().to_set() + spec_param_types(sig.inputs@, i as int)
                    == spec_param_types(sig.inputs@, 0),
                distinct_seqs(params.deep_view()),
            decreases n - i,
        {
            let ghost before = params.deep_view();
            match &sig.inputs[i] {
                FnArg::Typed { ty, .. } => {
                    self.extract_custom_types(ty, &mut params);
                },
                FnArg::Receiver => {},
            }
            proof {
                let own: Set<Seq<char>> = match sig.inputs@[i as int] {
                    FnArg::Typed { ty, .. } => spec_custom_types(ty),
                    FnArg::Receiver => Set::empty(),
                };
                assert(params.deep_view().to_set() =~= before.to_set() + own);
                assert(spec_param_types(sig.inputs@, i as int) =~= own + spec_param_types(
                    sig.inputs@,
                    i + 1,
                ));
                assert(params.deep_view().to_set() + spec_param_types(sig.inputs@, i + 1)
                    =~= before.to_set() + spec_param_types(sig.inputs@, i as int));
            }
            i += 1;
        }
        proof {
            assert(spec_param_types(sig.inputs@, n as int) =~= Set::<Seq<char>>::empty());
            assert(params.deep_view().to_set() + spec_param_types(sig.inputs@, n as int)
                =~= params.deep_view().to_set());
        }
        let mut rets: Vec<String> = Vec::new();
        proof {
            assert(rets.deep_view() =~= Seq::<Seq<char>>::empty());
            assert(rets.deep_view().to_set() =~= Set::<Seq<char>>::empty());
        }
        match &sig.output {
            Some(t) => {
                self.extract_custom_types(t, &mut rets);
                proof {
                    assert(Set::<Seq<char>>::empty() + spec_custom_types(*t) =~= spec_return_types(
                        sig.output,
                    ));
                }
            },
            None => {
                proof {
                    assert(rets.deep_view().to_set() =~= spec_return_types(sig.output));
                }
            },
        }
        (params, rets)
    }

    /// Whether the signature carries a self-like argument: a receiver, or
    /// a typed parameter named `self`.
    pub fn sig_has_self_param(&self, sig: &FnSig) -> (r: bool)
        ensures
            r == spec_has_self_param(sig.inputs@),
    {
        let mut i: usize = 0;
        let n = sig.inputs.len();
        while i < n
            invariant
                n == sig.inputs@.len(),
                i <= n,
                forall|j: int| 0 <= j < i ==> !spec_is_self_arg(#[trigger] sig.inputs@[j]),
            decreases n - i,
        {
            match &sig.inputs[i] {
                FnArg::Receiver => {
                    return true;
                },
                FnArg::Typed { name, .. } => {
                    match name {
                        Some(s) => {
                            if str_eq(s.as_str(), "self") {
                                return true;
                            }
                        },
                        None => {},
                    }
                },
            }
            i += 1;
        }
        false
    }

    /// Whether the signature carries a plain receiver argument.
    pub fn sig_has_receiver(&self, sig: &FnSig) -> (r: bool)
        ensures
            r == spec_has_receiver(sig.inputs@),
    {
        let mut i: usize = 0;
        let n = sig.inputs.len();
        while i < n
            invariant
                n == sig.inputs@.len(),
                i <= n,
                forall|j: int| 0 <= j < i ==> !((#[trigger] sig.inputs@[j]) is Receiver),
            decreases n - i,
        {
            if matches!(&sig.inputs[i], FnArg::Receiver) {
                return true;
            }
            i += 1;
        }
        false
    }

    /// Files one unsafe operation of the function whose body is being
    /// walked, unless an operation with the same code snippet is already
    /// on record.
    pub fn record_unsafe_operation(
        &mut self,
        op_type: UnsafeOperationType,
        description: String,
        code_snippet: String,
    )
        ensures
            *final(self) == (FunctionVisitor {
                current_unsafe_operations: final(self).current_unsafe_operations,
                ..*old(self)
            }),
            final(self).current_unsafe_operations@ == (if old(self).current_function is None
                || ops_have_snippet(old(self).current_unsafe_operations@, code_snippet@) {
                old(self).current_unsafe_operations@
            } else {
                old(self).current_unsafe_operations@.push(
                    UnsafeOperation {
                        operation_type: op_type,
                        description: description,
                        code_snippet: code_snippet,
                        line_number: None,
                    },
                )
            }),
    {
        if self.current_function.is_none() {
            return ;
        }
        let mut i: usize = 0;
        let n = self.current_unsafe_operations.len();
        while i < n
            invariant
                n == self.current_unsafe_operations@.len(),
                i <= n,
                *self == *old(self),
                forall|j: int|
                    0 <= j < i ==> (#[trigger] self.current_unsafe_operations@[j]).code_snippet@
                        != code_snippet@,
            decreases n - i,
        {
            if str_eq(
                self.current_unsafe_operations[i].code_snippet.as_str(),
                code_snippet.as_str(),
            ) {
                proof {
                    assert(ops_have_snippet(self.current_unsafe_operations@, code_snippet@));
                }
                return ;
            }
            i += 1;
        }
        self.current_unsafe_operations.push(
            UnsafeOperation {
                operation_type: op_type,
                description: description,
                code_snippet: code_snippet,
                line_number: None,
            },
        );
    }

    /// Registers one free function under the current module path and opens
    /// it for the walk of its body. A path that is already on record stays
    /// as it first was: no redefinition is expected within one walk, and
    /// keeping the first record deliberately never retracts a membership
    /// the classification sets have already taken from it.
    pub fn add_function(&mut self, name: String, vis: &Visibility, f: &FnItem)
        requires
            old(self).registry_ok(),
            old(self).current_function is None,
        ensures
            final(self).registry_ok(),
            same_context(*old(self), *final(self)),
            ({
                let fp = old(self).full_path_of(name@);
                if old(self).has_entry(fp) {
                    &&& final(self).functions == old(self).functions
                    &&& final(self).unsafe_functions == old(self).unsafe_functions
                    &&& final(self).current_function is None
                } else {
                    &&& final(self).functions@.len() == old(self).functions@.len() + 1
                    &&& forall|i: int|
                        0 <= i < old(self).functions@.len() ==> final(self).functions@[i] == old(
                            self,
                        ).functions@[i]
                    &&& final(self).functions@.last().path@ == fp
                    &&& ({
                        let info = final(self).functions@.last().info;
                        &&& info.name == name
                        &&& info.module@ == joined_path(old(self).current_module.deep_view())
                        &&& info.visibility == spec_convert_visibility(*vis)
                        &&& info.is_unsafe_fn == f.sig.is_unsafe
                        &&& info.has_internal_unsafe == false
                        &&& info.source_code@ == f.text@
                        &&& info.file_path@ == old(self).file_path@
                        &&& info.param_custom_types.deep_view().to_set() == spec_param_types(
                            f.sig.inputs@,
                            0,
                        )
                        &&& info.return_custom_types.deep_view().to_set() == spec_return_types(
                            f.sig.output,
                        )
                        &&& info.has_self_param == spec_has_self_param(f.sig.inputs@)
                        &&& info.unsafe_operations@.len() == 0
                    })
                    &&& final(self).unsafe_functions == old(self).unsafe_functions
                    &&& (final(self).current_function matches Some(c) && c@ == fp)
                    &&& final(self).has_unsafe == false
                    &&& final(self).current_unsafe_operations@.len() == 0
                }
            }),
    {
        let module = self.get_current_module_path();
        let full = path_join(&module, &name);
        let ghost fp = full@;
        let mut i: usize = 0;
        let n = self.functions.len();
        while i < n
            invariant
                n == self.functions@.len(),
                *self == *old(self),
                old(self).registry_ok(),
                old(self).current_function is None,
                i <= n,
                fp == old(self).full_path_of(name@),
                full@ == fp,
                forall|j: int| 0 <= j < i ==> (#[trigger] self.functions@[j]).path@ != fp,
            decreases n - i,
        {
            if str_eq(self.functions[i].path.as_str(), full.as_str()) {
                proof {
                    assert(old(self).has_entry(fp));
                }
                return ;
            }
            i += 1;
        }
        let (param_types, return_types) = self.analyze_function_signature(&f.sig);
        let has_self = self.sig_has_self_param(&f.sig);
        let owner = if has_self {
            if self.current_module.len() > 0 {
                proof {
                    assert(self.current_module.deep_view()[self.current_module@.len() - 1]
                        == self.current_module@.last()@);
                }
                Some(clone_string(&self.current_module[self.current_module.len() - 1]))
            } else {
                Some(String::new())
            }
        } else {
            None
        };
        let info = FunctionInfo {
            name,
            module: module,
            visibility: self.convert_visibility(vis),
            has_internal_unsafe: false,
            is_unsafe_fn: f.sig.is_unsafe,
            file_path: clone_string(&self.file_path),
            source_code: clone_string(&f.text),
            param_custom_types: param_types,
            return_custom_types: return_types,
            has_self_param: has_self,
            owner_type: owner,
            unsafe_operations: Vec::new(),
        };
        let ghost g0 = *self;
        self.functions.push(FunctionEntry { path: full, info });
        self.current_function = Some(clone_string(&self.functions[self.functions.len() - 1].path));
        self.has_unsafe = false;
        self.current_unsafe_operations = Vec::new();
        proof {
            let g1 = *self;
            assert(g1.functions@ == g0.functions@.push(g1.functions@.last()));
            assert(g1.functions@[g0.functions@.len() as int].path@ == fp);
            assert(g1.has_entry(fp));
            assert forall|q: Seq<char>| #[trigger] g1.listed_unsafe(q) implies g1.has_entry(q) by {
                assert(g0.listed_unsafe(q));
                let k = choose|k: int|
                    0 <= k < g0.functions@.len() && (#[trigger] g0.functions@[k]).path@ == q;
                assert(g1.functions@[k].path@ == q);
            }
            assert(!g1.listed_unsafe(fp)) by {
                if g1.listed_unsafe(fp) {
                    assert(g0.listed_unsafe(fp));
                    assert(g0.has_entry(fp));
                }
            }
            let k = g1.entry_index(fp);
            assert(k == g0.functions@.len()) by {
                if k != g0.functions@.len() {
                    assert(g1.functions@[k].path@ == fp);
                    assert(g0.functions@[k].path@ == fp);
                    assert(g0.has_entry(fp));
                }
            }
            assert forall|i2: int|
                0 <= i2 < g1.functions@.len() && (#[trigger] g1.functions@[i2]).path@ != fp implies
                g1.entry_synced(i2) by {
                assert(g0.functions@[i2] == g1.functions@[i2]);
                assert(g0.entry_synced(i2));
            }
        }
    }

    /// Registers one impl-block method. A method with a receiver also
    /// carries the impl block's own type among its parameter types, and
    /// that type as its owner.
    pub fn add_impl_function(&mut self, name: String, vis: &Visibility, f: &FnItem)
        requires
            old(self).registry_ok(),
            old(self).current_function is None,
        ensures
            final(self).registry_ok(),
            same_context(*old(self), *final(self)),
            ({
                let fp = old(self).full_path_of(name@);
                if old(self).has_entry(fp) {
                    &&& final(self).functions == old(self).functions
                    &&& final(self).unsafe_functions == old(self).unsafe_functions
                    &&& final(self).current_function is None
                } else {
                    &&& final(self).functions@.len() == old(self).functions@.len() + 1
                    &&& forall|i: int|
                        0 <= i < old(self).functions@.len() ==> final(self).functions@[i] == old(
                            self,
                        ).functions@[i]
                    &&& final(self).functions@.last().path@ == fp
                    &&& ({
                        let info = final(self).functions@.last().info;
                        &&& info.name == name
                        &&& info.visibility == spec_convert_visibility(*vis)
                        &&& info.is_unsafe_fn == f.sig.is_unsafe
                        &&& info.has_internal_unsafe == false
                        &&& info.source_code@ == f.text@
                        &&& info.has_self_param == spec_has_receiver(f.sig.inputs@)
                        &&& info.unsafe_operations@.len() == 0
                        &&& info.param_custom_types.deep_view().to_set() == (
                        if spec_has_receiver(f.sig.inputs@) && old(self).current_impl_type is Some {
                            spec_param_types(f.sig.inputs@, 0).insert(
                                old(self).current_impl_type->0@,
                            )
                        } else {
                            spec_param_types(f.sig.inputs@, 0)
                        })
                        &&& info.return_custom_types.deep_view().to_set() == spec_return_types(
                            f.sig.output,
                        )
                    })
                    &&& final(self).unsafe_functions == old(self).unsafe_functions
                    &&& (final(self).current_function matches Some(c) && c@ == fp)
                    &&& final(self).has_unsafe == false
                    &&& final(self).current_unsafe_operations@.len() == 0
                }
            }),
    {
        let module = self.get_current_module_path();
        let full = path_join(&module, &name);
        let ghost fp = full@;
        let mut i: usize = 0;
        let n = self.functions.len();
        while i < n
            invariant
                n == self.functions@.len(),
                *self == *old(self),
                old(self).registry_ok(),
                old(self).current_function is None,
                i <= n,
                fp == old(self).full_path_of(name@),
                full@ == fp,
                forall|j: int| 0 <= j < i ==> (#[trigger] self.functions@[j]).path@ != fp,
            decreases n - i,
        {
            if str_eq(self.functions[i].path.as_str(), full.as_str()) {
                proof {
                    assert(old(self).has_entry(fp));
                }
                return ;
            }
            i += 1;
        }
        let (mut param_types, return_types) = self.analyze_function_signature(&f.sig);
        let has_self = self.sig_has_receiver(&f.sig);
        let mut owner: Option<String> = None;
        if has_self {
            match &self.current_impl_type {
                Some(t) => {
                    let ghost before = param_types.deep_view();
                    if !vec_contains_string(&param_types, t) {
                        param_types.push(clone_string(t));
                        proof {
                            assert(param_types.deep_view() =~= before.push(t@));
                            lemma_push_contains(before, param_types.deep_view(), t@);
                            assert(param_types.deep_view().to_set() =~= spec_param_types(
                                f.sig.inputs@,
                                0,
                            ).insert(t@));
                        }
                    } else {
                        proof {
                            assert(before.to_set().contains(t@));
                            assert(param_types.deep_view().to_set() =~= spec_param_types(
                                f.sig.inputs@,
                                0,
                            ).insert(t@));
                        }
                    }
                    owner = Some(clone_string(t));
                },
                None => {
                    if self.current_module.len() > 0 {
                        proof {
                            assert(self.current_module.deep_view()[self.current_module@.len() - 1]
                                == self.current_module@.last()@);
                        }
                        owner = Some(
                            clone_string(&self.current_module[self.current_module.len() - 1]),
                        );
                    } else {
                        owner = Some(String::new());
                    }
                },
            }
        }
        let info = FunctionInfo {
            name,
            module: module,
            visibility: self.convert_visibility(vis),
            has_internal_unsafe: false,
            is_unsafe_fn: f.sig.is_unsafe,
            file_path: clone_string(&self.file_path),
            source_code: clone_string(&f.text),
            param_custom_types: param_types,
            return_custom_types: return_types,
            has_self_param: has_self,
            owner_type: owner,
            unsafe_operations: Vec::new(),
        };
        let ghost g0 = *self;
        self.functions.push(FunctionEntry { path: full, info });
        self.current_function = Some(clone_string(&self.functions[self.functions.len() - 1].path));
        self.has_unsafe = false;
        self.current_unsafe_operations = Vec::new();
        proof {
            let g1 = *self;
            assert(g1.functions@ == g0.functions@.push(g1.functions@.last()));
            assert(g1.functions@[g0.functions@.len() as int].path@ == fp);
            assert(g1.has_entry(fp));
            assert forall|q: Seq<char>| #[trigger] g1.listed_unsafe(q) implies g1.has_entry(q) by {
                assert(g0.listed_unsafe(q));
                let k = choose|k: int|
                    0 <= k < g0.functions@.len() && (#[trigger] g0.functions@[k]).path@ == q;
                assert(g1.functions@[k].path@ == q);
            }
            assert(!g1.listed_unsafe(fp)) by {
                if g1.listed_unsafe(fp) {
                    assert(g0.listed_unsafe(fp));
                    assert(g0.has_entry(fp));
                }
            }
            let k = g1.entry_index(fp);
            assert(k == g0.functions@.len()) by {
                if k != g0.functions@.len() {
                    assert(g1.functions@[k].path@ == fp);
                    assert(g0.functions@[k].path@ == fp);
                    assert(g0.has_entry(fp));
                }
            }
            assert forall|i2: int|
                0 <= i2 < g1.functions@.len() && (#[trigger] g1.functions@[i2]).path@ != fp implies
                g1.entry_synced(i2) by {
                assert(g0.functions@[i2] == g1.functions@[i2]);
                assert(g0.entry_synced(i2));
            }
        }
    }

    /// Registers one struct, enum or type-alias definition. A path already
    /// on record keeps its first definition.
    pub fn add_type_definition(&mut self, name: String, vis: &Visibility, text: String)
        requires
            old(self).registry_ok(),
        ensures
            final(self).registry_ok(),
            *final(self) == (FunctionVisitor {
                type_definitions: final(self).type_definitions,
                ..*old(self)
            }),
            ({
                let fp = old(self).full_path_of(name@);
                if old(self).has_type(fp) {
                    final(self).type_definitions == old(self).type_definitions
                } else {
                    &&& final(self).type_definitions@.len() == old(self).type_definitions@.len()
                        + 1
                    &&& forall|j: int|
                        0 <= j < old(self).type_definitions@.len() ==> final(self).type_definitions@[j] == old(self).type_definitions@[j]
                    &&& final(self).type_definitions@.last().path@ == fp
                    &&& ({
                        let d = final(self).type_definitions@.last().def;
                        &&& d.name == name
                        &&& d.module@ == joined_path(old(self).current_module.deep_view())
                        &&& d.visibility == spec_convert_visibility(*vis)
                        &&& d.source_code == text
                        &&& d.constructors@.len() == 0
                    })
                }
            }),
    {
        let module = self.get_current_module_path();
        let full = path_join(&module, &name);
        let ghost fp = full@;
        let mut i: usize = 0;
        let n = self.type_definitions.len();
        while i < n
            invariant
                n == self.type_definitions@.len(),
                *self == *old(self),
                old(self).registry_ok(),
                i <= n,
                fp == old(self).full_path_of(name@),
                full@ == fp,
                forall|j: int| 0 <= j < i ==> (#[trigger] self.type_definitions@[j]).path@ != fp,
            decreases n - i,
        {
            if str_eq(self.type_definitions[i].path.as_str(), full.as_str()) {
                proof {
                    assert(old(self).has_type(fp));
                }
                return ;
            }
            i += 1;
        }
        let def = TypeDefinition {
            name,
            module: module,
            visibility: self.convert_visibility(vis),
            source_code: text,
            file_path: clone_string(&self.file_path),
            constructors: Vec::new(),
        };
        let ghost g0 = *self;
        self.type_definitions.push(TypeDefEntry { path: full, def });
        proof {
            let g1 = *self;
            assert(g1.type_definitions@ == g0.type_definitions@.push(g1.type_definitions@.last()));
            assert(g1.type_definitions@[g0.type_definitions@.len() as int].path@ == fp);
            assert forall|a: int, b: int| 0 <= a < b < g1.type_definitions@.len() implies (
            #[trigger] g1.type_definitions@[a]).path@ != (
            #[trigger] g1.type_definitions@[b]).path@ by {
                assert(g1.type_definitions@[a] == g0.type_definitions@[a]);
                if b < g0.type_definitions@.len() {
                    assert(g1.type_definitions@[b] == g0.type_definitions@[b]);
                } else {
                    assert(g1.type_definitions@[b].path@ == fp);
                }
            }
            lemma_registry_same_functions(g0, g1);
        }
    }

    /// The position of the record whose path is `p`, if any.
    fn find_function_index(&self, p: &String) -> (r: Option<usize>)
        ensures
            match r {
                Some(i) => i < self.functions@.len() && self.functions@[i as int].path@ == p@,
                None => !self.has_entry(p@),
            },
    {
        let mut i: usize = 0;
        let n = self.functions.len();
        while i < n
            invariant
                n == self.functions@.len(),
                i <= n,
                forall|j: int| 0 <= j < i ==> (#[trigger] self.functions@[j]).path@ != p@,
            decreases n - i,
        {
            if str_eq(self.functions[i].path.as_str(), p.as_str()) {
                return Some(i);
            }
            i += 1;
        }
        None
    }

    /// Commits the unsafe evidence gathered for the function whose body
    /// was just walked: its record takes the internal-unsafe flag and the
    /// operation list in one step, and the function joins the unsafe set
    /// exactly when it is declared unsafe or held unsafe code.
    pub fn update_unsafe_state(&mut self)
        requires
            old(self).registry_ok(),
        ensures
            final(self).registry_ok(),
            final(self).current_function is None,
            same_context(*old(self), *final(self)),
            final(self).has_unsafe == old(self).has_unsafe,
            final(self).current_unsafe_operations@.len() == 0,
            ({
                match old(self).current_function {
                    None => {
                        &&& final(self).functions == old(self).functions
                        &&& final(self).unsafe_functions == old(self).unsafe_functions
                    },
                    Some(cur) => {
                        let p = cur@;
                        let a = old(self).entry_info(p);
                        let b = final(self).entry_info(p);
                        &&& final(self).has_entry(p)
                        &&& b.name == a.name
                        &&& b.module == a.module
                        &&& b.visibility == a.visibility
                        &&& b.is_unsafe_fn == a.is_unsafe_fn
                        &&& b.file_path == a.file_path
                        &&& b.source_code == a.source_code
                        &&& b.param_custom_types == a.param_custom_types
                        &&& b.return_custom_types == a.return_custom_types
                        &&& b.has_self_param == a.has_self_param
                        &&& b.owner_type == a.owner_type
                        &&& b.has_internal_unsafe == old(self).has_unsafe
                        &&& b.unsafe_operations@ == old(self).current_unsafe_operations@
                        &&& final(self).listed_unsafe(p) == (old(self).has_unsafe
                            || a.is_unsafe_fn)
                        &&& forall|q: Seq<char>|
                            q != p ==> #[trigger] final(self).has_entry(q) == old(self).has_entry(
                                q,
                            )
                        &&& forall|q: Seq<char>|
                            q != p && old(self).has_entry(q) ==> #[trigger] final(self).entry_info(
                                q,
                            ) == old(self).entry_info(q)
                        &&& forall|q: Seq<char>|
                            q != p ==> #[trigger] final(self).listed_unsafe(q) == old(
                                self,
                            ).listed_unsafe(q)
                    },
                }
            }),
    {
        let cur = match &self.current_function {
            Some(s) => clone_string(s),
            None => {
                self.current_unsafe_operations = Vec::new();
                proof {
                    lemma_registry_same_functions(*old(self), *self);
                }
                return ;
            },
        };
        let ghost p = cur@;
        let idx = match self.find_function_index(&cur) {
            Some(i) => i,
            None => {
                proof {
                    assert(false);
                }
                return ;
            },
        };
        let ghost g0 = *self;
        proof {
            let k = g0.entry_index(p);
            assert(g0.functions@[idx as int].path@ == p);
            if k != idx {
                assert(g0.functions@[k].path@ == p);
                assert(false);
            }
        }
        let hu = self.has_unsafe;
        let declared = self.functions[idx].info.is_unsafe_fn;
        let ops = crate::models::clone_operations(&self.current_unsafe_operations);
        self.functions[idx].info.has_internal_unsafe = hu;
        self.functions[idx].info.unsafe_operations = ops;
        self.current_unsafe_operations = Vec::new();
        if hu || declared {
            let ghost ubefore = self.unsafe_functions.deep_view();
            self.unsafe_functions.push(clone_string(&cur));
            proof {
                assert(self.unsafe_functions.deep_view() =~= ubefore.push(p));
                lemma_push_contains(ubefore, self.unsafe_functions.deep_view(), p);
            }
        }
        self.current_function = None;
        proof {
            let g1 = *self;
            assert(g1.functions@.len() == g0.functions@.len());
            assert(g1.functions@[idx as int].path@ == p);
            assert(forall|j: int|
                0 <= j < g1.functions@.len() && j != idx ==> g1.functions@[j] == g0.functions@[j]);
            assert(forall|j: int|
                0 <= j < g1.functions@.len() ==> (#[trigger] g1.functions@[j]).path@
                    == g0.functions@[j].path@);
            assert forall|q: Seq<char>| true implies #[trigger] g1.has_entry(q) == g0.has_entry(
                q,
            ) by {
                if g0.has_entry(q) {
                    let k = choose|k: int|
                        0 <= k < g0.functions@.len() && (#[trigger] g0.functions@[k]).path@ == q;
                    assert(g1.functions@[k].path@ == q);
                }
                if g1.has_entry(q) {
                    let k = choose|k: int|
                        0 <= k < g1.functions@.len() && (#[trigger] g1.functions@[k]).path@ == q;
                    assert(g0.functions@[k].path@ == q);
                }
            }
            assert(g1.has_entry(p));
            assert(g1.entry_index(p) == idx) by {
                let k = g1.entry_index(p);
                if k != idx {
                    assert(g1.functions@[k].path@ == p);
                    assert(g0.functions@[k].path@ == p);
                    assert(false);
                }
            }
            assert forall|q: Seq<char>| q != p && g0.has_entry(q) implies #[trigger] g1.entry_info(
                q,
            ) == g0.entry_info(q) by {
                let k0 = g0.entry_index(q);
                assert(g0.functions@[k0].path@ == q);
                assert(g1.functions@[k0].path@ == q);
                let k1 = g1.entry_index(q);
                if k1 != k0 {
                    assert(g1.functions@[k1].path@ == q);
                    assert(false);
                }
                assert(k0 != idx);
            }
            assert forall|q: Seq<char>| #[trigger] g1.listed_unsafe(q) implies g1.has_entry(q) by {
                if q != p {
                    assert(g0.listed_unsafe(q));
                }
            }
            assert forall|i2: int| 0 <= i2 < g1.functions@.len() implies #[trigger] g1.entry_synced(
                i2,
            ) by {
                if g1.functions@[i2].path@ != p {
                    assert(g0.functions@[i2] == g1.functions@[i2]);
                    assert(g0.entry_synced(i2));
                    assert(g1.listed_unsafe(g1.functions@[i2].path@) == g0.listed_unsafe(
                        g0.functions@[i2].path@,
                    ));
                } else {
                    assert(i2 == idx);
                }
            }
        }
    }
}

impl FunctionVisitor {
    /// Walks one expression, gathering unsafe evidence: the flag is raised
    /// exactly when an unsafe block stands somewhere inside, and the
    /// heuristic detectors file the operations they recognise.
    pub fn visit_expr(&mut self, e: &Expr)
        requires
            old(self).registry_ok(),
        ensures
            final(self).registry_ok(),
            same_registry(*old(self), *final(self)),
            final(self).in_unsafe_block == old(self).in_unsafe_block,
            final(self).has_unsafe == (old(self).has_unsafe || expr_has_unsafe(*e)),
        decreases *e,
    {
        match e {
            Expr::Unsafe(es) => {
                self.has_unsafe = true;
                let prev = self.in_unsafe_block;
                self.in_unsafe_block = true;
                proof {
                    lemma_registry_same_functions(*old(self), *self);
                }
                self.visit_exprs(es);
                self.in_unsafe_block = prev;
                proof {
                    lemma_registry_same_functions(*old(self), *self);
                }
            },
            Expr::Call { callee, args, text } => {
                if let Expr::Path { segments, .. } = &**callee {
                    let path_str = join_module_path(segments);
                    if self.is_known_unsafe_full_path(segments) {
                        self.record_unsafe_operation(
                            UnsafeOperationType::UnsafeFunctionCall,
                            "call of an unsafe function".to_owned(),
                            clone_string(text),
                        );
                    } else if self.is_known_unsafe_function(&path_str) {
                        self.record_unsafe_operation(
                            UnsafeOperationType::UnsafeFunctionCall,
                            "call of an unsafe function".to_owned(),
                            clone_string(text),
                        );
                    }
                    match self.is_common_unsafe_operation(&path_str) {
                        Some(k) => {
                            self.record_unsafe_operation(
                                k,
                                "call of an unsafe operation".to_owned(),
                                clone_string(text),
                            );
                        },
                        None => {},
                    }
                }
                proof {
                    lemma_registry_same_functions(*old(self), *self);
                }
                self.visit_expr(&**callee);
                self.visit_exprs(args);
            },
            Expr::MethodCall { receiver, method, args, text } => {
                if self.has_unsafe_keywords(method.as_str()) {
                    self.record_unsafe_operation(
                        UnsafeOperationType::UnsafeMethodCall,
                        "call of an unsafe method".to_owned(),
                        clone_string(text),
                    );
                }
                match self.is_common_unsafe_operation(method) {
                    Some(k) => {
                        self.record_unsafe_operation(
                            k,
                            "call of an unsafe operation".to_owned(),
                            clone_string(text),
                        );
                    },
                    None => {},
                }
                proof {
                    lemma_registry_same_functions(*old(self), *self);
                }
                self.visit_expr(&**receiver);
                self.visit_exprs(args);
            },
            Expr::Deref { operand, text } => {
                // The reborrow exclusion tests the dereference node's own
                // rendering; a reborrow's leading `&` sits on the enclosing
                // reference node, so this filter is advisory at best.
                if self.in_unsafe_block && self.might_be_raw_pointer(operand) && !str_starts_with(
                    text.as_str(),
                    "& *",
                ) {
                    self.record_unsafe_operation(
                        UnsafeOperationType::RawPointerDereference,
                        "dereference of a raw pointer".to_owned(),
                        clone_string(text),
                    );
                }
                proof {
                    lemma_registry_same_functions(*old(self), *self);
                }
                self.visit_expr(&**operand);
            },
            Expr::Cast { operand, .. } => {
                self.visit_expr(&**operand);
            },
            Expr::Path { .. } => {},
            Expr::Group(es) => {
                self.visit_exprs(es);
            },
            Expr::Leaf => {},
        }
    }

    /// Walks every expression of the list.
    pub fn visit_exprs(&mut self, es: &Vec<Expr>)
        requires
            old(self).registry_ok(),
        ensures
            final(self).registry_ok(),
            same_registry(*old(self), *final(self)),
            final(self).in_unsafe_block == old(self).in_unsafe_block,
            final(self).has_unsafe == (old(self).has_unsafe || exprs_have_unsafe_in(es@)),
        decreases es@,
    {
        let mut i: usize = 0;
        let n = es.len();
        while i < n
            invariant
                n == es@.len(),
                i <= n,
                self.registry_ok(),
                same_registry(*old(self), *self),
                self.in_unsafe_block == old(self).in_unsafe_block,
                self.has_unsafe == (old(self).has_unsafe || exists|j: int|
                    0 <= j < i && expr_has_unsafe(#[trigger] es@[j])),
            decreases n - i,
        {
            self.visit_expr(&es[i]);
            i += 1;
        }
    }

    /// Walks one free function: registers it, walks its body, and commits
    /// the unsafe evidence in one step at the end.
    pub fn visit_item_fn(&mut self, f: &FnItem)
        requires
            old(self).registry_ok(),
            old(self).current_function is None,
        ensures
            final(self).registry_ok(),
            final(self).current_function is None,
            same_context(*old(self), *final(self)),
            forall|q: Seq<char>|
                #[trigger] old(self).has_entry(q) ==> final(self).has_entry(q) && final(self).entry_info(q) == old(self).entry_info(q) && final(self).listed_unsafe(q) == old(
                    self,
                ).listed_unsafe(q),
            forall|q: Seq<char>|
                (#[trigger] final(self).has_entry(q)) <==> (old(self).has_entry(q) || q == old(
                    self,
                ).full_path_of(f.sig.name@)),
            ({
                let fp = old(self).full_path_of(f.sig.name@);
                if old(self).has_entry(fp) {
                    &&& final(self).functions == old(self).functions
                    &&& final(self).unsafe_functions == old(self).unsafe_functions
                } else {
                    &&& final(self).has_entry(fp)
                    &&& ({
                        let info = final(self).entry_info(fp);
                        &&& info.name@ == f.sig.name@
                        &&& info.visibility == spec_convert_visibility(f.vis)
                        &&& info.is_unsafe_fn == f.sig.is_unsafe
                        &&& info.has_internal_unsafe == exprs_have_unsafe_in(f.body@)
                        &&& info.source_code@ == f.text@
                    })
                    &&& final(self).listed_unsafe(fp) == (f.sig.is_unsafe || exprs_have_unsafe_in(
                        f.body@,
                    ))
                    &&& forall|q: Seq<char>|
                        q != fp ==> #[trigger] final(self).has_entry(q) == old(self).has_entry(q)
                    &&& forall|q: Seq<char>|
                        q != fp ==> #[trigger] final(self).listed_unsafe(q) == old(
                            self,
                        ).listed_unsafe(q)
                }
            }),
    {
        let ghost fp = old(self).full_path_of(f.sig.name@);
        self.add_function(clone_string(&f.sig.name), &f.vis, f);
        if self.current_function.is_some() {
            let ghost g1 = *self;
            self.visit_exprs(&f.body);
            let ghost g2 = *self;
            self.update_unsafe_state();
            proof {
                let g3 = *self;
                assert(g1.functions@.last().path@ == fp);
                assert(g1.has_entry(fp));
                assert(g1.entry_index(fp) == g1.functions@.len() - 1) by {
                    let k = g1.entry_index(fp);
                    if k != g1.functions@.len() - 1 {
                        assert(g1.functions@[k].path@ == fp);
                        assert(old(self).functions@[k].path@ == fp);
                        assert(old(self).has_entry(fp));
                    }
                }
                assert forall|q: Seq<char>| q != fp implies #[trigger] g3.has_entry(q) == old(
                    self,
                ).has_entry(q) by {
                    assert(g3.has_entry(q) == g1.has_entry(q));
                    if old(self).has_entry(q) {
                        let k = choose|k: int|
                            0 <= k < old(self).functions@.len() && (#[trigger] old(
                                self,
                            ).functions@[k]).path@ == q;
                        assert(g1.functions@[k].path@ == q);
                    }
                    if g1.has_entry(q) {
                        let k = choose|k: int|
                            0 <= k < g1.functions@.len() && (#[trigger] g1.functions@[k]).path@
                                == q;
                        assert(k < old(self).functions@.len());
                        assert(old(self).functions@[k].path@ == q);
                    }
                }
                assert(!old(self).has_entry(fp));
                lemma_entries_preserved(g1, g2);
                assert forall|q: Seq<char>| q != fp implies #[trigger] g3.has_entry(q)
                    == g1.has_entry(q) by {
                    assert(g3.has_entry(q) == g2.has_entry(q));
                    if g1.has_entry(q) {
                    }
                    if g2.has_entry(q) {
                    }
                }
                assert forall|q: Seq<char>| q != fp && g1.has_entry(q) implies
                    #[trigger] g3.entry_info(q) == g1.entry_info(q) by {
                    assert(g2.has_entry(q) && g2.entry_info(q) == g1.entry_info(q));
                    assert(g3.entry_info(q) == g2.entry_info(q));
                }
                assert forall|q: Seq<char>| q != fp implies #[trigger] g3.listed_unsafe(q)
                    == g1.listed_unsafe(q) by {
                    assert(g3.listed_unsafe(q) == g2.listed_unsafe(q));
                    assert(g2.listed_unsafe(q) == g1.listed_unsafe(q));
                }
                assert(g3.has_entry(fp));
                lemma_walked_fn(*old(self), g1, g3, fp);
            }
        } else {
            proof {
                assert(old(self).has_entry(fp));
                lemma_entries_preserved(*old(self), *self);
            }
        }
    }

    /// Walks one impl-block method, in the same three steps.
    pub fn visit_impl_item_fn(&mut self, f: &FnItem)
        requires
            old(self).registry_ok(),
            old(self).current_function is None,
        ensures
            final(self).registry_ok(),
            final(self).current_function is None,
            same_context(*old(self), *final(self)),
            forall|q: Seq<char>|
                #[trigger] old(self).has_entry(q) ==> final(self).has_entry(q) && final(self).entry_info(q) == old(self).entry_info(q) && final(self).listed_unsafe(q) == old(self).listed_unsafe(q),
            forall|q: Seq<char>|
                (#[trigger] final(self).has_entry(q)) <==> (old(self).has_entry(q) || q == old(self).full_path_of(f.sig.name@)),
            ({
                let fp = old(self).full_path_of(f.sig.name@);
                if old(self).has_entry(fp) {
                    &&& final(self).functions == old(self).functions
                    &&& final(self).unsafe_functions == old(self).unsafe_functions
                } else {
                    &&& final(self).has_entry(fp)
                    &&& ({
                        let info = final(self).entry_info(fp);
                        &&& info.name@ == f.sig.name@
                        &&& info.visibility == spec_convert_visibility(f.vis)
                        &&& info.is_unsafe_fn == f.sig.is_unsafe
                        &&& info.has_internal_unsafe == exprs_have_unsafe_in(f.body@)
                        &&& info.source_code@ == f.text@
                    })
                    &&& final(self).listed_unsafe(fp) == (f.sig.is_unsafe || exprs_have_unsafe_in(
                        f.body@,
                    ))
                }
            }),
    {
        let ghost fp = old(self).full_path_of(f.sig.name@);
        self.add_impl_function(clone_string(&f.sig.name), &f.vis, f);
        if self.current_function.is_some() {
            let ghost g1 = *self;
            self.visit_exprs(&f.body);
            let ghost g2 = *self;
            self.update_unsafe_state();
            proof {
                let g3 = *self;
                assert(g1.functions@.last().path@ == fp);
                assert(g1.has_entry(fp));
                assert(g1.entry_index(fp) == g1.functions@.len() - 1) by {
                    let k = g1.entry_index(fp);
                    if k != g1.functions@.len() - 1 {
                        assert(g1.functions@[k].path@ == fp);
                        assert(old(self).functions@[k].path@ == fp);
                        assert(old(self).has_entry(fp));
                    }
                }
                assert(!old(self).has_entry(fp));
                lemma_entries_preserved(g1, g2);
                assert forall|q: Seq<char>| q != fp implies #[trigger] g3.has_entry(q)
                    == g1.has_entry(q) by {
                    assert(g3.has_entry(q) == g2.has_entry(q));
                    if g1.has_entry(q) {
                    }
                    if g2.has_entry(q) {
                    }
                }
                assert forall|q: Seq<char>| q != fp && g1.has_entry(q) implies
                    #[trigger] g3.entry_info(q) == g1.entry_info(q) by {
                    assert(g2.has_entry(q) && g2.entry_info(q) == g1.entry_info(q));
                    assert(g3.entry_info(q) == g2.entry_info(q));
                }
                assert forall|q: Seq<char>| q != fp implies #[trigger] g3.listed_unsafe(q)
                    == g1.listed_unsafe(q) by {
                    assert(g3.listed_unsafe(q) == g2.listed_unsafe(q));
                    assert(g2.listed_unsafe(q) == g1.listed_unsafe(q));
                }
                assert(g3.has_entry(fp));
                lemma_walked_fn(*old(self), g1, g3, fp);
            }
        } else {
            proof {
                assert(old(self).has_entry(fp));
                lemma_entries_preserved(*old(self), *self);
            }
        }
    }
}

impl FunctionVisitor {
    /// Appends one constructor fragment to every recorded type definition
    /// bearing the given name.
    fn append_constructor(&mut self, tname: &String, fragment: &String)
        requires
            old(self).registry_ok(),
        ensures
            final(self).registry_ok(),
            *final(self) == (FunctionVisitor {
                type_definitions: final(self).type_definitions,
                ..*old(self)
            }),
            final(self).type_definitions@.len() == old(self).type_definitions@.len(),
            forall|j: int|
                0 <= j < old(self).type_definitions@.len() ==> type_def_extended(
                    old(self).type_definitions@[j],
                    #[trigger] final(self).type_definitions@[j],
                ),
            forall|j: int|
                0 <= j < old(self).type_definitions@.len() ==> (
                #[trigger] final(self).type_definitions@[j]).def.constructors.deep_view() == old(
                    self,
                ).type_definitions@[j].def.constructors.deep_view() + (if old(
                    self,
                ).type_definitions@[j].def.name@ == tname@ {
                    seq![fragment@]
                } else {
                    Seq::<Seq<char>>::empty()
                }),
    {
        let mut j: usize = 0;
        let n = self.type_definitions.len();
        while j < n
            invariant
                n == self.type_definitions@.len(),
                j <= n,
                old(self).registry_ok(),
                *self == (FunctionVisitor {
                    type_definitions: self.type_definitions,
                    ..*old(self)
                }),
                self.type_definitions@.len() == old(self).type_definitions@.len(),
                forall|k: int|
                    0 <= k < old(self).type_definitions@.len() ==> type_def_extended(
                        old(self).type_definitions@[k],
                        #[trigger] self.type_definitions@[k],
                    ),
                forall|k: int|
                    j <= k < old(self).type_definitions@.len() ==> #[trigger] self.type_definitions@[k]
                        == old(self).type_definitions@[k],
                forall|k: int|
                    0 <= k < j ==> (
                    #[trigger] self.type_definitions@[k]).def.constructors.deep_view() == old(
                        self,
                    ).type_definitions@[k].def.constructors.deep_view() + (if old(
                        self,
                    ).type_definitions@[k].def.name@ == tname@ {
                        seq![fragment@]
                    } else {
                        Seq::<Seq<char>>::empty()
                    }),
            decreases n - j,
        {
            let ghost before = self.type_definitions@;
            if str_eq(self.type_definitions[j].def.name.as_str(), tname.as_str()) {
                self.type_definitions[j].def.constructors.push(clone_string(fragment));
                proof {
                    assert(self.type_definitions@[j as int].def.constructors.deep_view()
                        =~= before[j as int].def.constructors.deep_view() + seq![fragment@]);
                    assert forall|k: int|
                        0 <= k < old(self).type_definitions@.len() implies type_def_extended(
                        old(self).type_definitions@[k],
                        #[trigger] self.type_definitions@[k],
                    ) by {
                        if k != j {
                            assert(self.type_definitions@[k] == before[k]);
                        } else {
                            assert(before[k].def.constructors@.is_prefix_of(
                                self.type_definitions@[k].def.constructors@,
                            )) by {
                                assert(self.type_definitions@[k].def.constructors@.subrange(
                                    0,
                                    before[k].def.constructors@.len() as int,
                                ) =~= before[k].def.constructors@);
                            }
                        }
                    }
                }
            } else {
                proof {
                    assert(self.type_definitions@[j as int].def.constructors.deep_view()
                        =~= before[j as int].def.constructors.deep_view() + Seq::<
                        Seq<char>,
                    >::empty());
                }
            }
            j += 1;
        }
        proof {
            lemma_registry_same_functions(*old(self), *self);
        }
    }

    /// Walks one impl block: collects the safe constructors that its
    /// methods offer for the matching type definitions, then walks every
    /// method. An impl whose self type is not a simple path is skipped.
    pub fn visit_item_impl(&mut self, b: &ImplBlock)
        requires
            old(self).registry_ok(),
            old(self).current_function is None,
            old(self).current_impl_type is None,
        ensures
            final(self).registry_ok(),
            final(self).current_function is None,
            final(self).current_impl_type is None,
            final(self).current_module == old(self).current_module,
            final(self).file_path == old(self).file_path,
            final(self).source_code == old(self).source_code,
            final(self).known_unsafe_functions == old(self).known_unsafe_functions,
            final(self).in_unsafe_block == old(self).in_unsafe_block,
            final(self).type_definitions@.len() == old(self).type_definitions@.len(),
            forall|j: int|
                0 <= j < old(self).type_definitions@.len() ==> type_def_extended(
                    old(self).type_definitions@[j],
                    #[trigger] final(self).type_definitions@[j],
                ),
            forall|j: int|
                0 <= j < old(self).type_definitions@.len() ==> (
                #[trigger] final(self).type_definitions@[j]).def.constructors.deep_view() == old(
                    self,
                ).type_definitions@[j].def.constructors.deep_view() + (
                match impl_target_name(*b) {
                    Some(tn) => if old(self).type_definitions@[j].def.name@ == tn {
                        impl_ctor_fragments(*b)
                    } else {
                        Seq::<Seq<char>>::empty()
                    },
                    None => Seq::<Seq<char>>::empty(),
                }),
            forall|q: Seq<char>|
                #[trigger] old(self).has_entry(q) ==> final(self).has_entry(q) && final(self).entry_info(q) == old(self).entry_info(q) && final(self).listed_unsafe(q) == old(self).listed_unsafe(q),
            ({
                let defs = fn_defs_of_item(Item::Impl(*b), old(self).current_module.deep_view());
                &&& forall|q: Seq<char>|
                    (#[trigger] final(self).has_entry(q)) <==> (old(self).has_entry(q) || exists|t: int| 0 <= t < defs.len() && (#[trigger] defs[t]).0 == q)
                &&& forall|t: int|
                    0 <= t < defs.len() ==> final(self).has_entry((#[trigger] defs[t]).0)
                &&& forall|t: int|
                    0 <= t < defs.len() && !old(self).has_entry((#[trigger] defs[t]).0)
                        && first_def_at(defs, t) ==> records_def(*final(self), defs[t].0, defs[t].1)
            }),
    {
        let tname = match &b.self_type {
            SelfType::Named(segs) => {
                if segs.len() == 0 {
                    proof {
                        assert(fn_defs_of_item(
                            Item::Impl(*b),
                            old(self).current_module.deep_view(),
                        ) =~= Seq::<(Seq<char>, FnItem)>::empty());
                        assert(impl_target_name(*b) is None);
                        assert(forall|j: int|
                            0 <= j < old(self).type_definitions@.len()
                                ==> (#[trigger] self.type_definitions@[j]).def.constructors.deep_view()
                                =~= old(self).type_definitions@[j].def.constructors.deep_view()
                                + Seq::<Seq<char>>::empty());
                    }
                    return ;
                }
                clone_string(&segs[segs.len() - 1])
            },
            SelfType::Other => {
                proof {
                    assert(fn_defs_of_item(
                        Item::Impl(*b),
                        old(self).current_module.deep_view(),
                    ) =~= Seq::<(Seq<char>, FnItem)>::empty());
                    assert(impl_target_name(*b) is None);
                    assert(forall|j: int|
                        0 <= j < old(self).type_definitions@.len()
                            ==> (#[trigger] self.type_definitions@[j]).def.constructors.deep_view()
                            =~= old(self).type_definitions@[j].def.constructors.deep_view()
                            + Seq::<Seq<char>>::empty());
                }
                return ;
            },
        };
        let ghost tn = tname@;
        proof {
            assert(impl_target_name(*b) == Some(tn));
        }
        self.current_impl_type = Some(clone_string(&tname));
        proof {
            lemma_registry_same_functions(*old(self), *self);
        }
        let is_default = match &b.trait_name {
            Some(t) => str_eq(t.as_str(), "Default"),
            None => false,
        };
        let ghost tdpre = *self;
        if is_default {
            self.append_constructor(&tname, &b.text);
            proof {
                match &b.trait_name {
                    Some(t) => {
                        assert(t@ == "Default"@);
                    },
                    None => {
                        assert(false);
                    },
                }
                assert(impl_ctor_fragments(*b) == seq![b.text@]);
                assert forall|j: int| 0 <= j < old(self).type_definitions@.len() implies (
                    #[trigger] self.type_definitions@[j]).def.constructors.deep_view() == old(
                    self,
                ).type_definitions@[j].def.constructors.deep_view() + (if old(
                    self,
                ).type_definitions@[j].def.name@ == tn {
                    impl_ctor_fragments(*b)
                } else {
                    Seq::<Seq<char>>::empty()
                }) by {
                    assert(tdpre.type_definitions@[j] == old(self).type_definitions@[j]);
                }
            }
        } else {
            let mut k: usize = 0;
            let n = b.methods.len();
            let ghost mut done: Seq<Seq<char>> = Seq::empty();
            proof {
                assert(done + ctor_fragments(b.methods@, tn, 0) =~= ctor_fragments(
                    b.methods@,
                    tn,
                    0,
                ));
            }
            while k < n
                invariant
                    n == b.methods@.len(),
                    k <= n,
                    self.registry_ok(),
                    self.current_function is None,
                    self.current_module == old(self).current_module,
                    self.file_path == old(self).file_path,
                    self.source_code == old(self).source_code,
                    self.known_unsafe_functions == old(self).known_unsafe_functions,
                    self.in_unsafe_block == old(self).in_unsafe_block,
                    self.functions == old(self).functions,
                    self.unsafe_functions == old(self).unsafe_functions,
                    self.current_impl_type is Some,
                    tn == tname@,
                    self.type_definitions@.len() == old(self).type_definitions@.len(),
                    done + ctor_fragments(b.methods@, tn, k as int) == ctor_fragments(
                        b.methods@,
                        tn,
                        0,
                    ),
                    forall|j: int|
                        0 <= j < old(self).type_definitions@.len() ==> type_def_extended(
                            old(self).type_definitions@[j],
                            #[trigger] self.type_definitions@[j],
                        ),
                    forall|j: int|
                        0 <= j < old(self).type_definitions@.len() ==> (
                        #[trigger] self.type_definitions@[j]).def.constructors.deep_view() == old(
                            self,
                        ).type_definitions@[j].def.constructors.deep_view() + (if old(
                            self,
                        ).type_definitions@[j].def.name@ == tn {
                            done
                        } else {
                            Seq::<Seq<char>>::empty()
                        }),
                decreases n - k,
            {
                let m = &b.methods[k];
                if self.is_constructor(m, &tname) && !m.sig.is_unsafe {
                    let mut w = "impl ".to_owned();
                    w.append(tname.as_str());
                    w.append(" {\n    ");
                    w.append(m.text.as_str());
                    w.append("\n}");
                    proof {
                        assert(w@ == wrapped_ctor(tn, b.methods@[k as int].text@));
                    }
                    let ghost mid = *self;
                    self.append_constructor(&tname, &w);
                    proof {
                        assert(ctor_fragments(b.methods@, tn, k as int) == seq![wrapped_ctor(
                            tn,
                            b.methods@[k as int].text@,
                        )] + ctor_fragments(b.methods@, tn, k + 1));
                        assert forall|j: int|
                            0 <= j < old(self).type_definitions@.len() implies type_def_extended(
                            old(self).type_definitions@[j],
                            #[trigger] self.type_definitions@[j],
                        ) by {
                            assert(type_def_extended(
                                old(self).type_definitions@[j],
                                mid.type_definitions@[j],
                            ));
                            assert(type_def_extended(
                                mid.type_definitions@[j],
                                self.type_definitions@[j],
                            ));
                            lemma_type_def_extended_trans(
                                old(self).type_definitions@[j],
                                mid.type_definitions@[j],
                                self.type_definitions@[j],
                            );
                        }
                        assert forall|j: int|
                            0 <= j < old(self).type_definitions@.len() implies (
                            #[trigger] self.type_definitions@[j]).def.constructors.deep_view()
                            == old(self).type_definitions@[j].def.constructors.deep_view() + (
                        if old(self).type_definitions@[j].def.name@ == tn {
                            done.push(w@)
                        } else {
                            Seq::<Seq<char>>::empty()
                        }) by {
                            assert(mid.type_definitions@[j].def.name@ == old(
                                self,
                            ).type_definitions@[j].def.name@);
                            if old(self).type_definitions@[j].def.name@ == tn {
                                assert(self.type_definitions@[j].def.constructors.deep_view()
                                    =~= (old(
                                    self,
                                ).type_definitions@[j].def.constructors.deep_view() + done) + seq![
                                    w@,
                                ]);
                                assert(old(self).type_definitions@[j].def.constructors.deep_view()
                                    + done.push(w@) =~= (old(
                                    self,
                                ).type_definitions@[j].def.constructors.deep_view() + done) + seq![
                                    w@,
                                ]);
                            } else {
                                assert(self.type_definitions@[j].def.constructors.deep_view()
                                    =~= old(
                                    self,
                                ).type_definitions@[j].def.constructors.deep_view() + Seq::<
                                    Seq<char>,
                                >::empty());
                            }
                        }
                        done = done.push(w@);
                        assert(done + ctor_fragments(b.methods@, tn, k + 1) =~= ctor_fragments(
                            b.methods@,
                            tn,
                            0,
                        ));
                    }
                } else {
                    proof {
                        assert(ctor_fragments(b.methods@, tn, k as int) == ctor_fragments(
                            b.methods@,
                            tn,
                            k + 1,
                        ));
                    }
                }
                k += 1;
            }
            proof {
                assert(ctor_fragments(b.methods@, tn, n as int) =~= Seq::<Seq<char>>::empty());
                assert(done =~= ctor_fragments(b.methods@, tn, 0));
                match &b.trait_name {
                    Some(t) => {
                        assert(t@ != "Default"@);
                    },
                    None => {},
                }
                assert(impl_ctor_fragments(*b) == ctor_fragments(b.methods@, tn, 0));
            }
        }
        let ghost m0 = old(self).current_module.deep_view();
        let ghost mdefs = fn_defs_methods(b.methods@, m0, 0);
        let ghost tdc = self.type_definitions;
        proof {
            lemma_fn_defs_methods_len(b.methods@, m0, 0);
        }
        let mut k: usize = 0;
        let n = b.methods.len();
        while k < n
            invariant
                n == b.methods@.len(),
                k <= n,
                self.registry_ok(),
                self.current_function is None,
                self.current_module == old(self).current_module,
                self.current_module.deep_view() == m0,
                self.file_path == old(self).file_path,
                self.source_code == old(self).source_code,
                self.known_unsafe_functions == old(self).known_unsafe_functions,
                self.in_unsafe_block == old(self).in_unsafe_block,
                self.type_definitions == tdc,
                self.type_definitions@.len() == old(self).type_definitions@.len(),
                mdefs == fn_defs_methods(b.methods@, m0, 0),
                mdefs.len() == n,
                forall|j: int|
                    0 <= j < old(self).type_definitions@.len() ==> type_def_extended(
                        old(self).type_definitions@[j],
                        #[trigger] self.type_definitions@[j],
                    ),
                forall|j: int|
                    0 <= j < old(self).type_definitions@.len() ==> (
                    #[trigger] self.type_definitions@[j]).def.constructors.deep_view() == old(
                        self,
                    ).type_definitions@[j].def.constructors.deep_view() + (
                    match impl_target_name(*b) {
                        Some(tgt) => if old(self).type_definitions@[j].def.name@ == tgt {
                            impl_ctor_fragments(*b)
                        } else {
                            Seq::<Seq<char>>::empty()
                        },
                        None => Seq::<Seq<char>>::empty(),
                    }),
                forall|q: Seq<char>|
                    #[trigger] old(self).has_entry(q) ==> self.has_entry(q) && self.entry_info(q) == old(self).entry_info(q) && self.listed_unsafe(q) == old(self).listed_unsafe(q),
                forall|q: Seq<char>|
                    (#[trigger] self.has_entry(q)) <==> (old(self).has_entry(q) || exists|t: int| 0 <= t < k && (#[trigger] mdefs[t]).0 == q),
                forall|t: int| 0 <= t < k ==> self.has_entry((#[trigger] mdefs[t]).0),
                forall|t: int|
                    0 <= t < k && !old(self).has_entry((#[trigger] mdefs[t]).0) && first_def_at(
                        mdefs,
                        t,
                    ) ==> records_def(*self, mdefs[t].0, mdefs[t].1),
            decreases n - k,
        {
            let ghost prek = *self;
            self.visit_impl_item_fn(&b.methods[k]);
            proof {
                let cur = *self;
                lemma_fn_defs_methods_at(b.methods@, m0, 0, k as int);
                let fpk = prek.full_path_of(b.methods@[k as int].sig.name@);
                assert(fpk == mdefs[k as int].0);
                assert forall|q: Seq<char>| (#[trigger] cur.has_entry(q)) <==> (old(
                    self,
                ).has_entry(q) || exists|t: int|
                    0 <= t < k + 1 && (#[trigger] mdefs[t]).0 == q) by {
                    if cur.has_entry(q) {
                        assert(prek.has_entry(q) || q == fpk);
                        if q == fpk {
                            assert(mdefs[k as int].0 == q);
                        }
                    }
                    if old(self).has_entry(q) || exists|t: int|
                        0 <= t < k + 1 && (#[trigger] mdefs[t]).0 == q {
                        if exists|t: int| 0 <= t < k + 1 && (#[trigger] mdefs[t]).0 == q {
                            let t = choose|t: int| 0 <= t < k + 1 && (#[trigger] mdefs[t]).0 == q;
                            if t < k {
                                assert(prek.has_entry(q));
                            } else {
                                assert(q == fpk);
                            }
                        } else {
                            assert(prek.has_entry(q));
                        }
                        assert(cur.has_entry(q));
                    }
                }
                assert forall|t: int|
                    0 <= t < k + 1 && !old(self).has_entry((#[trigger] mdefs[t]).0)
                        && first_def_at(mdefs, t) implies records_def(
                    cur,
                    mdefs[t].0,
                    mdefs[t].1,
                ) by {
                    if t < k {
                        assert(records_def(prek, mdefs[t].0, mdefs[t].1));
                        assert(prek.has_entry(mdefs[t].0));
                    } else {
                        assert(mdefs[t].1 == b.methods@[k as int]);
                        assert(!prek.has_entry(fpk)) by {
                            if prek.has_entry(fpk) {
                                let t2 = choose|t2: int|
                                    0 <= t2 < k && (#[trigger] mdefs[t2]).0 == fpk;
                                assert(false);
                            }
                        }
                    }
                }
            }
            k += 1;
        }
        let ghost pre = *self;
        self.current_impl_type = None;
        proof {
            lemma_registry_same_functions(pre, *self);
            lemma_entries_preserved(pre, *self);
            let fin = *self;
            assert(fn_defs_of_item(Item::Impl(*b), old(self).current_module.deep_view())
                == mdefs);
            assert forall|t: int|
                0 <= t < mdefs.len() && !old(self).has_entry((#[trigger] mdefs[t]).0)
                    && first_def_at(mdefs, t) implies records_def(fin, mdefs[t].0, mdefs[t].1) by {
                assert(records_def(pre, mdefs[t].0, mdefs[t].1));
                assert(pre.has_entry(mdefs[t].0));
            }
            assert forall|t: int| 0 <= t < mdefs.len() implies fin.has_entry(
                (#[trigger] mdefs[t]).0,
            ) by {
                assert(pre.has_entry(mdefs[t].0));
            }
        }
    }

    /// Walks one item: a module pushes its name around its children, a
    /// function or an impl block is visited, a type definition is
    /// registered, and anything else is passed over. The walk records
    /// every function definition the item holds, the first definition of
    /// each path winning, and touches no other record.
    pub fn visit_item(&mut self, it: &Item)
        requires
            old(self).registry_ok(),
            old(self).current_function is None,
            old(self).current_impl_type is None,
        ensures
            final(self).registry_ok(),
            final(self).current_function is None,
            final(self).current_impl_type is None,
            final(self).current_module@ == old(self).current_module@,
            final(self).file_path == old(self).file_path,
            final(self).source_code == old(self).source_code,
            final(self).known_unsafe_functions == old(self).known_unsafe_functions,
            final(self).in_unsafe_block == old(self).in_unsafe_block,
            forall|q: Seq<char>|
                #[trigger] old(self).has_entry(q) ==> final(self).has_entry(q) && final(self).entry_info(q) == old(self).entry_info(q) && final(self).listed_unsafe(q) == old(self).listed_unsafe(q),
            ({
                let defs = fn_defs_of_item(*it, old(self).current_module.deep_view());
                &&& forall|q: Seq<char>|
                    (#[trigger] final(self).has_entry(q)) <==> (old(self).has_entry(q) || exists|t: int| 0 <= t < defs.len() && (#[trigger] defs[t]).0 == q)
                &&& forall|t: int|
                    0 <= t < defs.len() ==> final(self).has_entry((#[trigger] defs[t]).0)
                &&& forall|t: int|
                    0 <= t < defs.len() && !old(self).has_entry((#[trigger] defs[t]).0)
                        && first_def_at(defs, t) ==> records_def(*final(self), defs[t].0, defs[t].1)
            }),
        decreases *it,
    {
        match it {
            Item::Module { name, items } => {
                self.current_module.push(clone_string(name));
                proof {
                    lemma_registry_same_functions(*old(self), *self);
                    lemma_entries_preserved(*old(self), *self);
                    assert(self.current_module.deep_view() =~= old(
                        self,
                    ).current_module.deep_view().push(name@));
                }
                let ghost g1 = *self;
                self.visit_items(items);
                let ghost pre2 = *self;
                self.current_module.pop();
                proof {
                    lemma_registry_same_functions(pre2, *self);
                    lemma_entries_preserved(pre2, *self);
                    assert(self.current_module@ =~= old(self).current_module@);
                    let defs = fn_defs_of_item(*it, old(self).current_module.deep_view());
                    assert(defs == fn_defs_in(
                        items@,
                        old(self).current_module.deep_view().push(name@),
                        0,
                    ));
                    assert(defs == fn_defs_in(items@, g1.current_module.deep_view(), 0));
                    let fin = *self;
                    assert forall|q: Seq<char>| #[trigger] old(self).has_entry(q) implies
                        fin.has_entry(q) && fin.entry_info(q) == old(self).entry_info(q)
                        && fin.listed_unsafe(q) == old(self).listed_unsafe(q) by {
                        assert(g1.has_entry(q) && g1.entry_info(q) == old(self).entry_info(q));
                        assert(pre2.has_entry(q) && pre2.entry_info(q) == g1.entry_info(q)
                            && pre2.listed_unsafe(q) == g1.listed_unsafe(q));
                        assert(fin.has_entry(q) && fin.entry_info(q) == pre2.entry_info(q));
                    }
                    assert forall|q: Seq<char>| (#[trigger] fin.has_entry(q)) <==> (old(
                        self,
                    ).has_entry(q) || exists|t: int|
                        0 <= t < defs.len() && (#[trigger] defs[t]).0 == q) by {
                        assert(fin.has_entry(q) == pre2.has_entry(q));
                        assert(g1.has_entry(q) == old(self).has_entry(q));
                    }
                    assert forall|t: int|
                        0 <= t < defs.len() && !old(self).has_entry((#[trigger] defs[t]).0)
                            && first_def_at(defs, t) implies records_def(
                        fin,
                        defs[t].0,
                        defs[t].1,
                    ) by {
                        assert(!g1.has_entry(defs[t].0)) by {
                            if g1.has_entry(defs[t].0) {
                                assert(old(self).has_entry(defs[t].0));
                            }
                        }
                        assert(records_def(pre2, defs[t].0, defs[t].1));
                        assert(pre2.has_entry(defs[t].0));
                    }
                    assert forall|t: int| 0 <= t < defs.len() implies fin.has_entry(
                        (#[trigger] defs[t]).0,
                    ) by {
                        assert(pre2.has_entry(defs[t].0));
                    }
                }
            },
            Item::Function(f) => {
                self.visit_item_fn(f);
                proof {
                    let fin = *self;
                    let defs = fn_defs_of_item(*it, old(self).current_module.deep_view());
                    let fp = old(self).full_path_of(f.sig.name@);
                    assert(defs =~= seq![(fp, *f)]);
                    assert(defs[0].0 == fp);
                    assert forall|q: Seq<char>| (#[trigger] fin.has_entry(q)) <==> (old(
                        self,
                    ).has_entry(q) || exists|t: int|
                        0 <= t < defs.len() && (#[trigger] defs[t]).0 == q) by {
                        if fin.has_entry(q) && !old(self).has_entry(q) {
                            assert(q == fp);
                            assert(defs[0].0 == q);
                        }
                        if exists|t: int| 0 <= t < defs.len() && (#[trigger] defs[t]).0 == q {
                            assert(q == fp);
                        }
                    }
                    assert(fin.has_entry(defs[0].0));
                }
            },
            Item::TypeDef(t) => {
                self.add_type_definition(clone_string(&t.name), &t.vis, clone_string(&t.text));
                proof {
                    lemma_entries_preserved(*old(self), *self);
                    assert(fn_defs_of_item(*it, old(self).current_module.deep_view()) =~= Seq::<
                        (Seq<char>, FnItem),
                    >::empty());
                }
            },
            Item::Impl(b) => {
                self.visit_item_impl(b);
                proof {
                    assert(fn_defs_of_item(*it, old(self).current_module.deep_view())
                        == fn_defs_of_item(
                        Item::Impl(*b),
                        old(self).current_module.deep_view(),
                    ));
                }
            },
            Item::Use(_) => {
                proof {
                    assert(fn_defs_of_item(*it, old(self).current_module.deep_view()) =~= Seq::<
                        (Seq<char>, FnItem),
                    >::empty());
                }
            },
            Item::Other => {
                proof {
                    assert(fn_defs_of_item(*it, old(self).current_module.deep_view()) =~= Seq::<
                        (Seq<char>, FnItem),
                    >::empty());
                }
            },
        }
    }

    /// Walks every item of the list from first to last, recording every
    /// function definition they hold; the first definition of a path wins,
    /// and records that already stand are left exactly as they are.
    pub fn visit_items(&mut self, items: &Vec<Item>)
        requires
            old(self).registry_ok(),
            old(self).current_function is None,
            old(self).current_impl_type is None,
        ensures
            final(self).registry_ok(),
            final(self).current_function is None,
            final(self).current_impl_type is None,
            final(self).current_module@ == old(self).current_module@,
            final(self).file_path == old(self).file_path,
            final(self).source_code == old(self).source_code,
            final(self).known_unsafe_functions == old(self).known_unsafe_functions,
            final(self).in_unsafe_block == old(self).in_unsafe_block,
            forall|q: Seq<char>|
                #[trigger] old(self).has_entry(q) ==> final(self).has_entry(q) && final(self).entry_info(q) == old(self).entry_info(q) && final(self).listed_unsafe(q) == old(self).listed_unsafe(q),
            ({
                let defs = fn_defs_in(items@, old(self).current_module.deep_view(), 0);
                &&& forall|q: Seq<char>|
                    (#[trigger] final(self).has_entry(q)) <==> (old(self).has_entry(q) || exists|t: int| 0 <= t < defs.len() && (#[trigger] defs[t]).0 == q)
                &&& forall|t: int|
                    0 <= t < defs.len() ==> final(self).has_entry((#[trigger] defs[t]).0)
                &&& forall|t: int|
                    0 <= t < defs.len() && !old(self).has_entry((#[trigger] defs[t]).0)
                        && first_def_at(defs, t) ==> records_def(*final(self), defs[t].0, defs[t].1)
            }),
        decreases items@,
    {
        let ghost m0 = old(self).current_module.deep_view();
        let ghost full = fn_defs_in(items@, m0, 0);
        let ghost mut covered: int = 0;
        proof {
            assert(full =~= full.take(0) + fn_defs_in(items@, m0, 0));
        }
        let mut i: usize = 0;
        let n = items.len();
        while i < n
            invariant
                n == items@.len(),
                i <= n,
                self.registry_ok(),
                self.current_function is None,
                self.current_impl_type is None,
                self.current_module@ == old(self).current_module@,
                self.current_module.deep_view() == m0,
                self.file_path == old(self).file_path,
                self.source_code == old(self).source_code,
                self.known_unsafe_functions == old(self).known_unsafe_functions,
                self.in_unsafe_block == old(self).in_unsafe_block,
                full == fn_defs_in(items@, m0, 0),
                0 <= covered <= full.len(),
                full == full.take(covered) + fn_defs_in(items@, m0, i as int),
                forall|q: Seq<char>|
                    #[trigger] old(self).has_entry(q) ==> self.has_entry(q) && self.entry_info(q) == old(self).entry_info(q) && self.listed_unsafe(q) == old(self).listed_unsafe(q),
                forall|q: Seq<char>|
                    (#[trigger] self.has_entry(q)) <==> (old(self).has_entry(q) || exists|t: int| 0 <= t < covered && (#[trigger] full[t]).0 == q),
                forall|t: int| 0 <= t < covered ==> self.has_entry((#[trigger] full[t]).0),
                forall|t: int|
                    0 <= t < covered && !old(self).has_entry((#[trigger] full[t]).0)
                        && first_def_at(full, t) ==> records_def(*self, full[t].0, full[t].1),
            decreases n - i,
        {
            let ghost prei = *self;
            self.visit_item(&items[i]);
            proof {
                let cur = *self;
                let block = fn_defs_of_item(items@[i as int], m0);
                assert(fn_defs_in(items@, m0, i as int) == block + fn_defs_in(
                    items@,
                    m0,
                    i + 1,
                ));
                assert(full.len() == covered + block.len() + fn_defs_in(
                    items@,
                    m0,
                    i + 1,
                ).len());
                assert forall|t: int| 0 <= t < block.len() implies #[trigger] full[covered + t]
                    == block[t] by {
                    assert(full[covered + t] == (full.take(covered) + (block + fn_defs_in(
                        items@,
                        m0,
                        i + 1,
                    )))[covered + t]);
                }
                assert(full =~= full.take(covered + block.len()) + fn_defs_in(
                    items@,
                    m0,
                    i + 1,
                ));
                assert forall|q: Seq<char>| (#[trigger] cur.has_entry(q)) <==> (old(
                    self,
                ).has_entry(q) || exists|t: int|
                    0 <= t < covered + block.len() && (#[trigger] full[t]).0 == q) by {
                    if cur.has_entry(q) {
                        if prei.has_entry(q) {
                        } else {
                            let t = choose|t: int|
                                0 <= t < block.len() && (#[trigger] block[t]).0 == q;
                            assert(full[covered + t].0 == q);
                        }
                    }
                    if exists|t: int| 0 <= t < covered + block.len() && (#[trigger] full[t]).0
                        == q {
                        let t = choose|t: int|
                            0 <= t < covered + block.len() && (#[trigger] full[t]).0 == q;
                        if t < covered {
                            assert(prei.has_entry(q));
                        } else {
                            assert(block[t - covered].0 == q);
                        }
                        assert(cur.has_entry(q));
                    } else if old(self).has_entry(q) {
                        assert(cur.has_entry(q));
                    }
                }
                assert forall|t: int| 0 <= t < covered + block.len() implies cur.has_entry(
                    (#[trigger] full[t]).0,
                ) by {
                    if t < covered {
                        assert(prei.has_entry(full[t].0));
                    } else {
                        assert(block[t - covered].0 == full[t].0);
                    }
                }
                assert forall|t: int|
                    0 <= t < covered + block.len() && !old(self).has_entry(
                        (#[trigger] full[t]).0,
                    ) && first_def_at(full, t) implies records_def(cur, full[t].0, full[t].1) by {
                    if t < covered {
                        assert(records_def(prei, full[t].0, full[t].1));
                        assert(prei.has_entry(full[t].0));
                    } else {
                        let tb = t - covered;
                        assert(full[t] == block[tb]);
                        assert(!prei.has_entry(block[tb].0)) by {
                            if prei.has_entry(block[tb].0) {
                                let t2 = choose|t2: int|
                                    0 <= t2 < covered && (#[trigger] full[t2]).0 == block[tb].0;
                                assert(false);
                            }
                        }
                        assert(first_def_at(block, tb)) by {
                            assert forall|j: int| 0 <= j < tb implies (#[trigger] block[j]).0
                                != block[tb].0 by {
                                assert(full[covered + j] == block[j]);
                            }
                        }
                        assert(records_def(cur, block[tb].0, block[tb].1));
                    }
                }
                covered = covered + block.len();
            }
            i += 1;
        }
        proof {
            assert(fn_defs_in(items@, m0, n as int) =~= Seq::<(Seq<char>, FnItem)>::empty());
            assert(full =~= full.take(covered));
            assert(covered == full.len());
        }
    }

    /// Walks one whole parsed file: afterwards every function definition
    /// of the file is on record, the first definition of each path as
    /// written, and the unsafe set agrees with every record.
    pub fn visit_file(&mut self, file: &SourceFile)
        requires
            old(self).registry_ok(),
            old(self).current_function is None,
            old(self).current_impl_type is None,
        ensures
            final(self).registry_ok(),
            final(self).current_function is None,
            final(self).current_module@ == old(self).current_module@,
            forall|q: Seq<char>|
                #[trigger] old(self).has_entry(q) ==> final(self).has_entry(q) && final(self).entry_info(q) == old(self).entry_info(q) && final(self).listed_unsafe(q) == old(self).listed_unsafe(q),
            ({
                let defs = fn_defs_in(file.items@, old(self).current_module.deep_view(), 0);
                &&& forall|q: Seq<char>|
                    (#[trigger] final(self).has_entry(q)) <==> (old(self).has_entry(q) || exists|t: int| 0 <= t < defs.len() && (#[trigger] defs[t]).0 == q)
                &&& forall|t: int|
                    0 <= t < defs.len() ==> final(self).has_entry((#[trigger] defs[t]).0)
                &&& forall|t: int|
                    0 <= t < defs.len() && !old(self).has_entry((#[trigger] defs[t]).0)
                        && first_def_at(defs, t) ==> records_def(*final(self), defs[t].0, defs[t].1)
            }),
        decreases file.items@,
    {
        self.visit_items(&file.items);
    }
}

/// Whether one type-definition entry is the other with possibly more
/// constructor fragments appended, everything else equal.
pub open spec fn type_def_extended(a: TypeDefEntry, c: TypeDefEntry) -> bool {
    &&& c.path == a.path
    &&& c.def.name == a.def.name
    &&& c.def.module == a.def.module
    &&& c.def.visibility == a.def.visibility
    &&& c.def.source_code == a.def.source_code
    &&& c.def.file_path == a.def.file_path
    &&& a.def.constructors@.is_prefix_of(c.def.constructors@)
}

/// Extension of type definitions composes.
proof fn lemma_type_def_extended_trans(a: TypeDefEntry, b: TypeDefEntry, c: TypeDefEntry)
    requires
        type_def_extended(a, b),
        type_def_extended(b, c),
    ensures
        type_def_extended(a, c),
{
    assert(a.def.constructors@.is_prefix_of(c.def.constructors@)) by {
        assert(c.def.constructors@.subrange(0, a.def.constructors@.len() as int)
            =~= a.def.constructors@);
    }
}

/// A state whose function registry, unsafe set and open function agree
/// with a well-formed one is well formed itself, whatever became of the
/// other fields, as long as its type paths stay distinct.
pub(crate) proof fn lemma_registry_same_functions(a: FunctionVisitor, b: FunctionVisitor)
    requires
        a.registry_ok(),
        b.functions == a.functions,
        b.unsafe_functions == a.unsafe_functions,
        b.current_function == a.current_function,
        forall|i: int, j: int|
            0 <= i < j < b.type_definitions@.len() ==> (#[trigger] b.type_definitions@[i]).path@
                != (#[trigger] b.type_definitions@[j]).path@,
    ensures
        b.registry_ok(),
{
    assert forall|q: Seq<char>| #[trigger] b.listed_unsafe(q) implies b.has_entry(q) by {
        assert(a.listed_unsafe(q));
        assert(a.has_entry(q));
        let k = choose|k: int|
            0 <= k < a.functions@.len() && (#[trigger] a.functions@[k]).path@ == q;
        assert(b.functions@[k].path@ == q);
    }
    match a.current_function {
        None => {
            assert forall|i: int| 0 <= i < b.functions@.len() implies #[trigger] b.entry_synced(
                i,
            ) by {
                assert(a.entry_synced(i));
                assert(b.listed_unsafe(b.functions@[i].path@) == a.listed_unsafe(
                    a.functions@[i].path@,
                ));
            }
        },
        Some(c) => {
            assert(a.has_entry(c@));
            let k0 = a.entry_index(c@);
            assert(b.functions@[k0].path@ == c@);
            assert(b.has_entry(c@));
            assert(b.entry_index(c@) == k0) by {
                let k1 = b.entry_index(c@);
                if k1 != k0 {
                    assert(b.functions@[k1].path@ == c@);
                    assert(a.functions@[k1].path@ == c@);
                }
            }
            assert(!b.listed_unsafe(c@)) by {
                if b.listed_unsafe(c@) {
                    assert(a.listed_unsafe(c@));
                }
            }
            assert forall|i: int|
                0 <= i < b.functions@.len() && (#[trigger] b.functions@[i]).path@ != c@ implies
                b.entry_synced(i) by {
                assert(a.entry_synced(i));
                assert(b.listed_unsafe(b.functions@[i].path@) == a.listed_unsafe(
                    a.functions@[i].path@,
                ));
            }
        },
    }
}

/// Once a file's walk is done, a recorded function stands in the unsafe
/// set exactly when it is declared unsafe or its body held an unsafe
/// block.
pub proof fn lemma_visitor_unsafe_registry(v: FunctionVisitor, i: int)
    requires
        v.registry_ok(),
        v.current_function is None,
        0 <= i < v.functions@.len(),
    ensures
        v.listed_unsafe(v.functions@[i].path@) <==> (v.functions@[i].info.is_unsafe_fn
            || v.functions@[i].info.has_internal_unsafe),
{
    assert(v.entry_synced(i));
}

} // verus!
