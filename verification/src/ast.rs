use vstd::prelude::*;

verus! {

/// The declared visibility of an item, as the parser reports it.
#[derive(Debug, Clone, Copy, PartialEq, Eq, Structural)]
pub enum Visibility {
    Public,
    Crate,
    Restricted,
    Inherited,
}

/// A path type: its segments and the generic arguments of the last one.
#[derive(Debug, PartialEq, Eq)]
pub struct PathType {
    pub segments: Vec<String>,
    pub args: Vec<TypeExpr>,
}

/// A type expression, reduced to the shapes the analysis reads.
#[derive(Debug, PartialEq, Eq)]
pub enum TypeExpr {
    Path(PathType),
    Reference(Box<TypeExpr>),
    Array(Box<TypeExpr>),
    Slice(Box<TypeExpr>),
    Tuple(Vec<TypeExpr>),
    Pointer(Box<TypeExpr>),
    Other,
}

/// An expression, reduced to the shapes the analysis reads. Every node
/// keeps the child expressions it contains; `text` carries the node
/// rendered back to source.
#[derive(Debug, PartialEq, Eq)]
pub enum Expr {
    Unsafe(Vec<Expr>),
    Call { callee: Box<Expr>, args: Vec<Expr>, text: String },
    MethodCall { receiver: Box<Expr>, method: String, args: Vec<Expr>, text: String },
    Deref { operand: Box<Expr>, text: String },
    Cast { operand: Box<Expr>, to_pointer: bool },
    Path { segments: Vec<String>, leading_colon: bool, text: String },
    Group(Vec<Expr>),
    Leaf,
}

/// One argument of a function signature.
#[derive(Debug, PartialEq, Eq)]
pub enum FnArg {
    Receiver,
    Typed { name: Option<String>, ty: TypeExpr },
}

/// A function signature.
#[derive(Debug, PartialEq, Eq)]
pub struct FnSig {
    pub name: String,
    pub is_unsafe: bool,
    pub inputs: Vec<FnArg>,
    pub output: Option<TypeExpr>,
}

/// A function definition: a free function or an impl-block method.
#[derive(Debug, PartialEq, Eq)]
pub struct FnItem {
    pub vis: Visibility,
    pub sig: FnSig,
    pub body: Vec<Expr>,
    pub text: String,
}

/// One `use` declaration's tree.
#[derive(Debug, PartialEq, Eq)]
pub enum UseTree {
    Path { ident: String, tree: Box<UseTree> },
    Name { ident: String },
    Rename { ident: String, alias: String },
    Glob,
    Group(Vec<UseTree>),
}

/// The self type of an impl block: a simple path, or a shape the analysis
/// skips.
#[derive(Debug, PartialEq, Eq)]
pub enum SelfType {
    Named(Vec<String>),
    Other,
}

/// A struct, enum or type-alias item.
#[derive(Debug, PartialEq, Eq)]
pub struct TypeItem {
    pub name: String,
    pub vis: Visibility,
    pub text: String,
}

/// An impl block: its self type, the last segment of the implemented
/// trait if any, and its methods.
#[derive(Debug, PartialEq, Eq)]
pub struct ImplBlock {
    pub self_type: SelfType,
    pub trait_name: Option<String>,
    pub methods: Vec<FnItem>,
    pub text: String,
}

/// One item of a file.
#[derive(Debug, PartialEq, Eq)]
pub enum Item {
    Module { name: String, items: Vec<Item> },
    Function(FnItem),
    TypeDef(TypeItem),
    Impl(ImplBlock),
    Use(UseTree),
    Other,
}

/// A whole parsed file.
#[derive(Debug, PartialEq, Eq)]
pub struct SourceFile {
    pub items: Vec<Item>,
}

/// Whether the expression holds an unsafe block anywhere inside.
pub open spec fn expr_has_unsafe(e: Expr) -> bool
    decreases e,
{
    match e {
        Expr::Unsafe(_) => true,
        Expr::Call { callee, args, .. } => expr_has_unsafe(*callee) || exprs_have_unsafe_in(args@),
        Expr::MethodCall { receiver, args, .. } => expr_has_unsafe(*receiver)
            || exprs_have_unsafe_in(args@),
        Expr::Deref { operand, .. } => expr_has_unsafe(*operand),
        Expr::Cast { operand, .. } => expr_has_unsafe(*operand),
        Expr::Path { .. } => false,
        Expr::Group(es) => exprs_have_unsafe_in(es@),
        Expr::Leaf => false,
    }
}

/// Whether some expression of the list holds an unsafe block.
pub open spec fn exprs_have_unsafe_in(es: Seq<Expr>) -> bool
    decreases es,
{
    exists|i: int| 0 <= i < es.len() && expr_has_unsafe(#[trigger] es[i])
}

} // verus!
