use vstd::prelude::*;
use vstd::string::StrSliceExecFns;
use vstd::string::StringExecFns;

use crate::text::clone_string;
use crate::text::clone_string_vec;
use crate::text::vec_contains_string;

verus! {

/// The kinds of unsafe operation the function visitor can recognise.
#[derive(Debug, Clone, PartialEq, Eq)]
pub enum UnsafeOperationType {
    RawPointerDereference,
    UnsafeFunctionCall,
    UnsafeMethodCall,
    InlineAssembly,
    UnionFieldAccess,
    MutStaticAccess,
    DirectParamToUnsafe,
    Other(String),
}

/// The label that `UnsafeOperationType::to_string` spells for each kind.
pub open spec fn kind_label(t: UnsafeOperationType) -> Seq<char> {
    match t {
        UnsafeOperationType::RawPointerDereference => "raw pointer dereference"@,
        UnsafeOperationType::UnsafeFunctionCall => "unsafe function call"@,
        UnsafeOperationType::UnsafeMethodCall => "unsafe method call"@,
        UnsafeOperationType::InlineAssembly => "inline assembly"@,
        UnsafeOperationType::UnionFieldAccess => "union field access"@,
        UnsafeOperationType::MutStaticAccess => "mutable static access"@,
        UnsafeOperationType::DirectParamToUnsafe => "parameter passed to unsafe operation"@,
        UnsafeOperationType::Other(d) => "other unsafe operation: "@ + d@,
    }
}

impl UnsafeOperationType {
    /// A readable label for the kind.
    pub fn to_string(&self) -> (r: String)
        ensures
            r@ == kind_label(*self),
    {
        match self {
            UnsafeOperationType::RawPointerDereference => "raw pointer dereference".to_owned(),
            UnsafeOperationType::UnsafeFunctionCall => "unsafe function call".to_owned(),
            UnsafeOperationType::UnsafeMethodCall => "unsafe method call".to_owned(),
            UnsafeOperationType::InlineAssembly => "inline assembly".to_owned(),
            UnsafeOperationType::UnionFieldAccess => "union field access".to_owned(),
            UnsafeOperationType::MutStaticAccess => "mutable static access".to_owned(),
            UnsafeOperationType::DirectParamToUnsafe => "parameter passed to unsafe operation".to_owned(),
            UnsafeOperationType::Other(d) => {
                let mut s = "other unsafe operation: ".to_owned();
                s.append(d.as_str());
                s
            },
        }
    }
}

/// A fresh copy of an operation kind, equal to the original.
pub fn clone_kind(k: &UnsafeOperationType) -> (r: UnsafeOperationType)
    ensures
        r == *k,
{
    match k {
        UnsafeOperationType::RawPointerDereference => UnsafeOperationType::RawPointerDereference,
        UnsafeOperationType::UnsafeFunctionCall => UnsafeOperationType::UnsafeFunctionCall,
        UnsafeOperationType::UnsafeMethodCall => UnsafeOperationType::UnsafeMethodCall,
        UnsafeOperationType::InlineAssembly => UnsafeOperationType::InlineAssembly,
        UnsafeOperationType::UnionFieldAccess => UnsafeOperationType::UnionFieldAccess,
        UnsafeOperationType::MutStaticAccess => UnsafeOperationType::MutStaticAccess,
        UnsafeOperationType::DirectParamToUnsafe => UnsafeOperationType::DirectParamToUnsafe,
        UnsafeOperationType::Other(d) => UnsafeOperationType::Other(d.clone()),
    }
}

/// One unsafe operation found inside a function body.
#[derive(Debug, Clone, PartialEq, Eq)]
pub struct UnsafeOperation {
    pub operation_type: UnsafeOperationType,
    pub description: String,
    pub code_snippet: String,
    pub line_number: Option<usize>,
}

/// A fresh copy of one recorded operation, equal to the original.
pub fn clone_operation(o: &UnsafeOperation) -> (r: UnsafeOperation)
    ensures
        r == *o,
{
    UnsafeOperation {
        operation_type: clone_kind(&o.operation_type),
        description: clone_string(&o.description),
        code_snippet: clone_string(&o.code_snippet),
        line_number: o.line_number,
    }
}

/// A fresh copy of a list of recorded operations, equal element by element.
pub fn clone_operations(v: &Vec<UnsafeOperation>) -> (r: Vec<UnsafeOperation>)
    ensures
        r@ =~= v@,
{
    let mut out: Vec<UnsafeOperation> = Vec::new();
    let mut i: usize = 0;
    while i < v.len()
        invariant
            i <= v@.len(),
            out@.len() == i,
            forall|j: int| 0 <= j < i ==> out@[j] == v@[j],
        decreases v@.len() - i,
    {
        out.push(clone_operation(&v[i]));
        i += 1;
    }
    out
}

/// The declared visibility of a function or a type.
#[derive(Debug, Clone, Copy, PartialEq, Eq, Structural)]
pub enum VisibilityKind {
    Public,
    Crate,
    Module,
    Restricted,
}

/// The prefix that `VisibilityKind::to_string` spells for each visibility.
pub open spec fn visibility_label(v: VisibilityKind) -> Seq<char> {
    match v {
        VisibilityKind::Public => "pub "@,
        VisibilityKind::Crate => "pub(crate) "@,
        VisibilityKind::Module => ""@,
        VisibilityKind::Restricted => "pub(restricted) "@,
    }
}

impl VisibilityKind {
    /// The source prefix that announces this visibility.
    pub fn to_string(&self) -> (r: String)
        ensures
            r@ == visibility_label(*self),
    {
        match self {
            VisibilityKind::Public => "pub ".to_owned(),
            VisibilityKind::Crate => "pub(crate) ".to_owned(),
            VisibilityKind::Module => "".to_owned(),
            VisibilityKind::Restricted => "pub(restricted) ".to_owned(),
        }
    }

    /// Whether this is full `pub` visibility.
    pub fn is_public(&self) -> (r: bool)
        ensures
            r == (*self == VisibilityKind::Public),
    {
        matches!(self, VisibilityKind::Public)
    }
}

/// A struct, enum or type-alias definition found in a file, with the safe
/// constructors collected for it.
#[derive(Debug, Clone, PartialEq, Eq)]
pub struct TypeDefinition {
    pub name: String,
    pub module: String,
    pub visibility: VisibilityKind,
    pub source_code: String,
    pub file_path: String,
    pub constructors: Vec<String>,
}

impl TypeDefinition {
    /// Whether every entry of `others` is already among this type's
    /// recorded constructors, character for character.
    pub fn contains_impl(&self, others: &Vec<String>) -> (r: bool)
        ensures
            r == forall|i: int|
                0 <= i < others.deep_view().len() ==> self.constructors.deep_view().contains(
                    others.deep_view()[i],
                ),
    {
        let mut i: usize = 0;
        while i < others.len()
            invariant
                i <= others@.len(),
                forall|j: int|
                    0 <= j < i ==> self.constructors.deep_view().contains(others.deep_view()[j]),
            decreases others@.len() - i,
        {
            if !vec_contains_string(&self.constructors, &others[i]) {
                proof {
                    assert(!self.constructors.deep_view().contains(others.deep_view()[i as int]));
                }
                return false;
            }
            i += 1;
        }
        true
    }
}

/// A fresh copy of a type definition, equal to the original.
pub fn clone_type_definition(d: &TypeDefinition) -> (r: TypeDefinition)
    ensures
        r.name == d.name,
        r.module == d.module,
        r.visibility == d.visibility,
        r.source_code == d.source_code,
        r.file_path == d.file_path,
        r.constructors@ =~= d.constructors@,
{
    TypeDefinition {
        name: clone_string(&d.name),
        module: clone_string(&d.module),
        visibility: d.visibility,
        source_code: clone_string(&d.source_code),
        file_path: clone_string(&d.file_path),
        constructors: clone_string_vec(&d.constructors),
    }
}

/// Everything the function visitor records about one function definition.
#[derive(Debug, Clone, PartialEq, Eq)]
pub struct FunctionInfo {
    pub name: String,
    pub module: String,
    pub visibility: VisibilityKind,
    pub has_internal_unsafe: bool,
    pub is_unsafe_fn: bool,
    pub file_path: String,
    pub source_code: String,
    pub param_custom_types: Vec<String>,
    pub return_custom_types: Vec<String>,
    pub has_self_param: bool,
    pub owner_type: Option<String>,
    pub unsafe_operations: Vec<UnsafeOperation>,
}

/// One call edge: the full path of the caller and of the callee.
#[derive(Debug, Clone, PartialEq, Eq)]
pub struct FunctionCall {
    pub caller: String,
    pub callee: String,
}

/// The snapshot of one function along a reported path.
#[derive(Debug, Clone, PartialEq, Eq)]
pub struct PathNodeInfo {
    pub full_path: String,
    pub visibility: VisibilityKind,
    pub source_code: String,
    pub param_custom_types: Vec<String>,
    pub return_custom_types: Vec<String>,
    pub has_self_param: bool,
    pub owner_type: Option<String>,
    pub unsafe_operations: Vec<UnsafeOperation>,
}

/// A type definition keyed by its full path, as the per-file result stores it.
#[derive(Debug, Clone, PartialEq, Eq)]
pub struct TypeDefEntry {
    pub path: String,
    pub def: TypeDefinition,
}

/// Everything the analysis reports about one file.
#[derive(Debug, Clone, PartialEq, Eq)]
pub struct FileAnalysisResult {
    pub file_path: String,
    pub paths: Vec<Vec<PathNodeInfo>>,
    pub type_definitions: Vec<TypeDefEntry>,
}

} // verus!
