pub mod analyzer;
pub mod ast;
pub mod call_graph;
pub mod call_visitor;
pub mod format;
pub mod function_visitor;
pub mod models;
pub mod text;

use vstd::prelude::*;

verus! {

/// The default bound on the depth of the path search.
pub const DEFAULT_MAX_SEARCH_DEPTH: usize = 20;

/// The default cap, in megabytes, on the size of a file worth parsing.
pub const DEFAULT_FILE_SIZE_LIMIT: u64 = 10;

/// The default budget, in seconds, measured against one file's analysis.
pub const DEFAULT_TIMEOUT_SECONDS: u64 = 30;

} // verus!
