use vstd::prelude::*;

use crate::models::FunctionCall;
use crate::models::FunctionInfo;
use crate::models::PathNodeInfo;
use crate::models::VisibilityKind;
use crate::models::clone_operations;
use crate::text::clone_string;
use crate::text::clone_string_vec;
use crate::text::str_eq;
use crate::text::vec_contains_string;

verus! {

/// One function held by the graph: its full path and its record.
pub struct FunctionEntry {
    pub path: String,
    pub info: FunctionInfo,
}

/// No two entries of `v` spell the same characters.
pub open spec fn distinct_seqs(v: Seq<Seq<char>>) -> bool {
    forall|i: int, j: int| 0 <= i < j < v.len() ==> v[i] != v[j]
}

/// Pushing one element extends membership by exactly that element.
pub(crate) proof fn lemma_push_contains(v1: Seq<Seq<char>>, v2: Seq<Seq<char>>, x: Seq<char>)
    requires
        v2 == v1.push(x),
    ensures
        forall|q: Seq<char>| #[trigger] v2.contains(q) <==> (v1.contains(q) || q == x),
        distinct_seqs(v1) && !v1.contains(x) ==> distinct_seqs(v2),
{
    assert forall|q: Seq<char>| #[trigger] v2.contains(q) implies (v1.contains(q) || q == x) by {
        let i = choose|i: int| 0 <= i < v2.len() && v2[i] == q;
        if i < v1.len() {
            assert(v1[i] == q);
        }
    }
    assert forall|q: Seq<char>| (v1.contains(q) || q == x) implies #[trigger] v2.contains(q) by {
        if v1.contains(q) {
            let i = choose|i: int| 0 <= i < v1.len() && v1[i] == q;
            assert(v2[i] == q);
        } else {
            assert(v2[v1.len() as int] == x);
        }
    }
    if distinct_seqs(v1) && !v1.contains(x) {
        assert forall|i: int, j: int| 0 <= i < j < v2.len() implies v2[i] != v2[j] by {
            if j < v1.len() {
                assert(v1[i] == v2[i] && v1[j] == v2[j]);
            } else {
                assert(v2[j] == x);
                assert(v1[i] == v2[i]);
                assert(v1.contains(v1[i]));
            }
        }
    }
}

/// The callee names of every recorded call whose caller is `a`, kept in
/// the order the edges were added.
pub open spec fn callees_of(calls: Seq<FunctionCall>, a: Seq<char>) -> Seq<Seq<char>>
    decreases calls.len(),
{
    if calls.len() == 0 {
        Seq::empty()
    } else {
        let rest = callees_of(calls.drop_last(), a);
        if calls.last().caller@ == a {
            rest.push(calls.last().callee@)
        } else {
        rest
        }
    }
}

/// The per-file call graph: every function seen in one file, the call edges
/// between them, and the derived classification sets that the path search
/// reads.
pub struct CallGraph {
    pub functions: Vec<FunctionEntry>,
    pub calls: Vec<FunctionCall>,
    pub reverse_calls: Vec<FunctionCall>,
    pub unsafe_functions: Vec<String>,
    pub public_functions: Vec<String>,
    pub public_unsafe_functions: Vec<String>,
    pub public_non_unsafe_functions: Vec<String>,
    pub max_search_depth: usize,
}

impl CallGraph {
    /// Whether a function with full path `p` has been added.
    pub open spec fn has_fn(self, p: Seq<char>) -> bool {
        exists|i: int| 0 <= i < self.functions@.len() && (#[trigger] self.functions@[i]).path@ == p
    }

    /// The index of the function with full path `p`.
    pub open spec fn fn_index(self, p: Seq<char>) -> int {
        choose|i: int| 0 <= i < self.functions@.len() && (#[trigger] self.functions@[i]).path@ == p
    }

    /// The record of the function with full path `p`.
    pub open spec fn fn_info(self, p: Seq<char>) -> FunctionInfo {
        self.functions@[self.fn_index(p)].info
    }

    /// Membership in the set of unsafe functions: internally unsafe or
    /// declared unsafe.
    pub open spec fn is_unsafe(self, p: Seq<char>) -> bool {
        self.unsafe_functions.deep_view().contains(p)
    }

    /// Membership in the set of public functions.
    pub open spec fn is_public(self, p: Seq<char>) -> bool {
        self.public_functions.deep_view().contains(p)
    }

    /// Membership in the set of public functions with unsafe inside.
    pub open spec fn is_public_unsafe(self, p: Seq<char>) -> bool {
        self.public_unsafe_functions.deep_view().contains(p)
    }

    /// Membership in the set of public functions not declared unsafe.
    pub open spec fn is_public_non_unsafe(self, p: Seq<char>) -> bool {
        self.public_non_unsafe_functions.deep_view().contains(p)
    }

    /// Whether the graph holds a call edge from `a` to `b`.
    pub open spec fn edge(self, a: Seq<char>, b: Seq<char>) -> bool {
        exists|i: int|
            0 <= i < self.calls@.len() && (#[trigger] self.calls@[i]).caller@ == a
                && self.calls@[i].callee@ == b
    }

    /// Whether consecutive entries of `p` are joined by call edges.
    pub open spec fn chain(self, p: Seq<Seq<char>>) -> bool {
        forall|i: int| 0 <= i < p.len() - 1 ==> #[trigger] self.edge(p[i], p[i + 1])
    }

    /// What the classification sets promise: each one holds exactly the
    /// added functions whose record puts them there, without repetition.
    pub open spec fn wf(self) -> bool {
        &&& self.max_search_depth < usize::MAX
        &&& self.reverse_calls@.len() == self.calls@.len()
        &&& forall|i: int|
            0 <= i < self.calls@.len() ==> (#[trigger] self.reverse_calls@[i]).caller@
                == self.calls@[i].callee@ && self.reverse_calls@[i].callee@
                == self.calls@[i].caller@
        &&& forall|i: int, j: int|
            0 <= i < j < self.functions@.len() ==> (#[trigger] self.functions@[i]).path@ != (
            #[trigger] self.functions@[j]).path@
        &&& distinct_seqs(self.unsafe_functions.deep_view())
        &&& distinct_seqs(self.public_functions.deep_view())
        &&& distinct_seqs(self.public_unsafe_functions.deep_view())
        &&& distinct_seqs(self.public_non_unsafe_functions.deep_view())
        &&& forall|i: int|
            0 <= i < self.functions@.len() ==> {
                let e = #[trigger] self.functions@[i];
                &&& (self.is_public(e.path@) <==> e.info.visibility == VisibilityKind::Public)
                &&& (self.is_unsafe(e.path@) <==> (e.info.has_internal_unsafe
                    || e.info.is_unsafe_fn))
                &&& (self.is_public_unsafe(e.path@) <==> (e.info.visibility
                    == VisibilityKind::Public && e.info.has_internal_unsafe))
                &&& (self.is_public_non_unsafe(e.path@) <==> (e.info.visibility
                    == VisibilityKind::Public && !e.info.is_unsafe_fn))
            }
        &&& forall|p: Seq<char>| #[trigger] self.is_public(p) ==> self.has_fn(p)
        &&& forall|p: Seq<char>| #[trigger] self.is_unsafe(p) ==> self.has_fn(p)
        &&& forall|p: Seq<char>| #[trigger] self.is_public_unsafe(p) ==> self.has_fn(p)
        &&& forall|p: Seq<char>| #[trigger] self.is_public_non_unsafe(p) ==> self.has_fn(p)
    }

    /// An empty graph with the given search depth bound.
    ///
    /// The bound stays below the machine maximum so that the search can
    /// count one step past it.
    pub fn new(max_depth: usize) -> (r: CallGraph)
        requires
            max_depth < usize::MAX,
        ensures
            r.wf(),
            r.functions@.len() == 0,
            r.calls@.len() == 0,
            r.reverse_calls@.len() == 0,
            r.unsafe_functions@.len() == 0,
            r.public_functions@.len() == 0,
            r.public_unsafe_functions@.len() == 0,
            r.public_non_unsafe_functions@.len() == 0,
            r.max_search_depth == max_depth,
    {
        CallGraph {
            functions: Vec::new(),
            calls: Vec::new(),
            reverse_calls: Vec::new(),
            unsafe_functions: Vec::new(),
            public_functions: Vec::new(),
            public_unsafe_functions: Vec::new(),
            public_non_unsafe_functions: Vec::new(),
            max_search_depth: max_depth,
        }
    }

    /// Records one function and files its path into exactly the sets that
    /// its visibility and unsafe flags call for.
    pub fn add_function(&mut self, path: String, info: FunctionInfo)
        requires
            old(self).wf(),
            !old(self).has_fn(path@),
        ensures
            final(self).wf(),
            final(self).max_search_depth == old(self).max_search_depth,
            final(self).calls@ == old(self).calls@,
            final(self).reverse_calls@ == old(self).reverse_calls@,
            final(self).functions@.len() == old(self).functions@.len() + 1,
            final(self).functions@.last().path@ == path@,
            final(self).functions@.last().info == info,
            forall|i: int|
                0 <= i < old(self).functions@.len() ==> final(self).functions@[i] == old(
                    self,
                ).functions@[i],
            forall|q: Seq<char>|
                final(self).is_public(q) <==> (old(self).is_public(q) || (q == path@
                    && info.visibility == VisibilityKind::Public)),
            forall|q: Seq<char>|
                final(self).is_unsafe(q) <==> (old(self).is_unsafe(q) || (q == path@
                    && (info.has_internal_unsafe || info.is_unsafe_fn))),
            forall|q: Seq<char>|
                final(self).is_public_unsafe(q) <==> (old(self).is_public_unsafe(q) || (q == path@
                    && info.visibility == VisibilityKind::Public && info.has_internal_unsafe)),
            forall|q: Seq<char>|
                final(self).is_public_non_unsafe(q) <==> (old(self).is_public_non_unsafe(q) || (q
                    == path@ && info.visibility == VisibilityKind::Public && !info.is_unsafe_fn)),
    {
        let ghost g0 = *self;
        let ghost p = path@;
        proof {
            assert(!g0.is_public(p) && !g0.is_unsafe(p) && !g0.is_public_unsafe(p)
                && !g0.is_public_non_unsafe(p));
        }
        if info.visibility.is_public() {
            self.public_functions.push(clone_string(&path));
            proof {
                assert(self.public_functions.deep_view() =~= g0.public_functions.deep_view().push(
                    p,
                ));
                lemma_push_contains(
                    g0.public_functions.deep_view(),
                    self.public_functions.deep_view(),
                    p,
                );
            }
            if !info.is_unsafe_fn {
                self.public_non_unsafe_functions.push(clone_string(&path));
                proof {
                    assert(self.public_non_unsafe_functions.deep_view()
                        =~= g0.public_non_unsafe_functions.deep_view().push(p));
                    lemma_push_contains(
                        g0.public_non_unsafe_functions.deep_view(),
                        self.public_non_unsafe_functions.deep_view(),
                        p,
                    );
                }
            }
            if info.has_internal_unsafe {
                self.public_unsafe_functions.push(clone_string(&path));
                proof {
                    assert(self.public_unsafe_functions.deep_view()
                        =~= g0.public_unsafe_functions.deep_view().push(p));
                    lemma_push_contains(
                        g0.public_unsafe_functions.deep_view(),
                        self.public_unsafe_functions.deep_view(),
                        p,
                    );
                }
            }
        }
        if info.has_internal_unsafe || info.is_unsafe_fn {
            self.unsafe_functions.push(clone_string(&path));
            proof {
                assert(self.unsafe_functions.deep_view() =~= g0.unsafe_functions.deep_view().push(
                    p,
                ));
                lemma_push_contains(
                    g0.unsafe_functions.deep_view(),
                    self.unsafe_functions.deep_view(),
                    p,
                );
            }
        }
        self.functions.push(FunctionEntry { path, info });
        proof {
            let g1 = *self;
            assert(g1.functions@ == g0.functions@.push(g1.functions@.last()));
            assert forall|q: Seq<char>| #![all_triggers] g0.has_fn(q) implies g1.has_fn(q) by {
                let i = choose|i: int|
                    0 <= i < g0.functions@.len() && (#[trigger] g0.functions@[i]).path@ == q;
                assert(g1.functions@[i].path@ == q);
            }
            assert(g1.functions@[g0.functions@.len() as int].path@ == p);
            assert(g1.has_fn(p));
            assert forall|i: int| 0 <= i < g1.functions@.len() implies {
                let e = #[trigger] g1.functions@[i];
                &&& (g1.is_public(e.path@) <==> e.info.visibility == VisibilityKind::Public)
                &&& (g1.is_unsafe(e.path@) <==> (e.info.has_internal_unsafe || e.info.is_unsafe_fn))
                &&& (g1.is_public_unsafe(e.path@) <==> (e.info.visibility == VisibilityKind::Public
                    && e.info.has_internal_unsafe))
                &&& (g1.is_public_non_unsafe(e.path@) <==> (e.info.visibility
                    == VisibilityKind::Public && !e.info.is_unsafe_fn))
            } by {
                let e = g1.functions@[i];
                if i < g0.functions@.len() {
                    assert(g0.functions@[i] == e);
                    assert(e.path@ != p);
                }
            }
            assert forall|q: Seq<char>| #[trigger] g1.is_public(q) implies g1.has_fn(q) by {
                if q != p {
                    assert(g0.is_public(q));
                }
            }
            assert forall|q: Seq<char>| #[trigger] g1.is_unsafe(q) implies g1.has_fn(q) by {
                if q != p {
                    assert(g0.is_unsafe(q));
                }
            }
            assert forall|q: Seq<char>| #[trigger] g1.is_public_unsafe(q) implies g1.has_fn(q) by {
                if q != p {
                    assert(g0.is_public_unsafe(q));
                }
            }
            assert forall|q: Seq<char>| #[trigger] g1.is_public_non_unsafe(q) implies g1.has_fn(
                q,
            ) by {
                if q != p {
                    assert(g0.is_public_non_unsafe(q));
                }
            }
        }
    }

    /// Records one call edge, once: a repeated caller and callee pair is
    /// collapsed into the single structural edge already held.
    pub fn add_call(&mut self, caller: String, callee: String)
        requires
            old(self).wf(),
        ensures
            final(self).wf(),
            final(self).functions@ == old(self).functions@,
            final(self).max_search_depth == old(self).max_search_depth,
            final(self).unsafe_functions == old(self).unsafe_functions,
            final(self).public_functions == old(self).public_functions,
            final(self).public_unsafe_functions == old(self).public_unsafe_functions,
            final(self).public_non_unsafe_functions == old(self).public_non_unsafe_functions,
            forall|a: Seq<char>, b: Seq<char>|
                final(self).edge(a, b) <==> (old(self).edge(a, b) || (a == caller@ && b
                    == callee@)),
            final(self).calls@ == (if old(self).edge(caller@, callee@) {
                old(self).calls@
            } else {
                old(self).calls@.push(FunctionCall { caller, callee })
            }),
            final(self).reverse_calls@ == (if old(self).edge(caller@, callee@) {
                old(self).reverse_calls@
            } else {
                old(self).reverse_calls@.push(FunctionCall { caller: callee, callee: caller })
            }),
    {
        let ghost g0 = *self;
        let mut i: usize = 0;
        let n = self.calls.len();
        while i < n
            invariant
                n == self.calls@.len(),
                i <= n,
                *self == g0,
                g0 == *old(self),
                g0.wf(),
                forall|j: int|
                    0 <= j < i ==> !((#[trigger] self.calls@[j]).caller@ == caller@
                        && self.calls@[j].callee@ == callee@),
            decreases n - i,
        {
            if str_eq(self.calls[i].caller.as_str(), caller.as_str()) && str_eq(
                self.calls[i].callee.as_str(),
                callee.as_str(),
            ) {
                proof {
                    assert(g0.edge(caller@, callee@));
                }
                return ;
            }
            i += 1;
        }
        proof {
            if g0.edge(caller@, callee@) {
                let j = choose|j: int|
                    0 <= j < g0.calls@.len() && (#[trigger] g0.calls@[j]).caller@ == caller@
                        && g0.calls@[j].callee@ == callee@;
                assert(false);
            }
        }
        self.calls.push(FunctionCall { caller, callee });
        self.reverse_calls.push(
            FunctionCall {
                caller: clone_string(&self.calls[self.calls.len() - 1].callee),
                callee: clone_string(&self.calls[self.calls.len() - 1].caller),
            },
        );
        proof {
            let g1 = *self;
            let ghost c = g1.calls@.last();
            assert(g1.calls@ == g0.calls@.push(c));
            assert forall|i: int| 0 <= i < g1.calls@.len() implies (
            #[trigger] g1.reverse_calls@[i]).caller@ == g1.calls@[i].callee@
                && g1.reverse_calls@[i].callee@ == g1.calls@[i].caller@ by {
                if i < g0.calls@.len() {
                    assert(g1.calls@[i] == g0.calls@[i]);
                    assert(g1.reverse_calls@[i] == g0.reverse_calls@[i]);
                } else {
                    assert(g1.calls@[i] == c);
                    assert(g1.reverse_calls@[i] == g1.reverse_calls@.last());
                }
            }
            assert forall|a: Seq<char>, b: Seq<char>| #[trigger] g1.edge(a, b) implies (g0.edge(
                a,
                b,
            ) || (a == c.caller@ && b == c.callee@)) by {
                let i = choose|i: int|
                    0 <= i < g1.calls@.len() && (#[trigger] g1.calls@[i]).caller@ == a
                        && g1.calls@[i].callee@ == b;
                if i < g0.calls@.len() {
                    assert(g0.calls@[i] == g1.calls@[i]);
                    assert(g0.edge(a, b));
                }
            }
            assert forall|a: Seq<char>, b: Seq<char>|
                (g0.edge(a, b) || (a == c.caller@ && b == c.callee@)) implies #[trigger] g1.edge(
                a,
                b,
            ) by {
                if g0.edge(a, b) {
                    let i = choose|i: int|
                        0 <= i < g0.calls@.len() && (#[trigger] g0.calls@[i]).caller@ == a
                            && g0.calls@[i].callee@ == b;
                    assert(g1.calls@[i] == g0.calls@[i]);
                } else {
                    assert(g1.calls@[g0.calls@.len() as int] == c);
                }
            }
            assert forall|q: Seq<char>| #[trigger] g1.is_public(q) implies g1.has_fn(q) by {
                assert(g0.is_public(q));
                assert(g0.has_fn(q));
            }
            assert forall|q: Seq<char>| #[trigger] g1.is_unsafe(q) implies g1.has_fn(q) by {
                assert(g0.is_unsafe(q));
                assert(g0.has_fn(q));
            }
            assert forall|q: Seq<char>| #[trigger] g1.is_public_unsafe(q) implies g1.has_fn(q) by {
                assert(g0.is_public_unsafe(q));
                assert(g0.has_fn(q));
            }
            assert forall|q: Seq<char>| #[trigger] g1.is_public_non_unsafe(q) implies g1.has_fn(
                q,
            ) by {
                assert(g0.is_public_non_unsafe(q));
                assert(g0.has_fn(q));
            }
        }
    }

    /// The validity predicate on a candidate path: a lone node must be a
    /// public function, not declared unsafe, that is itself an unsafe sink;
    /// a longer path must lead from such a public origin to an unsafe sink
    /// through intermediaries that are neither unsafe nor publicly unsafe.
    pub open spec fn spec_valid_path(self, p: Seq<Seq<char>>) -> bool {
        if p.len() == 0 {
            false
        } else if p.len() == 1 {
            self.is_public_non_unsafe(p[0]) && self.is_unsafe(p[0])
        } else {
            &&& self.is_public_non_unsafe(p[0])
            &&& self.is_unsafe(p.last())
            &&& forall|i: int|
                0 < i < p.len() - 1 ==> !self.is_unsafe(#[trigger] p[i]) && !self.is_public_unsafe(
                    p[i],
                )
        }
    }

    /// Minimality: no function after the origin is publicly visible.
    pub open spec fn spec_minimal_path(self, p: Seq<Seq<char>>) -> bool {
        forall|i: int| 1 <= i < p.len() ==> !self.is_public(#[trigger] p[i])
    }

    /// Whether `path` satisfies the validity predicate.
    pub fn is_valid_path(&self, path: &Vec<String>) -> (r: bool)
        ensures
            r == self.spec_valid_path(path.deep_view()),
    {
        let n = path.len();
        if n == 0 {
            return false;
        }
        if n == 1 {
            return vec_contains_string(&self.public_non_unsafe_functions, &path[0])
                && vec_contains_string(&self.unsafe_functions, &path[0]);
        }
        if !vec_contains_string(&self.public_non_unsafe_functions, &path[0]) {
            return false;
        }
        if !vec_contains_string(&self.unsafe_functions, &path[n - 1]) {
            return false;
        }
        let mut i: usize = 1;
        while i < n - 1
            invariant
                2 <= n == path@.len(),
                1 <= i <= n - 1,
                forall|j: int|
                    0 < j < i ==> !self.is_unsafe(#[trigger] path.deep_view()[j])
                        && !self.is_public_unsafe(path.deep_view()[j]),
            decreases n - 1 - i,
        {
            proof {
                assert(path.deep_view().len() == path@.len());
                assert(path.deep_view()[i as int] == path@[i as int]@);
            }
            if vec_contains_string(&self.unsafe_functions, &path[i]) || vec_contains_string(
                &self.public_unsafe_functions,
                &path[i],
            ) {
                return false;
            }
            i += 1;
        }
        true
    }

    /// Whether `path` is minimal.
    pub fn is_minimal_path(&self, path: &Vec<String>) -> (r: bool)
        ensures
            r == self.spec_minimal_path(path.deep_view()),
    {
        let mut i: usize = 1;
        let n = path.len();
        while i < n
            invariant
                n == path@.len(),
                1 <= i,
                i <= n || n == 0,
                forall|j: int| 1 <= j < i ==> !self.is_public(#[trigger] path.deep_view()[j]),
            decreases n - i,
        {
            proof {
                assert(path.deep_view().len() == path@.len());
                assert(path.deep_view()[i as int] == path@[i as int]@);
            }
            if vec_contains_string(&self.public_functions, &path[i]) {
                return false;
            }
            i += 1;
        }
        true
    }

    /// What a converted node must hold: the snapshot of the looked-up
    /// record, or the conservative default where the path names a function
    /// the graph never saw.
    pub open spec fn node_matches(self, p: Seq<char>, n: PathNodeInfo) -> bool {
        &&& n.full_path@ == p
        &&& if self.has_fn(p) {
            let info = self.fn_info(p);
            &&& n.visibility == info.visibility
            &&& n.source_code == info.source_code
            &&& n.param_custom_types.deep_view() == info.param_custom_types.deep_view()
            &&& n.return_custom_types.deep_view() == info.return_custom_types.deep_view()
            &&& n.has_self_param == info.has_self_param
            &&& match (n.owner_type, info.owner_type) {
                (Some(a), Some(b)) => a@ == b@,
                (None, None) => true,
                _ => false,
            }
            &&& n.unsafe_operations@ == info.unsafe_operations@
        } else {
            &&& n.visibility == VisibilityKind::Module
            &&& n.source_code@ == Seq::<char>::empty()
            &&& n.param_custom_types@.len() == 0
            &&& n.return_custom_types@.len() == 0
            &&& n.has_self_param == false
            &&& n.owner_type is None
            &&& n.unsafe_operations@.len() == 0
        }
    }

    /// Turns a path of function names into a path of full snapshots.
    pub fn convert_path_to_node_info(&self, path: Vec<String>) -> (r: Vec<PathNodeInfo>)
        requires
            self.wf(),
        ensures
            r@.len() == path@.len(),
            forall|i: int|
                0 <= i < path@.len() ==> self.node_matches(path.deep_view()[i], #[trigger] r@[i]),
    {
        let mut out: Vec<PathNodeInfo> = Vec::new();
        let mut i: usize = 0;
        while i < path.len()
            invariant
                self.wf(),
                i <= path@.len(),
                out@.len() == i,
                forall|j: int|
                    0 <= j < i ==> self.node_matches(path.deep_view()[j], #[trigger] out@[j]),
            decreases path@.len() - i,
        {
            let p = &path[i];
            let node = match self.get_function(p) {
                Some(info) => PathNodeInfo {
                    full_path: clone_string(p),
                    visibility: info.visibility,
                    source_code: clone_string(&info.source_code),
                    param_custom_types: clone_string_vec(&info.param_custom_types),
                    return_custom_types: clone_string_vec(&info.return_custom_types),
                    has_self_param: info.has_self_param,
                    owner_type: match &info.owner_type {
                        Some(s) => Some(clone_string(s)),
                        None => None,
                    },
                    unsafe_operations: clone_operations(&info.unsafe_operations),
                },
                None => PathNodeInfo {
                    full_path: clone_string(p),
                    visibility: VisibilityKind::Module,
                    source_code: String::new(),
                    param_custom_types: Vec::new(),
                    return_custom_types: Vec::new(),
                    has_self_param: false,
                    owner_type: None,
                    unsafe_operations: Vec::new(),
                },
            };
            out.push(node);
            i += 1;
        }
        out
    }

    /// The callees that the search visits from `a`, in the order the edges
    /// were recorded.
    pub open spec fn spec_callees(self, a: Seq<char>) -> Seq<Seq<char>> {
        callees_of(self.calls@, a)
    }

    /// Every function that `a` calls, in edge-insertion order.
    pub fn get_callees(&self, a: &String) -> (r: Vec<String>)
        ensures
            r.deep_view() == self.spec_callees(a@),
    {
        let mut out: Vec<String> = Vec::new();
        let mut i: usize = 0;
        let n = self.calls.len();
        while i < n
            invariant
                n == self.calls@.len(),
                i <= n,
                out.deep_view() == callees_of(self.calls@.take(i as int), a@),
            decreases n - i,
        {
            proof {
                assert(self.calls@.take(i + 1).drop_last() =~= self.calls@.take(i as int));
                assert(self.calls@.take(i + 1).last() == self.calls@[i as int]);
            }
            let ghost prev = out.deep_view();
            if str_eq(self.calls[i].caller.as_str(), a.as_str()) {
                out.push(clone_string(&self.calls[i].callee));
                proof {
                    assert(out.deep_view() =~= prev.push(self.calls@[i as int].callee@));
                }
            }
            i += 1;
        }
        proof {
            assert(self.calls@.take(n as int) =~= self.calls@);
        }
        out
    }

    /// What the depth-first search finds from `current`: every extension of
    /// `path` that stays inside the depth bound, avoids the nodes already
    /// visited on this branch, passes no unsafe or public-unsafe
    /// intermediate, and ends on a target.
    pub open spec fn spec_dfs(
        self,
        current: Seq<char>,
        targets: Seq<Seq<char>>,
        visited: Seq<Seq<char>>,
        path: Seq<Seq<char>>,
        depth: nat,
    ) -> Seq<Seq<Seq<char>>>
        decreases self.max_search_depth + 1 - depth, 1int, 0int,
    {
        if depth > self.max_search_depth {
            Seq::empty()
        } else if visited.contains(current) {
            Seq::empty()
        } else if path.len() > 0 && !targets.contains(current) && (self.is_unsafe(current)
            || self.is_public_unsafe(current)) {
            Seq::empty()
        } else if targets.contains(current) {
            seq![path.push(current)]
        } else {
            self.spec_dfs_list(
                self.spec_callees(current),
                0,
                targets,
                visited.push(current),
                path.push(current),
                (depth + 1) as nat,
            )
        }
    }

    /// The paths found by searching each callee of the list from `i` on.
    pub open spec fn spec_dfs_list(
        self,
        cs: Seq<Seq<char>>,
        i: int,
        targets: Seq<Seq<char>>,
        visited: Seq<Seq<char>>,
        path: Seq<Seq<char>>,
        depth: nat,
    ) -> Seq<Seq<Seq<char>>>
        decreases self.max_search_depth + 1 - depth, 2int, cs.len() - i,
    {
        if i < 0 || i >= cs.len() || depth > self.max_search_depth + 1 {
            Seq::empty()
        } else {
            self.spec_dfs(cs[i], targets, visited, path, depth) + self.spec_dfs_list(
                cs,
                i + 1,
                targets,
                visited,
                path,
                depth,
            )
        }
    }

    /// One step of the bounded depth-first search. Appends to `all_paths`
    /// exactly the paths that `spec_dfs` names, and hands `visited` and
    /// `path` back as they came.
    pub fn dfs_find_valid_paths(
        &self,
        current: &String,
        targets: &Vec<String>,
        visited: &mut Vec<String>,
        path: &mut Vec<String>,
        all_paths: &mut Vec<Vec<String>>,
        depth: usize,
    )
        requires
            self.wf(),
        ensures
            final(visited)@ == old(visited)@,
            final(path)@ == old(path)@,
            final(all_paths).deep_view() == old(all_paths).deep_view() + self.spec_dfs(
                current@,
                targets.deep_view(),
                old(visited).deep_view(),
                old(path).deep_view(),
                depth as nat,
            ),
        decreases self.max_search_depth + 1 - depth,
    {
        let ghost d = self.spec_dfs(
            current@,
            targets.deep_view(),
            old(visited).deep_view(),
            old(path).deep_view(),
            depth as nat,
        );
        if depth > self.max_search_depth {
            proof {
                assert(all_paths.deep_view() =~= old(all_paths).deep_view() + d);
            }
            return ;
        }
        if vec_contains_string(visited, current) {
            proof {
                assert(all_paths.deep_view() =~= old(all_paths).deep_view() + d);
            }
            return ;
        }
        if path.len() > 0 && !vec_contains_string(targets, current) && (vec_contains_string(
            &self.unsafe_functions,
            current,
        ) || vec_contains_string(&self.public_unsafe_functions, current)) {
            proof {
                assert(all_paths.deep_view() =~= old(all_paths).deep_view() + d);
            }
            return ;
        }
        visited.push(clone_string(current));
        path.push(clone_string(current));
        proof {
            assert(visited.deep_view() =~= old(visited).deep_view().push(current@));
            assert(path.deep_view() =~= old(path).deep_view().push(current@));
        }
        if vec_contains_string(targets, current) {
            all_paths.push(clone_string_vec(path));
            proof {
                assert(all_paths.deep_view() =~= old(all_paths).deep_view().push(
                    path.deep_view(),
                ));
                assert(all_paths.deep_view() =~= old(all_paths).deep_view() + d);
            }
        } else {
            let cs = self.get_callees(current);
            let ghost csd = cs.deep_view();
            let ghost v1 = visited@;
            let ghost p1 = path@;
            let ghost v1d = visited.deep_view();
            let ghost p1d = path.deep_view();
            let ghost a1d = all_paths.deep_view();
            let ghost t = targets.deep_view();
            let ghost d1 = (depth + 1) as nat;
            let mut i: usize = 0;
            let n = cs.len();
            while i < n
                invariant
                    self.wf(),
                    n == cs@.len(),
                    i <= n,
                    depth < usize::MAX,
                    d1 == (depth + 1) as nat,
                    csd == cs.deep_view(),
                    visited@ == v1,
                    path@ == p1,
                    v1d == visited.deep_view(),
                    p1d == path.deep_view(),
                    t == targets.deep_view(),
                    self.max_search_depth + 1 - depth >= 1,
                    all_paths.deep_view() + self.spec_dfs_list(csd, i as int, t, v1d, p1d, d1)
                        == a1d + self.spec_dfs_list(csd, 0, t, v1d, p1d, d1),
                decreases n - i,
            {
                let ghost before = all_paths.deep_view();
                proof {
                    assert(csd[i as int] == cs@[i as int]@);
                }
                self.dfs_find_valid_paths(&cs[i], targets, visited, path, all_paths, depth + 1);
                proof {
                    let step = self.spec_dfs(csd[i as int], t, v1d, p1d, d1);
                    assert(all_paths.deep_view() == before + step);
                    assert(self.spec_dfs_list(csd, i as int, t, v1d, p1d, d1) == step
                        + self.spec_dfs_list(csd, i + 1, t, v1d, p1d, d1));
                    assert((before + step) + self.spec_dfs_list(csd, i + 1, t, v1d, p1d, d1)
                        =~= before + (step + self.spec_dfs_list(csd, i + 1, t, v1d, p1d, d1)));
                }
                i += 1;
            }
            proof {
                assert(self.spec_dfs_list(csd, n as int, t, v1d, p1d, d1) =~= Seq::<
                    Seq<Seq<char>>,
                >::empty());
                assert(all_paths.deep_view() + self.spec_dfs_list(csd, n as int, t, v1d, p1d, d1)
                    =~= all_paths.deep_view());
                assert(all_paths.deep_view() == a1d + self.spec_dfs_list(csd, 0, t, v1d, p1d, d1));
            }
        }
        proof {
            assert(path@.len() > 0);
            assert(visited@.len() > 0);
        }
        path.pop();
        visited.pop();
        proof {
            assert(path@ =~= old(path)@);
            assert(visited@ =~= old(visited)@);
            assert(all_paths.deep_view() =~= old(all_paths).deep_view() + d);
        }
    }

    /// All paths that the bounded search finds from `start` to the target
    /// set.
    pub fn find_valid_paths(&self, start: &String, targets: &Vec<String>) -> (r: Vec<Vec<String>>)
        requires
            self.wf(),
        ensures
            r.deep_view() == self.spec_dfs(
                start@,
                targets.deep_view(),
                Seq::empty(),
                Seq::empty(),
                0,
            ),
    {
        let mut visited: Vec<String> = Vec::new();
        let mut path: Vec<String> = Vec::new();
        let mut all_paths: Vec<Vec<String>> = Vec::new();
        proof {
            assert(visited.deep_view() =~= Seq::<Seq<char>>::empty());
            assert(path.deep_view() =~= Seq::<Seq<char>>::empty());
            assert(all_paths.deep_view() =~= Seq::<Seq<Seq<char>>>::empty());
        }
        self.dfs_find_valid_paths(start, targets, &mut visited, &mut path, &mut all_paths, 0);
        proof {
            assert(all_paths.deep_view() =~= self.spec_dfs(
                start@,
                targets.deep_view(),
                Seq::empty(),
                Seq::empty(),
                0,
            ));
        }
        all_paths
    }

    /// The degenerate reports, walking `public_unsafe_functions` from
    /// index `i`: one single-node path for each public entry that is not
    /// declared unsafe yet is an unsafe sink itself.
    pub open spec fn spec_degenerate_paths(self, i: int) -> Seq<Seq<Seq<char>>>
        decreases self.public_unsafe_functions.deep_view().len() - i,
    {
        let pu = self.public_unsafe_functions.deep_view();
        if i < 0 || i >= pu.len() {
            Seq::empty()
        } else {
            let head: Seq<Seq<Seq<char>>> = if self.is_public_non_unsafe(pu[i])
                && self.spec_valid_path(seq![pu[i]]) {
                seq![seq![pu[i]]]
            } else {
                Seq::empty()
            };
            head + self.spec_degenerate_paths(i + 1)
        }
    }

    /// The search targets, walking `unsafe_functions` from index `i`: the
    /// unsafe functions that are not publicly visible.
    pub open spec fn spec_sink_targets(self, i: int) -> Seq<Seq<char>>
        decreases self.unsafe_functions.deep_view().len() - i,
    {
        let u = self.unsafe_functions.deep_view();
        if i < 0 || i >= u.len() {
            Seq::empty()
        } else {
            let head: Seq<Seq<char>> = if !self.is_public(u[i]) {
                seq![u[i]]
            } else {
                Seq::empty()
            };
            head + self.spec_sink_targets(i + 1)
        }
    }

    /// The candidates of `ps` from index `i` on that pass the validity and
    /// minimality predicates.
    pub open spec fn spec_filter_paths(self, ps: Seq<Seq<Seq<char>>>, i: int) -> Seq<
        Seq<Seq<char>>,
    >
        decreases ps.len() - i,
    {
        if i < 0 || i >= ps.len() {
            Seq::empty()
        } else {
            let head: Seq<Seq<Seq<char>>> = if self.spec_valid_path(ps[i])
                && self.spec_minimal_path(ps[i]) {
                seq![ps[i]]
            } else {
                Seq::empty()
            };
            head + self.spec_filter_paths(ps, i + 1)
        }
    }

    /// The multi-node reports, walking `public_non_unsafe_functions` from
    /// index `i`: for every public safe origin that is not itself a
    /// degenerate entry, the searched paths that pass the final filter.
    pub open spec fn spec_origin_paths(self, i: int) -> Seq<Seq<Seq<char>>>
        decreases self.public_non_unsafe_functions.deep_view().len() - i,
    {
        let pnu = self.public_non_unsafe_functions.deep_view();
        if i < 0 || i >= pnu.len() {
            Seq::empty()
        } else {
            let head: Seq<Seq<Seq<char>>> = if !self.is_public_unsafe(pnu[i]) {
                self.spec_filter_paths(
                    self.spec_dfs(pnu[i], self.spec_sink_targets(0), Seq::empty(), Seq::empty(), 0),
                    0,
                )
            } else {
                Seq::empty()
            };
            head + self.spec_origin_paths(i + 1)
        }
    }

    /// Everything one run of the analysis reports, as paths of function
    /// names: the degenerate single-node reports first, then the searched
    /// multi-node reports origin by origin.
    pub open spec fn spec_found_paths(self) -> Seq<Seq<Seq<char>>> {
        self.spec_degenerate_paths(0) + self.spec_origin_paths(0)
    }

    /// Collects the degenerate single-node reports.
    fn collect_degenerate(&self) -> (r: Vec<Vec<String>>)
        ensures
            r.deep_view() == self.spec_degenerate_paths(0),
    {
        let mut out: Vec<Vec<String>> = Vec::new();
        let mut i: usize = 0;
        let n = self.public_unsafe_functions.len();
        while i < n
            invariant
                n == self.public_unsafe_functions@.len(),
                i <= n,
                out.deep_view() + self.spec_degenerate_paths(i as int) == self.spec_degenerate_paths(
                    0,
                ),
            decreases n - i,
        {
            let ghost pu = self.public_unsafe_functions.deep_view();
            let ghost before = out.deep_view();
            let f = &self.public_unsafe_functions[i];
            proof {
                assert(pu[i as int] == f@);
            }
            if vec_contains_string(&self.public_non_unsafe_functions, f) {
                let mut path: Vec<String> = Vec::new();
                path.push(clone_string(f));
                proof {
                    assert(path.deep_view() =~= seq![f@]);
                }
                if self.is_valid_path(&path) {
                    out.push(path);
                    proof {
                        assert(out.deep_view() =~= before.push(seq![f@]));
                        assert(out.deep_view() =~= before + seq![seq![f@]]);
                    }
                }
            }
            proof {
                assert((before + self.spec_degenerate_paths(i as int))
                    =~= (out.deep_view() + self.spec_degenerate_paths(i + 1)));
            }
            i += 1;
        }
        proof {
            assert(self.spec_degenerate_paths(n as int) =~= Seq::<Seq<Seq<char>>>::empty());
            assert(out.deep_view() + self.spec_degenerate_paths(n as int) =~= out.deep_view());
        }
        out
    }

    /// Collects the non-public unsafe sinks that the search aims for.
    fn collect_sink_targets(&self) -> (r: Vec<String>)
        ensures
            r.deep_view() == self.spec_sink_targets(0),
    {
        let mut out: Vec<String> = Vec::new();
        let mut i: usize = 0;
        let n = self.unsafe_functions.len();
        while i < n
            invariant
                n == self.unsafe_functions@.len(),
                i <= n,
                out.deep_view() + self.spec_sink_targets(i as int) == self.spec_sink_targets(0),
            decreases n - i,
        {
            let ghost before = out.deep_view();
            let f = &self.unsafe_functions[i];
            proof {
                assert(self.unsafe_functions.deep_view()[i as int] == f@);
            }
            if !vec_contains_string(&self.public_functions, f) {
                out.push(clone_string(f));
                proof {
                    assert(out.deep_view() =~= before + seq![f@]);
                }
            }
            proof {
                assert((before + self.spec_sink_targets(i as int)) =~= (out.deep_view()
                    + self.spec_sink_targets(i + 1)));
            }
            i += 1;
        }
        proof {
            assert(self.spec_sink_targets(n as int) =~= Seq::<Seq<char>>::empty());
            assert(out.deep_view() + self.spec_sink_targets(n as int) =~= out.deep_view());
        }
        out
    }

    /// Keeps the candidates that pass the validity and minimality checks.
    fn filter_candidates(&self, cands: &Vec<Vec<String>>) -> (r: Vec<Vec<String>>)
        ensures
            r.deep_view() == self.spec_filter_paths(cands.deep_view(), 0),
    {
        let mut out: Vec<Vec<String>> = Vec::new();
        let mut i: usize = 0;
        let n = cands.len();
        while i < n
            invariant
                n == cands@.len(),
                i <= n,
                out.deep_view() + self.spec_filter_paths(cands.deep_view(), i as int)
                    == self.spec_filter_paths(cands.deep_view(), 0),
            decreases n - i,
        {
            let ghost before = out.deep_view();
            let ghost cd = cands.deep_view();
            proof {
                assert(cd[i as int] == cands@[i as int].deep_view());
            }
            if self.is_valid_path(&cands[i]) && self.is_minimal_path(&cands[i]) {
                out.push(clone_string_vec(&cands[i]));
                proof {
                    assert(out.deep_view() =~= before + seq![cd[i as int]]);
                }
            }
            proof {
                assert((before + self.spec_filter_paths(cd, i as int)) =~= (out.deep_view()
                    + self.spec_filter_paths(cd, i + 1)));
            }
            i += 1;
        }
        proof {
            assert(self.spec_filter_paths(cands.deep_view(), n as int) =~= Seq::<
                Seq<Seq<char>>,
            >::empty());
            assert(out.deep_view() + self.spec_filter_paths(cands.deep_view(), n as int)
                =~= out.deep_view());
        }
        out
    }

    /// Collects the filtered multi-node reports of every eligible origin.
    fn collect_origin_paths(&self) -> (r: Vec<Vec<String>>)
        requires
            self.wf(),
        ensures
            r.deep_view() == self.spec_origin_paths(0),
    {
        let targets = self.collect_sink_targets();
        let mut out: Vec<Vec<String>> = Vec::new();
        let mut i: usize = 0;
        let n = self.public_non_unsafe_functions.len();
        while i < n
            invariant
                self.wf(),
                n == self.public_non_unsafe_functions@.len(),
                i <= n,
                targets.deep_view() == self.spec_sink_targets(0),
                out.deep_view() + self.spec_origin_paths(i as int) == self.spec_origin_paths(0),
            decreases n - i,
        {
            let ghost before = out.deep_view();
            let f = &self.public_non_unsafe_functions[i];
            proof {
                assert(self.public_non_unsafe_functions.deep_view()[i as int] == f@);
            }
            if !vec_contains_string(&self.public_unsafe_functions, f) {
                let cands = self.find_valid_paths(f, &targets);
                let mut kept = self.filter_candidates(&cands);
                out.append(&mut kept);
                proof {
                    assert(out.deep_view() =~= before + self.spec_filter_paths(
                        self.spec_dfs(
                            f@,
                            self.spec_sink_targets(0),
                            Seq::empty(),
                            Seq::empty(),
                            0,
                        ),
                        0,
                    ));
                }
            }
            proof {
                assert((before + self.spec_origin_paths(i as int)) =~= (out.deep_view()
                    + self.spec_origin_paths(i + 1)));
            }
            i += 1;
        }
        proof {
            assert(self.spec_origin_paths(n as int) =~= Seq::<Seq<Seq<char>>>::empty());
            assert(out.deep_view() + self.spec_origin_paths(n as int) =~= out.deep_view());
        }
        out
    }

    /// Whether `nodes` is the converted snapshot of the path `p`.
    pub open spec fn nodes_match_path(self, p: Seq<Seq<char>>, nodes: Seq<PathNodeInfo>) -> bool {
        nodes.len() == p.len() && forall|j: int|
            0 <= j < p.len() ==> self.node_matches(p[j], #[trigger] nodes[j])
    }

    /// Runs the whole analysis over the classified graph: the degenerate
    /// single-node reports, then the bounded search from every eligible
    /// public safe origin towards the non-public unsafe sinks, filtered for
    /// validity and minimality, each surviving path converted to full
    /// snapshots. The search runs towards the full sink set: a
    /// reachability precompute would only prune branches the search
    /// already avoids, so the reported set is the same without it.
    pub fn find_paths_to_unsafe(&self) -> (r: Vec<Vec<PathNodeInfo>>)
        requires
            self.wf(),
        ensures
            r@.len() == self.spec_found_paths().len(),
            forall|k: int|
                0 <= k < r@.len() ==> self.nodes_match_path(
                    self.spec_found_paths()[k],
                    (#[trigger] r@[k])@,
                ),
    {
        let degen = self.collect_degenerate();
        let mut raw = degen;
        let mut more = self.collect_origin_paths();
        let ghost degen_d = raw.deep_view();
        let ghost more_d = more.deep_view();
        raw.append(&mut more);
        proof {
            assert(raw.deep_view() =~= degen_d + more_d);
            assert(raw.deep_view() == self.spec_found_paths());
        }
        let mut out: Vec<Vec<PathNodeInfo>> = Vec::new();
        let mut i: usize = 0;
        let n = raw.len();
        while i < n
            invariant
                self.wf(),
                n == raw@.len(),
                i <= n,
                raw.deep_view() == self.spec_found_paths(),
                out@.len() == i,
                forall|k: int|
                    0 <= k < i ==> self.nodes_match_path(
                        self.spec_found_paths()[k],
                        (#[trigger] out@[k])@,
                    ),
            decreases n - i,
        {
            let nodes = self.convert_path_to_node_info(clone_string_vec(&raw[i]));
            proof {
                assert(raw.deep_view()[i as int] == raw@[i as int].deep_view());
            }
            out.push(nodes);
            i += 1;
        }
        out
    }

    /// Whether some recorded call names `q` as its callee.
    pub open spec fn is_callee_name(self, q: Seq<char>) -> bool {
        exists|i: int| 0 <= i < self.calls@.len() && (#[trigger] self.calls@[i]).callee@ == q
    }

    /// Whether some call chain of the graph leads from `a` to `b`.
    pub open spec fn reachable(self, a: Seq<char>, b: Seq<char>) -> bool {
        exists|p: Seq<Seq<char>>|
            p.len() >= 1 && p[0] == a && p.last() == b && #[trigger] self.chain(p)
    }

    /// Walks the call edges breadth first from `start` and reports which
    /// members of `targets` it meets: the result holds exactly the targets
    /// that some call chain reaches from `start`, the start itself included
    /// when it is a target. Callers may use this to prune a search space;
    /// the bounded search visits only reachable nodes anyway, so pruning
    /// never changes what is reported.
    pub fn precompute_reachable_targets(&self, start: &String, targets: &Vec<String>) -> (r: Vec<
        String,
    >)
        ensures
            forall|q: Seq<char>|
                #[trigger] r.deep_view().contains(q) ==> targets.deep_view().contains(q)
                    && self.reachable(start@, q),
            forall|q: Seq<char>|
                targets.deep_view().contains(q) && self.reachable(start@, q)
                    ==> #[trigger] r.deep_view().contains(q),
    {
        let mut queue: Vec<String> = Vec::new();
        queue.push(clone_string(start));
        let mut head: usize = 0;
        let mut reach: Vec<String> = Vec::new();
        proof {
            assert(queue.deep_view() =~= seq![start@]);
            lemma_reachable_refl(*self, start@);
            assert(reach.deep_view() =~= Seq::<Seq<char>>::empty());
        }
        while head < queue.len()
            invariant
                head <= queue@.len(),
                distinct_seqs(queue.deep_view()),
                queue@.len() <= self.calls@.len() + 1,
                queue.deep_view().len() >= 1,
                queue.deep_view()[0] == start@,
                forall|j: int|
                    0 <= j < queue.deep_view().len() ==> #[trigger] queue.deep_view()[j] == start@
                        || self.is_callee_name(queue.deep_view()[j]),
                forall|j: int|
                    0 <= j < queue.deep_view().len() ==> self.reachable(
                        start@,
                        #[trigger] queue.deep_view()[j],
                    ),
                forall|j: int, b: Seq<char>|
                    0 <= j < head && #[trigger] self.edge(queue.deep_view()[j], b)
                        ==> queue.deep_view().contains(b),
                forall|j: int|
                    0 <= j < head && targets.deep_view().contains(
                        #[trigger] queue.deep_view()[j],
                    ) ==> reach.deep_view().contains(queue.deep_view()[j]),
                forall|q: Seq<char>|
                    #[trigger] reach.deep_view().contains(q) ==> targets.deep_view().contains(q)
                        && self.reachable(start@, q),
            decreases self.calls@.len() + 1 - queue@.len(), queue@.len() - head,
        {
            let current = clone_string(&queue[head]);
            proof {
                assert(queue.deep_view()[head as int] == current@);
                assert(self.reachable(start@, current@));
            }
            if vec_contains_string(targets, &current) {
                let ghost before = reach.deep_view();
                reach.push(clone_string(&current));
                proof {
                    assert(reach.deep_view() =~= before.push(current@));
                    lemma_push_contains(before, reach.deep_view(), current@);
                }
            }
            let cs = self.get_callees(&current);
            let mut i: usize = 0;
            let ghost qlen0 = queue@.len();
            while i < cs.len()
                invariant
                    i <= cs@.len(),
                    cs.deep_view() == self.spec_callees(current@),
                    self.reachable(start@, current@),
                    head <= qlen0 <= queue@.len(),
                    head < queue.deep_view().len(),
                    current@ == queue.deep_view()[head as int],
                    distinct_seqs(queue.deep_view()),
                    queue@.len() <= self.calls@.len() + 1,
                    queue.deep_view().len() >= 1,
                    queue.deep_view()[0] == start@,
                    forall|j2: int|
                        0 <= j2 < i ==> queue.deep_view().contains(
                            #[trigger] cs.deep_view()[j2],
                        ),
                    forall|j: int|
                        0 <= j < queue.deep_view().len() ==> #[trigger] queue.deep_view()[j]
                            == start@ || self.is_callee_name(queue.deep_view()[j]),
                    forall|j: int|
                        0 <= j < queue.deep_view().len() ==> self.reachable(
                            start@,
                            #[trigger] queue.deep_view()[j],
                        ),
                    forall|j: int, b: Seq<char>|
                        0 <= j < head && #[trigger] self.edge(queue.deep_view()[j], b)
                            ==> queue.deep_view().contains(b),
                    forall|j: int|
                        0 <= j < head && targets.deep_view().contains(
                            #[trigger] queue.deep_view()[j],
                        ) ==> reach.deep_view().contains(queue.deep_view()[j]),
                    targets.deep_view().contains(current@) ==> reach.deep_view().contains(
                        current@,
                    ),
                    forall|q: Seq<char>|
                        #[trigger] reach.deep_view().contains(q) ==> targets.deep_view().contains(
                            q,
                        ) && self.reachable(start@, q),
                decreases cs@.len() - i,
            {
                proof {
                    assert(cs.deep_view()[i as int] == cs@[i as int]@);
                }
                if !vec_contains_string(&queue, &cs[i]) {
                    let ghost qd = queue.deep_view();
                    let ghost c = cs@[i as int]@;
                    proof {
                        assert(cs.deep_view().contains(c));
                        lemma_callees_edge(self.calls@, current@, c);
                        lemma_reachable_step(*self, start@, current@, c);
                    }
                    queue.push(clone_string(&cs[i]));
                    proof {
                        assert(queue.deep_view() =~= qd.push(c));
                        lemma_push_contains(qd, queue.deep_view(), c);
                        lemma_name_pool_bound(*self, queue.deep_view(), start@);
                        assert(forall|j: int|
                            0 <= j < qd.len() ==> queue.deep_view()[j] == qd[j]);
                    }
                }
                i += 1;
            }
            proof {
                assert forall|b: Seq<char>| #[trigger] self.edge(current@, b) implies
                    queue.deep_view().contains(b) by {
                    lemma_edge_callees(self.calls@, current@, b);
                    let j2 = choose|j2: int|
                        0 <= j2 < cs.deep_view().len() && cs.deep_view()[j2] == b;
                }
            }
            head += 1;
        }
        proof {
            let qd = queue.deep_view();
            assert forall|q: Seq<char>|
                targets.deep_view().contains(q) && self.reachable(start@, q) implies
                reach.deep_view().contains(q) by {
                let pth = choose|pth: Seq<Seq<char>>|
                    pth.len() >= 1 && pth[0] == start@ && pth.last() == q && #[trigger] self.chain(
                        pth,
                    );
                assert(qd.contains(qd[0]));
                assert forall|j: int, b: Seq<char>|
                    0 <= j < qd.len() && #[trigger] self.edge(qd[j], b) implies qd.contains(
                    b,
                ) by {
                    assert(j < head);
                }
                lemma_chain_covered(*self, qd, pth);
                let j = choose|j: int| 0 <= j < qd.len() && qd[j] == q;
                assert(j < head);
                assert(reach.deep_view().contains(qd[j]));
            }
        }
        reach
    }

    /// The function names along a converted path, in order.
    pub open spec fn path_route(nodes: Seq<PathNodeInfo>) -> Seq<Seq<char>> {
        Seq::new(nodes.len(), |j: int| nodes[j].full_path@)
    }

    /// The record stored for the function at path `p`, if any.
    pub fn get_function(&self, p: &String) -> (r: Option<&FunctionInfo>)
        requires
            self.wf(),
        ensures
            match r {
                Some(info) => self.has_fn(p@) && *info == self.fn_info(p@),
                None => !self.has_fn(p@),
            },
    {
        let mut i: usize = 0;
        let n = self.functions.len();
        while i < n
            invariant
                self.wf(),
                n == self.functions@.len(),
                i <= n,
                forall|j: int| 0 <= j < i ==> (#[trigger] self.functions@[j]).path@ != p@,
            decreases n - i,
        {
            if str_eq(self.functions[i].path.as_str(), p.as_str()) {
                proof {
                    assert(self.has_fn(p@));
                    let k = self.fn_index(p@);
                    if k != i {
                        assert(self.functions@[k].path@ == self.functions@[i as int].path@);
                        assert(false);
                    }
                }
                return Some(&self.functions[i].info);
            }
            i += 1;
        }
        None
    }
}

/// Every function reaches itself through the one-node chain.
proof fn lemma_reachable_refl(g: CallGraph, a: Seq<char>)
    ensures
        g.reachable(a, a),
{
    let p = seq![a];
    assert(g.chain(p));
    assert(p.len() >= 1 && p[0] == a && p.last() == a);
}

/// A chain to `b` followed by an edge from `b` gives a chain to `c`.
proof fn lemma_reachable_step(g: CallGraph, a: Seq<char>, b: Seq<char>, c: Seq<char>)
    requires
        g.reachable(a, b),
        g.edge(b, c),
    ensures
        g.reachable(a, c),
{
    let p = choose|p: Seq<Seq<char>>|
        p.len() >= 1 && p[0] == a && p.last() == b && #[trigger] g.chain(p);
    let q = p.push(c);
    assert forall|i: int| 0 <= i < q.len() - 1 implies #[trigger] g.edge(q[i], q[i + 1]) by {
        if i < p.len() - 1 {
            assert(q[i] == p[i] && q[i + 1] == p[i + 1]);
            assert(g.edge(p[i], p[i + 1]));
        } else {
            assert(q[i] == p.last() && q[i + 1] == c);
        }
    }
    assert(q.len() >= 1 && q[0] == a && q.last() == c && g.chain(q));
}

/// A name among the callees of `a` stands as the callee of some recorded
/// call whose caller is `a`.
proof fn lemma_callees_edge(calls: Seq<FunctionCall>, a: Seq<char>, b: Seq<char>)
    requires
        callees_of(calls, a).contains(b),
    ensures
        exists|i: int|
            0 <= i < calls.len() && (#[trigger] calls[i]).caller@ == a && calls[i].callee@ == b,
    decreases calls.len(),
{
    let rest = callees_of(calls.drop_last(), a);
    if calls.last().caller@ == a {
        let full = rest.push(calls.last().callee@);
        let j = choose|j: int| 0 <= j < full.len() && full[j] == b;
        if j < rest.len() {
            assert(rest[j] == b);
            assert(rest.contains(b));
            lemma_callees_edge(calls.drop_last(), a, b);
            let i = choose|i: int|
                0 <= i < calls.drop_last().len() && (#[trigger] calls.drop_last()[i]).caller@ == a
                    && calls.drop_last()[i].callee@ == b;
            assert(calls[i].caller@ == a && calls[i].callee@ == b);
        } else {
            assert(calls[calls.len() - 1].caller@ == a && calls[calls.len() - 1].callee@ == b);
        }
    } else {
        lemma_callees_edge(calls.drop_last(), a, b);
        let i = choose|i: int|
            0 <= i < calls.drop_last().len() && (#[trigger] calls.drop_last()[i]).caller@ == a
                && calls.drop_last()[i].callee@ == b;
        assert(calls[i].caller@ == a && calls[i].callee@ == b);
    }
}

/// A recorded call edge puts its callee among the caller's callee list.
proof fn lemma_edge_callees(calls: Seq<FunctionCall>, a: Seq<char>, b: Seq<char>)
    requires
        exists|i: int|
            0 <= i < calls.len() && (#[trigger] calls[i]).caller@ == a && calls[i].callee@ == b,
    ensures
        callees_of(calls, a).contains(b),
    decreases calls.len(),
{
    let i = choose|i: int|
        0 <= i < calls.len() && (#[trigger] calls[i]).caller@ == a && calls[i].callee@ == b;
    if i == calls.len() - 1 {
        let full = callees_of(calls, a);
        assert(full.last() == b);
    } else {
        assert(calls.drop_last()[i] == calls[i]);
        lemma_edge_callees(calls.drop_last(), a, b);
        let rest = callees_of(calls.drop_last(), a);
        let j = choose|j: int| 0 <= j < rest.len() && rest[j] == b;
        if calls.last().caller@ == a {
            assert(callees_of(calls, a)[j] == b);
        }
    }
}

/// A call chain that starts inside an edge-closed set ends inside it.
proof fn lemma_chain_covered(g: CallGraph, qd: Seq<Seq<char>>, p: Seq<Seq<char>>)
    requires
        p.len() >= 1,
        qd.contains(p[0]),
        g.chain(p),
        forall|j: int, b: Seq<char>|
            0 <= j < qd.len() && #[trigger] g.edge(qd[j], b) ==> qd.contains(b),
    ensures
        qd.contains(p.last()),
    decreases p.len(),
{
    if p.len() > 1 {
        assert forall|t: int| 0 <= t < p.drop_last().len() - 1 implies #[trigger] g.edge(
            p.drop_last()[t],
            p.drop_last()[t + 1],
        ) by {
            assert(p.drop_last()[t] == p[t] && p.drop_last()[t + 1] == p[t + 1]);
            assert(g.edge(p[t], p[t + 1]));
        }
        assert(g.chain(p.drop_last()));
        lemma_chain_covered(g, qd, p.drop_last());
        let v = p.drop_last().last();
        let j = choose|j: int| 0 <= j < qd.len() && qd[j] == v;
        assert(g.edge(p[p.len() - 2], p[p.len() - 2 + 1]));
        assert(g.edge(qd[j], p.last()));
    }
}

/// A repetition-free list whose entries are all `s` or callee names can be
/// no longer than the call list plus one.
proof fn lemma_name_pool_bound(g: CallGraph, v: Seq<Seq<char>>, s: Seq<char>)
    requires
        distinct_seqs(v),
        forall|j: int| 0 <= j < v.len() ==> #[trigger] v[j] == s || g.is_callee_name(v[j]),
    ensures
        v.len() <= g.calls@.len() + 1,
{
    broadcast use vstd::seq_lib::group_seq_properties;

    let names = g.calls@.map_values(|c: FunctionCall| c.callee@);
    let u = names.to_set().insert(s);
    assert(v.no_duplicates());
    v.unique_seq_to_set();
    assert forall|q: Seq<char>| #[trigger] v.to_set().contains(q) implies u.contains(q) by {
        assert(v.contains(q));
        if q != s {
            let j = choose|j: int| 0 <= j < v.len() && v[j] == q;
            let i = choose|i: int|
                0 <= i < g.calls@.len() && (#[trigger] g.calls@[i]).callee@ == q;
            assert(names[i] == q);
            assert(names.contains(q));
        }
    }
    vstd::seq_lib::seq_to_set_is_finite::<Seq<char>>(names);
    names.lemma_cardinality_of_set();
    vstd::set_lib::lemma_len_subset(v.to_set(), u);
}

/// With distinct paths, the record a path looks up is the one stored at
/// its index.
pub(crate) proof fn lemma_fn_info_at(g: CallGraph, i: int)
    requires
        forall|a: int, b: int|
            0 <= a < b < g.functions@.len() ==> (#[trigger] g.functions@[a]).path@ != (
            #[trigger] g.functions@[b]).path@,
        0 <= i < g.functions@.len(),
    ensures
        g.has_fn(g.functions@[i].path@),
        g.fn_info(g.functions@[i].path@) == g.functions@[i].info,
{
    assert(g.has_fn(g.functions@[i].path@));
    let k = g.fn_index(g.functions@[i].path@);
    if k != i {
        assert(g.functions@[k].path@ == g.functions@[i].path@);
        assert(false);
    }
}

/// A function belongs to the unsafe set exactly when its record says it is
/// declared unsafe or holds unsafe code inside, once its visit is complete
/// and it stands in the graph.
pub proof fn lemma_unsafe_set_membership(g: CallGraph, i: int)
    requires
        g.wf(),
        0 <= i < g.functions@.len(),
    ensures
        g.is_unsafe(g.functions@[i].path@) <==> (g.functions@[i].info.is_unsafe_fn
            || g.functions@[i].info.has_internal_unsafe),
{
}

/// What validity and minimality spell out for one path: it has at least
/// one node; a lone node is a public, not-unsafe-declared unsafe sink; a
/// longer path starts at a public not-unsafe-declared origin, ends at an
/// unsafe sink, and passes no intermediate that is public or unsafe.
pub proof fn lemma_path_shape(g: CallGraph, p: Seq<Seq<char>>)
    requires
        g.spec_valid_path(p),
        g.spec_minimal_path(p),
    ensures
        p.len() >= 1,
        p.len() == 1 ==> g.is_public_non_unsafe(p[0]) && g.is_unsafe(p[0]),
        p.len() > 1 ==> g.is_public_non_unsafe(p[0]) && g.is_unsafe(p.last()),
        p.len() > 1 ==> forall|i: int|
            0 < i < p.len() - 1 ==> !g.is_unsafe(#[trigger] p[i]) && !g.is_public_unsafe(p[i])
                && !g.is_public(p[i]),
{
}

/// Every candidate that the final filter keeps is valid and minimal.
proof fn lemma_filter_entries(g: CallGraph, ps: Seq<Seq<Seq<char>>>, i: int)
    ensures
        forall|k: int|
            0 <= k < g.spec_filter_paths(ps, i).len() ==> g.spec_valid_path(
                #[trigger] g.spec_filter_paths(ps, i)[k],
            ) && g.spec_minimal_path(g.spec_filter_paths(ps, i)[k]),
    decreases ps.len() - i,
{
    if 0 <= i < ps.len() {
        lemma_filter_entries(g, ps, i + 1);
        assert forall|k: int| 0 <= k < g.spec_filter_paths(ps, i).len() implies g.spec_valid_path(
            #[trigger] g.spec_filter_paths(ps, i)[k],
        ) && g.spec_minimal_path(g.spec_filter_paths(ps, i)[k]) by {
            let head: Seq<Seq<Seq<char>>> = if g.spec_valid_path(ps[i]) && g.spec_minimal_path(
                ps[i],
            ) {
                seq![ps[i]]
            } else {
                Seq::empty()
            };
            if k < head.len() {
                assert(g.spec_filter_paths(ps, i)[k] == ps[i]);
            } else {
                assert(g.spec_filter_paths(ps, i)[k] == g.spec_filter_paths(ps, i + 1)[k
                    - head.len()]);
            }
        }
    }
}

/// Every degenerate report is valid and minimal.
proof fn lemma_degenerate_entries(g: CallGraph, i: int)
    ensures
        forall|k: int|
            0 <= k < g.spec_degenerate_paths(i).len() ==> g.spec_valid_path(
                #[trigger] g.spec_degenerate_paths(i)[k],
            ) && g.spec_minimal_path(g.spec_degenerate_paths(i)[k]),
    decreases g.public_unsafe_functions.deep_view().len() - i,
{
    let pu = g.public_unsafe_functions.deep_view();
    if 0 <= i < pu.len() {
        lemma_degenerate_entries(g, i + 1);
        assert forall|k: int|
            0 <= k < g.spec_degenerate_paths(i).len() implies g.spec_valid_path(
            #[trigger] g.spec_degenerate_paths(i)[k],
        ) && g.spec_minimal_path(g.spec_degenerate_paths(i)[k]) by {
            let head: Seq<Seq<Seq<char>>> = if g.is_public_non_unsafe(pu[i]) && g.spec_valid_path(
                seq![pu[i]],
            ) {
                seq![seq![pu[i]]]
            } else {
                Seq::empty()
            };
            if k < head.len() {
                assert(g.spec_degenerate_paths(i)[k] == seq![pu[i]]);
                assert(g.spec_minimal_path(seq![pu[i]]));
            } else {
                assert(g.spec_degenerate_paths(i)[k] == g.spec_degenerate_paths(i + 1)[k
                    - head.len()]);
            }
        }
    }
}

/// Every searched report that the filter lets through is valid and minimal.
proof fn lemma_origin_entries(g: CallGraph, i: int)
    ensures
        forall|k: int|
            0 <= k < g.spec_origin_paths(i).len() ==> g.spec_valid_path(
                #[trigger] g.spec_origin_paths(i)[k],
            ) && g.spec_minimal_path(g.spec_origin_paths(i)[k]),
    decreases g.public_non_unsafe_functions.deep_view().len() - i,
{
    let pnu = g.public_non_unsafe_functions.deep_view();
    if 0 <= i < pnu.len() {
        lemma_origin_entries(g, i + 1);
        let head: Seq<Seq<Seq<char>>> = if !g.is_public_unsafe(pnu[i]) {
            g.spec_filter_paths(
                g.spec_dfs(pnu[i], g.spec_sink_targets(0), Seq::empty(), Seq::empty(), 0),
                0,
            )
        } else {
            Seq::empty()
        };
        lemma_filter_entries(
            g,
            g.spec_dfs(pnu[i], g.spec_sink_targets(0), Seq::empty(), Seq::empty(), 0),
            0,
        );
        assert forall|k: int| 0 <= k < g.spec_origin_paths(i).len() implies g.spec_valid_path(
            #[trigger] g.spec_origin_paths(i)[k],
        ) && g.spec_minimal_path(g.spec_origin_paths(i)[k]) by {
            if k < head.len() {
                assert(g.spec_origin_paths(i)[k] == head[k]);
            } else {
                assert(g.spec_origin_paths(i)[k] == g.spec_origin_paths(i + 1)[k - head.len()]);
            }
        }
    }
}

/// Every path the analysis reports is valid and minimal: it starts at a
/// public function that is not declared unsafe, ends at an unsafe sink,
/// and no function after the origin is public or unsafe except the sink.
pub proof fn lemma_reported_paths_valid(g: CallGraph)
    requires
        g.wf(),
    ensures
        forall|k: int|
            0 <= k < g.spec_found_paths().len() ==> g.spec_valid_path(
                #[trigger] g.spec_found_paths()[k],
            ) && g.spec_minimal_path(g.spec_found_paths()[k]),
{
    lemma_degenerate_entries(g, 0);
    lemma_origin_entries(g, 0);
    assert forall|k: int| 0 <= k < g.spec_found_paths().len() implies g.spec_valid_path(
        #[trigger] g.spec_found_paths()[k],
    ) && g.spec_minimal_path(g.spec_found_paths()[k]) by {
        let d = g.spec_degenerate_paths(0);
        if k < d.len() {
            assert(g.spec_found_paths()[k] == d[k]);
        } else {
            assert(g.spec_found_paths()[k] == g.spec_origin_paths(0)[k - d.len()]);
        }
    }
}

/// The degenerate reports from index `i` on include the entry for `idx`.
proof fn lemma_degenerate_from(g: CallGraph, i: int, idx: int)
    requires
        0 <= i <= idx < g.public_unsafe_functions.deep_view().len(),
        g.is_public_non_unsafe(g.public_unsafe_functions.deep_view()[idx]),
        g.spec_valid_path(seq![g.public_unsafe_functions.deep_view()[idx]]),
    ensures
        g.spec_degenerate_paths(i).contains(seq![g.public_unsafe_functions.deep_view()[idx]]),
    decreases idx - i,
{
    let pu = g.public_unsafe_functions.deep_view();
    let entry = seq![pu[idx]];
    if i == idx {
        assert(g.spec_degenerate_paths(i)[0] == entry);
    } else {
        lemma_degenerate_from(g, i + 1, idx);
        let rest = g.spec_degenerate_paths(i + 1);
        let j = choose|j: int| 0 <= j < rest.len() && rest[j] == entry;
        let head: Seq<Seq<Seq<char>>> = if g.is_public_non_unsafe(pu[i]) && g.spec_valid_path(
            seq![pu[i]],
        ) {
            seq![seq![pu[i]]]
        } else {
            Seq::empty()
        };
        assert(g.spec_degenerate_paths(i)[head.len() + j] == entry);
    }
}

/// Every public function that is not declared unsafe yet holds unsafe code
/// inside is reported, as a path of exactly one node.
pub proof fn lemma_degenerate_complete(g: CallGraph, f: Seq<char>)
    requires
        g.wf(),
        g.is_public_unsafe(f),
        g.is_public_non_unsafe(f),
    ensures
        g.spec_found_paths().contains(seq![f]),
{
    let pu = g.public_unsafe_functions.deep_view();
    let idx = choose|idx: int| 0 <= idx < pu.len() && pu[idx] == f;
    assert(g.has_fn(f));
    let e = choose|i: int| 0 <= i < g.functions@.len() && (#[trigger] g.functions@[i]).path@ == f;
    assert(g.functions@[e].info.has_internal_unsafe);
    assert(g.is_unsafe(f));
    assert(g.spec_valid_path(seq![f]));
    lemma_degenerate_from(g, 0, idx);
    let d = g.spec_degenerate_paths(0);
    let j = choose|j: int| 0 <= j < d.len() && d[j] == seq![f];
    assert(g.spec_found_paths()[j] == seq![f]);
}

/// Everything the bounded search finds extends the walked path by the
/// current node, follows call edges throughout, and ends on a target.
proof fn lemma_dfs_chains(
    g: CallGraph,
    current: Seq<char>,
    targets: Seq<Seq<char>>,
    visited: Seq<Seq<char>>,
    path: Seq<Seq<char>>,
    depth: nat,
)
    requires
        g.chain(path.push(current)),
    ensures
        forall|k: int|
            0 <= k < g.spec_dfs(current, targets, visited, path, depth).len() ==> {
                let q = #[trigger] g.spec_dfs(current, targets, visited, path, depth)[k];
                &&& g.chain(q)
                &&& q.len() > path.len()
                &&& q.take(path.len() + 1 as int) == path.push(current)
                &&& targets.contains(q.last())
            },
    decreases g.max_search_depth + 1 - depth, 1int, 0int,
{
    let found = g.spec_dfs(current, targets, visited, path, depth);
    if depth > g.max_search_depth {
    } else if visited.contains(current) {
    } else if path.len() > 0 && !targets.contains(current) && (g.is_unsafe(current)
        || g.is_public_unsafe(current)) {
    } else if targets.contains(current) {
        assert forall|k: int| 0 <= k < found.len() implies {
            let q = #[trigger] found[k];
            &&& g.chain(q)
            &&& q.len() > path.len()
            &&& q.take(path.len() + 1 as int) == path.push(current)
            &&& targets.contains(q.last())
        } by {
            assert(found[k] == path.push(current));
            assert(path.push(current).take(path.len() + 1 as int) =~= path.push(current));
        }
    } else {
        let cs = g.spec_callees(current);
        let path2 = path.push(current);
        assert forall|j: int| 0 <= j < cs.len() implies g.edge(path2.last(), #[trigger] cs[j]) by {
            assert(cs.contains(cs[j]));
            lemma_callees_edge(g.calls@, current, cs[j]);
        }
        assert(g.chain(path2));
        lemma_dfs_list_chains(
            g,
            cs,
            0,
            targets,
            visited.push(current),
            path2,
            (depth + 1) as nat,
        );
        assert forall|k: int| 0 <= k < found.len() implies {
            let q = #[trigger] found[k];
            &&& g.chain(q)
            &&& q.len() > path.len()
            &&& q.take(path.len() + 1 as int) == path.push(current)
            &&& targets.contains(q.last())
        } by {
            let lst = g.spec_dfs_list(
                cs,
                0,
                targets,
                visited.push(current),
                path2,
                (depth + 1) as nat,
            );
            assert(found == lst);
            let q = lst[k];
            assert(q.take(path2.len() as int) == path2);
            assert(q.take(path.len() + 1 as int) == path.push(current));
        }
    }
}

/// The same, for the search over each callee of the list from `i` on:
/// every found path keeps the walked path as its prefix.
proof fn lemma_dfs_list_chains(
    g: CallGraph,
    cs: Seq<Seq<char>>,
    i: int,
    targets: Seq<Seq<char>>,
    visited: Seq<Seq<char>>,
    path: Seq<Seq<char>>,
    depth: nat,
)
    requires
        path.len() >= 1,
        g.chain(path),
        forall|j: int| 0 <= j < cs.len() ==> g.edge(path.last(), #[trigger] cs[j]),
    ensures
        forall|k: int|
            0 <= k < g.spec_dfs_list(cs, i, targets, visited, path, depth).len() ==> {
                let q = #[trigger] g.spec_dfs_list(cs, i, targets, visited, path, depth)[k];
                &&& g.chain(q)
                &&& q.len() > path.len()
                &&& q.take(path.len() as int) == path
                &&& targets.contains(q.last())
            },
    decreases g.max_search_depth + 1 - depth, 2int, cs.len() - i,
{
    if i < 0 || i >= cs.len() || depth > g.max_search_depth + 1 {
    } else {
        let ext = path.push(cs[i]);
        assert forall|t: int| 0 <= t < ext.len() - 1 implies #[trigger] g.edge(
            ext[t],
            ext[t + 1],
        ) by {
            if t < path.len() - 1 {
                assert(ext[t] == path[t] && ext[t + 1] == path[t + 1]);
                assert(g.edge(path[t], path[t + 1]));
            } else {
                assert(ext[t] == path.last() && ext[t + 1] == cs[i]);
            }
        }
        assert(g.chain(ext));
        lemma_dfs_chains(g, cs[i], targets, visited, path, depth);
        lemma_dfs_list_chains(g, cs, i + 1, targets, visited, path, depth);
        let head = g.spec_dfs(cs[i], targets, visited, path, depth);
        let rest = g.spec_dfs_list(cs, i + 1, targets, visited, path, depth);
        assert forall|k: int|
            0 <= k < g.spec_dfs_list(cs, i, targets, visited, path, depth).len() implies {
            let q = #[trigger] g.spec_dfs_list(cs, i, targets, visited, path, depth)[k];
            &&& g.chain(q)
            &&& q.len() > path.len()
            &&& q.take(path.len() as int) == path
            &&& targets.contains(q.last())
        } by {
            let q = g.spec_dfs_list(cs, i, targets, visited, path, depth)[k];
            if k < head.len() {
                assert(q == head[k]);
                assert(q.take(path.len() + 1 as int) == path.push(cs[i]));
                assert(q.take(path.len() as int) =~= q.take(path.len() + 1 as int).take(
                    path.len() as int,
                ));
                assert(path.push(cs[i]).take(path.len() as int) =~= path);
            } else {
                assert(q == rest[k - head.len()]);
            }
        }
    }
}

/// Every candidate the filter keeps comes from the searched list.
proof fn lemma_filter_from(g: CallGraph, ps: Seq<Seq<Seq<char>>>, i: int)
    ensures
        forall|k: int|
            0 <= k < g.spec_filter_paths(ps, i).len() ==> ps.contains(
                #[trigger] g.spec_filter_paths(ps, i)[k],
            ),
    decreases ps.len() - i,
{
    if 0 <= i < ps.len() {
        lemma_filter_from(g, ps, i + 1);
        assert forall|k: int| 0 <= k < g.spec_filter_paths(ps, i).len() implies ps.contains(
            #[trigger] g.spec_filter_paths(ps, i)[k],
        ) by {
            let head: Seq<Seq<Seq<char>>> = if g.spec_valid_path(ps[i]) && g.spec_minimal_path(
                ps[i],
            ) {
                seq![ps[i]]
            } else {
                Seq::empty()
            };
            if k < head.len() {
                assert(g.spec_filter_paths(ps, i)[k] == ps[i]);
            } else {
                assert(g.spec_filter_paths(ps, i)[k] == g.spec_filter_paths(ps, i + 1)[k
                    - head.len()]);
            }
        }
    }
}

/// Every degenerate report is a single node, trivially a chain.
proof fn lemma_degenerate_chained(g: CallGraph, i: int)
    ensures
        forall|k: int|
            0 <= k < g.spec_degenerate_paths(i).len() ==> g.chain(
                #[trigger] g.spec_degenerate_paths(i)[k],
            ),
    decreases g.public_unsafe_functions.deep_view().len() - i,
{
    let pu = g.public_unsafe_functions.deep_view();
    if 0 <= i < pu.len() {
        lemma_degenerate_chained(g, i + 1);
        assert forall|k: int| 0 <= k < g.spec_degenerate_paths(i).len() implies g.chain(
            #[trigger] g.spec_degenerate_paths(i)[k],
        ) by {
            let head: Seq<Seq<Seq<char>>> = if g.is_public_non_unsafe(pu[i]) && g.spec_valid_path(
                seq![pu[i]],
            ) {
                seq![seq![pu[i]]]
            } else {
                Seq::empty()
            };
            if k < head.len() {
                assert(g.spec_degenerate_paths(i)[k] == seq![pu[i]]);
                assert(g.chain(seq![pu[i]]));
            } else {
                assert(g.spec_degenerate_paths(i)[k] == g.spec_degenerate_paths(i + 1)[k
                    - head.len()]);
            }
        }
    }
}

/// Every searched report follows call edges.
proof fn lemma_origin_paths_chained(g: CallGraph, i: int)
    ensures
        forall|k: int|
            0 <= k < g.spec_origin_paths(i).len() ==> g.chain(
                #[trigger] g.spec_origin_paths(i)[k],
            ),
    decreases g.public_non_unsafe_functions.deep_view().len() - i,
{
    let pnu = g.public_non_unsafe_functions.deep_view();
    if 0 <= i < pnu.len() {
        lemma_origin_paths_chained(g, i + 1);
        let searched = g.spec_dfs(pnu[i], g.spec_sink_targets(0), Seq::empty(), Seq::empty(), 0);
        let head: Seq<Seq<Seq<char>>> = if !g.is_public_unsafe(pnu[i]) {
            g.spec_filter_paths(searched, 0)
        } else {
            Seq::empty()
        };
        assert(g.chain(Seq::<Seq<char>>::empty().push(pnu[i])));
        lemma_dfs_chains(g, pnu[i], g.spec_sink_targets(0), Seq::empty(), Seq::empty(), 0);
        lemma_filter_from(g, searched, 0);
        assert forall|k: int| 0 <= k < g.spec_origin_paths(i).len() implies g.chain(
            #[trigger] g.spec_origin_paths(i)[k],
        ) by {
            let q = g.spec_origin_paths(i)[k];
            if k < head.len() {
                assert(q == head[k]);
                assert(searched.contains(q));
                let j = choose|j: int| 0 <= j < searched.len() && searched[j] == q;
                assert(g.chain(searched[j]));
            } else {
                assert(q == g.spec_origin_paths(i + 1)[k - head.len()]);
            }
        }
    }
}

/// Every reported path follows recorded call edges: each node after the
/// first is a callee of the node before it.
pub proof fn lemma_reported_paths_chained(g: CallGraph)
    ensures
        forall|k: int|
            0 <= k < g.spec_found_paths().len() ==> g.chain(#[trigger] g.spec_found_paths()[k]),
{
    lemma_degenerate_chained(g, 0);
    lemma_origin_paths_chained(g, 0);
    assert forall|k: int| 0 <= k < g.spec_found_paths().len() implies g.chain(
        #[trigger] g.spec_found_paths()[k],
    ) by {
        let d = g.spec_degenerate_paths(0);
        if k < d.len() {
            assert(g.spec_found_paths()[k] == d[k]);
        } else {
            assert(g.spec_found_paths()[k] == g.spec_origin_paths(0)[k - d.len()]);
        }
    }
}

/// Two runs of the analysis over the same graph report the same paths, in
/// the same order: the reported routes are a function of the graph alone.
pub proof fn lemma_analysis_deterministic(
    g: CallGraph,
    r1: Vec<Vec<PathNodeInfo>>,
    r2: Vec<Vec<PathNodeInfo>>,
)
    requires
        call_ensures(CallGraph::find_paths_to_unsafe, (&g,), r1),
        call_ensures(CallGraph::find_paths_to_unsafe, (&g,), r2),
    ensures
        r1@.len() == r2@.len(),
        forall|k: int|
            0 <= k < r1@.len() ==> CallGraph::path_route((#[trigger] r1@[k])@)
                == CallGraph::path_route(r2@[k]@),
{
    assert forall|k: int| 0 <= k < r1@.len() implies CallGraph::path_route((#[trigger] r1@[k])@)
        == CallGraph::path_route(r2@[k]@) by {
        assert(g.nodes_match_path(g.spec_found_paths()[k], r1@[k]@));
        assert(g.nodes_match_path(g.spec_found_paths()[k], r2@[k]@));
        assert(CallGraph::path_route(r1@[k]@) =~= g.spec_found_paths()[k]);
        assert(CallGraph::path_route(r2@[k]@) =~= g.spec_found_paths()[k]);
    }
}

} // verus!
