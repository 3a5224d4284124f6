use vstd::prelude::*;
use vstd::string::StrSliceExecFns;
use vstd::string::StringExecFns;

use crate::ast::Item;
use crate::ast::SourceFile;
use crate::ast::exprs_have_unsafe_in;
use crate::call_graph::CallGraph;
use crate::call_graph::lemma_fn_info_at;
use crate::call_graph::FunctionEntry;
use crate::call_visitor::CallVisitor;
use crate::call_visitor::among_caller_paths;
use crate::call_visitor::caller_defs_in;
use crate::function_visitor::FunctionVisitor;
use crate::function_visitor::first_def_at;
use crate::function_visitor::fn_defs_in;
use crate::function_visitor::records_def;
use crate::function_visitor::spec_convert_visibility;
use crate::models::FileAnalysisResult;
use crate::models::PathNodeInfo;
use crate::models::TypeDefEntry;
use crate::models::clone_type_definition;
use crate::text::clone_string;
use crate::text::is_substring;
use crate::text::str_contains;
use crate::text::str_eq;
use crate::text::vec_contains_string;

verus! {

/// The quick textual gate before parsing: a file is worth analysing only
/// if it mentions an unsafe marker and a public function marker at all.
pub fn should_analyze_source(source: &String) -> (r: bool)
    ensures
        r == (is_substring("unsafe"@, source@) && is_substring("pub fn"@, source@)),
{
    str_contains(source.as_str(), "unsafe") && str_contains(source.as_str(), "pub fn")
}

/// The character that spells one decimal digit.
pub open spec fn digit_of(d: nat) -> char {
    if d == 0 {
        '0'
    } else if d == 1 {
        '1'
    } else if d == 2 {
        '2'
    } else if d == 3 {
        '3'
    } else if d == 4 {
        '4'
    } else if d == 5 {
        '5'
    } else if d == 6 {
        '6'
    } else if d == 7 {
        '7'
    } else if d == 8 {
        '8'
    } else {
        '9'
    }
}

/// The decimal digits of a number, most significant first.
pub open spec fn dec_digits(n: nat) -> Seq<char>
    decreases n,
{
    if n < 10 {
        seq![digit_of(n)]
    } else {
        dec_digits(n / 10).push(digit_of(n % 10))
    }
}

/// One decimal digit as a character.
fn digit_char(d: usize) -> (r: char)
    requires
        d < 10,
    ensures
        r == digit_of(d as nat),
{
    if d == 0 {
        '0'
    } else if d == 1 {
        '1'
    } else if d == 2 {
        '2'
    } else if d == 3 {
        '3'
    } else if d == 4 {
        '4'
    } else if d == 5 {
        '5'
    } else if d == 6 {
        '6'
    } else if d == 7 {
        '7'
    } else if d == 8 {
        '8'
    } else {
        '9'
    }
}

/// Appends the decimal digits of `n`, most significant first.
fn push_decimal(n: usize, out: &mut Vec<char>)
    ensures
        final(out)@ == old(out)@ + dec_digits(n as nat),
    decreases n,
{
    if n >= 10 {
        push_decimal(n / 10, out);
    }
    let ghost mid = out@;
    out.push(digit_char(n % 10));
    proof {
        if n < 10 {
            assert(out@ =~= old(out)@ + seq![digit_of(n as nat)]);
            assert(seq![digit_of((n % 10) as nat)] =~= dec_digits(n as nat));
        } else {
            assert(mid == old(out)@ + dec_digits((n / 10) as nat));
            assert(out@ =~= old(out)@ + dec_digits((n / 10) as nat).push(
                digit_of((n % 10) as nat),
            ));
        }
    }
}

/// The decimal spelling of a number.
pub fn usize_to_string(n: usize) -> (r: String)
    ensures
        r@ == dec_digits(n as nat),
        r@.len() >= 1,
{
    let mut digits: Vec<char> = Vec::new();
    push_decimal(n, &mut digits);
    proof {
        assert(Seq::<char>::empty() + dec_digits(n as nat) =~= dec_digits(n as nat));
    }
    crate::text::string_from_chars(&digits)
}

/// Whether any recorded constructor fragment holds this text inside.
fn any_constructor_contains(constructors: &Vec<String>, code: &String) -> (r: bool)
    ensures
        r == exists|i: int|
            0 <= i < constructors@.len() && is_substring(
                code@,
                (#[trigger] constructors@[i])@,
            ),
{
    let mut i: usize = 0;
    let n = constructors.len();
    while i < n
        invariant
            n == constructors@.len(),
            i <= n,
            forall|j: int| 0 <= j < i ==> !is_substring(code@, (#[trigger] constructors@[j])@),
        decreases n - i,
    {
        if str_contains(constructors[i].as_str(), code.as_str()) {
            return true;
        }
        i += 1;
    }
    false
}

/// Builds the classified call graph of one parsed file: exactly the
/// functions the function visitor recorded, record for record, and
/// exactly the edges the call visitor saw.
pub fn build_call_graph(
    functions: Vec<FunctionEntry>,
    calls: Vec<crate::models::FunctionCall>,
    max_depth: usize,
) -> (r: CallGraph)
    requires
        max_depth < usize::MAX,
        forall|i: int, j: int|
            0 <= i < j < functions@.len() ==> (#[trigger] functions@[i]).path@ != (
            #[trigger] functions@[j]).path@,
    ensures
        r.wf(),
        r.max_search_depth == max_depth,
        forall|q: Seq<char>|
            #[trigger] r.has_fn(q) <==> exists|k: int|
                0 <= k < functions@.len() && (#[trigger] functions@[k]).path@ == q,
        forall|k: int|
            0 <= k < functions@.len() ==> r.has_fn((#[trigger] functions@[k]).path@)
                && r.fn_info(functions@[k].path@) == functions@[k].info,
        forall|a: Seq<char>, b: Seq<char>|
            #[trigger] r.edge(a, b) <==> exists|k: int|
                0 <= k < calls@.len() && (#[trigger] calls@[k]).caller@ == a && calls@[k].callee@
                    == b,
{
    let mut graph = CallGraph::new(max_depth);
    let ghost fns0 = functions@;
    let ghost cs0 = calls@;
    let mut fns = functions;
    proof {
        assert(fns@ =~= fns0.take(fns0.len() as int));
    }
    while fns.len() > 0
        invariant
            graph.wf(),
            graph.max_search_depth == max_depth,
            graph.calls@.len() == 0,
            fns@.len() <= fns0.len(),
            fns@ =~= fns0.take(fns@.len() as int),
            forall|i: int, j: int|
                0 <= i < j < fns0.len() ==> (#[trigger] fns0[i]).path@ != (
                #[trigger] fns0[j]).path@,
            forall|q: Seq<char>|
                #[trigger] graph.has_fn(q) <==> exists|k: int|
                    fns@.len() <= k < fns0.len() && (#[trigger] fns0[k]).path@ == q,
            forall|k: int|
                fns@.len() <= k < fns0.len() ==> graph.has_fn((#[trigger] fns0[k]).path@)
                    && graph.fn_info(fns0[k].path@) == fns0[k].info,
        decreases fns@.len(),
    {
        let ghost before = fns@;
        let e = fns.pop().unwrap();
        proof {
            assert(before =~= fns0.take(before.len() as int));
            assert(e == before[before.len() - 1]);
            assert(before[before.len() - 1] == fns0.take(before.len() as int)[before.len() - 1]);
            assert(e.path@ == fns0[before.len() - 1].path@);
            assert(fns@ =~= before.subrange(0, before.len() - 1));
            if graph.has_fn(e.path@) {
                let k = choose|k: int|
                    before.len() <= k < fns0.len() && (#[trigger] fns0[k]).path@ == e.path@;
                assert(fns0[before.len() - 1].path@ != fns0[k].path@);
            }
            assert(fns@ =~= fns0.take(fns@.len() as int));
        }
        let ghost g0 = graph;
        let ghost einfo = e.info;
        graph.add_function(e.path, e.info);
        proof {
            assert(graph.functions@.last().path@ == fns0[fns@.len() as int].path@);
            assert(graph.functions@.last().info == einfo);
            lemma_fn_info_at(graph, graph.functions@.len() - 1);
            assert(graph.fn_info(fns0[fns@.len() as int].path@) == einfo);
            assert forall|q: Seq<char>| #[trigger] graph.has_fn(q) implies exists|k: int|
                fns@.len() <= k < fns0.len() && (#[trigger] fns0[k]).path@ == q by {
                let ki = choose|ki: int|
                    0 <= ki < graph.functions@.len() && (#[trigger] graph.functions@[ki]).path@
                        == q;
                if ki < g0.functions@.len() {
                    assert(g0.functions@[ki] == graph.functions@[ki]);
                    assert(g0.has_fn(q));
                } else {
                    assert(fns0[fns@.len() as int].path@ == q);
                }
            }
            assert forall|q: Seq<char>|
                (exists|k: int| fns@.len() <= k < fns0.len() && (#[trigger] fns0[k]).path@ == q)
                implies #[trigger] graph.has_fn(q) by {
                let k = choose|k: int|
                    fns@.len() <= k < fns0.len() && (#[trigger] fns0[k]).path@ == q;
                if k > fns@.len() {
                    assert(g0.has_fn(q));
                    let ki = choose|ki: int|
                        0 <= ki < g0.functions@.len() && (#[trigger] g0.functions@[ki]).path@
                            == q;
                    assert(graph.functions@[ki].path@ == q);
                }
            }
            assert forall|k: int| fns@.len() <= k < fns0.len() implies graph.has_fn(
                (#[trigger] fns0[k]).path@,
            ) && graph.fn_info(fns0[k].path@) == fns0[k].info by {
                if k > fns@.len() {
                    assert(g0.has_fn(fns0[k].path@) && g0.fn_info(fns0[k].path@)
                        == fns0[k].info);
                    let ki = g0.fn_index(fns0[k].path@);
                    assert(g0.functions@[ki].path@ == fns0[k].path@);
                    assert(g0.functions@[ki].info == fns0[k].info);
                    assert(graph.functions@[ki] == g0.functions@[ki]);
                    lemma_fn_info_at(graph, ki);
                } else {
                    assert(k == fns@.len());
                    assert(graph.fn_info(fns0[k].path@) == fns0[k].info);
                }
            }
        }
    }
    let mut cs = calls;
    proof {
        assert(fns@.len() == 0);
        assert(cs@ =~= cs0.take(cs0.len() as int));
        assert forall|q: Seq<char>| #[trigger] graph.has_fn(q) implies exists|k: int|
            0 <= k < fns0.len() && (#[trigger] fns0[k]).path@ == q by {
            let k = choose|k: int|
                fns@.len() <= k < fns0.len() && (#[trigger] fns0[k]).path@ == q;
        }
        assert forall|q: Seq<char>|
            (exists|k: int| 0 <= k < fns0.len() && (#[trigger] fns0[k]).path@ == q) implies
            #[trigger] graph.has_fn(q) by {
            let k = choose|k: int| 0 <= k < fns0.len() && (#[trigger] fns0[k]).path@ == q;
            assert(fns@.len() <= k);
        }
    }
    while cs.len() > 0
        invariant
            graph.wf(),
            graph.max_search_depth == max_depth,
            cs@.len() <= cs0.len(),
            cs@ =~= cs0.take(cs@.len() as int),
            forall|q: Seq<char>|
                #[trigger] graph.has_fn(q) <==> exists|k: int|
                    0 <= k < fns0.len() && (#[trigger] fns0[k]).path@ == q,
            forall|k: int|
                0 <= k < fns0.len() ==> graph.has_fn((#[trigger] fns0[k]).path@)
                    && graph.fn_info(fns0[k].path@) == fns0[k].info,
            forall|a: Seq<char>, b: Seq<char>|
                #[trigger] graph.edge(a, b) <==> exists|k: int|
                    cs@.len() <= k < cs0.len() && (#[trigger] cs0[k]).caller@ == a
                        && cs0[k].callee@ == b,
        decreases cs@.len(),
    {
        let ghost before = cs@;
        let c = cs.pop().unwrap();
        proof {
            assert(before =~= cs0.take(before.len() as int));
            assert(c == before[before.len() - 1]);
            assert(before[before.len() - 1] == cs0.take(before.len() as int)[before.len() - 1]);
            assert(c.caller@ == cs0[before.len() - 1].caller@);
            assert(c.callee@ == cs0[before.len() - 1].callee@);
            assert(cs@ =~= before.subrange(0, before.len() - 1));
            assert(cs@ =~= cs0.take(cs@.len() as int));
        }
        let ghost g0 = graph;
        graph.add_call(c.caller, c.callee);
        proof {
            assert forall|q: Seq<char>| #[trigger] graph.has_fn(q) == g0.has_fn(q) by {
                if g0.has_fn(q) {
                    let ki = choose|ki: int|
                        0 <= ki < g0.functions@.len() && (#[trigger] g0.functions@[ki]).path@
                            == q;
                    assert(graph.functions@[ki].path@ == q);
                }
                if graph.has_fn(q) {
                    let ki = choose|ki: int|
                        0 <= ki < graph.functions@.len()
                            && (#[trigger] graph.functions@[ki]).path@ == q;
                    assert(g0.functions@[ki].path@ == q);
                }
            }
            assert forall|k: int| 0 <= k < fns0.len() implies graph.has_fn(
                (#[trigger] fns0[k]).path@,
            ) && graph.fn_info(fns0[k].path@) == fns0[k].info by {
                assert(g0.has_fn(fns0[k].path@));
                let ki = g0.fn_index(fns0[k].path@);
                assert(g0.functions@[ki].path@ == fns0[k].path@);
                assert(g0.functions@[ki].info == fns0[k].info);
                assert(graph.functions@[ki] == g0.functions@[ki]);
                lemma_fn_info_at(graph, ki);
            }
            assert forall|a: Seq<char>, b: Seq<char>| #[trigger] graph.edge(a, b) implies exists|
                k: int,
            |
                cs@.len() <= k < cs0.len() && (#[trigger] cs0[k]).caller@ == a && cs0[k].callee@
                    == b by {
                if g0.edge(a, b) {
                    let k = choose|k: int|
                        before.len() <= k < cs0.len() && (#[trigger] cs0[k]).caller@ == a
                            && cs0[k].callee@ == b;
                } else {
                    assert(a == c.caller@ && b == c.callee@);
                    assert(cs0[cs@.len() as int].caller@ == a && cs0[cs@.len() as int].callee@
                        == b);
                }
            }
            assert forall|a: Seq<char>, b: Seq<char>|
                (exists|k: int|
                    cs@.len() <= k < cs0.len() && (#[trigger] cs0[k]).caller@ == a
                        && cs0[k].callee@ == b) implies #[trigger] graph.edge(a, b) by {
                let k = choose|k: int|
                    cs@.len() <= k < cs0.len() && (#[trigger] cs0[k]).caller@ == a
                        && cs0[k].callee@ == b;
                if k > cs@.len() {
                    assert(g0.edge(a, b));
                }
            }
        }
    }
    graph
}

/// Whether a type name occurs among the parameter types/// Whether a type name occurs among the parameter types of the origin of
/// some discovered path.
pub open spec fn relevant_to_origin(paths: Seq<Vec<PathNodeInfo>>, nm: Seq<char>) -> bool {
    exists|pi: int|
        0 <= pi < paths.len() && (#[trigger] paths[pi])@.len() > 0
            && paths[pi]@[0].param_custom_types.deep_view().contains(nm)
}

/// Collects the type definitions relevant to the discovered paths: for
/// each path, the definitions matching the origin's parameter types, with
/// an annotated copy of every path function that touches the type appended
/// to their constructors, skipping fragments already held.
fn collect_relevant_types(
    paths: &Vec<Vec<PathNodeInfo>>,
    type_definitions: &Vec<TypeDefEntry>,
) -> (r: Vec<TypeDefEntry>)
    ensures
        forall|j: int|
            0 <= j < r@.len() ==> relevant_to_origin(paths@, (#[trigger] r@[j]).def.name@),
{
    let mut out: Vec<TypeDefEntry> = Vec::new();
    let mut pi: usize = 0;
    let np = paths.len();
    while pi < np
        invariant
            np == paths@.len(),
            pi <= np,
            forall|j: int|
                0 <= j < out@.len() ==> relevant_to_origin(paths@, (#[trigger] out@[j]).def.name@),
        decreases np - pi,
    {
        let path = &paths[pi];
        if path.len() == 0 {
            pi += 1;
            continue ;
        }
        let origin_types = &path[0].param_custom_types;
        let mut ti: usize = 0;
        let nt = origin_types.len();
        while ti < nt
            invariant
                np == paths@.len(),
                pi < np,
                *path == paths@[pi as int],
                path@.len() > 0,
                *origin_types == paths@[pi as int]@[0].param_custom_types,
                nt == origin_types@.len(),
                ti <= nt,
                forall|j: int|
                    0 <= j < out@.len() ==> relevant_to_origin(
                        paths@,
                        (#[trigger] out@[j]).def.name@,
                    ),
            decreases nt - ti,
        {
            let tname = &origin_types[ti];
            proof {
                assert(origin_types.deep_view()[ti as int] == tname@);
                assert(relevant_to_origin(paths@, tname@));
            }
            let mut di: usize = 0;
            let nd = type_definitions.len();
            while di < nd
                invariant
                    np == paths@.len(),
                    pi < np,
                    *path == paths@[pi as int],
                    path@.len() > 0,
                    nd == type_definitions@.len(),
                    di <= nd,
                    relevant_to_origin(paths@, tname@),
                    forall|j: int|
                        0 <= j < out@.len() ==> relevant_to_origin(
                            paths@,
                            (#[trigger] out@[j]).def.name@,
                        ),
                decreases nd - di,
            {
                let td = &type_definitions[di];
                if str_eq(td.def.name.as_str(), tname.as_str()) {
                    let mut oi: usize = 0;
                    let mut found: Option<usize> = None;
                    let no = out.len();
                    while oi < no
                        invariant
                            no == out@.len(),
                            oi <= no,
                            match found {
                                Some(f) => f < out@.len(),
                                None => true,
                            },
                            relevant_to_origin(paths@, tname@),
                            forall|j: int|
                                0 <= j < out@.len() ==> relevant_to_origin(
                                    paths@,
                                    (#[trigger] out@[j]).def.name@,
                                ),
                        decreases no - oi,
                    {
                        if str_eq(out[oi].path.as_str(), td.path.as_str()) {
                            found = Some(oi);
                            break ;
                        }
                        oi += 1;
                    }
                    let idx: usize = match found {
                        Some(f) => f,
                        None => {
                            out.push(
                                TypeDefEntry {
                                    path: clone_string(&td.path),
                                    def: clone_type_definition(&td.def),
                                },
                            );
                            proof {
                                assert(out@.last().def.name@ == tname@);
                            }
                            out.len() - 1
                        },
                    };
                    let mut si: usize = 0;
                    let ns = path.len();
                    while si < ns
                        invariant
                            np == paths@.len(),
                            pi < np,
                            *path == paths@[pi as int],
                            ns == path@.len(),
                            si <= ns,
                            idx < out@.len(),
                            relevant_to_origin(paths@, tname@),
                            forall|j: int|
                                0 <= j < out@.len() ==> relevant_to_origin(
                                    paths@,
                                    (#[trigger] out@[j]).def.name@,
                                ),
                        decreases ns - si,
                    {
                        let node = &path[si];
                        let in_params = vec_contains_string(&node.param_custom_types, tname);
                        let in_returns = vec_contains_string(&node.return_custom_types, tname);
                        if in_params || in_returns {
                            let mut w = "impl ".to_owned();
                            w.append(tname.as_str());
                            w.append(" {\n    // step ");
                            let step = usize_to_string(si + 1);
                            w.append(step.as_str());
                            w.append(" of path ");
                            let pnum = usize_to_string(pi + 1);
                            w.append(pnum.as_str());
                            w.append(", used through its ");
                            if in_params && in_returns {
                                w.append("parameters and return value");
                            } else if in_params {
                                w.append("parameters");
                            } else {
                                w.append("return value");
                            }
                            w.append("\n    ");
                            w.append(node.source_code.as_str());
                            w.append("\n}");
                            if !any_constructor_contains(
                                &out[idx].def.constructors,
                                &node.source_code,
                            ) {
                                let ghost out0 = out@;
                                out[idx].def.constructors.push(w);
                                proof {
                                    assert(out@.len() == out0.len());
                                    assert forall|j: int| 0 <= j < out@.len() implies
                                        relevant_to_origin(
                                        paths@,
                                        (#[trigger] out@[j]).def.name@,
                                    ) by {
                                        if j != idx {
                                            assert(out@[j] == out0[j]);
                                        } else {
                                            assert(out@[j].def.name == out0[j].def.name);
                                        }
                                    }
                                }
                            }
                        }
                        si += 1;
                    }
                }
                di += 1;
            }
            ti += 1;
        }
        pi += 1;
    }
    out
}

/// Whether the graph's record under `p` is the committed form of the
/// definition `f`.
pub open spec fn graph_records(g: CallGraph, p: Seq<char>, f: crate::ast::FnItem) -> bool {
    &&& g.has_fn(p)
    &&& g.fn_info(p).name@ == f.sig.name@
    &&& g.fn_info(p).visibility == spec_convert_visibility(f.vis)
    &&& g.fn_info(p).is_unsafe_fn == f.sig.is_unsafe
    &&& g.fn_info(p).has_internal_unsafe == exprs_have_unsafe_in(f.body@)
    &&& g.fn_info(p).source_code@ == f.text@
}

/// Whether a graph is one file's graph: it holds exactly the functions a
/// walk of the file's items records — the first definition of each path,
/// as written — and no edge whose caller is not a function the file
/// defines.
pub open spec fn graph_of_file(g: CallGraph, items: Seq<Item>) -> bool {
    let defs = fn_defs_in(items, Seq::empty(), 0);
    &&& forall|q: Seq<char>|
        #[trigger] g.has_fn(q) <==> exists|t: int|
            0 <= t < defs.len() && (#[trigger] defs[t]).0 == q
    &&& forall|t: int|
        0 <= t < defs.len() && first_def_at(defs, t) ==> graph_records(
            g,
            (#[trigger] defs[t]).0,
            defs[t].1,
        )
    &&& forall|a: Seq<char>, b: Seq<char>|
        #[trigger] g.edge(a, b) ==> among_caller_paths(
            caller_defs_in(items, Seq::empty(), 0),
            a,
        )
}

/// Analyses one parsed file: runs both visitors, builds the classified
/// graph, searches it, and reports the discovered paths together with the
/// type definitions relevant to their origins. The reported paths are
/// exactly what the search reports over one well-formed graph; a file
/// whose graph yields no path reports nothing, the expected common case.
pub fn analyze_parsed(
    file_path: &String,
    source: &String,
    file: &SourceFile,
    max_depth: usize,
) -> (r: Option<FileAnalysisResult>)
    requires
        max_depth < usize::MAX,
    ensures
        (r matches Some(res) ==> res.paths@.len() > 0 && res.file_path@ == file_path@),
        (r matches Some(res) ==> forall|j: int|
            0 <= j < res.type_definitions@.len() ==> relevant_to_origin(
                res.paths@,
                (#[trigger] res.type_definitions@[j]).def.name@,
            )),
        (r matches Some(res) ==> exists|g: CallGraph|
            g.wf() && graph_of_file(g, file.items@) && #[trigger] call_ensures(
                CallGraph::find_paths_to_unsafe,
                (&g,),
                res.paths,
            )),
        r is None ==> exists|g: CallGraph, ps: Vec<Vec<PathNodeInfo>>|
            g.wf() && graph_of_file(g, file.items@) && ps@.len() == 0 && #[trigger] call_ensures(
                CallGraph::find_paths_to_unsafe,
                (&g,),
                ps,
            ),
{
    let mut fn_visitor = FunctionVisitor::new(clone_string(file_path), clone_string(source));
    let ghost fv0 = fn_visitor;
    fn_visitor.visit_file(file);
    let ghost fv = fn_visitor;
    let mut call_visitor = CallVisitor::new();
    let ghost cv0 = call_visitor;
    call_visitor.visit_file(file);
    let ghost cv = call_visitor;
    let graph = build_call_graph(fn_visitor.functions, call_visitor.calls, max_depth);
    proof {
        let defs = fn_defs_in(file.items@, Seq::empty(), 0);
        assert(fv0.current_module.deep_view() =~= Seq::<Seq<char>>::empty());
        assert(fn_defs_in(file.items@, fv0.current_module.deep_view(), 0) == defs);
        assert(cv0.current_module.deep_view() =~= Seq::<Seq<char>>::empty());
        assert(caller_defs_in(file.items@, cv0.current_module.deep_view(), 0) == caller_defs_in(
            file.items@,
            Seq::empty(),
            0,
        ));
        assert(forall|q: Seq<char>| !fv0.has_entry(q));
        assert forall|q: Seq<char>| #[trigger] graph.has_fn(q) implies exists|t: int|
            0 <= t < defs.len() && (#[trigger] defs[t]).0 == q by {
            let k = choose|k: int|
                0 <= k < fv.functions@.len() && (#[trigger] fv.functions@[k]).path@ == q;
            assert(fv.has_entry(q));
        }
        assert forall|q: Seq<char>|
            (exists|t: int| 0 <= t < defs.len() && (#[trigger] defs[t]).0 == q) implies
            #[trigger] graph.has_fn(q) by {
            assert(fv.has_entry(q));
            let k = choose|k: int|
                0 <= k < fv.functions@.len() && (#[trigger] fv.functions@[k]).path@ == q;
        }
        assert forall|t: int| 0 <= t < defs.len() && first_def_at(defs, t) implies graph_records(
            graph,
            (#[trigger] defs[t]).0,
            defs[t].1,
        ) by {
            assert(records_def(fv, defs[t].0, defs[t].1));
            let k = fv.entry_index(defs[t].0);
            assert(fv.functions@[k].path@ == defs[t].0);
            assert(fv.functions@[k].info == fv.entry_info(defs[t].0));
            assert(graph.has_fn(fv.functions@[k].path@) && graph.fn_info(fv.functions@[k].path@)
                == fv.functions@[k].info);
        }
        assert forall|a: Seq<char>, b: Seq<char>| #[trigger] graph.edge(a, b) implies
            among_caller_paths(caller_defs_in(file.items@, Seq::empty(), 0), a) by {
            let k = choose|k: int|
                0 <= k < cv.calls@.len() && (#[trigger] cv.calls@[k]).caller@ == a
                    && cv.calls@[k].callee@ == b;
            assert(cv0.calls@.len() <= k < cv.calls@.len());
            assert(among_caller_paths(
                caller_defs_in(file.items@, cv0.current_module.deep_view(), 0),
                cv.calls@[k].caller@,
            ));
        }
        assert(graph_of_file(graph, file.items@));
    }
    let paths = graph.find_paths_to_unsafe();
    if paths.len() == 0 {
        return None;
    }
    let type_definitions = collect_relevant_types(&paths, &fn_visitor.type_definitions);
    let result = FileAnalysisResult {
        file_path: clone_string(file_path),
        paths,
        type_definitions,
    };
    proof {
        assert(call_ensures(CallGraph::find_paths_to_unsafe, (&graph,), result.paths));
    }
    Some(result)
}

} // verus!
