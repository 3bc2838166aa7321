//! The query interpreter.
//!
//! Evaluation walks the statement tree depth-first.  Each statement combines
//! its verbs into one filter, resolves candidate groups through the symbol
//! index, confirms parent/child connections with the groups' match
//! strategies, and records every confirmed pair as an edge of the result
//! graph.  Bare nested scopes around an empty result turn into an
//! ancestor-depth sentinel instead of resolving anything; the sentinel is
//! consumed by climbing that many extra ancestor rounds and never shows up
//! in the final candidate groups.
//!
//! Every step of the executable interpreter is proved equal to the
//! specification-level evaluation written out below.

use vstd::prelude::*;
use crate::ast::{Statement, StatementView, Verb, VerbView, NamedParameter, verb_views, stmt_view, stmts_view};
use crate::ast_generator::{parse_ast, ParseError, Parsed, sp_query};
use crate::graph::{
    Graph, GraphModel, Node, gm_has_node, gm_count, spec_add_node, spec_add_edge, spec_prune,
    sat_inc,
};
use crate::patterns::Pattern;
use crate::searcher::{
    ClangdServer, SearcherModel, FunctionNode, FunctionNodeView, ForcedNode, ParentChildNode,
    MatchStrategy, SearchFilter, FilterModel, fnode_views, filter_views, spec_find, push_group,
    spec_find_link, cross_from,
};
use crate::text::{seq_views, ascii_caseless_eq};

verus! {

/// The kinds of filter settings a verb can contribute.  Named parameters
/// carry the `Function` and `File` patterns; the exact-identifier and
/// `Forced` settings come from the verb identifiers themselves.
#[derive(Debug, PartialEq, Eq, Structural, Clone, Copy)]
pub enum FilterName {
    Function,
    FunctionNameFromIdent,
    File,
    Forced,
}

/// The filter nothing has been set on yet.
pub open spec fn empty_filter() -> FilterModel {
    FilterModel { function: None, file: None, ident: None, forced: false }
}

/// The catch-all filter substituted where a statement names none.
pub open spec fn catch_all_filter() -> FilterModel {
    FilterModel { function: None, file: None, ident: None, forced: false }
}

/// What one named parameter contributes to a filter; the parameter name is
/// matched with ASCII case folded, so `Function` or `FILE` select too.
pub open spec fn sp_apply_param(acc: FilterModel, name: Seq<char>, pattern: Seq<char>) -> FilterModel {
    if ascii_caseless_eq(name, "function"@) {
        FilterModel { function: Some(pattern), ..acc }
    } else if ascii_caseless_eq(name, "file"@) {
        FilterModel { file: Some(pattern), ..acc }
    } else {
        acc
    }
}

/// What a parameter list contributes to a filter, first to last.
pub open spec fn sp_apply_params(
    acc: FilterModel,
    params: Seq<crate::ast::NamedParameterView>,
) -> FilterModel
    decreases params.len(),
{
    if params.len() == 0 {
        acc
    } else {
        sp_apply_params(sp_apply_param(acc, params[0].name, params[0].pattern), params.drop_first())
    }
}

/// What one verb contributes: `filter` brings its parameters, `forced` sets
/// the flag, and any other identifier is an exact-name filter.
pub open spec fn sp_apply_verb(acc: FilterModel, v: VerbView) -> FilterModel {
    if v.ident == "filter"@ {
        sp_apply_params(acc, v.params)
    } else if v.ident == "forced"@ {
        FilterModel { forced: true, ..acc }
    } else {
        FilterModel { ident: Some(v.ident), ..acc }
    }
}

/// The filter a verb list combines into, first to last.
pub open spec fn sp_combine(verbs: Seq<VerbView>, acc: FilterModel) -> FilterModel
    decreases verbs.len(),
{
    if verbs.len() == 0 {
        acc
    } else {
        sp_combine(verbs.drop_first(), sp_apply_verb(acc, verbs[0]))
    }
}

/// The larger of two counters.
pub open spec fn max32(a: u32, b: u32) -> u32 {
    if a < b {
        b
    } else {
        a
    }
}

/// The pairs a parent group confirms against a child group: the full cross
/// product under `Forced`, the call-index-recorded pairs under `Confirmed`.
pub open spec fn sp_confirm(
    p: FunctionNodeView,
    c: FunctionNodeView,
    m: SearcherModel,
) -> Seq<(Seq<char>, Seq<char>)> {
    match p.match_strategy {
        MatchStrategy::Forced => cross_from(p.function_name, c.function_name, Seq::empty()),
        MatchStrategy::Confirmed => spec_find_link(m.fwd, m.inv, p.function_name, c.function_name),
    }
}

/// Records one confirmed pair: both endpoints as nodes, then the edge.
pub open spec fn sp_apply_pair(g: GraphModel, p: (Seq<char>, Seq<char>)) -> GraphModel {
    let g1 = spec_add_node(g, p.0, 1);
    let g2 = spec_add_node(g1, p.1, 1);
    spec_add_edge(g2, p.0, p.1).0
}

/// Records a list of confirmed pairs, first to last.
pub open spec fn sp_apply_pairs(g: GraphModel, pairs: Seq<(Seq<char>, Seq<char>)>) -> GraphModel
    decreases pairs.len(),
{
    if pairs.len() == 0 {
        g
    } else {
        sp_apply_pairs(sp_apply_pair(g, pairs[0]), pairs.drop_first())
    }
}

/// The parent sides of the pairs, appended to `acc` without repetition.
pub open spec fn sp_pair_firsts(
    acc: Seq<Seq<char>>,
    pairs: Seq<(Seq<char>, Seq<char>)>,
) -> Seq<Seq<char>>
    decreases pairs.len(),
{
    if pairs.len() == 0 {
        acc
    } else {
        let acc2 = if acc.contains(pairs[0].0) {
            acc
        } else {
            acc.push(pairs[0].0)
        };
        sp_pair_firsts(acc2, pairs.drop_first())
    }
}

/// Names appended to `acc` without repetition.
pub open spec fn sp_push_names(acc: Seq<Seq<char>>, names: Seq<Seq<char>>) -> Seq<Seq<char>>
    decreases names.len(),
{
    if names.len() == 0 {
        acc
    } else {
        let acc2 = if acc.contains(names[0]) {
            acc
        } else {
            acc.push(names[0])
        };
        sp_push_names(acc2, names.drop_first())
    }
}

/// One parent group run against every child group: the graph after all
/// confirmed pairs, the matched parent names, which child groups confirmed
/// at least one pair, and whether any did.
pub open spec fn sp_children_pass(
    p: FunctionNodeView,
    children: Seq<FunctionNodeView>,
    m: SearcherModel,
    g: GraphModel,
    matched: Seq<Seq<char>>,
    flags: Seq<bool>,
    found: bool,
) -> (GraphModel, Seq<Seq<char>>, Seq<bool>, bool)
    decreases children.len(),
{
    if children.len() == 0 {
        (g, matched, flags, found)
    } else {
        let pairs = sp_confirm(p, children[0], m);
        let g2 = sp_apply_pairs(g, pairs);
        let matched2 = sp_pair_firsts(matched, pairs);
        sp_children_pass(
            p,
            children.drop_first(),
            m,
            g2,
            matched2,
            flags.push(pairs.len() > 0),
            found || pairs.len() > 0,
        )
    }
}

/// Prunes the listed names that stand in the graph with fewer than two uses.
pub open spec fn sp_prune_group(names: Seq<Seq<char>>, g: GraphModel) -> GraphModel
    decreases names.len(),
{
    if names.len() == 0 {
        g
    } else {
        let g2 = if gm_has_node(g, names[0]) && gm_count(g, names[0]) < 2 {
            spec_prune(g, seq![names[0]])
        } else {
            g
        };
        sp_prune_group(names.drop_first(), g2)
    }
}

/// After a parent found a connection, every child group that never confirmed
/// one is disposable: its low-use nodes are pruned, cascade included.
pub open spec fn sp_prune_pass(
    children: Seq<FunctionNodeView>,
    flags: Seq<bool>,
    g: GraphModel,
) -> GraphModel
    decreases children.len(),
{
    if children.len() == 0 {
        g
    } else {
        let confirmed = flags.len() > 0 && flags[0];
        let g2 = if confirmed {
            g
        } else {
            sp_prune_group(children[0].function_name, g)
        };
        sp_prune_pass(children.drop_first(), flags.drop_first(), g2)
    }
}

/// Every parent group run in turn: the graph after confirmations and
/// pruning, the matched groups (one per parent, under the parent's
/// strategy), and the union of matched parent names.
pub open spec fn sp_parents_pass(
    parents: Seq<FunctionNodeView>,
    children: Seq<FunctionNodeView>,
    m: SearcherModel,
    g: GraphModel,
    out: Seq<FunctionNodeView>,
    frontier: Seq<Seq<char>>,
) -> (GraphModel, Seq<FunctionNodeView>, Seq<Seq<char>>)
    decreases parents.len(),
{
    if parents.len() == 0 {
        (g, out, frontier)
    } else {
        let r = sp_children_pass(parents[0], children, m, g, Seq::empty(), Seq::empty(), false);
        let g2 = if r.3 {
            sp_prune_pass(children, r.2, r.0)
        } else {
            r.0
        };
        let out2 = push_group(
            out,
            FunctionNodeView {
                function_name: r.1,
                document: Seq::empty(),
                match_strategy: parents[0].match_strategy,
            },
        );
        let fr2 = sp_push_names(frontier, r.1);
        sp_parents_pass(parents.drop_first(), children, m, g2, out2, fr2)
    }
}

/// One ancestor round: a catch-all group is confirmed against the previous
/// round's matched set, its edges recorded, and the newly matched parents
/// become the next frontier.
pub open spec fn sp_rounds(
    m: SearcherModel,
    g: GraphModel,
    frontier: Seq<Seq<char>>,
    sg: u32,
) -> (GraphModel, Seq<Seq<char>>)
    decreases sg,
{
    if sg == 0 {
        (g, frontier)
    } else {
        let cands = spec_find(m.files, seq![catch_all_filter()], Seq::empty());
        let pairs = if cands.len() > 0 {
            spec_find_link(m.fwd, m.inv, cands[0].function_name, frontier)
        } else {
            Seq::empty()
        };
        let g2 = sp_apply_pairs(g, pairs);
        let frontier2 = sp_pair_firsts(Seq::empty(), pairs);
        sp_rounds(m, g2, frontier2, (sg - 1) as u32)
    }
}

/// Inserts every name of every group as a node with one use.
pub open spec fn sp_add_group_nodes(
    groups: Seq<FunctionNodeView>,
    g: GraphModel,
) -> GraphModel
    decreases groups.len(),
{
    if groups.len() == 0 {
        g
    } else {
        sp_add_group_nodes(groups.drop_first(), sp_add_names(groups[0].function_name, g))
    }
}

/// Inserts every listed name as a node with one use.
pub open spec fn sp_add_names(names: Seq<Seq<char>>, g: GraphModel) -> GraphModel
    decreases names.len(),
{
    if names.len() == 0 {
        g
    } else {
        sp_add_names(names.drop_first(), spec_add_node(g, names[0], 1))
    }
}

/// The outcome of evaluating statements: the candidate groups, the pending
/// ancestor-depth sentinel, and the graph.
pub struct EvalResult {
    pub groups: Seq<FunctionNodeView>,
    pub depth: u32,
    pub graph: GraphModel,
}

/// Groups appended to `acc` without repeating a name set.
pub open spec fn sp_push_groups(
    acc: Seq<FunctionNodeView>,
    gs: Seq<FunctionNodeView>,
) -> Seq<FunctionNodeView>
    decreases gs.len(),
{
    if gs.len() == 0 {
        acc
    } else {
        sp_push_groups(push_group(acc, gs[0]), gs.drop_first())
    }
}

/// Sibling statements evaluated in turn: their groups unioned, their depth
/// sentinels maxed, the graph threaded through.
pub open spec fn sp_eval_statements(
    stmts: Seq<StatementView>,
    m: SearcherModel,
    g: GraphModel,
    acc: Seq<FunctionNodeView>,
    depth: u32,
) -> EvalResult
    decreases stmts, 1int,
{
    if stmts.len() == 0 {
        EvalResult { groups: acc, depth, graph: g }
    } else {
        let r = sp_eval_statement(stmts[0], m, g);
        sp_eval_statements(
            stmts.drop_first(),
            m,
            r.graph,
            sp_push_groups(acc, r.groups),
            max32(depth, r.depth),
        )
    }
}

/// One statement evaluated against the index; see the module description.
pub open spec fn sp_eval_statement(st: StatementView, m: SearcherModel, g: GraphModel) -> EvalResult
    decreases st, 0int,
{
    let has_filter = st.verbs.len() > 0;
    let fm = sp_combine(st.verbs, empty_filter());
    let child_r = match st.scope {
        Some(sc) => sp_eval_statements(sc.statements, m, g, Seq::empty(), 0),
        None => EvalResult { groups: Seq::empty(), depth: 0, graph: g },
    };
    if !has_filter && st.scope is Some && child_r.groups.len() == 0 {
        // ancestor-depth elision: nothing to resolve here, one more hop up
        EvalResult { groups: Seq::empty(), depth: sat_inc(child_r.depth), graph: child_r.graph }
    } else {
        // a single empty group carrying a pending sentinel is bookkeeping,
        // not a real candidate
        let children1 = if child_r.groups.len() == 1 && child_r.groups[0].function_name.len() == 0
            && child_r.depth > 0 {
            Seq::<FunctionNodeView>::empty()
        } else {
            child_r.groups
        };
        let used = if has_filter {
            fm
        } else {
            catch_all_filter()
        };
        let parents = spec_find(m.files, seq![used], Seq::empty());
        let searched = if st.scope is Some {
            let children2 = if children1.len() == 0 {
                spec_find(m.files, seq![catch_all_filter()], Seq::empty())
            } else {
                children1
            };
            let passed = sp_parents_pass(
                parents,
                children2,
                m,
                child_r.graph,
                Seq::empty(),
                Seq::empty(),
            );
            let rounds = sp_rounds(m, passed.0, passed.2, child_r.depth);
            (rounds.0, passed.1)
        } else {
            (child_r.graph, Seq::<FunctionNodeView>::empty())
        };
        if has_filter {
            EvalResult {
                groups: parents,
                depth: 0,
                graph: sp_add_group_nodes(parents, searched.0),
            }
        } else {
            EvalResult { groups: searched.1, depth: 0, graph: searched.0 }
        }
    }
}



/// Records the confirmed pairs in the graph (both endpoints, then the edge)
/// and collects each pair's parent side without repetition.
fn apply_pairs(graph: &mut Graph, pairs: &Vec<(String, String)>, matched: &mut Vec<String>)
    requires
        old(graph).wf(),
    ensures
        final(graph)@ == sp_apply_pairs(old(graph)@, crate::graph::edge_views(pairs@)),
        final(graph).wf(),
        seq_views(final(matched)@) == sp_pair_firsts(
            seq_views(old(matched)@),
            crate::graph::edge_views(pairs@),
        ),
{
    let ghost pv = crate::graph::edge_views(pairs@);
    proof {
        assert(pv.skip(0) =~= pv);
    }
    let mut k: usize = 0;
    while k < pairs.len()
        invariant
            0 <= k <= pairs.len(),
            pv == crate::graph::edge_views(pairs@),
            graph.wf(),
            sp_apply_pairs(graph@, pv.skip(k as int)) == sp_apply_pairs(old(graph)@, pv),
            sp_pair_firsts(seq_views(matched@), pv.skip(k as int)) == sp_pair_firsts(
                seq_views(old(matched)@),
                pv,
            ),
        decreases pairs.len() - k,
    {
        proof {
            assert(pv.skip(k as int)[0] == pv[k as int]);
            assert(pv.skip(k as int).drop_first() =~= pv.skip(k as int + 1));
        }
        graph.add_node(pairs[k].0.clone(), 1);
        let ghost g_mid = graph@;
        graph.add_node(pairs[k].1.clone(), 1);
        proof {
            assert(gm_has_node(g_mid, pv[k as int].0));
            assert(gm_has_node(graph@, pv[k as int].0)) by {
                let w = choose|w: int|
                    0 <= w < g_mid.nodes.len() && g_mid.nodes[w].name == pv[k as int].0;
                assert(graph@.nodes[w].name == pv[k as int].0);
            }
        }
        graph.add_edge(pairs[k].0.clone(), pairs[k].1.clone());
        crate::text::push_unique(matched, pairs[k].0.clone());
        k = k + 1;
    }
    proof {
        assert(pv.skip(pairs@.len() as int) =~= Seq::<(Seq<char>, Seq<char>)>::empty());
    }
}

/// Removes the listed names that stand in the graph with fewer than two
/// uses, cascade included.
fn prune_group_nodes(graph: &mut Graph, names: &Vec<String>)
    requires
        old(graph).wf(),
    ensures
        final(graph)@ == sp_prune_group(seq_views(names@), old(graph)@),
        final(graph).wf(),
{
    let ghost nv = seq_views(names@);
    proof {
        assert(nv.skip(0) =~= nv);
    }
    let mut k: usize = 0;
    while k < names.len()
        invariant
            0 <= k <= names.len(),
            nv == seq_views(names@),
            graph.wf(),
            sp_prune_group(nv.skip(k as int), graph@) == sp_prune_group(nv, old(graph)@),
        decreases names.len() - k,
    {
        proof {
            assert(nv.skip(k as int)[0] == nv[k as int]);
            assert(nv.skip(k as int).drop_first() =~= nv.skip(k as int + 1));
        }
        if graph.has_node(names[k].as_str()) {
            let tu = graph.times_used_of(names[k].as_str());
            if tu < 2 {
                graph.remove_node(Node { name: names[k].clone(), times_used: tu });
            }
        }
        k = k + 1;
    }
    proof {
        assert(nv.skip(names@.len() as int) =~= Seq::<Seq<char>>::empty());
    }
}

/// Inserts every listed name as a node with one use.
fn add_names_nodes(graph: &mut Graph, names: &Vec<String>)
    requires
        old(graph).wf(),
    ensures
        final(graph)@ == sp_add_names(seq_views(names@), old(graph)@),
        final(graph).wf(),
{
    let ghost nv = seq_views(names@);
    proof {
        assert(nv.skip(0) =~= nv);
    }
    let mut k: usize = 0;
    while k < names.len()
        invariant
            0 <= k <= names.len(),
            nv == seq_views(names@),
            graph.wf(),
            sp_add_names(nv.skip(k as int), graph@) == sp_add_names(nv, old(graph)@),
        decreases names.len() - k,
    {
        proof {
            assert(nv.skip(k as int)[0] == nv[k as int]);
            assert(nv.skip(k as int).drop_first() =~= nv.skip(k as int + 1));
        }
        graph.add_node(names[k].clone(), 1);
        k = k + 1;
    }
    proof {
        assert(nv.skip(names@.len() as int) =~= Seq::<Seq<char>>::empty());
    }
}

/// Appends the names to the list, skipping those already there.
fn push_names_exec(dst: &mut Vec<String>, names: &Vec<String>)
    ensures
        seq_views(final(dst)@) == sp_push_names(seq_views(old(dst)@), seq_views(names@)),
{
    let ghost nv = seq_views(names@);
    proof {
        assert(nv.skip(0) =~= nv);
    }
    let mut k: usize = 0;
    while k < names.len()
        invariant
            0 <= k <= names.len(),
            nv == seq_views(names@),
            sp_push_names(seq_views(dst@), nv.skip(k as int)) == sp_push_names(
                seq_views(old(dst)@),
                nv,
            ),
        decreases names.len() - k,
    {
        proof {
            assert(nv.skip(k as int)[0] == nv[k as int]);
            assert(nv.skip(k as int).drop_first() =~= nv.skip(k as int + 1));
        }
        crate::text::push_unique(dst, names[k].clone());
        k = k + 1;
    }
    proof {
        assert(nv.skip(names@.len() as int) =~= Seq::<Seq<char>>::empty());
    }
}

/// The interpreter: the result graph it fills and the index-backed search
/// engine it reads.
#[derive(Debug)]
pub struct Analyzer {
    pub graph: Graph,
    pub lang_server: ClangdServer,
}

impl Analyzer {
    /// An interpreter over the given search engine, with an empty graph.
    pub fn new(lang_server: ClangdServer) -> (r: Analyzer)
        ensures
            r.graph@.nodes.len() == 0,
            r.graph@.edges.len() == 0,
            r.graph.wf(),
            r.lang_server@ == lang_server@,
    {
        Analyzer { graph: Graph::new(), lang_server }
    }


    /// Evaluates sibling statements in turn, unioning their groups and
    /// keeping the largest pending ancestor depth.
    pub fn interpret_statements(&mut self, ast_nodes: &Vec<Statement>) -> (r: (
        Vec<FunctionNode>,
        u32,
    ))
        requires
            old(self).graph.wf(),
        ensures
            ({
                let res = sp_eval_statements(
                    stmts_view(ast_nodes@),
                    old(self).lang_server@,
                    old(self).graph@,
                    Seq::empty(),
                    0,
                );
                &&& fnode_views(r.0@) == res.groups
                &&& r.1 == res.depth
                &&& final(self).graph@ == res.graph
            }),
            final(self).graph.wf(),
            final(self).lang_server@ == old(self).lang_server@,
        decreases ast_nodes@, 1int,
    {
        let ghost m = self.lang_server@;
        let ghost g0 = self.graph@;
        let ghost sv = stmts_view(ast_nodes@);
        let ghost target = sp_eval_statements(sv, m, g0, Seq::empty(), 0);
        let mut groups: Vec<FunctionNode> = Vec::new();
        let mut depth: u32 = 0;
        proof {
            crate::ast::lemma_stmts_view(ast_nodes@);
            assert(sv.skip(0) =~= sv);
            assert(fnode_views(groups@) =~= Seq::<FunctionNodeView>::empty());
        }
        let mut i: usize = 0;
        while i < ast_nodes.len()
            invariant
                0 <= i <= ast_nodes.len(),
                sv == stmts_view(ast_nodes@),
                sv.len() == ast_nodes@.len(),
                forall|j: int|
                    0 <= j < ast_nodes@.len() ==> #[trigger] sv[j] == stmt_view(ast_nodes@[j]),
                self.graph.wf(),
                self.lang_server@ == m,
                sp_eval_statements(sv.skip(i as int), m, self.graph@, fnode_views(groups@), depth)
                    == target,
            decreases ast_nodes.len() - i,
        {
            proof {
                assert(sv.skip(i as int)[0] == sv[i as int]);
                assert(sv.skip(i as int).drop_first() =~= sv.skip(i as int + 1));
            }
            let r = self.interpret_statement(&ast_nodes[i]);
            let ghost rv = fnode_views(r.0@);
            let ghost acc_pre = fnode_views(groups@);
            proof {
                assert(rv.skip(0) =~= rv);
            }
            let mut k: usize = 0;
            while k < r.0.len()
                invariant
                    0 <= k <= r.0.len(),
                    rv == fnode_views(r.0@),
                    sp_push_groups(fnode_views(groups@), rv.skip(k as int)) == sp_push_groups(
                        acc_pre,
                        rv,
                    ),
                decreases r.0.len() - k,
            {
                proof {
                    assert(rv.skip(k as int)[0] == rv[k as int]);
                    assert(rv.skip(k as int).drop_first() =~= rv.skip(k as int + 1));
                }
                crate::searcher::insert_group(&mut groups, r.0[k].duplicate());
                k = k + 1;
            }
            proof {
                assert(rv.skip(r.0@.len() as int) =~= Seq::<FunctionNodeView>::empty());
            }
            if depth < r.1 {
                depth = r.1;
            }
            i = i + 1;
        }
        proof {
            assert(sv.skip(ast_nodes@.len() as int) =~= Seq::<StatementView>::empty());
        }
        (groups, depth)
    }

    /// Evaluates one statement; see the module description.
    pub fn interpret_statement(&mut self, ast: &Statement) -> (r: (Vec<FunctionNode>, u32))
        requires
            old(self).graph.wf(),
        ensures
            ({
                let res = sp_eval_statement(
                    stmt_view(*ast),
                    old(self).lang_server@,
                    old(self).graph@,
                );
                &&& fnode_views(r.0@) == res.groups
                &&& r.1 == res.depth
                &&& final(self).graph@ == res.graph
            }),
            final(self).graph.wf(),
            final(self).lang_server@ == old(self).lang_server@,
        decreases *ast, 0int,
    {
        let ghost m = self.lang_server@;
        let ghost g0 = self.graph@;
        let ghost stv = stmt_view(*ast);
        let has_filter = ast.verbs.len() > 0;
        let filter_opt: Option<SearchFilter> = if has_filter {
            Some(self.interpret_verb(&ast.verbs))
        } else {
            None
        };
        let (mut children, sg) = match &ast.scope {
            Some(sc) => self.interpret_statements(&sc.statements),
            None => (Vec::new(), 0u32),
        };
        let ghost child_r = (match stv.scope {
            Some(sc) => sp_eval_statements(sc.statements, m, g0, Seq::empty(), 0),
            None => EvalResult { groups: Seq::empty(), depth: 0, graph: g0 },
        });
        proof {
            assert(fnode_views(children@) == child_r.groups);
            assert(sg == child_r.depth);
            assert(self.graph@ == child_r.graph);
        }
        if !has_filter && ast.scope.is_some() && children.len() == 0 {
            let d = if sg < u32::MAX {
                sg + 1
            } else {
                sg
            };
            let empty_out: Vec<FunctionNode> = Vec::new();
            proof {
                assert(fnode_views(empty_out@) =~= Seq::<FunctionNodeView>::empty());
            }
            return (empty_out, d);
        }
        // a single empty group carrying a pending sentinel is bookkeeping
        if children.len() == 1 && children[0].function_name.len() == 0 && sg > 0 {
            children = Vec::new();
            proof {
                assert(fnode_views(children@) =~= Seq::<FunctionNodeView>::empty());
            }
        }
        // resolve this statement's own candidate groups
        let used: SearchFilter = match filter_opt {
            Some(f) => f,
            None => SearchFilter::catch_all(),
        };
        let ghost used_m = if stv.verbs.len() > 0 {
            sp_combine(stv.verbs, empty_filter())
        } else {
            catch_all_filter()
        };
        let filter_vec: Vec<SearchFilter> = vec![used];
        proof {
            assert(filter_views(filter_vec@) =~= seq![used_m]);
        }
        let parent_names: Vec<FunctionNode> = self.lang_server.find_func_name(&filter_vec);
        let ghost pviews = fnode_views(parent_names@);
        proof {
            assert(pviews == spec_find(m.files, seq![used_m], Seq::empty()));
        }
        let mut out_groups: Vec<FunctionNode> = Vec::new();
        if ast.scope.is_some() {
            if children.len() == 0 {
                let cav: Vec<SearchFilter> = vec![SearchFilter::catch_all()];
                proof {
                    assert(filter_views(cav@) =~= seq![catch_all_filter()]);
                }
                children = self.lang_server.find_func_name(&cav);
            }
            let ghost cviews = fnode_views(children@);
            let ghost g_search = self.graph@;
            let mut frontier: Vec<String> = Vec::new();
            proof {
                assert(pviews.skip(0) =~= pviews);
                assert(fnode_views(out_groups@) =~= Seq::<FunctionNodeView>::empty());
                assert(seq_views(frontier@) =~= Seq::<Seq<char>>::empty());
            }
            let mut pi: usize = 0;
            while pi < parent_names.len()
                invariant
                    0 <= pi <= parent_names.len(),
                    pviews == fnode_views(parent_names@),
                    cviews == fnode_views(children@),
                    self.graph.wf(),
                    self.lang_server@ == m,
                    sp_parents_pass(
                        pviews.skip(pi as int),
                        cviews,
                        m,
                        self.graph@,
                        fnode_views(out_groups@),
                        seq_views(frontier@),
                    ) == sp_parents_pass(pviews, cviews, m, g_search, Seq::empty(), Seq::empty()),
                decreases parent_names.len() - pi,
            {
                proof {
                    assert(pviews.skip(pi as int)[0] == pviews[pi as int]);
                    assert(pviews.skip(pi as int).drop_first() =~= pviews.skip(pi as int + 1));
                }
                let mut matched: Vec<String> = Vec::new();
                let mut flags: Vec<bool> = Vec::new();
                let mut found = false;
                let ghost g_p = self.graph@;
                proof {
                    assert(cviews.skip(0) =~= cviews);
                    assert(seq_views(matched@) =~= Seq::<Seq<char>>::empty());
                    assert(flags@ =~= Seq::<bool>::empty());
                }
                let mut ci: usize = 0;
                while ci < children.len()
                    invariant
                        0 <= ci <= children.len(),
                        pi < parent_names.len(),
                        pviews == fnode_views(parent_names@),
                        cviews == fnode_views(children@),
                        self.graph.wf(),
                        self.lang_server@ == m,
                        flags@.len() == ci,
                        sp_children_pass(
                            pviews[pi as int],
                            cviews.skip(ci as int),
                            m,
                            self.graph@,
                            seq_views(matched@),
                            flags@,
                            found,
                        ) == sp_children_pass(
                            pviews[pi as int],
                            cviews,
                            m,
                            g_p,
                            Seq::empty(),
                            Seq::empty(),
                            false,
                        ),
                    decreases children.len() - ci,
                {
                    proof {
                        assert(cviews.skip(ci as int)[0] == cviews[ci as int]);
                        assert(cviews.skip(ci as int).drop_first() =~= cviews.skip(ci as int + 1));
                    }
                    let pairs: Vec<(String, String)> = match parent_names[pi].match_strategy {
                        MatchStrategy::Forced => {
                            let fnode = ForcedNode {
                                function_name: crate::text::clone_strings(
                                    &parent_names[pi].function_name,
                                ),
                            };
                            fnode.do_match(&children[ci])
                        },
                        MatchStrategy::Confirmed => {
                            let pnode = ParentChildNode {
                                function_name: crate::text::clone_strings(
                                    &parent_names[pi].function_name,
                                ),
                            };
                            pnode.do_match(&children[ci], &self.lang_server)
                        },
                    };
                    proof {
                        assert(crate::graph::edge_views(pairs@) == sp_confirm(
                            pviews[pi as int],
                            cviews[ci as int],
                            m,
                        ));
                    }
                    apply_pairs(&mut self.graph, &pairs, &mut matched);
                    flags.push(pairs.len() > 0);
                    found = found || pairs.len() > 0;
                    ci = ci + 1;
                }
                proof {
                    assert(cviews.skip(children@.len() as int) =~= Seq::<FunctionNodeView>::empty());
                }
                if found {
                    let ghost g_pr = self.graph@;
                    let ghost all_flags = flags@;
                    proof {
                        assert(cviews.skip(0) =~= cviews);
                        assert(all_flags.skip(0) =~= all_flags);
                    }
                    let mut cj: usize = 0;
                    while cj < children.len()
                        invariant
                            0 <= cj <= children.len(),
                            cviews == fnode_views(children@),
                            all_flags == flags@,
                            all_flags.len() == cviews.len(),
                            self.graph.wf(),
                            self.lang_server@ == m,
                            sp_prune_pass(
                                cviews.skip(cj as int),
                                all_flags.skip(cj as int),
                                self.graph@,
                            ) == sp_prune_pass(cviews, all_flags, g_pr),
                        decreases children.len() - cj,
                    {
                        proof {
                            assert(cviews.skip(cj as int)[0] == cviews[cj as int]);
                            assert(cviews.skip(cj as int).drop_first() =~= cviews.skip(
                                cj as int + 1,
                            ));
                            assert(all_flags.skip(cj as int)[0] == all_flags[cj as int]);
                            assert(all_flags.skip(cj as int).drop_first() =~= all_flags.skip(
                                cj as int + 1,
                            ));
                        }
                        if !flags[cj] {
                            prune_group_nodes(&mut self.graph, &children[cj].function_name);
                        }
                        cj = cj + 1;
                    }
                    proof {
                        assert(cviews.skip(children@.len() as int)
                            =~= Seq::<FunctionNodeView>::empty());
                        assert(all_flags.skip(children@.len() as int) =~= Seq::<bool>::empty());
                    }
                }
                push_names_exec(&mut frontier, &matched);
                let group = FunctionNode {
                    function_name: matched,
                    document: String::new(),
                    match_strategy: parent_names[pi].match_strategy,
                };
                proof {
                    assert(group@.document =~= Seq::<char>::empty());
                }
                crate::searcher::insert_group(&mut out_groups, group);
                pi = pi + 1;
            }
            proof {
                assert(pviews.skip(parent_names@.len() as int) =~= Seq::<FunctionNodeView>::empty());
            }
            // climb the pending ancestor rounds
            let ghost g_rounds = self.graph@;
            let ghost frontier0 = seq_views(frontier@);
            let mut rounds_left: u32 = sg;
            while rounds_left > 0
                invariant
                    self.graph.wf(),
                    self.lang_server@ == m,
                    sp_rounds(m, self.graph@, seq_views(frontier@), rounds_left) == sp_rounds(
                        m,
                        g_rounds,
                        frontier0,
                        sg,
                    ),
                decreases rounds_left,
            {
                let cav: Vec<SearchFilter> = vec![SearchFilter::catch_all()];
                proof {
                    assert(filter_views(cav@) =~= seq![catch_all_filter()]);
                }
                let cands = self.lang_server.find_func_name(&cav);
                proof {
                    assert(fnode_views(cands@) == spec_find(
                        m.files,
                        seq![catch_all_filter()],
                        Seq::empty(),
                    ));
                }
                let pairs: Vec<(String, String)> = if cands.len() > 0 {
                    self.lang_server.find_link(&cands[0].function_name, &frontier)
                } else {
                    Vec::new()
                };
                proof {
                    if cands@.len() == 0 {
                        assert(crate::graph::edge_views(pairs@)
                            =~= Seq::<(Seq<char>, Seq<char>)>::empty());
                    }
                }
                let mut new_frontier: Vec<String> = Vec::new();
                proof {
                    assert(seq_views(new_frontier@) =~= Seq::<Seq<char>>::empty());
                }
                apply_pairs(&mut self.graph, &pairs, &mut new_frontier);
                frontier = new_frontier;
                rounds_left = rounds_left - 1;
            }
        }
        // a statement with a filter answers with what the filter resolved,
        // and each resolved name enters the graph; without one, the matched
        // groups pass upward as they are — self-edges among matched parents
        // stay, since the evaluation steps name no cleanup for them
        if has_filter {
            let ghost g_fin = self.graph@;
            proof {
                assert(pviews.skip(0) =~= pviews);
            }
            let mut fi: usize = 0;
            while fi < parent_names.len()
                invariant
                    0 <= fi <= parent_names.len(),
                    pviews == fnode_views(parent_names@),
                    self.graph.wf(),
                    self.lang_server@ == m,
                    sp_add_group_nodes(pviews.skip(fi as int), self.graph@) == sp_add_group_nodes(
                        pviews,
                        g_fin,
                    ),
                decreases parent_names.len() - fi,
            {
                proof {
                    assert(pviews.skip(fi as int)[0] == pviews[fi as int]);
                    assert(pviews.skip(fi as int).drop_first() =~= pviews.skip(fi as int + 1));
                }
                add_names_nodes(&mut self.graph, &parent_names[fi].function_name);
                fi = fi + 1;
            }
            proof {
                assert(pviews.skip(parent_names@.len() as int) =~= Seq::<FunctionNodeView>::empty());
            }
            (parent_names, 0)
        } else {
            (out_groups, 0)
        }
    }

    /// Parses and evaluates a query: the graph receives every confirmed
    /// relationship, and the returned groups are the query's answer.  A
    /// malformed query is rejected without touching the graph.
    pub fn parse(&mut self, input: &str) -> (r: Result<Vec<FunctionNode>, ParseError>)
        requires
            old(self).graph.wf(),
        ensures
            match r {
                Ok(groups) => sp_query(input@) matches Parsed::Good { value, next } && ({
                    let res = sp_eval_statements(
                        value,
                        old(self).lang_server@,
                        old(self).graph@,
                        Seq::empty(),
                        0,
                    );
                    fnode_views(groups@) == res.groups && final(self).graph@ == res.graph
                }),
                Err(e) => sp_query(input@) == (Parsed::<Seq<StatementView>>::Bad {
                    at: e.at as int,
                }) && final(self).graph@ == old(self).graph@,
            },
            final(self).graph.wf(),
            final(self).lang_server@ == old(self).lang_server@,
    {
        match parse_ast(input) {
            Ok(sts) => {
                let r = self.interpret_statements(&sts);
                Ok(r.0)
            },
            Err(e) => Err(e),
        }
    }

    /// Classifies one named parameter: a name that case-folds to `function`
    /// or `file` carries that filter pattern, anything else is ignored.
    fn interpret_define_options(&self, ast: &NamedParameter) -> (r: Option<(FilterName, Pattern)>)
        ensures
            (r is Some) == (ascii_caseless_eq(ast@.name, "function"@) || ascii_caseless_eq(
                ast@.name,
                "file"@,
            )),
            r matches Some(t) ==> ((t.0 is Function) <==> ascii_caseless_eq(
                ast@.name,
                "function"@,
            )),
            r matches Some(t) ==> ((t.0 is File) <==> ascii_caseless_eq(ast@.name, "file"@)),
            r matches Some(t) ==> t.1.src() == ast@.pattern,
    {
        proof {
            reveal_strlit("function");
            reveal_strlit("file");
            assert("function"@.len() != "file"@.len());
        }
        if crate::text::str_ieq(ast.name.as_str(), "function") {
            Some((FilterName::Function, ast.pattern.duplicate()))
        } else if crate::text::str_ieq(ast.name.as_str(), "file") {
            Some((FilterName::File, ast.pattern.duplicate()))
        } else {
            None
        }
    }

    /// Combines a statement's verbs into one filter: `filter(...)` brings
    /// its named patterns, `forced` sets the forced flag, and a bare
    /// identifier becomes an exact-name filter.
    fn interpret_verb(&self, verbs: &Vec<Verb>) -> (r: SearchFilter)
        ensures
            r@ == sp_combine(verb_views(verbs@), empty_filter()),
    {
        let ghost vv = verb_views(verbs@);
        let mut filter = SearchFilter { function: None, file: None, ident: None, forced: false };
        proof {
            assert(vv.skip(0) =~= vv);
        }
        let mut i: usize = 0;
        while i < verbs.len()
            invariant
                0 <= i <= verbs.len(),
                vv == verb_views(verbs@),
                sp_combine(vv.skip(i as int), filter@) == sp_combine(vv, empty_filter()),
            decreases verbs.len() - i,
        {
            proof {
                assert(vv.skip(i as int)[0] == vv[i as int]);
                assert(vv.skip(i as int).drop_first() =~= vv.skip(i as int + 1));
                assert(vv[i as int] == verbs@[i as int]@);
            }
            let v = &verbs[i];
            if crate::text::str_eq(v.ident.as_str(), "filter") {
                let ghost pv = vv[i as int].params;
                proof {
                    assert(pv.skip(0) =~= pv);
                    assert(sp_apply_verb(filter@, vv[i as int]) == sp_apply_params(filter@, pv));
                }
                let mut j: usize = 0;
                while j < v.params.len()
                    invariant
                        0 <= j <= v.params.len(),
                        i < verbs.len(),
                        vv == verb_views(verbs@),
                        pv == vv[i as int].params,
                        pv == verbs@[i as int]@.params,
                        v == &verbs[i as int],
                        sp_combine(
                            vv.skip(i as int + 1),
                            sp_apply_params(filter@, pv.skip(j as int)),
                        ) == sp_combine(vv, empty_filter()),
                    decreases v.params.len() - j,
                {
                    proof {
                        assert(pv.skip(j as int)[0] == pv[j as int]);
                        assert(pv.skip(j as int).drop_first() =~= pv.skip(j as int + 1));
                        assert(pv[j as int] == v.params@[j as int]@);
                    }
                    match self.interpret_define_options(&v.params[j]) {
                        Some((FilterName::Function, p)) => {
                            filter.function = Some(p);
                        },
                        Some((FilterName::File, p)) => {
                            filter.file = Some(p);
                        },
                        Some(_) => {
                            // the classifier only ever names the two
                            // pattern-carrying kinds
                        },
                        None => {
                        },
                    }
                    j = j + 1;
                }
                proof {
                    assert(pv.skip(v.params@.len() as int) =~= Seq::<
                        crate::ast::NamedParameterView,
                    >::empty());
                }
            } else if crate::text::str_eq(v.ident.as_str(), "forced") {
                filter.forced = true;
            } else {
                filter.ident = Some(v.ident.clone());
            }
            i = i + 1;
        }
        proof {
            assert(vv.skip(verbs@.len() as int) =~= Seq::<VerbView>::empty());
        }
        filter
    }
}


/// One ancestor-climbing step, as a bare scope performs it: an empty result
/// climbs by raising the sentinel; a nonempty one is confirmed against the
/// catch-all candidates and replaced by the matched parents.
pub open spec fn sp_climb(
    m: SearcherModel,
    children: Seq<FunctionNodeView>,
    g: GraphModel,
) -> EvalResult {
    if children.len() == 0 {
        EvalResult { groups: Seq::empty(), depth: 1, graph: g }
    } else {
        let parents = spec_find(m.files, seq![catch_all_filter()], Seq::empty());
        let passed = sp_parents_pass(parents, children, m, g, Seq::empty(), Seq::empty());
        EvalResult { groups: passed.1, depth: 0, graph: passed.0 }
    }
}

/// A single filter resolves to at most one candidate group.
proof fn lemma_spec_find_single(idx: Seq<crate::searcher::FileSymbolsView>, f: FilterModel)
    ensures
        spec_find(idx, seq![f], Seq::empty()).len() <= 1,
{
    reveal_with_fuel(crate::searcher::spec_find, 2);
    let one = seq![f];
    assert(one.drop_first() =~= Seq::<FilterModel>::empty());
    match crate::searcher::spec_resolve_group(idx, f) {
        Some(g) => {
            assert(spec_find(idx, one, Seq::empty()) == push_group(Seq::empty(), g));
        },
        None => {},
    }
}

/// A parents pass appends at most one group per parent.
proof fn lemma_parents_pass_groups(
    ps: Seq<FunctionNodeView>,
    cs: Seq<FunctionNodeView>,
    m: SearcherModel,
    g: GraphModel,
    out: Seq<FunctionNodeView>,
    fr: Seq<Seq<char>>,
)
    ensures
        sp_parents_pass(ps, cs, m, g, out, fr).1.len() <= out.len() + ps.len(),
    decreases ps.len(),
{
    if ps.len() > 0 {
        let r = sp_children_pass(ps[0], cs, m, g, Seq::empty(), Seq::empty(), false);
        let g2 = if r.3 {
            sp_prune_pass(cs, r.2, r.0)
        } else {
            r.0
        };
        let out2 = push_group(
            out,
            FunctionNodeView {
                function_name: r.1,
                document: Seq::empty(),
                match_strategy: ps[0].match_strategy,
            },
        );
        let fr2 = sp_push_names(fr, r.1);
        lemma_parents_pass_groups(ps.drop_first(), cs, m, g2, out2, fr2);
    }
}

/// Unioning at most one group into an empty union gives it back.
proof fn lemma_push_groups_single(gs: Seq<FunctionNodeView>)
    requires
        gs.len() <= 1,
    ensures
        sp_push_groups(Seq::empty(), gs) == gs,
{
    if gs.len() == 0 {
        assert(sp_push_groups(Seq::empty(), gs) =~= gs);
    } else {
        assert(gs.drop_first() =~= Seq::<FunctionNodeView>::empty());
        assert(!crate::searcher::groups_have(Seq::empty(), gs[0]));
        assert(sp_push_groups(Seq::empty(), gs) == sp_push_groups(
            Seq::<FunctionNodeView>::empty().push(gs[0]),
            gs.drop_first(),
        ));
        assert(Seq::<FunctionNodeView>::empty().push(gs[0]) =~= gs);
    }
}

/// The depth-elision law: two nested bodyless scopes around one leaf filter
/// answer exactly what evaluating the filter once and then climbing two
/// ancestor rounds from its result answers, on the same graph — the numeric
/// sentinel is bookkeeping and never leaks into the candidate groups.
pub proof fn lemma_depth_elision(f: StatementView, m: SearcherModel, g: GraphModel)
    requires
        f.verbs.len() > 0,
        f.scope is None,
    ensures
        ({
            let r0 = sp_eval_statement(f, m, g);
            let r1 = sp_climb(m, r0.groups, r0.graph);
            let r2 = sp_climb(m, r1.groups, r1.graph);
            let mid = StatementView {
                verbs: Seq::empty(),
                scope: Some(crate::ast::ScopeView { statements: seq![f] }),
            };
            let outer = StatementView {
                verbs: Seq::empty(),
                scope: Some(crate::ast::ScopeView { statements: seq![mid] }),
            };
            let w = sp_eval_statement(outer, m, g);
            w.groups == r2.groups && w.graph == r2.graph
        }),
{
    reveal_with_fuel(sp_eval_statements, 3);
    let r0 = sp_eval_statement(f, m, g);
    let r1 = sp_climb(m, r0.groups, r0.graph);
    let r2 = sp_climb(m, r1.groups, r1.graph);
    let mid = StatementView {
        verbs: Seq::empty(),
        scope: Some(crate::ast::ScopeView { statements: seq![f] }),
    };
    let outer = StatementView {
        verbs: Seq::empty(),
        scope: Some(crate::ast::ScopeView { statements: seq![mid] }),
    };
    // the leaf resolves one filter and never carries a sentinel
    let used0 = sp_combine(f.verbs, empty_filter());
    lemma_spec_find_single(m.files, used0);
    assert(r0.depth == 0);
    assert(r0.groups.len() <= 1);
    // the middle statement: one sibling, then the climb
    assert(seq![f].drop_first() =~= Seq::<StatementView>::empty());
    let inner_list = sp_eval_statements(seq![f], m, g, Seq::empty(), 0);
    lemma_push_groups_single(r0.groups);
    assert(inner_list.groups == r0.groups);
    assert(inner_list.depth == 0);
    assert(inner_list.graph == r0.graph);
    let w_mid = sp_eval_statement(mid, m, g);
    if r0.groups.len() == 0 {
        assert(w_mid == (EvalResult { groups: Seq::<FunctionNodeView>::empty(), depth: 1, graph: r0.graph }));
        assert(r1 == w_mid);
    } else {
        // a resolved group never has an empty name set, so nothing is
        // dropped as a sentinel carrier, and no extra rounds run
        let parents = spec_find(m.files, seq![catch_all_filter()], Seq::empty());
        let passed = sp_parents_pass(parents, r0.groups, m, r0.graph, Seq::empty(), Seq::empty());
        assert(w_mid.groups == passed.1 && w_mid.depth == 0 && w_mid.graph == passed.0);
        assert(r1 == w_mid);
        lemma_spec_find_single(m.files, catch_all_filter());
        lemma_parents_pass_groups(
            parents,
            r0.groups,
            m,
            r0.graph,
            Seq::empty(),
            Seq::<Seq<char>>::empty(),
        );
    }
    assert(r1 == w_mid);
    assert(r1.depth <= 1);
    assert(r1.groups.len() <= 1);
    // the outer statement repeats the climb on the middle answer
    assert(seq![mid].drop_first() =~= Seq::<StatementView>::empty());
    let mid_list = sp_eval_statements(seq![mid], m, g, Seq::empty(), 0);
    lemma_push_groups_single(w_mid.groups);
    assert(mid_list.groups == w_mid.groups);
    assert(mid_list.depth == w_mid.depth);
    assert(mid_list.graph == w_mid.graph);
    let w = sp_eval_statement(outer, m, g);
    if w_mid.groups.len() == 0 {
        assert(w.groups =~= Seq::<FunctionNodeView>::empty());
        assert(w.graph == w_mid.graph);
        assert(r2.groups =~= Seq::<FunctionNodeView>::empty());
        assert(r2.graph == r1.graph);
    } else {
        assert(w_mid.depth == 0);
        assert(w == sp_climb(m, w_mid.groups, w_mid.graph));
    }
}

} // verus!
