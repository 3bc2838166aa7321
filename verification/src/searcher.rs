//! Candidate groups, match strategies, and the index-backed symbol search.
//!
//! A candidate group ([`FunctionNode`]) is the set of symbol names one filter
//! resolved to, tagged with the strategy that decides whether two groups are
//! connected: [`ForcedNode`] connects every pair outright, while
//! [`ParentChildNode`] consults the call index held by [`ClangdServer`].

use vstd::prelude::*;
use crate::patterns::{Pattern, regex_accepts};
use crate::text::{str_eq, seq_views, names_contain, names_subset, push_unique};
use crate::graph::edge_views;

verus! {

/// How a group confirms connections: unconditionally, or via the call index.
#[derive(Clone, Copy, Debug, PartialEq, Eq, Structural)]
pub enum MatchStrategy {
    Forced,
    Confirmed,
}

/// A candidate group: symbol names, the document tag they were resolved from
/// (`"not found"` for the synthetic fallback group), and the match strategy.
#[derive(Debug)]
pub struct FunctionNode {
    pub function_name: Vec<String>,
    pub document: String,
    pub match_strategy: MatchStrategy,
}

/// The abstract value of a [`FunctionNode`].
pub struct FunctionNodeView {
    pub function_name: Seq<Seq<char>>,
    pub document: Seq<char>,
    pub match_strategy: MatchStrategy,
}

impl View for FunctionNode {
    type V = FunctionNodeView;

    open spec fn view(&self) -> FunctionNodeView {
        FunctionNodeView {
            function_name: seq_views(self.function_name@),
            document: self.document@,
            match_strategy: self.match_strategy,
        }
    }
}

/// The abstract values of a sequence of groups.
pub open spec fn fnode_views(s: Seq<FunctionNode>) -> Seq<FunctionNodeView> {
    s.map_values(|n: FunctionNode| n@)
}

impl FunctionNode {
    /// A copy of the group, character for character.
    pub fn duplicate(&self) -> (r: FunctionNode)
        ensures
            r@ == self@,
    {
        let r = FunctionNode {
            function_name: crate::text::clone_strings(&self.function_name),
            document: self.document.clone(),
            match_strategy: self.match_strategy,
        };
        proof {
            assert(r@.function_name =~= self@.function_name);
        }
        r
    }
}

/// Two groups are the same candidate set when they hold the same names,
/// whatever their order, document tags, or strategies.
impl PartialEq for FunctionNode {
    fn eq(&self, other: &FunctionNode) -> (r: bool) {
        let forward = names_subset(&self.function_name, &other.function_name);
        let backward = names_subset(&other.function_name, &self.function_name);
        proof {
            let a = seq_views(self.function_name@);
            let b = seq_views(other.function_name@);
            if forward && backward {
                assert forall|x: Seq<char>| a.to_set().contains(x) == b.to_set().contains(x) by {
                    if a.contains(x) {
                        let i = choose|i: int| 0 <= i < a.len() && a[i] == x;
                        assert(b.contains(a[i]));
                    }
                    if b.contains(x) {
                        let i = choose|i: int| 0 <= i < b.len() && b[i] == x;
                        assert(a.contains(b[i]));
                    }
                }
                assert(a.to_set() =~= b.to_set());
            } else if a.to_set() == b.to_set() {
                assert forall|i: int| 0 <= i < a.len() implies b.contains(#[trigger] a[i]) by {
                    assert(a.to_set().contains(a[i]));
                }
                assert forall|i: int| 0 <= i < b.len() implies a.contains(#[trigger] b[i]) by {
                    assert(b.to_set().contains(b[i]));
                }
            }
        }
        forward && backward
    }
}

impl vstd::std_specs::cmp::PartialEqSpecImpl for FunctionNode {
    open spec fn obeys_eq_spec() -> bool {
        true
    }

    open spec fn eq_spec(&self, other: &FunctionNode) -> bool {
        self@.function_name.to_set() == other@.function_name.to_set()
    }
}

/// The strategy carrier for unconditional connection.
#[derive(Debug)]
pub struct ForcedNode {
    pub function_name: Vec<String>,
}

/// The strategy carrier for call-index-confirmed connection.
#[derive(Debug)]
pub struct ParentChildNode {
    pub function_name: Vec<String>,
}

/// One filter specification: a symbol-name pattern, a file-path pattern, an
/// exact-identifier override, and the forced marker.
pub struct SearchFilter {
    pub function: Option<Pattern>,
    pub file: Option<Pattern>,
    pub ident: Option<String>,
    pub forced: bool,
}

/// The abstract value of a [`SearchFilter`]: patterns by their text.
pub struct FilterModel {
    pub function: Option<Seq<char>>,
    pub file: Option<Seq<char>>,
    pub ident: Option<Seq<char>>,
    pub forced: bool,
}

impl View for SearchFilter {
    type V = FilterModel;

    open spec fn view(&self) -> FilterModel {
        FilterModel {
            function: match self.function {
                Some(p) => Some(p.src()),
                None => None,
            },
            file: match self.file {
                Some(p) => Some(p.src()),
                None => None,
            },
            ident: match self.ident {
                Some(s) => Some(s@),
                None => None,
            },
            forced: self.forced,
        }
    }
}

/// The abstract values of a sequence of filters.
pub open spec fn filter_views(s: Seq<SearchFilter>) -> Seq<FilterModel> {
    s.map_values(|f: SearchFilter| f@)
}

/// The catch-all filter: every symbol in every file, confirmed connections.
impl SearchFilter {
    pub fn catch_all() -> (r: SearchFilter)
        ensures
            r@ == (FilterModel { function: None, file: None, ident: None, forced: false }),
    {
        SearchFilter { function: None, file: None, ident: None, forced: false }
    }
}

/// One file of the symbol index: its path and its function symbols, in
/// discovery order.
#[derive(Debug)]
pub struct FileSymbols {
    pub path: String,
    pub functions: Vec<String>,
}

/// The abstract value of a [`FileSymbols`].
pub struct FileSymbolsView {
    pub path: Seq<char>,
    pub functions: Seq<Seq<char>>,
}

impl View for FileSymbols {
    type V = FileSymbolsView;

    open spec fn view(&self) -> FileSymbolsView {
        FileSymbolsView { path: self.path@, functions: seq_views(self.functions@) }
    }
}

/// The abstract values of a symbol index.
pub open spec fn file_views(s: Seq<FileSymbols>) -> Seq<FileSymbolsView> {
    s.map_values(|f: FileSymbols| f@)
}

/// One entry of a call-index map: a symbol and its related symbols.
#[derive(Debug)]
pub struct CallEntry {
    pub key: String,
    pub values: Vec<String>,
}

/// The abstract value of a [`CallEntry`].
pub struct CallEntryView {
    pub key: Seq<char>,
    pub values: Seq<Seq<char>>,
}

impl View for CallEntry {
    type V = CallEntryView;

    open spec fn view(&self) -> CallEntryView {
        CallEntryView { key: self.key@, values: seq_views(self.values@) }
    }
}

/// The abstract values of a call-index map.
pub open spec fn entry_views(s: Seq<CallEntry>) -> Seq<CallEntryView> {
    s.map_values(|e: CallEntry| e@)
}

/// Whether an optional pattern accepts the text; no pattern accepts all.
pub open spec fn accepts_opt(p: Option<Seq<char>>, text: Seq<char>) -> bool {
    match p {
        Some(pat) => regex_accepts(pat, text),
        None => true,
    }
}

/// Whether the filter accepts this file path.
pub open spec fn fm_file_matches(f: FilterModel, path: Seq<char>) -> bool {
    accepts_opt(f.file, path)
}

/// Whether the filter accepts this symbol name: the exact identifier wins
/// over the name pattern.
pub open spec fn fm_name_matches(f: FilterModel, name: Seq<char>) -> bool {
    match f.ident {
        Some(id) => name == id,
        None => accepts_opt(f.function, name),
    }
}

/// The names of one file that the filter accepts, appended to `acc` without
/// repetition.
pub open spec fn collect_in_file(
    f: FilterModel,
    functions: Seq<Seq<char>>,
    acc: Seq<Seq<char>>,
) -> Seq<Seq<char>>
    decreases functions.len(),
{
    if functions.len() == 0 {
        acc
    } else {
        let acc2 = if fm_name_matches(f, functions[0]) && !acc.contains(functions[0]) {
            acc.push(functions[0])
        } else {
            acc
        };
        collect_in_file(f, functions.drop_first(), acc2)
    }
}

/// The names of every matching file that the filter accepts.
pub open spec fn collect_names(
    f: FilterModel,
    files: Seq<FileSymbolsView>,
    acc: Seq<Seq<char>>,
) -> Seq<Seq<char>>
    decreases files.len(),
{
    if files.len() == 0 {
        acc
    } else {
        let acc2 = if fm_file_matches(f, files[0].path) {
            collect_in_file(f, files[0].functions, acc)
        } else {
            acc
        };
        collect_names(f, files.drop_first(), acc2)
    }
}

/// The strategy a filter's group is tagged with.
pub open spec fn fm_strategy(f: FilterModel) -> MatchStrategy {
    if f.forced {
        MatchStrategy::Forced
    } else {
        MatchStrategy::Confirmed
    }
}

/// What one filter resolves to: its matching names as one group, the
/// synthetic `"not found"` group for an exact identifier that matched
/// nothing, and no group at all for a pattern that matched nothing.
pub open spec fn spec_resolve_group(
    idx: Seq<FileSymbolsView>,
    f: FilterModel,
) -> Option<FunctionNodeView> {
    let names = collect_names(f, idx, Seq::empty());
    if names.len() > 0 {
        Some(
            FunctionNodeView {
                function_name: names,
                document: Seq::empty(),
                match_strategy: fm_strategy(f),
            },
        )
    } else {
        match f.ident {
            Some(id) => Some(
                FunctionNodeView {
                    function_name: seq![id],
                    document: "not found"@,
                    match_strategy: fm_strategy(f),
                },
            ),
            None => None,
        }
    }
}

/// Group equality as the interpreter sees it: the same name set.
pub open spec fn same_names(a: FunctionNodeView, b: FunctionNodeView) -> bool {
    a.function_name.to_set() == b.function_name.to_set()
}

/// Whether a group with this name set is already listed.
pub open spec fn groups_have(acc: Seq<FunctionNodeView>, g: FunctionNodeView) -> bool {
    exists|i: int| 0 <= i < acc.len() && same_names(acc[i], g)
}

/// Appends the group unless one with the same name set is listed.
pub open spec fn push_group(acc: Seq<FunctionNodeView>, g: FunctionNodeView) -> Seq<
    FunctionNodeView,
> {
    if groups_have(acc, g) {
        acc
    } else {
        acc.push(g)
    }
}

/// What [`ClangdServer::find_func_name`] returns: one group per filter that
/// resolved, deduplicated by name set.
pub open spec fn spec_find(
    idx: Seq<FileSymbolsView>,
    filters: Seq<FilterModel>,
    acc: Seq<FunctionNodeView>,
) -> Seq<FunctionNodeView>
    decreases filters.len(),
{
    if filters.len() == 0 {
        acc
    } else {
        let acc2 = match spec_resolve_group(idx, filters[0]) {
            Some(g) => push_group(acc, g),
            None => acc,
        };
        spec_find(idx, filters.drop_first(), acc2)
    }
}

/// The first entry with this key, if any.
pub open spec fn lookup(entries: Seq<CallEntryView>, key: Seq<char>) -> Option<Seq<Seq<char>>>
    decreases entries.len(),
{
    if entries.len() == 0 {
        None
    } else if entries[0].key == key {
        Some(entries[0].values)
    } else {
        lookup(entries.drop_first(), key)
    }
}

/// The pair a driver and a related value make: the driver is the caller in
/// the forward direction and the callee in the flipped one.
pub open spec fn link_pair(driver: Seq<char>, value: Seq<char>, flip: bool) -> (
    Seq<char>,
    Seq<char>,
) {
    if flip {
        (value, driver)
    } else {
        (driver, value)
    }
}

/// The pairs one driver contributes: its related values that lie in the
/// other set, appended to `acc` without repetition.
pub open spec fn link_from_entry(
    driver: Seq<char>,
    values: Seq<Seq<char>>,
    others: Seq<Seq<char>>,
    flip: bool,
    acc: Seq<(Seq<char>, Seq<char>)>,
) -> Seq<(Seq<char>, Seq<char>)>
    decreases values.len(),
{
    if values.len() == 0 {
        acc
    } else {
        let pair = link_pair(driver, values[0], flip);
        let acc2 = if others.contains(values[0]) && !acc.contains(pair) {
            acc.push(pair)
        } else {
            acc
        };
        link_from_entry(driver, values.drop_first(), others, flip, acc2)
    }
}

/// The pairs all drivers contribute, in driver order.
pub open spec fn link_pairs(
    map: Seq<CallEntryView>,
    drivers: Seq<Seq<char>>,
    others: Seq<Seq<char>>,
    flip: bool,
    acc: Seq<(Seq<char>, Seq<char>)>,
) -> Seq<(Seq<char>, Seq<char>)>
    decreases drivers.len(),
{
    if drivers.len() == 0 {
        acc
    } else {
        let acc2 = match lookup(map, drivers[0]) {
            Some(values) => link_from_entry(drivers[0], values, others, flip, acc),
            None => acc,
        };
        link_pairs(map, drivers.drop_first(), others, flip, acc2)
    }
}

/// What [`ClangdServer::find_link`] returns: the caller/callee pairs of the
/// cross product that the call index records, driving the iteration over the
/// smaller of the two sets.
pub open spec fn spec_find_link(
    fwd: Seq<CallEntryView>,
    inv: Seq<CallEntryView>,
    parents: Seq<Seq<char>>,
    children: Seq<Seq<char>>,
) -> Seq<(Seq<char>, Seq<char>)> {
    if parents.len() > children.len() {
        link_pairs(inv, children, parents, true, Seq::empty())
    } else {
        link_pairs(fwd, parents, children, false, Seq::empty())
    }
}

/// Whether the call index records this parent/child pair, in the map the
/// search direction reads.
pub open spec fn pair_recorded(
    fwd: Seq<CallEntryView>,
    inv: Seq<CallEntryView>,
    flipped: bool,
    parent: Seq<char>,
    child: Seq<char>,
) -> bool {
    if flipped {
        lookup(inv, child) matches Some(vals) && vals.contains(parent)
    } else {
        lookup(fwd, parent) matches Some(vals) && vals.contains(child)
    }
}

/// The index-backed search engine: the per-file symbol table and the two
/// call-relationship maps, built once and then only read.
#[derive(Debug)]
pub struct ClangdServer {
    pub index_map: Vec<FileSymbols>,
    pub function_index: Vec<CallEntry>,
    pub inv_function_index: Vec<CallEntry>,
}

/// The abstract value of a [`ClangdServer`]: the symbol index and the two
/// call maps.
pub struct SearcherModel {
    pub files: Seq<FileSymbolsView>,
    pub fwd: Seq<CallEntryView>,
    pub inv: Seq<CallEntryView>,
}

impl View for ClangdServer {
    type V = SearcherModel;

    open spec fn view(&self) -> SearcherModel {
        SearcherModel {
            files: file_views(self.index_map@),
            fwd: entry_views(self.function_index@),
            inv: entry_views(self.inv_function_index@),
        }
    }
}

impl ClangdServer {
    /// A search engine over already-built maps.
    pub fn new(
        index_map: Vec<FileSymbols>,
        function_index: Vec<CallEntry>,
        inv_function_index: Vec<CallEntry>,
    ) -> (r: ClangdServer)
        ensures
            r.index_map@ == index_map@,
            r.function_index@ == function_index@,
            r.inv_function_index@ == inv_function_index@,
    {
        ClangdServer { index_map, function_index, inv_function_index }
    }

    /// Resolves each filter against the symbol index into a candidate group:
    /// symbols whose file the file pattern accepts and whose name the exact
    /// identifier or the name pattern accepts; an exact identifier that is
    /// nowhere in the index yields the synthetic `"not found"` group.
    pub fn find_func_name(&self, filter: &Vec<SearchFilter>) -> (r: Vec<FunctionNode>)
        ensures
            fnode_views(r@) == spec_find(
                file_views(self.index_map@),
                filter_views(filter@),
                Seq::empty(),
            ),
    {
        let ghost idx = file_views(self.index_map@);
        let ghost fvs = filter_views(filter@);
        let mut out: Vec<FunctionNode> = Vec::new();
        proof {
            assert(fnode_views(out@) =~= Seq::<FunctionNodeView>::empty());
            assert(fvs.skip(0) =~= fvs);
        }
        let mut fi: usize = 0;
        while fi < filter.len()
            invariant
                0 <= fi <= filter.len(),
                idx == file_views(self.index_map@),
                fvs == filter_views(filter@),
                spec_find(idx, fvs.skip(fi as int), fnode_views(out@)) == spec_find(
                    idx,
                    fvs,
                    Seq::empty(),
                ),
            decreases filter.len() - fi,
        {
            let ghost acc_pre = fnode_views(out@);
            let f = &filter[fi];
            let ghost fm = fvs[fi as int];
            proof {
                assert(fm == f@);
            }
            // Collect the names this filter accepts, without repetition.
            let mut names: Vec<String> = Vec::new();
            proof {
                assert(seq_views(names@) =~= Seq::<Seq<char>>::empty());
                assert(idx.skip(0) =~= idx);
            }
            let mut di: usize = 0;
            while di < self.index_map.len()
                invariant
                    0 <= di <= self.index_map.len(),
                    idx == file_views(self.index_map@),
                    fm == f@,
                    collect_names(fm, idx.skip(di as int), seq_views(names@)) == collect_names(
                        fm,
                        idx,
                        Seq::empty(),
                    ),
                decreases self.index_map.len() - di,
            {
                proof {
                    assert(idx.skip(di as int)[0] == idx[di as int]);
                    assert(idx[di as int] == self.index_map@[di as int]@);
                    assert(idx.skip(di as int).drop_first() =~= idx.skip(di as int + 1));
                }
                let file_ok = match &f.file {
                    Some(p) => p.is_match(self.index_map[di].path.as_str()),
                    None => true,
                };
                proof {
                    assert(file_ok == fm_file_matches(fm, idx[di as int].path));
                }
                if file_ok {
                    let funcs = &self.index_map[di].functions;
                    let ghost fseq = seq_views(funcs@);
                    let ghost n0 = seq_views(names@);
                    proof {
                        assert(fseq == idx[di as int].functions);
                        assert(fseq.skip(0) =~= fseq);
                    }
                    let mut si: usize = 0;
                    while si < funcs.len()
                        invariant
                            0 <= si <= funcs.len(),
                            fm == f@,
                            fseq == seq_views(funcs@),
                            collect_in_file(fm, fseq.skip(si as int), seq_views(names@))
                                == collect_in_file(fm, fseq, n0),
                        decreases funcs.len() - si,
                    {
                        proof {
                            assert(fseq.skip(si as int)[0] == fseq[si as int]);
                            assert(fseq.skip(si as int).drop_first() =~= fseq.skip(si as int + 1));
                            assert(fseq[si as int] == funcs@[si as int]@);
                        }
                        let matched = match &f.ident {
                            Some(id) => str_eq(id.as_str(), funcs[si].as_str()),
                            None => {
                                match &f.function {
                                    Some(p) => p.is_match(funcs[si].as_str()),
                                    None => true,
                                }
                            },
                        };
                        proof {
                            assert(matched == fm_name_matches(fm, fseq[si as int]));
                        }
                        if matched {
                            push_unique(&mut names, funcs[si].clone());
                        }
                        si = si + 1;
                    }
                    proof {
                        assert(fseq.skip(funcs@.len() as int) =~= Seq::<Seq<char>>::empty());
                        assert(collect_in_file(fm, fseq, n0) == seq_views(names@));
                    }
                }
                di = di + 1;
            }
            proof {
                assert(idx.skip(self.index_map@.len() as int) =~= Seq::<FileSymbolsView>::empty());
                assert(seq_views(names@) == collect_names(fm, idx, Seq::empty()));
            }
            // Turn the names into a group; an unmatched exact identifier
            // falls back to the synthetic placeholder group.
            let strategy = if f.forced {
                MatchStrategy::Forced
            } else {
                MatchStrategy::Confirmed
            };
            proof {
                assert(strategy == fm_strategy(fm));
            }
            let group: Option<FunctionNode> = if names.len() > 0 {
                Some(
                    FunctionNode {
                        function_name: names,
                        document: String::new(),
                        match_strategy: strategy,
                    },
                )
            } else {
                match &f.ident {
                    Some(id) => Some(
                        FunctionNode {
                            function_name: vec![id.clone()],
                            document: String::from_str("not found"),
                            match_strategy: strategy,
                        },
                    ),
                    None => None,
                }
            };
            proof {
                match &group {
                    Some(g) => {
                        assert(g@.function_name =~= spec_resolve_group(idx, fm)->0.function_name);
                        assert(spec_resolve_group(idx, fm) == Some(g@));
                    },
                    None => {
                        assert(spec_resolve_group(idx, fm) is None);
                    },
                }
            }
            match group {
                Some(g) => {
                    insert_group(&mut out, g);
                    proof {
                        assert(fnode_views(out@) =~= push_group(
                            acc_pre,
                            spec_resolve_group(idx, fm)->0,
                        ));
                    }
                },
                None => {},
            }
            proof {
                assert(fvs.skip(fi as int)[0] == fm);
                assert(fvs.skip(fi as int).drop_first() =~= fvs.skip(fi as int + 1));
            }
            fi = fi + 1;
        }
        proof {
            assert(fvs.skip(filter@.len() as int) =~= Seq::<FilterModel>::empty());
        }
        out
    }
}



/// Appends the group unless one with the same name set is already listed.
pub fn insert_group(list: &mut Vec<FunctionNode>, g: FunctionNode)
    ensures
        fnode_views(final(list)@) == push_group(fnode_views(old(list)@), g@),
{
    let ghost acc_pre = fnode_views(list@);
    let mut dup = false;
    let mut gi: usize = 0;
    while gi < list.len()
        invariant
            0 <= gi <= list.len(),
            acc_pre == fnode_views(list@),
            dup == exists|j: int| 0 <= j < gi && same_names(#[trigger] fnode_views(list@)[j], g@),
        decreases list.len() - gi,
    {
        if &list[gi] == &g {
            proof {
                assert(same_names(fnode_views(list@)[gi as int], g@));
            }
            dup = true;
        } else {
            proof {
                assert(!same_names(fnode_views(list@)[gi as int], g@));
            }
        }
        gi = gi + 1;
    }
    proof {
        assert(dup == groups_have(acc_pre, g@)) by {
            if dup {
                let j = choose|j: int|
                    0 <= j < list@.len() && same_names(#[trigger] fnode_views(list@)[j], g@);
                assert(same_names(acc_pre[j], g@));
            } else {
                if groups_have(acc_pre, g@) {
                    let j = choose|j: int| 0 <= j < acc_pre.len() && same_names(acc_pre[j], g@);
                    assert(same_names(fnode_views(list@)[j], g@));
                }
            }
        }
    }
    if !dup {
        let ghost before_push = fnode_views(list@);
        list.push(g);
        proof {
            assert(fnode_views(list@) =~= before_push.push(fnode_views(list@).last()));
        }
    }
}

/// The pairs of one driver against every name of `b`, appended to `acc`.
pub open spec fn cross_row_from(
    x: Seq<char>,
    b: Seq<Seq<char>>,
    acc: Seq<(Seq<char>, Seq<char>)>,
) -> Seq<(Seq<char>, Seq<char>)>
    decreases b.len(),
{
    if b.len() == 0 {
        acc
    } else {
        cross_row_from(x, b.drop_first(), acc.push((x, b[0])))
    }
}

/// The full cross product of two name sequences, appended to `acc`.
pub open spec fn cross_from(
    a: Seq<Seq<char>>,
    b: Seq<Seq<char>>,
    acc: Seq<(Seq<char>, Seq<char>)>,
) -> Seq<(Seq<char>, Seq<char>)>
    decreases a.len(),
{
    if a.len() == 0 {
        acc
    } else {
        cross_from(a.drop_first(), b, cross_row_from(a[0], b, acc))
    }
}

/// One row of the cross product adds one pair per name.
proof fn lemma_cross_row_len(x: Seq<char>, b: Seq<Seq<char>>, acc: Seq<(Seq<char>, Seq<char>)>)
    ensures
        cross_row_from(x, b, acc).len() == acc.len() + b.len(),
    decreases b.len(),
{
    if b.len() > 0 {
        lemma_cross_row_len(x, b.drop_first(), acc.push((x, b[0])));
    }
}

/// The cross product holds exactly one pair per element of the product.
pub proof fn lemma_cross_len(a: Seq<Seq<char>>, b: Seq<Seq<char>>, acc: Seq<(Seq<char>, Seq<char>)>)
    ensures
        cross_from(a, b, acc).len() == acc.len() + a.len() * b.len(),
    decreases a.len(),
{
    if a.len() > 0 {
        lemma_cross_row_len(a[0], b, acc);
        lemma_cross_len(a.drop_first(), b, cross_row_from(a[0], b, acc));
        assert((a.len() - 1) * b.len() + b.len() == a.len() * b.len()) by (nonlinear_arith);
    } else {
        assert(a.len() == 0);
        assert(0 * b.len() == 0) by (nonlinear_arith);
    }
}

impl ForcedNode {
    /// Reports every pair of the cross product as connected: exactly one
    /// pair for each member of `self` and each member of the target,
    /// whatever any call index holds.
    pub fn do_match(&self, match_target: &FunctionNode) -> (r: Vec<(String, String)>)
        ensures
            edge_views(r@) == cross_from(
                seq_views(self.function_name@),
                seq_views(match_target.function_name@),
                Seq::empty(),
            ),
            r@.len() == self.function_name@.len() * match_target.function_name@.len(),
            forall|k: int|
                0 <= k < r@.len() ==> seq_views(self.function_name@).contains(
                    (#[trigger] r@[k]).0@,
                ) && seq_views(match_target.function_name@).contains(r@[k].1@),
    {
        let ghost aseq = seq_views(self.function_name@);
        let ghost bseq = seq_views(match_target.function_name@);
        let ghost target = cross_from(aseq, bseq, Seq::<(Seq<char>, Seq<char>)>::empty());
        let mut out: Vec<(String, String)> = Vec::new();
        proof {
            assert(edge_views(out@) =~= Seq::<(Seq<char>, Seq<char>)>::empty());
            assert(aseq.skip(0) =~= aseq);
        }
        let mut i: usize = 0;
        while i < self.function_name.len()
            invariant
                0 <= i <= self.function_name.len(),
                aseq == seq_views(self.function_name@),
                bseq == seq_views(match_target.function_name@),
                cross_from(aseq.skip(i as int), bseq, edge_views(out@)) == target,
                forall|k: int|
                    0 <= k < out@.len() ==> aseq.contains((#[trigger] out@[k]).0@) && bseq.contains(
                        out@[k].1@,
                    ),
            decreases self.function_name.len() - i,
        {
            proof {
                assert(aseq.skip(i as int)[0] == aseq[i as int]);
                assert(aseq.skip(i as int).drop_first() =~= aseq.skip(i as int + 1));
                assert(bseq.skip(0) =~= bseq);
            }
            let mut j: usize = 0;
            while j < match_target.function_name.len()
                invariant
                    0 <= i < self.function_name.len(),
                    0 <= j <= match_target.function_name.len(),
                    aseq == seq_views(self.function_name@),
                    bseq == seq_views(match_target.function_name@),
                    cross_from(
                        aseq.skip(i as int + 1),
                        bseq,
                        cross_row_from(aseq[i as int], bseq.skip(j as int), edge_views(out@)),
                    ) == target,
                    forall|k: int|
                        0 <= k < out@.len() ==> aseq.contains((#[trigger] out@[k]).0@)
                            && bseq.contains(out@[k].1@),
                decreases match_target.function_name.len() - j,
            {
                let ghost pre = edge_views(out@);
                out.push(
                    (self.function_name[i].clone(), match_target.function_name[j].clone()),
                );
                proof {
                    assert(edge_views(out@) =~= pre.push((aseq[i as int], bseq[j as int])));
                    assert(bseq.skip(j as int)[0] == bseq[j as int]);
                    assert(bseq.skip(j as int).drop_first() =~= bseq.skip(j as int + 1));
                    assert(aseq.contains(aseq[i as int]));
                    assert(bseq.contains(bseq[j as int]));
                }
                j = j + 1;
            }
            proof {
                assert(bseq.skip(match_target.function_name@.len() as int)
                    =~= Seq::<Seq<char>>::empty());
            }
            i = i + 1;
        }
        proof {
            assert(aseq.skip(self.function_name@.len() as int) =~= Seq::<Seq<char>>::empty());
            lemma_cross_len(aseq, bseq, Seq::empty());
            assert(out@.len() == edge_views(out@).len());
        }
        out
    }
}

impl ClangdServer {
    /// The first call-index entry for this key, if any.
    fn lookup_entry<'a>(entries: &'a Vec<CallEntry>, key: &str) -> (r: Option<&'a Vec<String>>)
        ensures
            match r {
                Some(v) => lookup(entry_views(entries@), key@) == Some(seq_views(v@)),
                None => lookup(entry_views(entries@), key@) is None,
            },
    {
        let ghost evs = entry_views(entries@);
        proof {
            assert(evs.skip(0) =~= evs);
        }
        let mut i: usize = 0;
        while i < entries.len()
            invariant
                0 <= i <= entries.len(),
                evs == entry_views(entries@),
                lookup(evs.skip(i as int), key@) == lookup(evs, key@),
            decreases entries.len() - i,
        {
            proof {
                assert(evs.skip(i as int)[0] == evs[i as int]);
                assert(evs.skip(i as int).drop_first() =~= evs.skip(i as int + 1));
            }
            if str_eq(entries[i].key.as_str(), key) {
                return Some(&entries[i].values);
            }
            i = i + 1;
        }
        proof {
            assert(evs.skip(entries@.len() as int) =~= Seq::<CallEntryView>::empty());
        }
        None
    }

    /// The caller/callee pairs between the two name sets that the call index
    /// records, iterating over the smaller set: when there are more parents
    /// than children it walks the children through the inverse map, else the
    /// parents through the forward map.  Every returned pair joins a parent
    /// to a child.
    pub fn find_link(&self, parent_name: &Vec<String>, child_name: &Vec<String>) -> (r: Vec<
        (String, String),
    >)
        ensures
            edge_views(r@) == spec_find_link(
                entry_views(self.function_index@),
                entry_views(self.inv_function_index@),
                seq_views(parent_name@),
                seq_views(child_name@),
            ),
            forall|k: int|
                0 <= k < r@.len() ==> seq_views(parent_name@).contains((#[trigger] r@[k]).0@)
                    && seq_views(child_name@).contains(r@[k].1@),
            forall|k: int|
                0 <= k < r@.len() ==> pair_recorded(
                    entry_views(self.function_index@),
                    entry_views(self.inv_function_index@),
                    seq_views(parent_name@).len() > seq_views(child_name@).len(),
                    (#[trigger] r@[k]).0@,
                    r@[k].1@,
                ),
    {
        let ghost pseq = seq_views(parent_name@);
        let ghost cseq = seq_views(child_name@);
        let mut out: Vec<(String, String)> = Vec::new();
        proof {
            assert(edge_views(out@) =~= Seq::<(Seq<char>, Seq<char>)>::empty());
        }
        if parent_name.len() > child_name.len() {
            let ghost map = entry_views(self.inv_function_index@);
            let ghost target = link_pairs(map, cseq, pseq, true, Seq::empty());
            proof {
                assert(cseq.skip(0) =~= cseq);
            }
            let mut di: usize = 0;
            while di < child_name.len()
                invariant
                    0 <= di <= child_name.len(),
                    pseq == seq_views(parent_name@),
                    cseq == seq_views(child_name@),
                    map == entry_views(self.inv_function_index@),
                    target == link_pairs(map, cseq, pseq, true, Seq::empty()),
                    link_pairs(map, cseq.skip(di as int), pseq, true, edge_views(out@)) == target,
                    forall|k: int|
                        0 <= k < out@.len() ==> pseq.contains((#[trigger] out@[k]).0@)
                            && cseq.contains(out@[k].1@),
                    forall|k: int|
                        0 <= k < out@.len() ==> pair_recorded(
                            entry_views(self.function_index@),
                            map,
                            true,
                            (#[trigger] out@[k]).0@,
                            out@[k].1@,
                        ),
                decreases child_name.len() - di,
            {
                proof {
                    assert(cseq.skip(di as int)[0] == cseq[di as int]);
                    assert(cseq.skip(di as int).drop_first() =~= cseq.skip(di as int + 1));
                }
                let looked = Self::lookup_entry(&self.inv_function_index, child_name[di].as_str());
                match looked {
                    Some(vals) => {
                        let ghost vseq = seq_views(vals@);
                        proof {
                            assert(vseq.skip(0) =~= vseq);
                        }
                        let mut vi: usize = 0;
                        while vi < vals.len()
                            invariant
                                0 <= di < child_name.len(),
                                0 <= vi <= vals.len(),
                                pseq == seq_views(parent_name@),
                                cseq == seq_views(child_name@),
                                map == entry_views(self.inv_function_index@),
                                vseq == seq_views(vals@),
                                link_pairs(
                                    map,
                                    cseq.skip(di as int + 1),
                                    pseq,
                                    true,
                                    link_from_entry(
                                        cseq[di as int],
                                        vseq.skip(vi as int),
                                        pseq,
                                        true,
                                        edge_views(out@),
                                    ),
                                ) == target,
                                forall|k: int|
                                    0 <= k < out@.len() ==> pseq.contains((#[trigger] out@[k]).0@)
                                        && cseq.contains(out@[k].1@),
                                lookup(map, cseq[di as int]) == Some(vseq),
                                forall|k: int|
                                    0 <= k < out@.len() ==> pair_recorded(
                                        entry_views(self.function_index@),
                                        map,
                                        true,
                                        (#[trigger] out@[k]).0@,
                                        out@[k].1@,
                                    ),
                            decreases vals.len() - vi,
                        {
                            proof {
                                assert(vseq.skip(vi as int)[0] == vseq[vi as int]);
                                assert(vseq.skip(vi as int).drop_first() =~= vseq.skip(
                                    vi as int + 1,
                                ));
                            }
                            let in_parents = names_contain(parent_name, vals[vi].as_str());
                            if in_parents {
                                let already = Self::pairs_contain(
                                    &out,
                                    vals[vi].as_str(),
                                    child_name[di].as_str(),
                                );
                                if !already {
                                    let ghost pre = edge_views(out@);
                                    out.push((vals[vi].clone(), child_name[di].clone()));
                                    proof {
                                        assert(edge_views(out@) =~= pre.push(
                                            (vseq[vi as int], cseq[di as int]),
                                        ));
                                        assert(cseq.contains(cseq[di as int]));
                                        assert(vseq.contains(vseq[vi as int]));
                                    }
                                }
                            }
                            vi = vi + 1;
                        }
                        proof {
                            assert(vseq.skip(vals@.len() as int) =~= Seq::<Seq<char>>::empty());
                        }
                    },
                    None => {},
                }
                di = di + 1;
            }
            proof {
                assert(cseq.skip(child_name@.len() as int) =~= Seq::<Seq<char>>::empty());
            }
        } else {
            let ghost map = entry_views(self.function_index@);
            let ghost target = link_pairs(map, pseq, cseq, false, Seq::empty());
            proof {
                assert(pseq.skip(0) =~= pseq);
            }
            let mut di: usize = 0;
            while di < parent_name.len()
                invariant
                    0 <= di <= parent_name.len(),
                    pseq == seq_views(parent_name@),
                    cseq == seq_views(child_name@),
                    map == entry_views(self.function_index@),
                    target == link_pairs(map, pseq, cseq, false, Seq::empty()),
                    link_pairs(map, pseq.skip(di as int), cseq, false, edge_views(out@)) == target,
                    forall|k: int|
                        0 <= k < out@.len() ==> pseq.contains((#[trigger] out@[k]).0@)
                            && cseq.contains(out@[k].1@),
                    forall|k: int|
                        0 <= k < out@.len() ==> pair_recorded(
                            map,
                            entry_views(self.inv_function_index@),
                            false,
                            (#[trigger] out@[k]).0@,
                            out@[k].1@,
                        ),
                decreases parent_name.len() - di,
            {
                proof {
                    assert(pseq.skip(di as int)[0] == pseq[di as int]);
                    assert(pseq.skip(di as int).drop_first() =~= pseq.skip(di as int + 1));
                }
                let looked = Self::lookup_entry(&self.function_index, parent_name[di].as_str());
                match looked {
                    Some(vals) => {
                        let ghost vseq = seq_views(vals@);
                        proof {
                            assert(vseq.skip(0) =~= vseq);
                        }
                        let mut vi: usize = 0;
                        while vi < vals.len()
                            invariant
                                0 <= di < parent_name.len(),
                                0 <= vi <= vals.len(),
                                pseq == seq_views(parent_name@),
                                cseq == seq_views(child_name@),
                                map == entry_views(self.function_index@),
                                vseq == seq_views(vals@),
                                link_pairs(
                                    map,
                                    pseq.skip(di as int + 1),
                                    cseq,
                                    false,
                                    link_from_entry(
                                        pseq[di as int],
                                        vseq.skip(vi as int),
                                        cseq,
                                        false,
                                        edge_views(out@),
                                    ),
                                ) == target,
                                forall|k: int|
                                    0 <= k < out@.len() ==> pseq.contains((#[trigger] out@[k]).0@)
                                        && cseq.contains(out@[k].1@),
                                lookup(map, pseq[di as int]) == Some(vseq),
                                forall|k: int|
                                    0 <= k < out@.len() ==> pair_recorded(
                                        map,
                                        entry_views(self.inv_function_index@),
                                        false,
                                        (#[trigger] out@[k]).0@,
                                        out@[k].1@,
                                    ),
                            decreases vals.len() - vi,
                        {
                            proof {
                                assert(vseq.skip(vi as int)[0] == vseq[vi as int]);
                                assert(vseq.skip(vi as int).drop_first() =~= vseq.skip(
                                    vi as int + 1,
                                ));
                            }
                            let in_children = names_contain(child_name, vals[vi].as_str());
                            if in_children {
                                let already = Self::pairs_contain(
                                    &out,
                                    parent_name[di].as_str(),
                                    vals[vi].as_str(),
                                );
                                if !already {
                                    let ghost pre = edge_views(out@);
                                    out.push((parent_name[di].clone(), vals[vi].clone()));
                                    proof {
                                        assert(edge_views(out@) =~= pre.push(
                                            (pseq[di as int], vseq[vi as int]),
                                        ));
                                        assert(pseq.contains(pseq[di as int]));
                                        assert(vseq.contains(vseq[vi as int]));
                                    }
                                }
                            }
                            vi = vi + 1;
                        }
                        proof {
                            assert(vseq.skip(vals@.len() as int) =~= Seq::<Seq<char>>::empty());
                        }
                    },
                    None => {},
                }
                di = di + 1;
            }
            proof {
                assert(pseq.skip(parent_name@.len() as int) =~= Seq::<Seq<char>>::empty());
            }
        }
        out
    }

    /// Whether this exact pair is already listed.
    fn pairs_contain(v: &Vec<(String, String)>, a: &str, b: &str) -> (r: bool)
        ensures
            r == edge_views(v@).contains((a@, b@)),
    {
        let mut i: usize = 0;
        while i < v.len()
            invariant
                0 <= i <= v.len(),
                forall|j: int| 0 <= j < i ==> #[trigger] edge_views(v@)[j] != (a@, b@),
            decreases v.len() - i,
        {
            if str_eq(v[i].0.as_str(), a) && str_eq(v[i].1.as_str(), b) {
                proof {
                    assert(edge_views(v@)[i as int] == (a@, b@));
                }
                return true;
            }
            proof {
                assert(edge_views(v@)[i as int] != (a@, b@));
            }
            i = i + 1;
        }
        proof {
            if edge_views(v@).contains((a@, b@)) {
                let j = choose|j: int|
                    0 <= j < edge_views(v@).len() && edge_views(v@)[j] == (a@, b@);
                assert(edge_views(v@)[j] != (a@, b@));
            }
        }
        false
    }
}

impl ParentChildNode {
    /// Defers to the call index: the pairs of the cross product whose
    /// connection the index records, `self` on the parent side.
    pub fn do_match(&self, match_target: &FunctionNode, searcher: &ClangdServer) -> (r: Vec<
        (String, String),
    >)
        ensures
            edge_views(r@) == spec_find_link(
                entry_views(searcher.function_index@),
                entry_views(searcher.inv_function_index@),
                seq_views(self.function_name@),
                seq_views(match_target.function_name@),
            ),
            forall|k: int|
                0 <= k < r@.len() ==> seq_views(self.function_name@).contains(
                    (#[trigger] r@[k]).0@,
                ) && seq_views(match_target.function_name@).contains(r@[k].1@),
            forall|k: int|
                0 <= k < r@.len() ==> pair_recorded(
                    entry_views(searcher.function_index@),
                    entry_views(searcher.inv_function_index@),
                    seq_views(self.function_name@).len() > seq_views(
                        match_target.function_name@,
                    ).len(),
                    (#[trigger] r@[k]).0@,
                    r@[k].1@,
                ),
    {
        searcher.find_link(&self.function_name, &match_target.function_name)
    }
}

} // verus!
