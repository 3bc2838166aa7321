//! The result graph: named nodes with usage counters, directed edges, and
//! usage-count-driven cascading pruning.
//!
//! A node's `times_used` counter starts at the priority it was inserted with
//! and grows by one for each distinct inbound edge.  Removing a node removes
//! every edge touching it and decrements each distinct successor (self-edges
//! excluded); a successor whose counter falls to one or below is removed in
//! turn.  The cascade is a worklist, not recursion, so a node is never pruned
//! twice and a self-edge never decrements its own node.
//!
//! The graph is held as plain vectors of nodes and edges — an arena over
//! names — rather than in an outside graph structure, so that insertion, the
//! usage counters and the removal cascade are verified directly against the
//! model below; rendering to an external graph format converts at the edge,
//! outside the library.

use vstd::prelude::*;
use crate::text::{str_eq, seq_views, lemma_add_contains};

verus! {

/// One graph node: a symbol name and how often it is used as an edge target.
#[derive(Debug)]
pub struct Node {
    pub name: String,
    pub times_used: u32,
}

/// The abstract value of a [`Node`].
pub struct NodeModel {
    pub name: Seq<char>,
    pub times_used: u32,
}

impl View for Node {
    type V = NodeModel;

    open spec fn view(&self) -> NodeModel {
        NodeModel { name: self.name@, times_used: self.times_used }
    }
}

/// The abstract value of a [`Graph`]: nodes and directed edges, in insertion
/// order.
pub struct GraphModel {
    pub nodes: Seq<NodeModel>,
    pub edges: Seq<(Seq<char>, Seq<char>)>,
}

/// The directed result graph.
#[derive(Debug)]
pub struct Graph {
    pub(crate) nodes: Vec<Node>,
    pub(crate) edges: Vec<(String, String)>,
}

/// The abstract values of a sequence of nodes.
pub open spec fn node_views(s: Seq<Node>) -> Seq<NodeModel> {
    s.map_values(|n: Node| n@)
}

/// The abstract values of a sequence of edges.
pub open spec fn edge_views(s: Seq<(String, String)>) -> Seq<(Seq<char>, Seq<char>)> {
    s.map_values(|e: (String, String)| (e.0@, e.1@))
}

impl View for Graph {
    type V = GraphModel;

    closed spec fn view(&self) -> GraphModel {
        GraphModel { nodes: node_views(self.nodes@), edges: edge_views(self.edges@) }
    }
}

/// Whether the model holds a node with this name.
pub open spec fn gm_has_node(m: GraphModel, name: Seq<char>) -> bool {
    exists|i: int| 0 <= i < m.nodes.len() && m.nodes[i].name == name
}

/// Whether the model holds this directed edge.
pub open spec fn gm_has_edge(m: GraphModel, from: Seq<char>, to: Seq<char>) -> bool {
    m.edges.contains((from, to))
}

/// The counter of the node with this name, or `0` if there is none.
pub open spec fn gm_count(m: GraphModel, name: Seq<char>) -> u32
    decreases m.nodes.len(),
{
    if m.nodes.len() == 0 {
        0u32
    } else if m.nodes[0].name == name {
        m.nodes[0].times_used
    } else {
        gm_count(GraphModel { nodes: m.nodes.drop_first(), edges: m.edges }, name)
    }
}

/// Well-formedness: node names are distinct, edges are distinct, and every
/// edge endpoint is a node.
pub open spec fn gm_wf(m: GraphModel) -> bool {
    &&& forall|i: int, j: int|
        0 <= i < j < m.nodes.len() ==> (#[trigger] m.nodes[i]).name != (#[trigger] m.nodes[j]).name
    &&& forall|i: int, j: int|
        0 <= i < j < m.edges.len() ==> #[trigger] m.edges[i] != #[trigger] m.edges[j]
    &&& forall|i: int|
        0 <= i < m.edges.len() ==> gm_has_node(m, (#[trigger] m.edges[i]).0) && gm_has_node(
            m,
            m.edges[i].1,
        )
}

/// A counter incremented by one, saturating at the type's limit.
pub open spec fn sat_inc(t: u32) -> u32 {
    if t < u32::MAX {
        (t + 1) as u32
    } else {
        t
    }
}

/// A counter decremented by one, stopping at zero.
pub open spec fn sat_dec(t: u32) -> u32 {
    if t > 0 {
        (t - 1) as u32
    } else {
        0u32
    }
}

/// What [`Graph::add_node`] does: nothing if the name is present, else a new
/// node with counter `prio`.
pub open spec fn spec_add_node(m: GraphModel, name: Seq<char>, prio: u32) -> GraphModel {
    if gm_has_node(m, name) {
        m
    } else {
        GraphModel { nodes: m.nodes.push(NodeModel { name, times_used: prio }), edges: m.edges }
    }
}

/// Every node with this name, its counter raised by one.
pub open spec fn gm_bump(nodes: Seq<NodeModel>, name: Seq<char>) -> Seq<NodeModel> {
    nodes.map_values(
        |n: NodeModel|
            if n.name == name {
                NodeModel { name: n.name, times_used: sat_inc(n.times_used) }
            } else {
                n
            },
    )
}

/// What [`Graph::add_edge`] does: nothing if the edge is present, else the
/// edge is appended and the target's counter raised; the flag says whether
/// the edge is new.
pub open spec fn spec_add_edge(m: GraphModel, from: Seq<char>, to: Seq<char>) -> (GraphModel, bool) {
    if gm_has_edge(m, from, to) {
        (m, false)
    } else {
        (GraphModel { nodes: gm_bump(m.nodes, to), edges: m.edges.push((from, to)) }, true)
    }
}

/// The distinct successors of `name` among `edges`, self-edges excluded, in
/// the order of their first inbound edge, appended to `acc`.
pub open spec fn gm_succs_from(
    edges: Seq<(Seq<char>, Seq<char>)>,
    name: Seq<char>,
    acc: Seq<Seq<char>>,
) -> Seq<Seq<char>>
    decreases edges.len(),
{
    if edges.len() == 0 {
        acc
    } else {
        let e = edges[0];
        let acc2 = if e.0 == name && e.1 != name && !acc.contains(e.1) {
            acc.push(e.1)
        } else {
            acc
        };
        gm_succs_from(edges.drop_first(), name, acc2)
    }
}

/// Every node, its counter lowered by one if its name is listed.
pub open spec fn gm_dec_each(nodes: Seq<NodeModel>, names: Seq<Seq<char>>) -> Seq<NodeModel> {
    nodes.map_values(
        |n: NodeModel|
            if names.contains(n.name) {
                NodeModel { name: n.name, times_used: sat_dec(n.times_used) }
            } else {
                n
            },
    )
}

/// The predicate that keeps a node when `name` is removed.
pub open spec fn keep_node(name: Seq<char>) -> spec_fn(NodeModel) -> bool {
    |n: NodeModel| n.name != name
}

/// The predicate that keeps an edge when `name` is removed.
pub open spec fn keep_edge(name: Seq<char>) -> spec_fn((Seq<char>, Seq<char>)) -> bool {
    |e: (Seq<char>, Seq<char>)| e.0 != name && e.1 != name
}

/// One pruning step: `name` and every edge touching it go, each distinct
/// successor is decremented.
pub open spec fn gm_remove_once(m: GraphModel, name: Seq<char>) -> GraphModel {
    let succs = gm_succs_from(m.edges, name, Seq::empty());
    GraphModel {
        nodes: gm_dec_each(m.nodes.filter(keep_node(name)), succs),
        edges: m.edges.filter(keep_edge(name)),
    }
}

/// The predicate picking the successors that the cascade follows: present and
/// with a counter of one or below.
pub open spec fn follow_pred(m: GraphModel) -> spec_fn(Seq<char>) -> bool {
    |s: Seq<char>| gm_has_node(m, s) && gm_count(m, s) <= 1
}

/// The successors that the cascade follows after removing a node.
pub open spec fn gm_follow(m: GraphModel, succs: Seq<Seq<char>>) -> Seq<Seq<char>> {
    succs.filter(follow_pred(m))
}

/// What [`Graph::remove_node`] does, as a depth-first worklist: the head of
/// the worklist is removed, and its low-count successors are pushed in front.
pub open spec fn spec_prune(m: GraphModel, work: Seq<Seq<char>>) -> GraphModel
    decreases m.nodes.len(), work.len(),
    via spec_prune_decreases
{
    if work.len() == 0 {
        m
    } else {
        let name = work[0];
        let rest = work.drop_first();
        if !gm_has_node(m, name) {
            spec_prune(m, rest)
        } else {
            let succs = gm_succs_from(m.edges, name, Seq::empty());
            let m2 = gm_remove_once(m, name);
            spec_prune(m2, gm_follow(m2, succs) + rest)
        }
    }
}

#[via_fn]
proof fn spec_prune_decreases(m: GraphModel, work: Seq<Seq<char>>) {
    if work.len() > 0 {
        let name = work[0];
        if gm_has_node(m, name) {
            let i = choose|i: int| 0 <= i < m.nodes.len() && m.nodes[i].name == name;
            lemma_filter_one_out(m.nodes, name, i);
        }
    }
}

/// Filtering out a name that occurs in the sequence strictly shrinks it.
proof fn lemma_filter_one_out(s: Seq<NodeModel>, name: Seq<char>, i: int)
    requires
        0 <= i < s.len(),
        s[i].name == name,
    ensures
        s.filter(keep_node(name)).len() < s.len(),
    decreases s.len(),
{
    reveal(Seq::filter);
    if i == s.len() - 1 {
        s.drop_last().lemma_filter_len(keep_node(name));
    } else {
        lemma_filter_one_out(s.drop_last(), name, i);
    }
}

impl Graph {
    /// An empty graph.
    pub fn new() -> (r: Graph)
        ensures
            r@.nodes.len() == 0,
            r@.edges.len() == 0,
            r.wf(),
    {
        Graph { nodes: Vec::new(), edges: Vec::new() }
    }

    /// Well-formedness of the concrete graph; see [`gm_wf`].
    pub open spec fn wf(&self) -> bool {
        gm_wf(self@)
    }

    /// The nodes, for callers that only read.
    pub fn node_list(&self) -> (r: &Vec<Node>)
        ensures
            r@.map_values(|n: Node| n@) == self@.nodes,
    {
        &self.nodes
    }

    /// The index of the first node with this name, if any.
    fn find_node(&self, name: &str) -> (r: Option<usize>)
        ensures
            match r {
                Some(i) => {
                    &&& i < self@.nodes.len()
                    &&& self@.nodes[i as int].name == name@
                    &&& forall|j: int| 0 <= j < i ==> (#[trigger] self@.nodes[j]).name != name@
                },
                None => !gm_has_node(self@, name@),
            },
    {
        let mut i: usize = 0;
        while i < self.nodes.len()
            invariant
                0 <= i <= self.nodes.len(),
                forall|j: int| 0 <= j < i ==> (#[trigger] self@.nodes[j]).name != name@,
            decreases self.nodes.len() - i,
        {
            if str_eq(self.nodes[i].name.as_str(), name) {
                return Some(i);
            }
            i = i + 1;
        }
        None
    }

    /// Whether a node with this name is present.
    pub fn has_node(&self, name: &str) -> (r: bool)
        ensures
            r == gm_has_node(self@, name@),
    {
        self.find_node(name).is_some()
    }

    /// The counter of the node with this name, or `0` if there is none.
    pub fn times_used_of(&self, name: &str) -> (r: u32)
        requires
            self.wf(),
        ensures
            r == gm_count(self@, name@),
            gm_has_node(self@, name@) || r == 0,
    {
        match self.find_node(name) {
            Some(i) => {
                proof {
                    lemma_gm_count_at(self@, name@, i as int);
                }
                self.nodes[i].times_used
            },
            None => {
                proof {
                    lemma_gm_count_absent(self@, name@);
                }
                0
            },
        }
    }

    /// Inserts a node with counter `prio`; a node with the same name already
    /// present is left as it is.
    pub fn add_node(&mut self, node_name: String, prio: u32)
        requires
            old(self).wf(),
        ensures
            final(self)@ == spec_add_node(old(self)@, node_name@, prio),
            final(self).wf(),
            gm_has_node(final(self)@, node_name@),
    {
        let present = self.has_node(node_name.as_str());
        if !present {
            let ghost before = self@;
            self.nodes.push(Node { name: node_name, times_used: prio });
            proof {
                assert(self@.nodes =~= before.nodes.push(
                    NodeModel { name: node_name@, times_used: prio },
                ));
                assert(self@.edges =~= before.edges);
                assert(self@ == spec_add_node(before, node_name@, prio));
                assert forall|i: int|
                    0 <= i < self@.edges.len() implies gm_has_node(self@, (#[trigger] self@.edges[i]).0)
                    && gm_has_node(self@, self@.edges[i].1) by {
                    assert(gm_has_node(before, before.edges[i].0));
                    let w = choose|k: int|
                        0 <= k < before.nodes.len() && before.nodes[k].name == before.edges[i].0;
                    assert(self@.nodes[w].name == self@.edges[i].0);
                    let w2 = choose|k: int|
                        0 <= k < before.nodes.len() && before.nodes[k].name == before.edges[i].1;
                    assert(self@.nodes[w2].name == self@.edges[i].1);
                }
                assert(self@.nodes[self@.nodes.len() - 1].name == node_name@);
            }
        } else {
            assert(self@ == spec_add_node(old(self)@, node_name@, prio));
        }
    }

    /// Inserts a directed edge and raises the target's counter; an edge
    /// already present is left alone.  Returns whether the edge is new.
    pub fn add_edge(&mut self, start: String, end: String) -> (r: bool)
        requires
            old(self).wf(),
            gm_has_node(old(self)@, start@),
            gm_has_node(old(self)@, end@),
        ensures
            final(self)@ == spec_add_edge(old(self)@, start@, end@).0,
            r == spec_add_edge(old(self)@, start@, end@).1,
            final(self).wf(),
    {
        let ghost before = self@;
        // Is the edge already there?
        let mut i: usize = 0;
        let mut exists_already = false;
        while i < self.edges.len()
            invariant
                0 <= i <= self.edges.len(),
                self@ == before,
                exists_already == exists|j: int|
                    0 <= j < i && #[trigger] before.edges[j] == (start@, end@),
            decreases self.edges.len() - i,
        {
            if str_eq(self.edges[i].0.as_str(), start.as_str()) && str_eq(
                self.edges[i].1.as_str(),
                end.as_str(),
            ) {
                proof {
                    assert(before.edges[i as int] == (start@, end@));
                }
                exists_already = true;
            } else {
                proof {
                    assert(before.edges[i as int] != (start@, end@));
                }
            }
            i = i + 1;
        }
        proof {
            assert(exists_already == gm_has_edge(before, start@, end@)) by {
                if exists_already {
                    let j = choose|j: int|
                        0 <= j < before.edges.len() && #[trigger] before.edges[j] == (
                        start@,
                        end@,
                        );
                    assert(before.edges.contains((start@, end@)));
                } else {
                    if before.edges.contains((start@, end@)) {
                        let j = choose|j: int|
                            0 <= j < before.edges.len() && before.edges[j] == (start@, end@);
                        assert(before.edges[j] == (start@, end@));
                    }
                }
            }
        }
        if exists_already {
            proof {
                assert(self@ == spec_add_edge(before, start@, end@).0);
            }
            return false;
        }
        // Raise the target's counter on every node with that name.
        let ghost nb = self.nodes@;
        let mut k: usize = 0;
        while k < self.nodes.len()
            invariant
                0 <= k <= self.nodes.len(),
                self.edges@ == old(self).edges@,
                self.nodes@.len() == nb.len(),
                forall|j: int|
                    0 <= j < nb.len() ==> (#[trigger] self.nodes@[j]).name@ == nb[j].name@,
                forall|j: int|
                    0 <= j < k ==> (#[trigger] self.nodes@[j]).times_used == (
                    if nb[j].name@ == end@ {
                        sat_inc(nb[j].times_used)
                    } else {
                        nb[j].times_used
                    }),
                forall|j: int|
                    k <= j < nb.len() ==> (#[trigger] self.nodes@[j]).times_used
                        == nb[j].times_used,
            decreases self.nodes.len() - k,
        {
            let ghost prev_nodes = self.nodes@;
            let matched = str_eq(self.nodes[k].name.as_str(), end.as_str());
            if matched {
                let name_copy = self.nodes[k].name.clone();
                let tu = self.nodes[k].times_used;
                let new_tu = if tu < u32::MAX {
                    tu + 1
                } else {
                    tu
                };
                self.nodes[k] = Node { name: name_copy, times_used: new_tu };
            }
            proof {
                assert forall|j: int|
                    0 <= j < self.nodes@.len() && j != k implies self.nodes@[j] == prev_nodes[j] by {}
            }
            k = k + 1;
        }
        proof {
            assert forall|j: int|
                0 <= j < self@.nodes.len() implies #[trigger] self@.nodes[j] == gm_bump(
                before.nodes,
                end@,
            )[j] by {
                assert(self@.nodes[j] == self.nodes@[j]@);
                assert(before.nodes[j] == nb[j]@);
            }
            assert(self@.nodes =~= gm_bump(before.nodes, end@));
        }
        self.edges.push((start, end));
        proof {
            assert(self@.edges =~= before.edges.push((start@, end@)));
            assert(self@ == spec_add_edge(before, start@, end@).0);
            lemma_bump_preserves_wf(before, start@, end@);
        }
        true
    }


    /// Removes the node together with every edge it owns, decrementing each
    /// distinct successor (self-edges excluded) and cascading into successors
    /// whose counter falls to one or below.
    ///
    /// The final two clauses are the pruning cascade invariant: a remaining
    /// node either still stands at two or more uses, or went untouched by the
    /// cascade and keeps the counter it had before.
    pub fn remove_node(&mut self, node: Node)
        requires
            old(self).wf(),
        ensures
            final(self)@ == spec_prune(old(self)@, seq![node@.name]),
            final(self).wf(),
            forall|j: int|
                0 <= j < final(self)@.nodes.len() && (#[trigger] final(self)@.nodes[j]).times_used
                    < 2 ==> final(self)@.nodes[j].name != node@.name && exists|i: int|
                    0 <= i < old(self)@.nodes.len() && (#[trigger] old(self)@.nodes[i]).name
                        == final(self)@.nodes[j].name && old(self)@.nodes[i].times_used == final(self)@.nodes[j].times_used,
    {
        let ghost m0 = self@;
        let mut work: Vec<String> = Vec::new();
        work.push(node.name);
        proof {
            assert(seq_views(work@) =~= seq![node@.name]);
        }
        while work.len() > 0
            invariant
                self.wf(),
                spec_prune(self@, seq_views(work@)) == spec_prune(m0, seq![node@.name]),
            decreases self@.nodes.len(), work@.len(),
        {
            let ghost m_start = self@;
            let ghost work_start = seq_views(work@);
            let name = work.remove(0);
            proof {
                assert(seq_views(work@) =~= work_start.drop_first());
                assert(name@ == work_start[0]);
            }
            let found = self.find_node(name.as_str());
            match found {
                None => {
                    proof {
                        assert(spec_prune(m_start, work_start) == spec_prune(
                            self@,
                            seq_views(work@),
                        ));
                    }
                },
                Some(idx) => {
                    proof {
                        assert(gm_has_node(m_start, name@));
                    }
                    // The distinct successors, self excluded, in edge order.
                    let mut succs: Vec<String> = Vec::new();
                    proof {
                        assert(m_start.edges.skip(0) =~= m_start.edges);
                        assert(seq_views(succs@) =~= Seq::<Seq<char>>::empty());
                    }
                    let mut i: usize = 0;
                    while i < self.edges.len()
                        invariant
                            0 <= i <= self.edges.len(),
                            self@ == m_start,
                            name@ == work_start[0],
                            gm_succs_from(m_start.edges.skip(i as int), name@, seq_views(succs@))
                                == gm_succs_from(m_start.edges, name@, Seq::empty()),
                        decreases self.edges.len() - i,
                    {
                        let ghost pre = seq_views(succs@);
                        let hit = str_eq(self.edges[i].0.as_str(), name.as_str()) && !str_eq(
                            self.edges[i].1.as_str(),
                            name.as_str(),
                        ) && !crate::text::names_contain(&succs, self.edges[i].1.as_str());
                        if hit {
                            succs.push(self.edges[i].1.clone());
                            proof {
                                assert(seq_views(succs@) =~= pre.push(
                                    m_start.edges[i as int].1,
                                ));
                            }
                        }
                        proof {
                            assert(m_start.edges.skip(i as int).drop_first() =~= m_start.edges.skip(
                                i as int + 1,
                            ));
                            assert(m_start.edges.skip(i as int)[0] == m_start.edges[i as int]);
                        }
                        i = i + 1;
                    }
                    proof {
                        assert(m_start.edges.skip(self.edges@.len() as int)
                            =~= Seq::<(Seq<char>, Seq<char>)>::empty());
                        assert(seq_views(succs@) == gm_succs_from(
                            m_start.edges,
                            name@,
                            Seq::empty(),
                        ));
                    }
                    let ghost spec_succs = seq_views(succs@);
                    // Drop the node itself.
                    self.nodes.remove(idx);
                    proof {
                        assert forall|j: int|
                            0 <= j < m_start.nodes.len() && j != idx implies (
                        #[trigger] m_start.nodes[j]).name != name@ by {}
                        lemma_filter_unique_remove(m_start.nodes, name@, idx as int);
                        assert(self@.nodes =~= m_start.nodes.take(idx as int) + m_start.nodes.skip(
                            idx as int + 1,
                        ));
                        assert(self@.nodes == m_start.nodes.filter(keep_node(name@)));
                    }
                    let ghost filtered = m_start.nodes.filter(keep_node(name@));
                    // Decrement each distinct successor.
                    let ghost nb = self.nodes@;
                    let mut k: usize = 0;
                    while k < self.nodes.len()
                        invariant
                            0 <= k <= self.nodes.len(),
                            self.edges@.len() == m_start.edges.len(),
                            edge_views(self.edges@) == m_start.edges,
                            self.nodes@.len() == nb.len(),
                            spec_succs == seq_views(succs@),
                            forall|j: int|
                                0 <= j < nb.len() ==> (#[trigger] self.nodes@[j]).name@
                                    == nb[j].name@,
                            forall|j: int|
                                0 <= j < k ==> (#[trigger] self.nodes@[j]).times_used == (
                                if spec_succs.contains(nb[j].name@) {
                                    sat_dec(nb[j].times_used)
                                } else {
                                    nb[j].times_used
                                }),
                            forall|j: int|
                                k <= j < nb.len() ==> (#[trigger] self.nodes@[j]).times_used
                                    == nb[j].times_used,
                        decreases self.nodes.len() - k,
                    {
                        let ghost prev_nodes = self.nodes@;
                        let is_succ = crate::text::names_contain(&succs, self.nodes[k].name.as_str());
                        if is_succ {
                            let name_copy = self.nodes[k].name.clone();
                            let tu = self.nodes[k].times_used;
                            let new_tu = if tu > 0 {
                                tu - 1
                            } else {
                                0
                            };
                            self.nodes[k] = Node { name: name_copy, times_used: new_tu };
                        }
                        proof {
                            assert forall|j: int|
                                0 <= j < self.nodes@.len() && j != k implies self.nodes@[j]
                                == prev_nodes[j] by {}
                        }
                        k = k + 1;
                    }
                    proof {
                        assert(node_views(nb) == filtered);
                        assert forall|j: int|
                            0 <= j < self@.nodes.len() implies #[trigger] self@.nodes[j]
                            == gm_dec_each(filtered, spec_succs)[j] by {
                            assert(self@.nodes[j] == self.nodes@[j]@);
                            assert(filtered[j] == nb[j]@);
                        }
                        assert(self@.nodes =~= gm_dec_each(filtered, spec_succs));
                    }
                    // Drop every edge touching the removed node.
                    let mut kept: Vec<(String, String)> = Vec::new();
                    let mut t: usize = 0;
                    while t < self.edges.len()
                        invariant
                            0 <= t <= self.edges.len(),
                            edge_views(self.edges@) == m_start.edges,
                            self@.nodes == gm_dec_each(filtered, spec_succs),
                            name@ == work_start[0],
                            edge_views(kept@) == m_start.edges.take(t as int).filter(
                                keep_edge(name@),
                            ),
                        decreases self.edges.len() - t,
                    {
                        let ghost pre = edge_views(kept@);
                        let keep = !str_eq(self.edges[t].0.as_str(), name.as_str()) && !str_eq(
                            self.edges[t].1.as_str(),
                            name.as_str(),
                        );
                        if keep {
                            kept.push((self.edges[t].0.clone(), self.edges[t].1.clone()));
                            proof {
                                assert(edge_views(kept@) =~= pre.push(m_start.edges[t as int]));
                            }
                        }
                        proof {
                            reveal(Seq::filter);
                            assert(m_start.edges.take(t as int + 1).drop_last()
                                =~= m_start.edges.take(t as int));
                            assert(m_start.edges.take(t as int + 1).last()
                                == m_start.edges[t as int]);
                        }
                        t = t + 1;
                    }
                    self.edges = kept;
                    proof {
                        assert(m_start.edges.take(m_start.edges.len() as int) =~= m_start.edges);
                        assert(self@.edges == m_start.edges.filter(keep_edge(name@)));
                        assert(self@ == gm_remove_once(m_start, name@));
                        lemma_remove_once_wf(m_start, name@);
                    }
                    // Follow successors whose counter has fallen below two.
                    let ghost m2 = self@;
                    let mut follow: Vec<String> = Vec::new();
                    let mut f: usize = 0;
                    while f < succs.len()
                        invariant
                            0 <= f <= succs.len(),
                            self@ == m2,
                            self.wf(),
                            spec_succs == seq_views(succs@),
                            seq_views(follow@) == spec_succs.take(f as int).filter(
                                follow_pred(m2),
                            ),
                        decreases succs.len() - f,
                    {
                        let ghost pre = seq_views(follow@);
                        let present = self.has_node(succs[f].as_str());
                        let low = present && self.times_used_of(succs[f].as_str()) <= 1;
                        if low {
                            follow.push(succs[f].clone());
                            proof {
                                assert(seq_views(follow@) =~= pre.push(spec_succs[f as int]));
                            }
                        }
                        proof {
                            reveal(Seq::filter);
                            assert(spec_succs.take(f as int + 1).drop_last() =~= spec_succs.take(
                                f as int,
                            ));
                            assert(spec_succs.take(f as int + 1).last() == spec_succs[f as int]);
                        }
                        f = f + 1;
                    }
                    proof {
                        assert(spec_succs.take(spec_succs.len() as int) =~= spec_succs);
                        assert(seq_views(follow@) == gm_follow(m2, spec_succs));
                    }
                    // Push the follow-up names in front of the remaining work.
                    let ghost rest = seq_views(work@);
                    let mut new_work: Vec<String> = Vec::new();
                    proof {
                        assert(seq_views(new_work@) =~= Seq::<Seq<char>>::empty());
                        assert(seq_views(follow@).take(0) =~= Seq::<Seq<char>>::empty());
                    }
                    let mut q: usize = 0;
                    while q < follow.len()
                        invariant
                            0 <= q <= follow.len(),
                            self@ == m2,
                            self.wf(),
                            seq_views(work@) == rest,
                            seq_views(new_work@) == seq_views(follow@).take(q as int),
                        decreases follow.len() - q,
                    {
                        let ghost pre = seq_views(new_work@);
                        new_work.push(follow[q].clone());
                        proof {
                            assert(seq_views(new_work@) =~= pre.push(follow@[q as int]@));
                            assert(seq_views(follow@).take(q as int + 1) =~= seq_views(
                                follow@,
                            ).take(q as int).push(follow@[q as int]@));
                        }
                        q = q + 1;
                    }
                    new_work.append(&mut work);
                    work = new_work;
                    proof {
                        assert(seq_views(follow@).take(follow@.len() as int) =~= seq_views(
                            follow@,
                        ));
                        assert forall|x: int|
                            0 <= x < work@.len() implies seq_views(work@)[x] == (seq_views(
                            follow@,
                        ) + rest)[x] by {}
                        assert(seq_views(work@) =~= seq_views(follow@) + rest);
                        assert(seq_views(work@) =~= gm_follow(m2, spec_succs) + rest);
                        assert(spec_prune(m_start, work_start) == spec_prune(
                            self@,
                            seq_views(work@),
                        ));
                    }
                },
            }
        }
        proof {
            assert(seq_views(work@) =~= Seq::<Seq<char>>::empty());
            assert(spec_prune(self@, seq_views(work@)) == self@);
            lemma_prune_low(m0, seq![node@.name]);
        }
    }

    /// The edge list as plain string pairs, in insertion order.
    pub fn graph_to_tuple(&self) -> (r: Vec<(String, String)>)
        ensures
            r@.map_values(|e: (String, String)| (e.0@, e.1@)) == self@.edges,
    {
        let mut out: Vec<(String, String)> = Vec::new();
        let mut i: usize = 0;
        while i < self.edges.len()
            invariant
                0 <= i <= self.edges.len(),
                out@.len() == i,
                forall|j: int|
                    0 <= j < i ==> (#[trigger] out@[j].0@, out@[j].1@) == self@.edges[j],
            decreases self.edges.len() - i,
        {
            out.push((self.edges[i].0.clone(), self.edges[i].1.clone()));
            i = i + 1;
        }
        proof {
            assert(out@.map_values(|e: (String, String)| (e.0@, e.1@)) =~= self@.edges);
        }
        out
    }
}

/// `gm_count` looks the name up at its first occurrence.
proof fn lemma_gm_count_at(m: GraphModel, name: Seq<char>, i: int)
    requires
        0 <= i < m.nodes.len(),
        m.nodes[i].name == name,
        forall|j: int| 0 <= j < i ==> (#[trigger] m.nodes[j]).name != name,
    ensures
        gm_count(m, name) == m.nodes[i].times_used,
    decreases i,
{
    if i == 0 {
    } else {
        lemma_gm_count_at(GraphModel { nodes: m.nodes.drop_first(), edges: m.edges }, name, i - 1);
    }
}

/// The counter of an absent name is zero.
proof fn lemma_gm_count_absent(m: GraphModel, name: Seq<char>)
    requires
        !gm_has_node(m, name),
    ensures
        gm_count(m, name) == 0,
    decreases m.nodes.len(),
{
    if m.nodes.len() > 0 {
        let m2 = GraphModel { nodes: m.nodes.drop_first(), edges: m.edges };
        assert(!gm_has_node(m2, name)) by {
            if gm_has_node(m2, name) {
                let k = choose|i: int| 0 <= i < m2.nodes.len() && m2.nodes[i].name == name;
                assert(m.nodes[k + 1].name == name);
            }
        }
        lemma_gm_count_absent(m2, name);
    }
}

/// Bumping one node's counter preserves well-formedness when a new edge with
/// both endpoints present is appended.
proof fn lemma_bump_preserves_wf(m: GraphModel, from: Seq<char>, to: Seq<char>)
    requires
        gm_wf(m),
        gm_has_node(m, from),
        gm_has_node(m, to),
        !m.edges.contains((from, to)),
    ensures
        gm_wf(
            GraphModel { nodes: gm_bump(m.nodes, to), edges: m.edges.push((from, to)) },
        ),
{
    let m2 = GraphModel { nodes: gm_bump(m.nodes, to), edges: m.edges.push((from, to)) };
    assert forall|i: int, j: int|
        0 <= i < j < m2.nodes.len() implies (#[trigger] m2.nodes[i]).name != (
    #[trigger] m2.nodes[j]).name by {
        assert(m2.nodes[i].name == m.nodes[i].name);
        assert(m2.nodes[j].name == m.nodes[j].name);
    }
    assert forall|i: int, j: int|
        0 <= i < j < m2.edges.len() implies #[trigger] m2.edges[i] != #[trigger] m2.edges[j] by {
        if j < m.edges.len() {
        } else {
            assert(m2.edges[j] == (from, to));
            assert(m2.edges[i] == m.edges[i]);
            assert(m.edges.contains(m.edges[i]));
        }
    }
    assert forall|i: int|
        0 <= i < m2.edges.len() implies gm_has_node(m2, (#[trigger] m2.edges[i]).0) && gm_has_node(
        m2,
        m2.edges[i].1,
    ) by {
        let a = m2.edges[i].0;
        let b = m2.edges[i].1;
        assert(gm_has_node(m, a) && gm_has_node(m, b));
        let w = choose|k: int| 0 <= k < m.nodes.len() && m.nodes[k].name == a;
        assert(m2.nodes[w].name == a);
        let w2 = choose|k: int| 0 <= k < m.nodes.len() && m.nodes[k].name == b;
        assert(m2.nodes[w2].name == b);
    }
}


/// Every element of a filtered sequence is an element of the original.
proof fn lemma_filter_subset<T>(s: Seq<T>, p: spec_fn(T) -> bool)
    ensures
        forall|i: int| 0 <= i < s.filter(p).len() ==> s.contains(#[trigger] s.filter(p)[i]),
    decreases s.len(),
{
    reveal(Seq::filter);
    if s.len() > 0 {
        lemma_filter_subset(s.drop_last(), p);
        assert forall|i: int|
            0 <= i < s.filter(p).len() implies s.contains(#[trigger] s.filter(p)[i]) by {
            if i < s.drop_last().filter(p).len() {
                assert(s.drop_last().contains(s.drop_last().filter(p)[i]));
                let j = choose|j: int|
                    0 <= j < s.drop_last().len() && s.drop_last()[j] == s.drop_last().filter(p)[i];
                assert(s[j] == s.filter(p)[i]);
            } else {
                assert(s.filter(p)[i] == s.last());
                assert(s[s.len() - 1] == s.last());
            }
        }
    }
}

/// Filtering a sequence of pairwise distinct elements keeps them distinct.
proof fn lemma_filter_distinct<T>(s: Seq<T>, p: spec_fn(T) -> bool)
    requires
        forall|i: int, j: int| 0 <= i < j < s.len() ==> #[trigger] s[i] != #[trigger] s[j],
    ensures
        forall|i: int, j: int|
            0 <= i < j < s.filter(p).len() ==> #[trigger] s.filter(p)[i] != #[trigger] s.filter(
                p,
            )[j],
    decreases s.len(),
{
    reveal(Seq::filter);
    if s.len() > 0 {
        lemma_filter_distinct(s.drop_last(), p);
        lemma_filter_subset(s.drop_last(), p);
        assert forall|i: int, j: int|
            0 <= i < j < s.filter(p).len() implies #[trigger] s.filter(p)[i] != #[trigger] s.filter(
            p,
        )[j] by {
            if j == s.filter(p).len() - 1 && p(s.last()) && s.filter(p) == s.drop_last().filter(
                p,
            ).push(s.last()) {
                if i < s.drop_last().filter(p).len() {
                    assert(s.drop_last().contains(s.drop_last().filter(p)[i]));
                    let w = choose|w: int|
                        0 <= w < s.drop_last().len() && s.drop_last()[w] == s.drop_last().filter(
                            p,
                        )[i];
                    assert(s[w] != s[s.len() - 1]);
                }
            }
        }
    }
}

/// Filtering with a name that never occurs changes nothing.
proof fn lemma_filter_all_nodes(s: Seq<NodeModel>, name: Seq<char>)
    requires
        forall|j: int| 0 <= j < s.len() ==> (#[trigger] s[j]).name != name,
    ensures
        s.filter(keep_node(name)) =~= s,
    decreases s.len(),
{
    reveal(Seq::filter);
    if s.len() > 0 {
        lemma_filter_all_nodes(s.drop_last(), name);
    }
}

/// Removing the only node of a name is the same as filtering that name out.
proof fn lemma_filter_unique_remove(s: Seq<NodeModel>, name: Seq<char>, i: int)
    requires
        0 <= i < s.len(),
        s[i].name == name,
        forall|j: int| 0 <= j < s.len() && j != i ==> (#[trigger] s[j]).name != name,
    ensures
        s.filter(keep_node(name)) =~= s.take(i) + s.skip(i + 1),
    decreases s.len(),
{
    reveal(Seq::filter);
    if i == s.len() - 1 {
        lemma_filter_all_nodes(s.drop_last(), name);
        assert(s.drop_last() =~= s.take(i));
        assert(s.take(i) + s.skip(i + 1) =~= s.drop_last());
    } else {
        lemma_filter_unique_remove(s.drop_last(), name, i);
        assert(s.take(i) =~= s.drop_last().take(i));
        assert(s.skip(i + 1) =~= s.drop_last().skip(i + 1).push(s.last()));
        assert(s.take(i) + s.skip(i + 1) =~= (s.drop_last().take(i) + s.drop_last().skip(i + 1)
        ).push(s.last()));
    }
}

/// Distinct node names stay distinct under filtering.
proof fn lemma_filter_distinct_nodes(s: Seq<NodeModel>, name: Seq<char>)
    requires
        forall|i: int, j: int|
            0 <= i < j < s.len() ==> (#[trigger] s[i]).name != (#[trigger] s[j]).name,
    ensures
        forall|i: int, j: int|
            0 <= i < j < s.filter(keep_node(name)).len() ==> (#[trigger] s.filter(
                keep_node(name),
            )[i]).name != (#[trigger] s.filter(keep_node(name))[j]).name,
    decreases s.len(),
{
    reveal(Seq::filter);
    let p = keep_node(name);
    if s.len() > 0 {
        lemma_filter_distinct_nodes(s.drop_last(), name);
        lemma_filter_subset(s.drop_last(), p);
        assert forall|i: int, j: int|
            0 <= i < j < s.filter(p).len() implies (#[trigger] s.filter(p)[i]).name != (
        #[trigger] s.filter(p)[j]).name by {
            if j == s.filter(p).len() - 1 && p(s.last()) && s.filter(p) == s.drop_last().filter(
                p,
            ).push(s.last()) {
                if i < s.drop_last().filter(p).len() {
                    assert(s.drop_last().contains(s.drop_last().filter(p)[i]));
                    let w = choose|w: int|
                        0 <= w < s.drop_last().len() && s.drop_last()[w] == s.drop_last().filter(
                            p,
                        )[i];
                    assert(s[w].name != s[s.len() - 1].name);
                }
            }
        }
    }
}

/// One pruning step preserves well-formedness.
proof fn lemma_remove_once_wf(m: GraphModel, name: Seq<char>)
    requires
        gm_wf(m),
    ensures
        gm_wf(gm_remove_once(m, name)),
{
    let m2 = gm_remove_once(m, name);
    let filtered = m.nodes.filter(keep_node(name));
    lemma_filter_subset(m.nodes, keep_node(name));
    lemma_filter_subset(m.edges, keep_edge(name));
    lemma_filter_distinct_nodes(m.nodes, name);
    lemma_filter_distinct(m.edges, keep_edge(name));
    broadcast use vstd::seq_lib::group_filter_ensures;

    assert forall|i: int, j: int|
        0 <= i < j < m2.nodes.len() implies (#[trigger] m2.nodes[i]).name != (
    #[trigger] m2.nodes[j]).name by {
        assert(m2.nodes[i].name == filtered[i].name);
        assert(m2.nodes[j].name == filtered[j].name);
    }
    assert forall|i: int|
        0 <= i < m2.edges.len() implies gm_has_node(m2, (#[trigger] m2.edges[i]).0) && gm_has_node(
        m2,
        m2.edges[i].1,
    ) by {
        let e = m2.edges[i];
        assert(m.edges.contains(e));
        let w = choose|w: int| 0 <= w < m.edges.len() && m.edges[w] == e;
        assert(gm_has_node(m, e.0) && gm_has_node(m, e.1));
        let n0 = choose|k: int| 0 <= k < m.nodes.len() && m.nodes[k].name == e.0;
        let n1 = choose|k: int| 0 <= k < m.nodes.len() && m.nodes[k].name == e.1;
        assert(keep_node(name)(m.nodes[n0]));
        m.nodes.lemma_filter_contains(keep_node(name), n0);
        let f0 = choose|k: int| 0 <= k < filtered.len() && filtered[k] == m.nodes[n0];
        assert(m2.nodes[f0].name == e.0);
        assert(keep_node(name)(m.nodes[n1]));
        m.nodes.lemma_filter_contains(keep_node(name), n1);
        let f1 = choose|k: int| 0 <= k < filtered.len() && filtered[k] == m.nodes[n1];
        assert(m2.nodes[f1].name == e.1);
    }
}

/// Under well-formedness, the counter that `gm_count` reads is the counter of
/// the node itself.
proof fn lemma_gm_count_unique(m: GraphModel, i: int)
    requires
        gm_wf(m),
        0 <= i < m.nodes.len(),
    ensures
        gm_count(m, m.nodes[i].name) == m.nodes[i].times_used,
{
    lemma_gm_count_at(m, m.nodes[i].name, i);
}

/// After pruning, every remaining node either kept the counter it entered
/// with or still stands at two or more: the cascade never leaves behind a
/// node that it lowered below the threshold.
proof fn lemma_prune_low(m: GraphModel, work: Seq<Seq<char>>)
    requires
        gm_wf(m),
    ensures
        forall|j: int|
            0 <= j < spec_prune(m, work).nodes.len() && (#[trigger] spec_prune(
                m,
                work,
            ).nodes[j]).times_used < 2 ==> !work.contains(spec_prune(m, work).nodes[j].name)
                && exists|i: int|
                0 <= i < m.nodes.len() && (#[trigger] m.nodes[i]).name == spec_prune(
                    m,
                    work,
                ).nodes[j].name && m.nodes[i].times_used == spec_prune(m, work).nodes[j].times_used,
    decreases m.nodes.len(), work.len(),
{
    let r = spec_prune(m, work);
    if work.len() == 0 {
        assert forall|j: int|
            0 <= j < r.nodes.len() && (#[trigger] r.nodes[j]).times_used < 2 implies !work.contains(
            r.nodes[j].name,
        ) && exists|i: int|
            0 <= i < m.nodes.len() && (#[trigger] m.nodes[i]).name == r.nodes[j].name
                && m.nodes[i].times_used == r.nodes[j].times_used by {
            assert(m.nodes[j].name == r.nodes[j].name && m.nodes[j].times_used
                == r.nodes[j].times_used);
        }
    } else {
        let name = work[0];
        let rest = work.drop_first();
        if !gm_has_node(m, name) {
            lemma_prune_low(m, rest);
            assert(r == spec_prune(m, rest));
            assert forall|j: int|
                0 <= j < r.nodes.len() && (#[trigger] r.nodes[j]).times_used < 2 implies
                !work.contains(r.nodes[j].name) && exists|i: int|
                0 <= i < m.nodes.len() && (#[trigger] m.nodes[i]).name == r.nodes[j].name
                    && m.nodes[i].times_used == r.nodes[j].times_used by {
                assert((#[trigger] spec_prune(m, rest).nodes[j]).times_used < 2);
                let i = choose|i: int|
                    0 <= i < m.nodes.len() && (#[trigger] m.nodes[i]).name == r.nodes[j].name
                        && m.nodes[i].times_used == r.nodes[j].times_used;
                assert(r.nodes[j].name != name);
                if work.contains(r.nodes[j].name) {
                    let w = choose|w: int| 0 <= w < work.len() && work[w] == r.nodes[j].name;
                    assert(rest[w - 1] == r.nodes[j].name);
                    assert(rest.contains(r.nodes[j].name));
                }
            }
        } else {
            let succs = gm_succs_from(m.edges, name, Seq::empty());
            let m2 = gm_remove_once(m, name);
            let follow = gm_follow(m2, succs);
            lemma_remove_once_wf(m, name);
            let iw = choose|i: int| 0 <= i < m.nodes.len() && m.nodes[i].name == name;
            lemma_filter_one_out(m.nodes, name, iw);
            lemma_prune_low(m2, follow + rest);
            let filtered = m.nodes.filter(keep_node(name));
            lemma_filter_subset(m.nodes, keep_node(name));
            assert forall|j: int|
                0 <= j < r.nodes.len() && (#[trigger] r.nodes[j]).times_used < 2 implies
                !work.contains(r.nodes[j].name) && exists|i: int|
                0 <= i < m.nodes.len() && (#[trigger] m.nodes[i]).name == r.nodes[j].name
                    && m.nodes[i].times_used == r.nodes[j].times_used by {
                assert(r == spec_prune(m2, follow + rest));
                assert((#[trigger] spec_prune(m2, follow + rest).nodes[j]).times_used < 2);
                let i2 = choose|i: int|
                    0 <= i < m2.nodes.len() && (#[trigger] m2.nodes[i]).name == r.nodes[j].name
                        && m2.nodes[i].times_used == r.nodes[j].times_used;
                assert(!(follow + rest).contains(r.nodes[j].name));
                lemma_add_contains(follow, rest, r.nodes[j].name);
                assert(m2.nodes[i2] == gm_dec_each(filtered, succs)[i2]);
                assert(m.nodes.contains(filtered[i2]));
                let i0 = choose|w: int| 0 <= w < m.nodes.len() && m.nodes[w] == filtered[i2];
                if succs.contains(filtered[i2].name) {
                    // this node was decremented; had it fallen below the
                    // threshold it would stand on the follow-up list, which
                    // the recursion has already excluded
                    assert(m2.nodes[i2].times_used == sat_dec(filtered[i2].times_used));
                    assert(gm_has_node(m2, m2.nodes[i2].name));
                    lemma_gm_count_unique(m2, i2);
                    assert(follow_pred(m2)(m2.nodes[i2].name));
                    let si = choose|k: int| 0 <= k < succs.len() && succs[k] == filtered[i2].name;
                    succs.lemma_filter_contains(follow_pred(m2), si);
                    assert(follow.contains(m2.nodes[i2].name));
                } else {
                    assert(m2.nodes[i2].times_used == filtered[i2].times_used);
                    assert(m.nodes[i0].name == r.nodes[j].name);
                    assert(m.nodes[i0].times_used == r.nodes[j].times_used);
                    if work.contains(r.nodes[j].name) {
                        let w = choose|w: int| 0 <= w < work.len() && work[w] == r.nodes[j].name;
                        if w == 0 {
                            assert(keep_node(name)(filtered[i2]));
                        } else {
                            assert(rest[w - 1] == r.nodes[j].name);
                            assert(rest.contains(r.nodes[j].name));
                        }
                    }
                }
            }
        }
    }
}


} // verus!

