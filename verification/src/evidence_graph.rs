use vstd::prelude::*;
use vstd::string::*;

use crate::error::SdkError;

verus! {

pub struct EvidenceNodeView {
    pub id: u64,
    pub kind: Seq<char>,
    pub label: Seq<char>,
}

/// A node of a session evidence graph.
#[derive(Debug, Clone)]
pub struct EvidenceNode {
    pub id: u64,
    pub kind: String,
    pub label: String,
}

impl View for EvidenceNode {
    type V = EvidenceNodeView;

    open spec fn view(&self) -> EvidenceNodeView {
        EvidenceNodeView { id: self.id, kind: self.kind@, label: self.label@ }
    }
}

impl EvidenceNode {
    /// A copy of the node.
    pub fn clone_node(&self) -> (r: Self)
        ensures
            r@ == self@,
    {
        EvidenceNode { id: self.id, kind: self.kind.clone(), label: self.label.clone() }
    }
}

/// How one piece of evidence bears on another.
#[derive(Debug, Clone, Copy, PartialEq, Eq, Structural)]
pub enum EvidenceEdgeKind {
    Supports,
    Contradicts,
    DerivedFrom,
}

/// A directed edge between two evidence nodes, by id.
#[derive(Debug, Clone, Copy, PartialEq, Eq, Structural)]
pub struct EvidenceEdge {
    pub from: u64,
    pub to: u64,
    pub kind: EvidenceEdgeKind,
}

/// What supports and what contradicts a decision node.
#[derive(Debug, Clone)]
pub struct WhyResult {
    pub decision: EvidenceNode,
    pub supporting: Vec<EvidenceNode>,
    pub contradicting: Vec<EvidenceNode>,
}

pub struct GraphView {
    pub next_id: u64,
    pub nodes: Seq<EvidenceNodeView>,
    pub edges: Seq<EvidenceEdge>,
}

/// A session-scoped evidence graph: nodes get consecutive ids, edges join
/// existing nodes.
#[derive(Debug, Clone)]
pub struct SessionEvidenceGraph {
    next_id: u64,
    nodes: Vec<EvidenceNode>,
    edges: Vec<EvidenceEdge>,
}

pub open spec fn node_views(s: Seq<EvidenceNode>) -> Seq<EvidenceNodeView> {
    s.map_values(|n: EvidenceNode| n@)
}

impl View for SessionEvidenceGraph {
    type V = GraphView;

    closed spec fn view(&self) -> GraphView {
        GraphView { next_id: self.next_id, nodes: node_views(self.nodes@), edges: self.edges@ }
    }
}

/// Whether some node has this id.
pub open spec fn has_node(nodes: Seq<EvidenceNodeView>, id: u64) -> bool {
    exists|i: int| 0 <= i < nodes.len() && #[trigger] nodes[i].id == id
}

/// The first node with this id, if any.
pub open spec fn first_node(nodes: Seq<EvidenceNodeView>, id: u64) -> Option<EvidenceNodeView>
    decreases nodes.len(),
{
    if nodes.len() == 0 {
        None
    } else if nodes[0].id == id {
        Some(nodes[0])
    } else {
        first_node(nodes.drop_first(), id)
    }
}

/// The sources of the edges of `kind` into `decision`, in edge order; an edge
/// whose source is not a node is skipped.
pub open spec fn evidence_for(
    nodes: Seq<EvidenceNodeView>,
    edges: Seq<EvidenceEdge>,
    decision: u64,
    kind: EvidenceEdgeKind,
) -> Seq<EvidenceNodeView>
    decreases edges.len(),
{
    if edges.len() == 0 {
        Seq::empty()
    } else {
        let rest = evidence_for(nodes, edges.drop_last(), decision, kind);
        let e = edges.last();
        if e.to == decision && e.kind == kind && first_node(nodes, e.from) is Some {
            rest.push(first_node(nodes, e.from)->0)
        } else {
            rest
        }
    }
}

/// A graph built by this API: ids below the next id (or the saturated
/// maximum) and edges between present nodes.
pub open spec fn graph_wf(g: GraphView) -> bool {
    &&& forall|i: int|
        0 <= i < g.nodes.len() ==> #[trigger] g.nodes[i].id < g.next_id || g.nodes[i].id
            == u64::MAX
    &&& forall|j: int|
        0 <= j < g.edges.len() ==> has_node(g.nodes, (#[trigger] g.edges[j]).from) && has_node(
            g.nodes,
            g.edges[j].to,
        )
}

/// Ids given in order: the next id is the number of nodes and node `i` has
/// id `i`. Every graph built from an empty one by fewer than `u64::MAX` node
/// additions is so.
pub open spec fn ids_consecutive(g: GraphView) -> bool {
    &&& g.next_id == g.nodes.len()
    &&& forall|i: int| 0 <= i < g.nodes.len() ==> #[trigger] g.nodes[i].id == i
}

/// In a graph with consecutive ids, a node's id is its position, and every
/// edge joins two positions of the node list.
pub proof fn lemma_ids_are_positions(g: GraphView)
    requires
        ids_consecutive(g),
        graph_wf(g),
    ensures
        forall|i: int| 0 <= i < g.nodes.len() ==> #[trigger] g.nodes[i].id == i,
        forall|j: int|
            0 <= j < g.edges.len() ==> (#[trigger] g.edges[j]).from < g.nodes.len() && g.edges[j].to
                < g.nodes.len(),
{
    assert forall|j: int| 0 <= j < g.edges.len() implies (#[trigger] g.edges[j]).from
        < g.nodes.len() && g.edges[j].to < g.nodes.len() by {
        let a = choose|i: int| 0 <= i < g.nodes.len() && #[trigger] g.nodes[i].id == g.edges[j].from;
        let b = choose|i: int| 0 <= i < g.nodes.len() && #[trigger] g.nodes[i].id == g.edges[j].to;
    }
}

/// An edge that bears evidence of `kind` on `decision`: it goes into the
/// decision, has that kind, and starts at a node of the graph.
pub open spec fn bears_on(
    nodes: Seq<EvidenceNodeView>,
    decision: u64,
    kind: EvidenceEdgeKind,
) -> spec_fn(EvidenceEdge) -> bool {
    |e: EvidenceEdge| e.to == decision && e.kind == kind && has_node(nodes, e.from)
}

/// The evidence of a kind for a decision is, in edge order, the source node
/// of each edge of that kind into the decision that starts at a node; edges
/// of any other kind contribute nothing.
pub proof fn lemma_evidence_is_matching_sources(
    nodes: Seq<EvidenceNodeView>,
    edges: Seq<EvidenceEdge>,
    decision: u64,
    kind: EvidenceEdgeKind,
)
    ensures
        evidence_for(nodes, edges, decision, kind) == edges.filter(bears_on(nodes, decision, kind)).map_values(
            |e: EvidenceEdge| first_node(nodes, e.from)->0,
        ),
    decreases edges.len(),
{
    let f = |e: EvidenceEdge| first_node(nodes, e.from)->0;
    let p = bears_on(nodes, decision, kind);
    reveal(Seq::filter);
    if edges.len() == 0 {
        assert(edges.filter(p) =~= Seq::<EvidenceEdge>::empty());
        assert(edges.filter(p).map_values(f) =~= Seq::<EvidenceNodeView>::empty());
    } else {
        lemma_evidence_is_matching_sources(nodes, edges.drop_last(), decision, kind);
        let e = edges.last();
        lemma_first_node(nodes, e.from);
        let sub = edges.drop_last().filter(p);
        if p(e) {
            assert(edges.filter(p) == sub.push(e));
            assert(sub.push(e).map_values(f) =~= sub.map_values(f).push(f(e)));
        } else {
            assert(edges.filter(p) == sub);
        }
    }
}

/// Each piece of evidence of a kind for a decision comes from an edge of that
/// very kind into the decision.
pub proof fn lemma_evidence_has_matching_edge(
    nodes: Seq<EvidenceNodeView>,
    edges: Seq<EvidenceEdge>,
    decision: u64,
    kind: EvidenceEdgeKind,
    k: int,
)
    requires
        0 <= k < evidence_for(nodes, edges, decision, kind).len(),
    ensures
        exists|j: int|
            0 <= j < edges.len() && (#[trigger] edges[j]).to == decision && edges[j].kind == kind
                && first_node(nodes, edges[j].from) == Some(evidence_for(nodes, edges, decision, kind)[k]),
    decreases edges.len(),
{
    let e = edges.last();
    let rest = evidence_for(nodes, edges.drop_last(), decision, kind);
    if k < rest.len() {
        lemma_evidence_has_matching_edge(nodes, edges.drop_last(), decision, kind, k);
        let j = choose|j: int|
            0 <= j < edges.drop_last().len() && (#[trigger] edges.drop_last()[j]).to == decision
                && edges.drop_last()[j].kind == kind && first_node(nodes, edges.drop_last()[j].from)
                == Some(rest[k]);
        assert(edges[j] == edges.drop_last()[j]);
    } else {
        assert(edges[edges.len() - 1] == e);
    }
}

/// Adding an edge of another kind, or into another node, leaves the evidence
/// of a kind for a decision as it was.
pub proof fn lemma_other_edges_add_no_evidence(
    nodes: Seq<EvidenceNodeView>,
    edges: Seq<EvidenceEdge>,
    e: EvidenceEdge,
    decision: u64,
    kind: EvidenceEdgeKind,
)
    requires
        e.kind != kind || e.to != decision,
    ensures
        evidence_for(nodes, edges.push(e), decision, kind) == evidence_for(nodes, edges, decision, kind),
{
    assert(edges.push(e).drop_last() =~= edges);
}

proof fn lemma_first_node(nodes: Seq<EvidenceNodeView>, id: u64)
    ensures
        (first_node(nodes, id) is Some) == has_node(nodes, id),
        first_node(nodes, id) matches Some(n) ==> n.id == id && exists|i: int|
            0 <= i < nodes.len() && nodes[i] == n && forall|k: int|
                0 <= k < i ==> (#[trigger] nodes[k]).id != id,
    decreases nodes.len(),
{
    if nodes.len() > 0 {
        lemma_first_node(nodes.drop_first(), id);
        if nodes[0].id != id {
            if has_node(nodes, id) {
                let i = choose|i: int| 0 <= i < nodes.len() && #[trigger] nodes[i].id == id;
                assert(nodes.drop_first()[i - 1].id == id);
            }
            if has_node(nodes.drop_first(), id) {
                let i = choose|i: int|
                    0 <= i < nodes.drop_first().len() && #[trigger] nodes.drop_first()[i].id == id;
                assert(nodes[i + 1].id == id);
            }
            if let Some(n) = first_node(nodes, id) {
                let i = choose|i: int|
                    0 <= i < nodes.drop_first().len() && nodes.drop_first()[i] == n && forall|k: int|
                        0 <= k < i ==> (#[trigger] nodes.drop_first()[k]).id != id;
                assert(nodes[i + 1] == n);
                assert forall|k: int| 0 <= k < i + 1 implies (#[trigger] nodes[k]).id != id by {
                    if k > 0 {
                        assert(nodes[k] == nodes.drop_first()[k - 1]);
                    }
                }
            }
        } else {
            assert(nodes[0].id == id);
        }
    }
}

/// The index of the first node with this id.
fn find_node(nodes: &Vec<EvidenceNode>, id: u64) -> (r: Option<usize>)
    ensures
        match r {
            Some(i) => i < nodes@.len() && first_node(node_views(nodes@), id) == Some(
                nodes@[i as int]@,
            ),
            None => first_node(node_views(nodes@), id) is None,
        },
{
    let ghost v = node_views(nodes@);
    let mut i: usize = 0;
    proof {
        assert(v.skip(0) =~= v);
    }
    while i < nodes.len()
        invariant
            i <= nodes@.len(),
            v == node_views(nodes@),
            first_node(v, id) == first_node(v.skip(i as int), id),
        decreases nodes.len() - i,
    {
        if nodes[i].id == id {
            proof {
                assert(v.skip(i as int)[0] == nodes@[i as int]@);
            }
            return Some(i);
        }
        proof {
            assert(v.skip(i as int).drop_first() =~= v.skip(i + 1));
        }
        i += 1;
    }
    proof {
        assert(v.skip(i as int).len() == 0);
    }
    None
}

impl SessionEvidenceGraph {
    /// An empty graph whose first node will get id 0.
    pub fn new() -> (r: Self)
        ensures
            r@.next_id == 0,
            r@.nodes.len() == 0,
            r@.edges.len() == 0,
            graph_wf(r@),
            ids_consecutive(r@),
    {
        let r = SessionEvidenceGraph { next_id: 0, nodes: Vec::new(), edges: Vec::new() };
        proof {
            assert(node_views(r.nodes@) =~= Seq::<EvidenceNodeView>::empty());
        }
        r
    }

    /// A graph from its stored parts, as read back from a serialized form.
    pub fn from_parts(next_id: u64, nodes: Vec<EvidenceNode>, edges: Vec<EvidenceEdge>) -> (r: Self)
        ensures
            r@ == (GraphView { next_id, nodes: node_views(nodes@), edges: edges@ }),
    {
        SessionEvidenceGraph { next_id, nodes, edges }
    }

    /// Adds a node and returns its id: the next id, which then advances
    /// (saturating at `u64::MAX`).
    pub fn add_node(&mut self, kind: String, label: String) -> (r: u64)
        ensures
            r == old(self)@.next_id,
            final(self)@.next_id == if old(self)@.next_id < u64::MAX {
                (old(self)@.next_id + 1) as u64
            } else {
                u64::MAX
            },
            final(self)@.nodes == old(self)@.nodes.push(
                EvidenceNodeView { id: r, kind: kind@, label: label@ },
            ),
            final(self)@.edges == old(self)@.edges,
            graph_wf(old(self)@) ==> graph_wf(final(self)@),
            graph_wf(old(self)@) && old(self)@.next_id < u64::MAX ==> !has_node(old(self)@.nodes, r),
            ids_consecutive(old(self)@) && old(self)@.next_id < u64::MAX ==> ids_consecutive(
                final(self)@,
            ) && r == old(self)@.nodes.len(),
    {
        let id = self.next_id;
        self.next_id = self.next_id.saturating_add(1);
        let ghost before = self.nodes@;
        let node = EvidenceNode { id, kind, label };
        self.nodes.push(node);
        proof {
            assert(node_views(self.nodes@) =~= node_views(before).push(node@));
            let g = self@;
            let og = old(self)@;
            if graph_wf(og) {
                assert forall|i: int| 0 <= i < g.nodes.len() implies #[trigger] g.nodes[i].id < g.next_id
                    || g.nodes[i].id == u64::MAX by {
                    if i < og.nodes.len() {
                        assert(g.nodes[i] == og.nodes[i]);
                    }
                }
                assert forall|j: int| 0 <= j < g.edges.len() implies has_node(
                    g.nodes,
                    (#[trigger] g.edges[j]).from,
                ) && has_node(g.nodes, g.edges[j].to) by {
                    let a = choose|i: int| 0 <= i < og.nodes.len() && #[trigger] og.nodes[i].id == g.edges[j].from;
                    assert(g.nodes[a] == og.nodes[a]);
                    let b = choose|i: int| 0 <= i < og.nodes.len() && #[trigger] og.nodes[i].id == g.edges[j].to;
                    assert(g.nodes[b] == og.nodes[b]);
                }
            }
        }
        id
    }

    /// Adds an edge between two nodes of the graph.
    pub fn add_edge(&mut self, from: u64, to: u64, kind: EvidenceEdgeKind) -> (r: Result<(), SdkError>)
        ensures
            r is Ok <==> has_node(old(self)@.nodes, from) && has_node(old(self)@.nodes, to),
            r matches Err(e) ==> (e matches SdkError::InvalidArgument(m) && m@
                == "evidence edge references an unknown node"@),
            r is Ok ==> final(self)@.edges == old(self)@.edges.push(EvidenceEdge { from, to, kind }),
            r is Err ==> final(self)@.edges == old(self)@.edges,
            final(self)@.nodes == old(self)@.nodes,
            final(self)@.next_id == old(self)@.next_id,
            graph_wf(old(self)@) ==> graph_wf(final(self)@),
            ids_consecutive(old(self)@) ==> ids_consecutive(final(self)@),
    {
        let a = find_node(&self.nodes, from);
        let b = find_node(&self.nodes, to);
        proof {
            lemma_first_node(node_views(self.nodes@), from);
            lemma_first_node(node_views(self.nodes@), to);
        }
        if a.is_none() || b.is_none() {
            return Err(
                SdkError::InvalidArgument(String::from_str("evidence edge references an unknown node")),
            );
        }
        self.edges.push(EvidenceEdge { from, to, kind });
        Ok(())
    }

    /// The decision node, with the sources of the edges into it that
    /// support it and that contradict it, in edge order.
    pub fn why(&self, decision_id: u64) -> (r: Result<WhyResult, SdkError>)
        ensures
            r is Ok <==> has_node(self@.nodes, decision_id),
            r matches Err(e) ==> (e matches SdkError::InvalidArgument(m) && m@
                == "decision node not found"@),
            r matches Ok(w) ==> Some(w.decision@) == first_node(self@.nodes, decision_id)
                && node_views(w.supporting@) == evidence_for(
                self@.nodes,
                self@.edges,
                decision_id,
                EvidenceEdgeKind::Supports,
            ) && node_views(w.contradicting@) == evidence_for(
                self@.nodes,
                self@.edges,
                decision_id,
                EvidenceEdgeKind::Contradicts,
            ),
    {
        let ghost nv = node_views(self.nodes@);
        proof {
            lemma_first_node(nv, decision_id);
        }
        let decision = match find_node(&self.nodes, decision_id) {
            Some(i) => self.nodes[i].clone_node(),
            None => {
                return Err(SdkError::InvalidArgument(String::from_str("decision node not found")));
            },
        };
        let mut supporting: Vec<EvidenceNode> = Vec::new();
        let mut contradicting: Vec<EvidenceNode> = Vec::new();
        let mut j: usize = 0;
        proof {
            assert(node_views(supporting@) =~= Seq::<EvidenceNodeView>::empty());
            assert(node_views(contradicting@) =~= Seq::<EvidenceNodeView>::empty());
            assert(self.edges@.take(0) =~= Seq::<EvidenceEdge>::empty());
        }
        while j < self.edges.len()
            invariant
                j <= self.edges@.len(),
                nv == node_views(self.nodes@),
                node_views(supporting@) == evidence_for(
                    nv,
                    self.edges@.take(j as int),
                    decision_id,
                    EvidenceEdgeKind::Supports,
                ),
                node_views(contradicting@) == evidence_for(
                    nv,
                    self.edges@.take(j as int),
                    decision_id,
                    EvidenceEdgeKind::Contradicts,
                ),
            decreases self.edges.len() - j,
        {
            let edge = self.edges[j];
            let ghost s0 = supporting@;
            let ghost c0 = contradicting@;
            proof {
                assert(self.edges@.take(j + 1).drop_last() =~= self.edges@.take(j as int));
                assert(self.edges@.take(j + 1).last() == edge);
            }
            if edge.to == decision_id {
                match find_node(&self.nodes, edge.from) {
                    Some(i) => {
                        let node = self.nodes[i].clone_node();
                        match edge.kind {
                            EvidenceEdgeKind::Supports => {
                                supporting.push(node);
                                proof {
                                    assert(node_views(supporting@) =~= node_views(s0).push(node@));
                                }
                            },
                            EvidenceEdgeKind::Contradicts => {
                                contradicting.push(node);
                                proof {
                                    assert(node_views(contradicting@) =~= node_views(c0).push(node@));
                                }
                            },
                            EvidenceEdgeKind::DerivedFrom => {},
                        }
                    },
                    None => {},
                }
            }
            j += 1;
        }
        proof {
            assert(self.edges@.take(j as int) =~= self.edges@);
        }
        Ok(WhyResult { decision, supporting, contradicting })
    }

    /// Removes every node and edge; ids start again at 0.
    pub fn clear(&mut self)
        ensures
            final(self)@.next_id == 0,
            final(self)@.nodes.len() == 0,
            final(self)@.edges.len() == 0,
            graph_wf(final(self)@),
            ids_consecutive(final(self)@),
    {
        self.nodes.clear();
        self.edges.clear();
        self.next_id = 0;
        proof {
            assert(node_views(self.nodes@) =~= Seq::<EvidenceNodeView>::empty());
        }
    }

    pub fn next_id(&self) -> (r: u64)
        ensures
            r == self@.next_id,
    {
        self.next_id
    }

    pub fn nodes(&self) -> (r: &[EvidenceNode])
        ensures
            node_views(r@) == self@.nodes,
    {
        self.nodes.as_slice()
    }

    pub fn edges(&self) -> (r: &[EvidenceEdge])
        ensures
            r@ == self@.edges,
    {
        self.edges.as_slice()
    }
}

impl Default for SessionEvidenceGraph {
    fn default() -> (r: Self)
        ensures
            r@.next_id == 0,
            r@.nodes.len() == 0,
            r@.edges.len() == 0,
            graph_wf(r@),
            ids_consecutive(r@),
    {
        SessionEvidenceGraph::new()
    }
}

} // verus!
