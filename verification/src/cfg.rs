//! The control-flow graph: semantic nodes joined by labelled directed edges.
//!
//! Nodes live in a growable arena; indices stay stable for the life of the
//! graph. Removing a node marks it and drops its incident edges, so the
//! indices held by paths and by the builder's cursor keep their meaning.

use vstd::prelude::*;
use vstd::pervasive::VecAdditionalExecFns;

use crate::ast::{CondKind, Expr, ExprV};
use crate::cleanup::{clean_up_formatting, cleaned_text};

verus! {

/// The label an edge carries: nothing, a branch direction, or the jump from
/// the end of a loop body back to its cut node.
#[derive(Clone, Copy, PartialEq, Eq, Structural, Debug)]
pub enum EdgeLabel {
    Unlabeled,
    True,
    False,
    BackToLoop,
}

/// A semantic block of the control-flow graph. Annotation nodes keep both
/// the text of their formula and, when the text lies inside the supported
/// grammar, its parsed form.
#[derive(PartialEq, Eq, Debug)]
pub enum CfgNode {
    Function(Vec<u8>),
    Precondition(Vec<u8>, Option<Expr>),
    Postcondition(Vec<u8>, Option<Expr>),
    Invariant(Vec<u8>, Option<Expr>),
    Statement(Vec<u8>),
    Cutoff(Vec<u8>),
    Condition(Vec<u8>, CondKind, Expr),
    Return(Vec<u8>),
    MergePoint,
}

/// The mathematical form of a `CfgNode`.
pub enum NodeV {
    Function(Seq<u8>),
    Precondition(Seq<u8>, Option<ExprV>),
    Postcondition(Seq<u8>, Option<ExprV>),
    Invariant(Seq<u8>, Option<ExprV>),
    Statement(Seq<u8>),
    Cutoff(Seq<u8>),
    Condition(Seq<u8>, CondKind, ExprV),
    Return(Seq<u8>),
    MergePoint,
}

pub open spec fn view_node(n: CfgNode) -> NodeV {
    match n {
        CfgNode::Function(name) => NodeV::Function(name@),
        CfgNode::Precondition(text, e) => NodeV::Precondition(
            text@,
            match e {
                Some(x) => Some(x@),
                None => None,
            },
        ),
        CfgNode::Postcondition(text, e) => NodeV::Postcondition(
            text@,
            match e {
                Some(x) => Some(x@),
                None => None,
            },
        ),
        CfgNode::Invariant(text, e) => NodeV::Invariant(
            text@,
            match e {
                Some(x) => Some(x@),
                None => None,
            },
        ),
        CfgNode::Statement(text) => NodeV::Statement(text@),
        CfgNode::Cutoff(text) => NodeV::Cutoff(text@),
        CfgNode::Condition(text, k, e) => NodeV::Condition(text@, k, e@),
        CfgNode::Return(text) => NodeV::Return(text@),
        CfgNode::MergePoint => NodeV::MergePoint,
    }
}

impl View for CfgNode {
    type V = NodeV;

    open spec fn view(&self) -> NodeV {
        view_node(*self)
    }
}

impl CfgNode {
    /// A deep copy.
    pub fn duplicate(&self) -> (res: CfgNode)
        ensures
            res@ == self@,
    {
        match self {
            CfgNode::Function(name) => CfgNode::Function(name.clone()),
            CfgNode::Precondition(text, e) => CfgNode::Precondition(
                text.clone(),
                match e {
                    Some(x) => Some(x.duplicate()),
                    None => None,
                },
            ),
            CfgNode::Postcondition(text, e) => CfgNode::Postcondition(
                text.clone(),
                match e {
                    Some(x) => Some(x.duplicate()),
                    None => None,
                },
            ),
            CfgNode::Invariant(text, e) => CfgNode::Invariant(
                text.clone(),
                match e {
                    Some(x) => Some(x.duplicate()),
                    None => None,
                },
            ),
            CfgNode::Statement(text) => CfgNode::Statement(text.clone()),
            CfgNode::Cutoff(text) => CfgNode::Cutoff(text.clone()),
            CfgNode::Condition(text, k, e) => CfgNode::Condition(text.clone(), *k, e.duplicate()),
            CfgNode::Return(text) => CfgNode::Return(text.clone()),
            CfgNode::MergePoint => CfgNode::MergePoint,
        }
    }

    pub fn new_function(func_name: Vec<u8>) -> (n: CfgNode)
        ensures
            n@ == NodeV::Function(func_name@),
    {
        CfgNode::Function(func_name)
    }

    pub fn new_precondition(pre: Vec<u8>, expr: Option<Expr>) -> (n: CfgNode)
        ensures
            n@ == view_node(CfgNode::Precondition(pre, expr)),
    {
        CfgNode::Precondition(pre, expr)
    }

    pub fn new_postcondition(post: Vec<u8>, expr: Option<Expr>) -> (n: CfgNode)
        ensures
            n@ == view_node(CfgNode::Postcondition(post, expr)),
    {
        CfgNode::Postcondition(post, expr)
    }

    pub fn new_invariant(inv: Vec<u8>, expr: Option<Expr>) -> (n: CfgNode)
        ensures
            n@ == view_node(CfgNode::Invariant(inv, expr)),
    {
        CfgNode::Invariant(inv, expr)
    }

    pub fn new_statement(stmt_text: Vec<u8>) -> (n: CfgNode)
        ensures
            n@ == NodeV::Statement(stmt_text@),
    {
        CfgNode::Statement(stmt_text)
    }

    pub fn new_cutoff(inv: Vec<u8>) -> (n: CfgNode)
        ensures
            n@ == NodeV::Cutoff(inv@),
    {
        CfgNode::Cutoff(inv)
    }

    pub fn new_condition(cond: Vec<u8>, kind: CondKind, expr: Expr) -> (n: CfgNode)
        ensures
            n@ == NodeV::Condition(cond@, kind, expr@),
    {
        CfgNode::Condition(cond, kind, expr)
    }

    pub fn new_return(ret: Vec<u8>) -> (n: CfgNode)
        ensures
            n@ == NodeV::Return(ret@),
    {
        CfgNode::Return(ret)
    }
}

impl Clone for CfgNode {
    fn clone(&self) -> (res: CfgNode)
        ensures
            res@ == self@,
    {
        self.duplicate()
    }
}

/// A cut node starts and ends basic paths: a precondition, postcondition,
/// invariant or synthetic cutoff.
pub open spec fn is_cut(n: NodeV) -> bool {
    n is Precondition || n is Postcondition || n is Invariant || n is Cutoff
}

pub open spec fn is_merge(n: NodeV) -> bool {
    n is MergePoint
}

pub open spec fn is_condition(n: NodeV) -> bool {
    n is Condition
}

/// A directed edge between node indices, with its label.
#[derive(Clone, Copy, PartialEq, Eq, Structural, Debug)]
pub struct Edge {
    pub src: usize,
    pub dst: usize,
    pub label: EdgeLabel,
}

/// The control-flow graph. `removed[i]` marks a node that post-processing
/// has deleted; its index remains valid but no edge touches it.
pub struct Cfg {
    pub nodes: Vec<CfgNode>,
    pub removed: Vec<bool>,
    pub edges: Vec<Edge>,
}

impl Cfg {
    /// The number of node slots, removed ones included.
    pub open spec fn n(self) -> int {
        self.nodes@.len() as int
    }

    /// The mathematical form of the node at `i`.
    pub open spec fn node_at(self, i: int) -> NodeV {
        view_node(self.nodes@[i])
    }

    /// Whether `i` is a live node index.
    pub open spec fn alive(self, i: int) -> bool {
        0 <= i < self.n() && !self.removed@[i]
    }

    /// Well-formedness: the marker list matches the arena and every edge
    /// joins live nodes.
    pub open spec fn wf(self) -> bool {
        &&& self.removed@.len() == self.nodes@.len()
        &&& forall|k: int|
            0 <= k < self.edges@.len() ==> edge_ok(self, #[trigger] self.edges@[k])
    }

    /// Whether the graph holds an edge from `i` carrying label `l`.
    pub open spec fn has_edge_from(self, i: int, l: EdgeLabel) -> bool {
        has_label_in(out_edges_spec(self.edges@, i), l)
    }

    /// The outgoing edges of node `i`, in insertion order.
    pub open spec fn out_edges(self, i: int) -> Seq<Edge> {
        out_edges_spec(self.edges@, i)
    }

    /// The out-degree of node `i`.
    pub open spec fn out_deg(self, i: int) -> nat {
        out_edges_spec(self.edges@, i).len()
    }

    /// An empty graph.
    pub fn new() -> (g: Cfg)
        ensures
            g.wf(),
            g.n() == 0,
            g.edges@.len() == 0,
    {
        Cfg { nodes: Vec::new(), removed: Vec::new(), edges: Vec::new() }
    }

    /// Adds a node to the arena and returns its index.
    pub fn add_node(&mut self, node: CfgNode) -> (idx: usize)
        requires
            old(self).wf(),
        ensures
            final(self).wf(),
            idx == old(self).n(),
            final(self).n() == old(self).n() + 1,
            final(self).nodes@ == old(self).nodes@.push(node),
            final(self).removed@ == old(self).removed@.push(false),
            final(self).edges@ == old(self).edges@,
            final(self).node_at(idx as int) == node@,
            final(self).alive(idx as int),
            forall|i: int|
                0 <= i < old(self).n() ==> final(self).node_at(i) == old(self).node_at(i),
            forall|i: int|
                0 <= i < old(self).n() ==> (final(self).alive(i) <==> old(self).alive(i)),
    {
        let idx = self.nodes.len();
        self.nodes.push(node);
        self.removed.push(false);
        proof {
            assert forall|k: int| 0 <= k < self.edges@.len() implies edge_ok(
                *self,
                #[trigger] self.edges@[k],
            ) by {
                assert(edge_ok(*old(self), self.edges@[k]));
            }
        }
        idx
    }

    /// Draws an edge between two live nodes.
    pub fn add_edge(&mut self, src: usize, dst: usize, label: EdgeLabel)
        requires
            old(self).wf(),
            old(self).alive(src as int),
            old(self).alive(dst as int),
        ensures
            final(self).wf(),
            final(self).nodes@ == old(self).nodes@,
            final(self).removed@ == old(self).removed@,
            final(self).edges@ == old(self).edges@.push(Edge { src, dst, label }),
    {
        self.edges.push(Edge { src, dst, label });
        proof {
            assert forall|k: int| 0 <= k < self.edges@.len() implies edge_ok(
                *self,
                #[trigger] self.edges@[k],
            ) by {
                if k < self.edges@.len() - 1 {
                    assert(edge_ok(*old(self), self.edges@[k]));
                }
            }
        }
    }

    /// Reads the node at `i`.
    pub fn node(&self, i: usize) -> (n: &CfgNode)
        requires
            0 <= i < self.n(),
        ensures
            n@ == self.node_at(i as int),
    {
        &self.nodes[i]
    }

    /// Whether node `i` is a merge point.
    pub fn node_is_merge(&self, i: usize) -> (r: bool)
        requires
            0 <= i < self.n(),
        ensures
            r == is_merge(self.node_at(i as int)),
    {
        match self.node(i) {
            CfgNode::MergePoint => true,
            _ => false,
        }
    }

    /// Normalises the labels of all condition and statement nodes.
    pub fn clean_labels(&mut self)
        requires
            old(self).wf(),
        ensures
            final(self).wf(),
            final(self).n() == old(self).n(),
            final(self).removed@ == old(self).removed@,
            final(self).edges@ == old(self).edges@,
            forall|i: int|
                0 <= i < old(self).n() ==> final(self).node_at(i) == clean_node(
                    old(self).node_at(i),
                ),
    {
        let ghost g0 = *self;
        let mut i: usize = 0;
        while i < self.nodes.len()
            invariant
                self.nodes@.len() == g0.nodes@.len(),
                self.removed@ == g0.removed@,
                self.edges@ == g0.edges@,
                g0.wf(),
                0 <= i <= self.n(),
                forall|j: int| 0 <= j < i ==> self.node_at(j) == clean_node(g0.node_at(j)),
                forall|j: int| i <= j < self.n() ==> self.node_at(j) == g0.node_at(j),
            decreases self.n() - i,
        {
            let replacement: Option<CfgNode> = match &self.nodes[i] {
                CfgNode::Condition(t, k, e) => Some(
                    CfgNode::Condition(clean_up_formatting(t.as_slice()), *k, e.duplicate()),
                ),
                CfgNode::Statement(t) => Some(
                    CfgNode::Statement(clean_up_formatting(t.as_slice())),
                ),
                _ => None,
            };
            match replacement {
                Some(nn) => {
                    self.nodes.set(i, nn);
                },
                None => {},
            }
            i += 1;
        }
        proof {
            assert forall|k: int| 0 <= k < self.edges@.len() implies edge_ok(
                *self,
                #[trigger] self.edges@[k],
            ) by {
                assert(edge_ok(g0, self.edges@[k]));
            }
        }
    }

    /// Whether node `i` has been removed.
    pub fn is_removed(&self, i: usize) -> (r: bool)
        requires
            0 <= i < self.n(),
            self.removed@.len() == self.nodes@.len(),
        ensures
            r == !self.alive(i as int),
    {
        self.removed[i]
    }

    /// Collects the outgoing edges of node `m`, in insertion order.
    pub fn collect_out_edges(&self, m: usize) -> (r: Vec<Edge>)
        ensures
            r@ == self.out_edges(m as int),
    {
        let mut r: Vec<Edge> = Vec::new();
        let mut k: usize = 0;
        proof {
            reveal(Seq::filter);
            assert(self.edges@.take(0) =~= Seq::<Edge>::empty());
        }
        while k < self.edges.len()
            invariant
                0 <= k <= self.edges@.len(),
                r@ == out_edges_spec(self.edges@.take(k as int), m as int),
            decreases self.edges@.len() - k,
        {
            let e = self.edges[k];
            proof {
                reveal(Seq::filter);
                assert(self.edges@.take(k as int + 1).drop_last() =~= self.edges@.take(k as int));
                assert(self.edges@.take(k as int + 1).last() == self.edges@[k as int]);
            }
            if e.src == m {
                r.push(e);
            }
            k += 1;
        }
        proof {
            assert(self.edges@.take(self.edges@.len() as int) =~= self.edges@);
        }
        r
    }
}

/// Whether one edge is well formed for the graph `g`.
pub open spec fn edge_ok(g: Cfg, e: Edge) -> bool {
    &&& g.alive(e.src as int)
    &&& g.alive(e.dst as int)
}

/// The edges leaving node `i`.
pub open spec fn out_edges_spec(edges: Seq<Edge>, i: int) -> Seq<Edge> {
    edges.filter(|e: Edge| e.src as int == i)
}

/// The edge list after node `s` is spliced out in favour of `t`: edges
/// leaving `s` disappear, edges into `s` are redirected to `t`, everything
/// else is kept, in order.
pub open spec fn splice_edges(edges: Seq<Edge>, s: int, t: usize) -> Seq<Edge>
    decreases edges,
{
    if edges.len() == 0 {
        Seq::empty()
    } else {
        let rest = splice_edges(edges.drop_last(), s, t);
        let e = edges.last();
        if e.src as int == s {
            rest
        } else if e.dst as int == s {
            rest.push(Edge { src: e.src, dst: t, label: e.label })
        } else {
            rest.push(e)
        }
    }
}

/// One edge after the retargeting that splicing applies to the edges of
/// surviving nodes.
pub open spec fn retarget_edge(e: Edge, s: int, t: usize) -> Edge {
    if e.dst as int == s {
        Edge { src: e.src, dst: t, label: e.label }
    } else {
        e
    }
}

/// A whole edge sequence, retargeted.
pub open spec fn retarget(es: Seq<Edge>, s: int, t: usize) -> Seq<Edge> {
    es.map_values(|e: Edge| retarget_edge(e, s, t))
}

/// For any node other than the spliced-out one, splicing retargets its
/// outgoing edges and changes nothing else about them.
proof fn lemma_splice_preserves_out(edges: Seq<Edge>, s: int, t: usize, j: int)
    requires
        j != s,
    ensures
        out_edges_spec(splice_edges(edges, s, t), j) == retarget(out_edges_spec(edges, j), s, t),
    decreases edges,
{
    reveal(Seq::filter);
    if edges.len() == 0 {
        assert(out_edges_spec(splice_edges(edges, s, t), j) =~= retarget(
            out_edges_spec(edges, j),
            s,
            t,
        ));
    } else {
        lemma_splice_preserves_out(edges.drop_last(), s, t, j);
        let e = edges.last();
        let spliced = splice_edges(edges, s, t);
        let prev = splice_edges(edges.drop_last(), s, t);
        if e.src as int == s {
            assert(out_edges_spec(edges, j) =~= out_edges_spec(edges.drop_last(), j));
        } else {
            let e2 = retarget_edge(e, s, t);
            assert(spliced == prev.push(e2));
            assert(spliced.drop_last() =~= prev);
            if e.src as int == j {
                assert(out_edges_spec(edges, j) =~= out_edges_spec(edges.drop_last(), j).push(e));
                assert(out_edges_spec(spliced, j) =~= out_edges_spec(prev, j).push(e2));
                assert(retarget(out_edges_spec(edges, j), s, t) =~= retarget(
                    out_edges_spec(edges.drop_last(), j),
                    s,
                    t,
                ).push(e2));
            } else {
                assert(out_edges_spec(edges, j) =~= out_edges_spec(edges.drop_last(), j));
                assert(out_edges_spec(spliced, j) =~= out_edges_spec(prev, j));
            }
        }
    }
}

/// Retargeting keeps the length, sources and labels of an edge sequence.
proof fn lemma_retarget_props(es: Seq<Edge>, s: int, t: usize)
    ensures
        retarget(es, s, t).len() == es.len(),
        forall|k: int|
            0 <= k < es.len() ==> (#[trigger] retarget(es, s, t)[k]).src == es[k].src && retarget(
                es,
                s,
                t,
            )[k].label == es[k].label && retarget(es, s, t)[k].dst == (if es[k].dst as int == s {
                t
            } else {
                es[k].dst
            }),
{
}

/// Whether some edge of the sequence carries label `l`.
pub open spec fn has_label_in(edges: Seq<Edge>, l: EdgeLabel) -> bool {
    exists|k: int| 0 <= k < edges.len() && (#[trigger] edges[k]).label == l
}


} // verus!

verus! {

/// Every outgoing edge of a node is one of the graph's edges.
proof fn lemma_out_edges_membership(edges: Seq<Edge>, i: int, k: int)
    requires
        0 <= k < out_edges_spec(edges, i).len(),
    ensures
        exists|j: int| 0 <= j < edges.len() && edges[j] == out_edges_spec(edges, i)[k],
    decreases edges,
{
    reveal(Seq::filter);
    if edges.len() > 0 {
        let e = edges.last();
        let prev = out_edges_spec(edges.drop_last(), i);
        if e.src as int == i && k == out_edges_spec(edges, i).len() - 1 {
            assert(edges[edges.len() - 1] == out_edges_spec(edges, i)[k]);
        } else {
            lemma_out_edges_membership(edges.drop_last(), i, k);
            let j = choose|j: int|
                0 <= j < edges.drop_last().len() && edges.drop_last()[j] == prev[k];
            assert(edges[j] == out_edges_spec(edges, i)[k]);
        }
    }
}

/// The spliced edge list is well formed for the graph in which `s` has been
/// removed.
proof fn lemma_splice_edges_ok(g0: Cfg, g1: Cfg, edges: Seq<Edge>, s: int, t: usize)
    requires
        forall|k: int| 0 <= k < edges.len() ==> edge_ok(g0, #[trigger] edges[k]),
        g1.nodes@ == g0.nodes@,
        g1.removed@ == g0.removed@.update(s, true),
        g0.removed@.len() == g0.nodes@.len(),
        0 <= s < g0.n(),
        g0.alive(t as int),
        t as int != s,
    ensures
        forall|k: int|
            0 <= k < splice_edges(edges, s, t).len() ==> edge_ok(
                g1,
                #[trigger] splice_edges(edges, s, t)[k],
            ),
    decreases edges,
{
    if edges.len() > 0 {
        lemma_splice_edges_ok(g0, g1, edges.drop_last(), s, t);
        let e = edges.last();
        assert(edge_ok(g0, e));
        let spliced = splice_edges(edges, s, t);
        let prev = splice_edges(edges.drop_last(), s, t);
        if e.src as int == s {
        } else if e.dst as int == s {
            let e2 = Edge { src: e.src, dst: t, label: e.label };
            assert(edge_ok(g1, e2));
            assert forall|k: int| 0 <= k < spliced.len() implies edge_ok(
                g1,
                #[trigger] spliced[k],
            ) by {
                if k < spliced.len() - 1 {
                    assert(spliced[k] == prev[k]);
                }
            }
        } else {
            assert(edge_ok(g1, e));
            assert forall|k: int| 0 <= k < spliced.len() implies edge_ok(
                g1,
                #[trigger] spliced[k],
            ) by {
                if k < spliced.len() - 1 {
                    assert(spliced[k] == prev[k]);
                }
            }
        }
    }
}

impl Cfg {
    /// Redirects the incoming edges of `source` to `target`, drops the edges
    /// leaving `source`, and removes `source`. Every other node keeps its
    /// out-degree and its outgoing labels.
    pub fn redirect_edges_and_remove(&mut self, source: usize, target: usize)
        requires
            old(self).wf(),
            old(self).alive(source as int),
            old(self).alive(target as int),
            source != target,
        ensures
            final(self).wf(),
            final(self).nodes@ == old(self).nodes@,
            final(self).removed@ == old(self).removed@.update(source as int, true),
            final(self).edges@ == splice_edges(old(self).edges@, source as int, target),
            !final(self).alive(source as int),
            forall|j: int|
                0 <= j < old(self).n() && j != source ==> (final(self).alive(j) <==> old(
                    self,
                ).alive(j)),
            forall|j: int|
                j != source ==> final(self).out_edges(j) == retarget(
                    old(self).out_edges(j),
                    source as int,
                    target,
                ),
            forall|j: int|
                j != source ==> final(self).out_deg(j) == old(self).out_deg(j),
            forall|j: int, l: EdgeLabel|
                j != source ==> (final(self).has_edge_from(j, l) <==> old(self).has_edge_from(
                    j,
                    l,
                )),
    {
        let ghost g0 = *self;
        let mut new_edges: Vec<Edge> = Vec::new();
        let mut k: usize = 0;
        proof {
            assert(self.edges@.take(0) =~= Seq::<Edge>::empty());
        }
        while k < self.edges.len()
            invariant
                0 <= k <= self.edges@.len(),
                new_edges@ == splice_edges(self.edges@.take(k as int), source as int, target),
            decreases self.edges@.len() - k,
        {
            let e = self.edges[k];
            proof {
                assert(self.edges@.take(k as int + 1).drop_last() =~= self.edges@.take(k as int));
                assert(self.edges@.take(k as int + 1).last() == self.edges@[k as int]);
            }
            if e.src == source {
                // dropped with the node
            } else if e.dst == source {
                new_edges.push(Edge { src: e.src, dst: target, label: e.label });
            } else {
                new_edges.push(e);
            }
            k += 1;
        }
        proof {
            assert(self.edges@.take(self.edges@.len() as int) =~= self.edges@);
        }
        self.edges = new_edges;
        self.removed.set(source, true);
        proof {
            lemma_splice_edges_ok(g0, *self, g0.edges@, source as int, target);
            assert forall|j: int| j != source implies #[trigger] self.out_edges(j) == retarget(
                g0.out_edges(j),
                source as int,
                target,
            ) by {
                lemma_splice_preserves_out(g0.edges@, source as int, target, j);
            }
            assert forall|j: int| j != source implies #[trigger] self.out_deg(j) == g0.out_deg(
                j,
            ) by {
                lemma_splice_preserves_out(g0.edges@, source as int, target, j);
                lemma_retarget_props(g0.out_edges(j), source as int, target);
            }
            assert forall|j: int, l: EdgeLabel| j != source implies (
            #[trigger] self.has_edge_from(j, l) <==> g0.has_edge_from(j, l)) by {
                lemma_splice_preserves_out(g0.edges@, source as int, target, j);
                lemma_retarget_props(g0.out_edges(j), source as int, target);
                let a = g0.out_edges(j);
                let b = self.out_edges(j);
                if has_label_in(a, l) {
                    let k = choose|k: int| 0 <= k < a.len() && (#[trigger] a[k]).label == l;
                    assert(b[k].label == l);
                }
                if has_label_in(b, l) {
                    let k = choose|k: int| 0 <= k < b.len() && (#[trigger] b[k]).label == l;
                    assert(a[k].label == l);
                }
            }
        }
    }

    /// Iterates over the merge points to a fixed point: a merge point with a
    /// single outgoing edge is fused into a following merge point, or spliced
    /// out in favour of its non-merge target. Afterwards no merge point has
    /// exactly one outgoing edge whose target is a non-merge node, while every
    /// node that is not a merge point keeps its outgoing labels.
    pub fn post_process_merges(&mut self)
        requires
            old(self).wf(),
        ensures
            final(self).wf(),
            final(self).nodes@ == old(self).nodes@,
            forall|i: int|
                old(self).alive(i) && !is_merge(old(self).node_at(i)) ==> final(self).alive(i),
            forall|i: int| final(self).alive(i) ==> old(self).alive(i),
            forall|i: int, l: EdgeLabel|
                old(self).alive(i) && !is_merge(old(self).node_at(i)) && old(self).has_edge_from(
                    i,
                    l,
                ) ==> final(self).has_edge_from(i, l),
            forall|i: int|
                final(self).alive(i) && is_merge(final(self).node_at(i)) && final(self).out_deg(i)
                    == 1 ==> merge_targets(*final(self), i),
    {
        let mut worklist: Vec<usize> = Vec::new();
        let mut i: usize = 0;
        while i < self.nodes.len()
            invariant
                old(self) == self,
                self.wf(),
                0 <= i <= self.n(),
                forall|p: int| 0 <= p < worklist@.len() ==> (#[trigger] worklist@[p]) < self.n(),
                forall|j: int|
                    0 <= j < i && self.alive(j) && is_merge(self.node_at(j))
                        ==> worklist@.contains(j as usize),
            decreases self.n() - i,
        {
            let ghost wl0 = worklist@;
            let is_m = self.node_is_merge(i);
            if is_m && !self.is_removed(i) {
                worklist.push(i);
            }
            proof {
                assert forall|j: int|
                    0 <= j < i + 1 && self.alive(j) && is_merge(self.node_at(j)) implies worklist@
                    .contains(j as usize) by {
                    if j == i as int {
                        assert(worklist@.last() == i);
                    } else {
                        assert(wl0.contains(j as usize));
                        let p = choose|p: int| 0 <= p < wl0.len() && wl0[p] == j as usize;
                        assert(worklist@[p] == j as usize);
                    }
                }
            }
            i += 1;
        }
        while worklist.len() > 0
            invariant
                self.wf(),
                self.nodes@ == old(self).nodes@,
                forall|p: int| 0 <= p < worklist@.len() ==> (#[trigger] worklist@[p]) < self.n(),
                forall|j: int|
                    old(self).alive(j) && !is_merge(old(self).node_at(j)) ==> self.alive(j),
                forall|j: int| self.alive(j) ==> old(self).alive(j),
                forall|j: int, l: EdgeLabel|
                    old(self).alive(j) && !is_merge(old(self).node_at(j)) && old(
                        self,
                    ).has_edge_from(j, l) ==> self.has_edge_from(j, l),
                forall|j: int|
                    self.alive(j) && is_merge(self.node_at(j)) ==> worklist@.contains(j as usize)
                        || self.out_deg(j) != 1 || merge_targets(*self, j),
            decreases self.edges@.len(), worklist@.len(),
        {
            let ghost wl0 = worklist@;
            let m = match worklist.pop() {
                Some(x) => x,
                None => {
                    proof {
                        assert(false);
                    }
                    0
                },
            };
            // every node but `m` keeps its worklist claim after the pop
            proof {
                broadcast use vstd::std_specs::vec::axiom_spec_len;

                assert(self.nodes.len() == self.nodes@.len());
                assert forall|j: int|
                    self.alive(j) && is_merge(self.node_at(j)) && j != m as int && wl0.contains(
                        j as usize,
                    ) implies worklist@.contains(j as usize) by {
                    let p = choose|p: int| 0 <= p < wl0.len() && wl0[p] == j as usize;
                    if p == wl0.len() - 1 {
                        assert(wl0[p] == m);
                    } else {
                        assert(worklist@[p] == j as usize);
                    }
                }
            }
            if !self.is_removed(m) {
                let is_m = self.node_is_merge(m);
                if is_m {
                    let outs = self.collect_out_edges(m);
                    if outs.len() == 1 {
                        let target = outs[0].dst;
                        proof {
                            lemma_out_edges_membership(self.edges@, m as int, 0);
                            let j = choose|j: int|
                                0 <= j < self.edges@.len() && self.edges@[j] == out_edges_spec(
                                    self.edges@,
                                    m as int,
                                )[0];
                            assert(edge_ok(*self, self.edges@[j]));
                            assert(out_edges_spec(self.edges@, m as int)[0].src as int
                                == m as int) by {
                                self.edges@.lemma_filter_pred(
                                    |e: Edge| e.src as int == m as int,
                                    0,
                                );
                            }
                        }
                        if target != m {
                            // queue the live merge predecessors of `m`: their
                            // single outgoing edge may be about to change target
                            let ghost wl1 = worklist@;
                            let mut q: usize = 0;
                            while q < self.edges.len()
                                invariant
                                    self.wf(),
                                    0 <= q <= self.edges@.len(),
                                    forall|p: int|
                                        0 <= p < worklist@.len() ==> (#[trigger] worklist@[p])
                                            < self.n(),
                                    forall|x: usize|
                                        wl1.contains(x) ==> worklist@.contains(x),
                                    forall|kk: int|
                                        0 <= kk < q && (#[trigger] self.edges@[kk]).dst == m
                                            && self.alive(self.edges@[kk].src as int) && is_merge(
                                            self.node_at(self.edges@[kk].src as int),
                                        ) ==> worklist@.contains(self.edges@[kk].src),
                                decreases self.edges@.len() - q,
                            {
                                let ghost wl2 = worklist@;
                                let e = self.edges[q];
                                if e.dst == m {
                                    let src_merge = self.node_is_merge(e.src);
                                    if src_merge && !self.is_removed(e.src) {
                                        worklist.push(e.src);
                                    }
                                }
                                proof {
                                    assert forall|x: usize| wl2.contains(x) implies worklist@
                                        .contains(x) by {
                                        let p = choose|p: int|
                                            0 <= p < wl2.len() && wl2[p] == x;
                                        assert(worklist@[p] == x);
                                    }
                                    if worklist@.len() > wl2.len() {
                                        assert(worklist@.last() == self.edges@[q as int].src);
                                    }
                                }
                                q += 1;
                            }
                            let target_is_merge = self.node_is_merge(target);
                            let ghost before = *self;
                            let ghost wl3 = worklist@;
                            self.redirect_edges_and_remove(m, target);
                            proof {
                                lemma_splice_shrinks(before.edges@, m as int, target);
                            }
                            if target_is_merge {
                                worklist.push(target);
                                proof {
                                    assert(worklist@.last() == target);
                                }
                            }
                            proof {
                                broadcast use vstd::std_specs::vec::axiom_spec_len;

                                assert(self.nodes.len() == self.nodes@.len());
                                assert(is_merge(before.node_at(target as int)) ==> worklist@
                                    .contains(target));
                                assert forall|x: usize| wl3.contains(x) implies worklist@
                                    .contains(x) by {
                                    let p = choose|p: int| 0 <= p < wl3.len() && wl3[p] == x;
                                    assert(worklist@[p] == x);
                                }
                                assert forall|j: int|
                                    self.alive(j) && is_merge(self.node_at(j)) implies worklist@
                                    .contains(j as usize) || self.out_deg(j) != 1
                                    || merge_targets(*self, j) by {
                                    lemma_restore_claim(
                                        before,
                                        *self,
                                        worklist@,
                                        wl3,
                                        m,
                                        target,
                                        j,
                                    );
                                }
                            }
                        } else {
                            // a self-looping merge point: its one outgoing edge
                            // targets a merge point (itself), so it may stay
                            proof {
                                assert(merge_targets(*self, m as int)) by {
                                    assert(self.out_edges(m as int)[0].dst == m);
                                }
                            }
                        }
                    }
                }
            }
        }
    }
}

/// An outgoing edge of a node occurs among the graph's edges.
pub proof fn lemma_out_edges_membership_pub(edges: Seq<Edge>, i: int, k: int)
    requires
        0 <= k < out_edges_spec(edges, i).len(),
    ensures
        exists|j: int| 0 <= j < edges.len() && edges[j] == out_edges_spec(edges, i)[k],
{
    lemma_out_edges_membership(edges, i, k);
}

/// An outgoing edge leads from its node to a live node of the graph.
pub proof fn lemma_out_edge_in_graph(g: Cfg, i: int, k: int)
    requires
        g.wf(),
        0 <= k < out_edges_spec(g.edges@, i).len(),
    ensures
        (out_edges_spec(g.edges@, i)[k]).src as int == i,
        g.alive((out_edges_spec(g.edges@, i)[k]).dst as int),
{
    lemma_out_edges_membership(g.edges@, i, k);
    let j = choose|j: int|
        0 <= j < g.edges@.len() && g.edges@[j] == out_edges_spec(g.edges@, i)[k];
    assert(edge_ok(g, g.edges@[j]));
    g.edges@.lemma_filter_pred(|e: Edge| e.src as int == i, k);
}

/// Whether the graph holds the specific edge from `a` to `b` with label `l`.
pub open spec fn has_specific_edge(g: Cfg, a: int, b: int, l: EdgeLabel) -> bool {
    exists|j: int|
        0 <= j < g.edges@.len() && (#[trigger] g.edges@[j]).src as int == a && g.edges@[j].dst
            as int == b && g.edges@[j].label == l
}

/// Whether some edge, of any label, joins `a` to `b`.
pub open spec fn has_edge_to(g: Cfg, a: int, b: int) -> bool {
    exists|j: int|
        0 <= j < g.edges@.len() && (#[trigger] g.edges@[j]).src as int == a && g.edges@[j].dst
            as int == b
}

/// An edge, of any label, survives appending more edges.
pub proof fn lemma_edge_to_extend(g0: Cfg, g1: Cfg, a: int, b: int)
    requires
        g0.edges@.is_prefix_of(g1.edges@),
        has_edge_to(g0, a, b),
    ensures
        has_edge_to(g1, a, b),
{
    broadcast use vstd::seq_lib::group_seq_properties;

    let j = choose|j: int|
        0 <= j < g0.edges@.len() && (#[trigger] g0.edges@[j]).src as int == a && g0.edges@[j].dst
            as int == b;
    assert(g1.edges@[j] == g0.edges@[j]);
}

/// The edge just pushed is present, both as a labelled out-edge of its
/// source and as the specific connection.
pub proof fn lemma_push_edge_facts(edges: Seq<Edge>, e: Edge)
    ensures
        has_label_in(out_edges_spec(edges.push(e), e.src as int), e.label),
        exists|j: int|
            0 <= j < edges.push(e).len() && (#[trigger] edges.push(e)[j]).src as int == e.src
                as int && edges.push(e)[j].dst as int == e.dst as int && edges.push(e)[j].label
                == e.label,
{
    let k = edges.len() as int;
    edges.push(e).lemma_filter_contains(|x: Edge| x.src as int == e.src as int, k);
    let oe = out_edges_spec(edges.push(e), e.src as int);
    let w = choose|w: int| 0 <= w < oe.len() && oe[w] == edges.push(e)[k];
    assert(oe[w].label == e.label);
    assert(edges.push(e)[k].src as int == e.src as int && edges.push(e)[k].dst as int == e.dst
        as int && edges.push(e)[k].label == e.label);
}

/// A specific edge survives appending more edges.
pub proof fn lemma_specific_edge_extend(g0: Cfg, g1: Cfg, a: int, b: int, l: EdgeLabel)
    requires
        g0.edges@.is_prefix_of(g1.edges@),
        has_specific_edge(g0, a, b, l),
    ensures
        has_specific_edge(g1, a, b, l),
{
    broadcast use vstd::seq_lib::group_seq_properties;

    let j = choose|j: int|
        0 <= j < g0.edges@.len() && (#[trigger] g0.edges@[j]).src as int == a && g0.edges@[j].dst
            as int == b && g0.edges@[j].label == l;
    assert(g1.edges@[j] == g0.edges@[j]);
}

/// A specific edge witnesses the labelled-out-edge relation of its source.
pub proof fn lemma_specific_edge_from(g: Cfg, a: int, b: int, l: EdgeLabel)
    requires
        has_specific_edge(g, a, b, l),
    ensures
        g.has_edge_from(a, l),
{
    let j = choose|j: int|
        0 <= j < g.edges@.len() && (#[trigger] g.edges@[j]).src as int == a && g.edges@[j].dst
            as int == b && g.edges@[j].label == l;
    g.edges@.lemma_filter_contains(|x: Edge| x.src as int == a, j);
    let oe = out_edges_spec(g.edges@, a);
    let w = choose|w: int| 0 <= w < oe.len() && oe[w] == g.edges@[j];
    assert(oe[w].label == l);
}

/// A node after label cleanup: condition and statement labels are
/// whitespace-normalised, everything else is untouched.
pub open spec fn clean_node(n: NodeV) -> NodeV {
    match n {
        NodeV::Condition(t, k, e) => NodeV::Condition(cleaned_text(t), k, e),
        NodeV::Statement(t) => NodeV::Statement(cleaned_text(t)),
        _ => n,
    }
}

/// Every outgoing edge of node `j` ends at a live merge point.
pub open spec fn merge_targets(g: Cfg, j: int) -> bool {
    forall|k: int|
        0 <= k < g.out_edges(j).len() ==> g.alive((#[trigger] g.out_edges(j)[k]).dst as int)
            && is_merge(g.node_at(g.out_edges(j)[k].dst as int))
}

/// After one splice, every live merge point either sits in the worklist or
/// still satisfies its fixed-point claim.
proof fn lemma_restore_claim(
    before: Cfg,
    after: Cfg,
    wl: Seq<usize>,
    wl3: Seq<usize>,
    m: usize,
    target: usize,
    j: int,
)
    requires
        before.wf(),
        after.wf(),
        after.nodes@ == before.nodes@,
        after.removed@ == before.removed@.update(m as int, true),
        m != target,
        0 <= m < before.n(),
        before.alive(target as int),
        forall|x: int|
            x != m as int ==> after.out_edges(x) == retarget(
                before.out_edges(x),
                m as int,
                target,
            ),
        // every live merge predecessor of `m` is queued
        forall|kk: int|
            0 <= kk < before.edges@.len() && (#[trigger] before.edges@[kk]).dst == m
                && before.alive(before.edges@[kk].src as int) && is_merge(
                before.node_at(before.edges@[kk].src as int),
            ) ==> wl3.contains(before.edges@[kk].src),
        forall|x: usize| wl3.contains(x) ==> wl.contains(x),
        is_merge(before.node_at(target as int)) ==> wl.contains(target),
        // the claim held before the splice
        before.alive(j) && is_merge(before.node_at(j)) ==> wl3.contains(j as usize)
            || before.out_deg(j) != 1 || merge_targets(before, j),
        after.alive(j),
        is_merge(after.node_at(j)),
        0 <= j < after.n(),
        j < usize::MAX,
    ensures
        wl.contains(j as usize) || after.out_deg(j) != 1 || merge_targets(after, j),
{
    assert(j != m as int);
    assert(before.alive(j));
    assert(is_merge(before.node_at(j)));
    lemma_retarget_props(before.out_edges(j), m as int, target);
    if wl3.contains(j as usize) {
        assert(wl.contains(j as usize));
    } else if before.out_deg(j) != 1 {
        assert(after.out_deg(j) != 1);
    } else {
        // the claim came from merge_targets; check it still holds
        assert(merge_targets(before, j));
        assert(after.out_deg(j) == 1);
        let e0 = before.out_edges(j)[0];
        assert(before.alive(e0.dst as int) && is_merge(before.node_at(e0.dst as int)));
        assert(e0.src as int == j) by {
            before.edges@.lemma_filter_pred(|e: Edge| e.src as int == j, 0);
        }
        if e0.dst == m {
            // `j` points at the removed merge, so it was queued
            lemma_out_edges_membership(before.edges@, j, 0);
            let kk = choose|kk: int|
                0 <= kk < before.edges@.len() && before.edges@[kk] == e0;
            assert(wl3.contains(e0.src));
            assert(e0.src == j as usize);
            assert(wl.contains(j as usize));
        } else {
            assert forall|k: int| 0 <= k < after.out_edges(j).len() implies after.alive(
                (#[trigger] after.out_edges(j)[k]).dst as int,
            ) && is_merge(after.node_at(after.out_edges(j)[k].dst as int)) by {
                assert(k == 0);
                assert(after.out_edges(j)[0].dst == e0.dst);
                assert(e0.dst as int != m as int);
            }
        }
    }
}

/// Splicing a node with at least one outgoing edge strictly shrinks the
/// edge list.
proof fn lemma_splice_shrinks(edges: Seq<Edge>, s: int, t: usize)
    requires
        out_edges_spec(edges, s).len() > 0,
    ensures
        splice_edges(edges, s, t).len() < edges.len(),
    decreases edges,
{
    reveal(Seq::filter);
    if edges.len() > 0 {
        let e = edges.last();
        if e.src as int == s {
            lemma_splice_len(edges.drop_last(), s, t);
        } else {
            lemma_splice_shrinks(edges.drop_last(), s, t);
        }
    }
}

/// Splicing never lengthens the edge list.
proof fn lemma_splice_len(edges: Seq<Edge>, s: int, t: usize)
    ensures
        splice_edges(edges, s, t).len() <= edges.len(),
    decreases edges,
{
    if edges.len() > 0 {
        lemma_splice_len(edges.drop_last(), s, t);
    }
}

} // verus!
