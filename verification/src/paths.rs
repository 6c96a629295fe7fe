//! Basic-path enumeration.
//!
//! From every cut node a depth-first walk records each path that reaches a
//! cut node again after at least one step; interior nodes are never cut
//! nodes and consecutive nodes are joined by edges. A path that travels a
//! back edge and starts at an invariant gets a fresh copy of that invariant
//! as its new endpoint, which keeps the path acyclic while stating that the
//! invariant must be re-established.

use vstd::prelude::*;

use crate::builder::{CfgBuilder, binv, graph_extends};
use crate::cfg::{Cfg, CfgNode, Edge, EdgeLabel, is_cut};

verus! {

/// Whether some edge joins `a` to `b`.
pub open spec fn has_edge_between(g: Cfg, a: usize, b: usize) -> bool {
    exists|j: int|
        0 <= j < g.edges@.len() && (#[trigger] g.edges@[j]).src == a && g.edges@[j].dst == b
}

/// Whether some back-to-loop edge joins `a` to `b`.
pub open spec fn back_pair(g: Cfg, a: usize, b: usize) -> bool {
    exists|j: int|
        0 <= j < g.edges@.len() && (#[trigger] g.edges@[j]).src == a && g.edges@[j].dst == b
            && g.edges@[j].label == EdgeLabel::BackToLoop
}

/// Whether some consecutive pair of the path travels a back edge.
pub open spec fn has_loop_pair(g: Cfg, p: Seq<usize>) -> bool {
    exists|k: int| 0 <= k < p.len() - 1 && back_pair(g, (#[trigger] p[k]), p[k + 1])
}

/// Consecutive nodes of the path are joined by edges, up to position `upto`.
pub open spec fn linked_to(g: Cfg, p: Seq<usize>, upto: int) -> bool {
    forall|k: int| 0 <= k < upto - 1 ==> has_edge_between(g, (#[trigger] p[k]), p[k + 1])
}

/// The shape of a basic path in `g`: at least two nodes, both endpoints cut
/// nodes, no interior cut node, and every entry a valid node index.
pub open spec fn path_shape(g: Cfg, path: Seq<usize>) -> bool {
    &&& path.len() >= 2
    &&& forall|k: int| 0 <= k < path.len() ==> (#[trigger] path[k]) < g.n()
    &&& is_cut(g.node_at(path[0] as int))
    &&& is_cut(g.node_at(path.last() as int))
    &&& forall|k: int| 0 < k < path.len() - 1 ==> !is_cut(g.node_at((#[trigger] path[k]) as int))
}

/// A basic path as the walk records it: the shape above with every
/// consecutive pair joined by an edge.
pub open spec fn basic_path(g: Cfg, p: Seq<usize>) -> bool {
    path_shape(g, p) && linked_to(g, p, p.len() as int)
}

/// A loop path after invariant duplication: joined by edges up to its final
/// hop, whose endpoint is a fresh node carrying the same invariant as the
/// path's head.
pub open spec fn duplicated_path(g: Cfg, p: Seq<usize>) -> bool {
    &&& path_shape(g, p)
    &&& linked_to(g, p, p.len() - 1)
    &&& g.node_at(p.last() as int) == g.node_at(p[0] as int)
    &&& g.node_at(p[0] as int) is Invariant
}

/// A path's shape survives graph growth.
proof fn lemma_shape_extends(g0: Cfg, g1: Cfg, path: Seq<usize>)
    requires
        graph_extends(g0, g1),
        path_shape(g0, path),
    ensures
        path_shape(g1, path),
{
    assert(g1.node_at(path[0] as int) == g0.node_at(path[0] as int));
    assert(g1.node_at(path.last() as int) == g0.node_at(path.last() as int));
}

/// Edge-connectivity survives graph growth.
proof fn lemma_linked_extends(g0: Cfg, g1: Cfg, path: Seq<usize>, upto: int)
    requires
        graph_extends(g0, g1),
        linked_to(g0, path, upto),
    ensures
        linked_to(g1, path, upto),
{
    broadcast use vstd::seq_lib::group_seq_properties;

    assert forall|k: int| 0 <= k < upto - 1 implies has_edge_between(
        g1,
        (#[trigger] path[k]),
        path[k + 1],
    ) by {
        let j = choose|j: int|
            0 <= j < g0.edges@.len() && (#[trigger] g0.edges@[j]).src == path[k]
                && g0.edges@[j].dst == path[k + 1];
        assert(g1.edges@[j] == g0.edges@[j]) by {
            assert(g0.edges@.is_prefix_of(g1.edges@));
        }
    }
}

/// The walk's iteration budget: ample for any graph the builder makes,
/// where every cycle passes through a cut node. It bounds the walk on a
/// malformed graph whose cycles avoid cut nodes.
pub const MAX_WALK_STEPS: usize = 1000000;

/// One frame of the depth-first walk: the prefix is rooted at a cut node,
/// contains no further cut node, and chains by edges into the frame's node.
pub open spec fn frame_ok(g: Cfg, start: usize, node: usize, pref: Seq<usize>) -> bool {
    &&& node < g.n()
    &&& start < g.n()
    &&& is_cut(g.node_at(start as int))
    &&& forall|k: int| 0 <= k < pref.len() ==> (#[trigger] pref[k]) < g.n()
    &&& (pref.len() == 0 ==> node == start)
    &&& (pref.len() > 0 ==> pref[0] == start && (forall|k: int|
        0 < k < pref.len() ==> !is_cut(g.node_at((#[trigger] pref[k]) as int))))
    &&& linked_to(g, pref.push(node), pref.len() as int + 1)
}

/// The live cut nodes among the first `upto` indices, in index order.
pub open spec fn cut_indices(g: Cfg, upto: int) -> Seq<usize>
    decreases upto,
{
    if upto <= 0 {
        Seq::empty()
    } else {
        cut_indices(g, upto - 1) + (if g.alive(upto - 1) && is_cut(g.node_at(upto - 1)) {
            seq![(upto - 1) as usize]
        } else {
            Seq::<usize>::empty()
        })
    }
}

impl Cfg {
    /// Whether node `i` is a cut node.
    pub fn node_is_cut(&self, i: usize) -> (r: bool)
        requires
            0 <= i < self.n(),
        ensures
            r == is_cut(self.node_at(i as int)),
    {
        match self.node(i) {
            CfgNode::Precondition(_, _) => true,
            CfgNode::Postcondition(_, _) => true,
            CfgNode::Invariant(_, _) => true,
            CfgNode::Cutoff(_) => true,
            _ => false,
        }
    }

    /// Whether some edge joins `a` to `b`.
    pub fn edge_exists(&self, a: usize, b: usize) -> (r: bool)
        ensures
            r == has_edge_between(*self, a, b),
    {
        let mut k: usize = 0;
        while k < self.edges.len()
            invariant
                0 <= k <= self.edges@.len(),
                forall|j: int|
                    0 <= j < k ==> !((#[trigger] self.edges@[j]).src == a && self.edges@[j].dst
                        == b),
            decreases self.edges@.len() - k,
        {
            let e = self.edges[k];
            if e.src == a && e.dst == b {
                return true;
            }
            k += 1;
        }
        false
    }

    /// Whether some edge from `a` to `b` carries the back-to-loop label.
    pub fn has_back_edge(&self, a: usize, b: usize) -> (r: bool)
        ensures
            r == back_pair(*self, a, b),
    {
        let mut k: usize = 0;
        while k < self.edges.len()
            invariant
                0 <= k <= self.edges@.len(),
                forall|j: int|
                    0 <= j < k ==> !((#[trigger] self.edges@[j]).src == a && self.edges@[j].dst
                        == b && self.edges@[j].label == EdgeLabel::BackToLoop),
            decreases self.edges@.len() - k,
        {
            let e = self.edges[k];
            if e.src == a && e.dst == b && matches!(e.label, EdgeLabel::BackToLoop) {
                return true;
            }
            k += 1;
        }
        false
    }
}

impl CfgBuilder {
    /// The live cut nodes of the graph, in index order.
    pub fn get_condition_nodes(&self) -> (r: Vec<usize>)
        requires
            binv(*self),
        ensures
            r@ == cut_indices(self.graph, self.graph.n()),
            forall|p: int|
                0 <= p < r@.len() ==> (#[trigger] r@[p]) < self.graph.n() && self.graph.alive(
                    r@[p] as int,
                ) && is_cut(self.graph.node_at(r@[p] as int)),
    {
        let mut r: Vec<usize> = Vec::new();
        let mut i: usize = 0;
        proof {
            assert(r@ =~= cut_indices(self.graph, 0));
        }
        while i < self.graph.nodes.len()
            invariant
                binv(*self),
                0 <= i <= self.graph.n(),
                r@ == cut_indices(self.graph, i as int),
                forall|p: int|
                    0 <= p < r@.len() ==> (#[trigger] r@[p]) < self.graph.n()
                        && self.graph.alive(r@[p] as int) && is_cut(
                        self.graph.node_at(r@[p] as int),
                    ),
            decreases self.graph.n() - i,
        {
            let ghost r0 = r@;
            if !self.graph.is_removed(i) && self.graph.node_is_cut(i) {
                r.push(i);
            }
            proof {
                assert(r@ =~= cut_indices(self.graph, i as int + 1));
            }
            i += 1;
        }
        r
    }

    /// Depth-first enumeration of the basic paths out of `start`, appended
    /// to `paths` in walk order.
    pub fn find_paths(&self, start: usize, paths: &mut Vec<Vec<usize>>)
        requires
            binv(*self),
            start < self.graph.n(),
            is_cut(self.graph.node_at(start as int)),
            forall|p: int|
                0 <= p < old(paths)@.len() ==> basic_path(
                    self.graph,
                    (#[trigger] old(paths)@[p])@,
                ),
        ensures
            old(paths)@.len() <= final(paths)@.len(),
            forall|p: int|
                0 <= p < final(paths)@.len() ==> basic_path(
                    self.graph,
                    (#[trigger] final(paths)@[p])@,
                ),
            forall|p: int|
                0 <= p < final(paths)@.len() && p >= old(paths)@.len() ==> (
                #[trigger] final(paths)@[p])@[0] == start,
    {
        let mut stack: Vec<(usize, Vec<usize>)> = Vec::new();
        let empty: Vec<usize> = Vec::new();
        stack.push((start, empty));
        let mut budget: usize = MAX_WALK_STEPS;
        while stack.len() > 0 && budget > 0
            invariant
                binv(*self),
                start < self.graph.n(),
                is_cut(self.graph.node_at(start as int)),
                old(paths)@.len() <= paths@.len(),
                forall|p: int|
                    0 <= p < paths@.len() ==> basic_path(self.graph, (#[trigger] paths@[p])@),
                forall|p: int|
                    0 <= p < paths@.len() && p >= old(paths)@.len() ==> (
                    #[trigger] paths@[p])@[0] == start,
                forall|q: int|
                    0 <= q < stack@.len() ==> frame_ok(
                        self.graph,
                        start,
                        (#[trigger] stack@[q]).0,
                        stack@[q].1@,
                    ),
            decreases budget,
        {
            budget -= 1;
            let (node, pref) = match stack.pop() {
                Some(f) => f,
                None => {
                    proof {
                        assert(false);
                    }
                    (0, Vec::new())
                },
            };
            let ghost prefv = pref@;
            let mut path = pref;
            path.push(node);
            if self.graph.node_is_cut(node) && path.len() > 1 {
                proof {
                    assert(path@[0] == start);
                    assert(path@.last() == node);
                    assert(basic_path(self.graph, path@)) by {
                        assert(forall|k: int|
                            0 < k < path@.len() - 1 ==> !is_cut(
                                self.graph.node_at((#[trigger] path@[k]) as int),
                            ));
                        assert(path@ =~= prefv.push(node));
                    }
                }
                paths.push(path);
            } else {
                let outs = self.graph.collect_out_edges(node);
                // push the successors in reverse so the walk explores them
                // in edge order
                let mut j = outs.len();
                while j > 0
                    invariant
                        binv(*self),
                        start < self.graph.n(),
                        is_cut(self.graph.node_at(start as int)),
                        outs@ == crate::cfg::out_edges_spec(self.graph.edges@, node as int),
                        0 <= j <= outs@.len(),
                        frame_ok(self.graph, start, node, path@.drop_last()),
                        path@.len() > 0,
                        path@.last() == node,
                        path@.len() == 1 ==> node == start,
                        !(is_cut(self.graph.node_at(node as int)) && path@.len() > 1),
                        forall|q: int|
                            0 <= q < stack@.len() ==> frame_ok(
                                self.graph,
                                start,
                                (#[trigger] stack@[q]).0,
                                stack@[q].1@,
                            ),
                        old(paths)@.len() <= paths@.len(),
                        forall|p: int|
                            0 <= p < paths@.len() ==> basic_path(
                                self.graph,
                                (#[trigger] paths@[p])@,
                            ),
                        forall|p: int|
                            0 <= p < paths@.len() && p >= old(paths)@.len() ==> (
                            #[trigger] paths@[p])@[0] == start,
                    decreases j,
                {
                    j -= 1;
                    let e = outs[j];
                    proof {
                        crate::cfg::lemma_out_edge_in_graph(self.graph, node as int, j as int);
                        assert(e.dst < self.graph.n());
                        assert(has_edge_between(self.graph, node, e.dst)) by {
                            crate::cfg::lemma_out_edges_membership_pub(
                                self.graph.edges@,
                                node as int,
                                j as int,
                            );
                        }
                        assert(frame_ok(self.graph, start, e.dst, path@)) by {
                            assert forall|k: int| 0 <= k < path@.len() implies (
                            #[trigger] path@[k]) < self.graph.n() by {
                                if k == path@.len() - 1 {
                                    assert(path@[k] == node);
                                } else {
                                    assert(path@[k] == path@.drop_last()[k]);
                                }
                            }
                            assert(path@[0] == start) by {
                                if path@.drop_last().len() == 0 {
                                    assert(path@[0] == node);
                                } else {
                                    assert(path@[0] == path@.drop_last()[0]);
                                }
                            }
                            assert forall|k: int| 0 < k < path@.len() implies !is_cut(
                                self.graph.node_at((#[trigger] path@[k]) as int),
                            ) by {
                                if k == path@.len() - 1 {
                                    assert(path@[k] == node);
                                } else {
                                    assert(path@[k] == path@.drop_last()[k]);
                                }
                            }
                            assert(linked_to(self.graph, path@.push(e.dst), path@.len() as int + 1))
                                by {
                                assert forall|k: int| 0 <= k < path@.len() implies
                                    has_edge_between(
                                    self.graph,
                                    (#[trigger] path@.push(e.dst)[k]),
                                    path@.push(e.dst)[k + 1],
                                ) by {
                                    if k < path@.len() - 1 {
                                        assert(path@.drop_last().push(node) =~= path@);
                                        assert(has_edge_between(self.graph, path@[k], path@[k
                                            + 1]));
                                    } else {
                                        assert(path@.push(e.dst)[k] == node);
                                        assert(path@.push(e.dst)[k + 1] == e.dst);
                                    }
                                }
                            }
                        }
                    }
                    stack.push((e.dst, path.clone()));
                    proof {
                        assert(stack@.last().1@ == path@);
                    }
                }
            }
        }
    }

    /// Whether some consecutive pair of the path is joined by a back edge.
    pub fn is_loop_path(&self, path: &Vec<usize>) -> (r: bool)
        ensures
            r == has_loop_pair(self.graph, path@),
    {
        broadcast use vstd::std_specs::vec::axiom_spec_len;

        proof {
            assert(path.len() == path@.len());
        }
        if path.len() == 0 {
            return false;
        }
        let mut k: usize = 0;
        while k < path.len() - 1
            invariant
                path@.len() > 0,
                0 <= k <= path@.len() - 1,
                forall|j: int|
                    0 <= j < k ==> !back_pair(self.graph, (#[trigger] path@[j]), path@[j + 1]),
            decreases path@.len() - 1 - k,
        {
            if self.graph.has_back_edge(path[k], path[k + 1]) {
                return true;
            }
            k += 1;
        }
        false
    }

    /// Replaces the endpoint of a path whose head is an invariant by a fresh
    /// copy of that invariant; on any other path, changes nothing.
    pub fn process_loop_invariant_path(&mut self, path: &mut Vec<usize>)
        requires
            binv(*old(self)),
            path_shape(old(self).graph, old(path)@),
            linked_to(old(self).graph, old(path)@, old(path)@.len() as int),
        ensures
            binv(*final(self)),
            graph_extends(old(self).graph, final(self).graph),
            final(self).graph.edges@ == old(self).graph.edges@,
            final(path)@.len() == old(path)@.len(),
            forall|k: int|
                0 <= k < old(path)@.len() - 1 ==> final(path)@[k] == old(path)@[k],
            (old(self).graph.node_at(old(path)@[0] as int) is Invariant) ==> ({
                &&& final(self).graph.n() == old(self).graph.n() + 1
                &&& final(self).graph.node_at(old(self).graph.n()) == old(self).graph.node_at(
                    old(path)@[0] as int,
                )
                &&& final(path)@.last() as int == old(self).graph.n()
            }),
            !(old(self).graph.node_at(old(path)@[0] as int) is Invariant) ==> final(self).graph
                == old(self).graph && final(path)@ == old(path)@,
            path_shape(final(self).graph, final(path)@),
            linked_to(final(self).graph, final(path)@, final(path)@.len() - 1),
    {
        let first = path[0];
        let replacement: Option<CfgNode> = match self.graph.node(first) {
            CfgNode::Invariant(text, e) => Some(
                CfgNode::Invariant(
                    text.clone(),
                    match e {
                        Some(x) => Some(x.duplicate()),
                        None => None,
                    },
                ),
            ),
            _ => None,
        };
        match replacement {
            Some(node) => {
                proof {
                    assert(node@ == old(self).graph.node_at(first as int));
                }
                let ghost g0 = self.graph;
                let fresh = self.graph.add_node(node);
                proof {
                    assert(g0.edges@.is_prefix_of(self.graph.edges@)) by {
                        assert(self.graph.edges@.take(g0.edges@.len() as int) =~= g0.edges@);
                    }
                }
                let popped = path.pop();
                path.push(fresh);
                proof {
                    assert(path@[0] == old(path)@[0]);
                    assert(path@.last() == fresh);
                    assert(is_cut(self.graph.node_at(fresh as int)));
                    assert(path_shape(self.graph, path@)) by {
                        assert(forall|k: int|
                            0 <= k < path@.len() - 1 ==> path@[k] == old(path)@[k]);
                        lemma_shape_extends(g0, self.graph, old(path)@);
                    }
                    assert(linked_to(self.graph, path@, path@.len() - 1)) by {
                        assert forall|k: int| 0 <= k < path@.len() - 2 implies has_edge_between(
                            self.graph,
                            (#[trigger] path@[k]),
                            path@[k + 1],
                        ) by {
                            assert(path@[k] == old(path)@[k] && path@[k + 1] == old(path)@[k
                                + 1]);
                            assert(has_edge_between(g0, old(path)@[k], old(path)@[k + 1]));
                        }
                    }
                }
            },
            None => {
                proof {
                    assert(linked_to(self.graph, path@, path@.len() - 1));
                }
            },
        }
    }

    /// Enumerates all basic paths, then gives every loop path starting at an
    /// invariant a fresh copy of that invariant as its endpoint: each
    /// returned path is edge-connected throughout, or edge-connected up to
    /// its final hop with that duplicated-invariant endpoint.
    pub fn generate_basic_paths(&mut self) -> (paths: Vec<Vec<usize>>)
        requires
            binv(*old(self)),
        ensures
            binv(*final(self)),
            graph_extends(old(self).graph, final(self).graph),
            forall|p: int|
                0 <= p < paths@.len() ==> basic_path(final(self).graph, (#[trigger] paths@[p])@)
                    || duplicated_path(final(self).graph, paths@[p]@),
    {
        let cuts = self.get_condition_nodes();
        let mut paths: Vec<Vec<usize>> = Vec::new();
        let mut c: usize = 0;
        while c < cuts.len()
            invariant
                binv(*self),
                forall|p: int|
                    0 <= p < cuts@.len() ==> (#[trigger] cuts@[p]) < self.graph.n() && is_cut(
                        self.graph.node_at(cuts@[p] as int),
                    ),
                forall|p: int|
                    0 <= p < paths@.len() ==> basic_path(self.graph, (#[trigger] paths@[p])@),
            decreases cuts@.len() - c,
        {
            self.find_paths(cuts[c], &mut paths);
            c += 1;
        }
        let ghost g0 = self.graph;
        proof {
            assert(graph_extends(g0, self.graph)) by {
                assert(self.graph.edges@.take(self.graph.edges@.len() as int)
                    =~= self.graph.edges@);
            }
        }
        let mut p: usize = 0;
        while p < paths.len()
            invariant
                binv(*self),
                graph_extends(g0, self.graph),
                forall|q: int|
                    0 <= q < paths@.len() ==> basic_path(self.graph, (#[trigger] paths@[q])@)
                        || duplicated_path(self.graph, paths@[q]@),
            decreases paths@.len() - p,
        {
            let is_loop = self.is_loop_path(&paths[p]);
            if is_loop {
                let mut path = paths[p].clone();
                proof {
                    assert(path@ =~= paths@[p as int]@) by {
                        assert(forall|k: int|
                            0 <= k < path@.len() ==> path@[k] == paths@[p as int]@[k]);
                    }
                }
                let ghost gk = self.graph;
                let ghost oldp = path@;
                // a path that was already duplicated is no longer fully
                // linked and is left alone
                if self.path_is_linked(&path) {
                    self.process_loop_invariant_path(&mut path);
                    paths.set(p, path);
                    proof {
                        crate::builder::lemma_graph_extends_trans_pub(g0, gk, self.graph);
                        assert forall|q: int|
                            0 <= q < paths@.len() implies basic_path(
                            self.graph,
                            (#[trigger] paths@[q])@,
                        ) || duplicated_path(self.graph, paths@[q]@) by {
                            if q != p as int {
                                if basic_path(gk, paths@[q]@) {
                                    lemma_shape_extends(gk, self.graph, paths@[q]@);
                                    lemma_linked_extends(
                                        gk,
                                        self.graph,
                                        paths@[q]@,
                                        paths@[q]@.len() as int,
                                    );
                                } else {
                                    lemma_shape_extends(gk, self.graph, paths@[q]@);
                                    lemma_linked_extends(
                                        gk,
                                        self.graph,
                                        paths@[q]@,
                                        paths@[q]@.len() - 1,
                                    );
                                }
                            } else {
                                if gk.node_at(oldp[0] as int) is Invariant {
                                    assert(duplicated_path(self.graph, paths@[q]@)) by {
                                        assert(paths@[q]@.last() as int == gk.n());
                                        assert(self.graph.node_at(gk.n()) == gk.node_at(
                                            oldp[0] as int,
                                        ));
                                        assert(paths@[q]@[0] == oldp[0]);
                                    }
                                } else {
                                    assert(basic_path(self.graph, paths@[q]@)) by {
                                        assert(paths@[q]@ == oldp);
                                    }
                                }
                            }
                        }
                    }
                }
            }
            p += 1;
        }
        paths
    }

    /// Whether every consecutive pair of the path is joined by an edge.
    pub fn path_is_linked(&self, path: &Vec<usize>) -> (r: bool)
        ensures
            r == linked_to(self.graph, path@, path@.len() as int),
    {
        broadcast use vstd::std_specs::vec::axiom_spec_len;

        proof {
            assert(path.len() == path@.len());
        }
        if path.len() == 0 {
            return true;
        }
        let mut k: usize = 0;
        while k < path.len() - 1
            invariant
                path@.len() > 0,
                0 <= k <= path@.len() - 1,
                forall|j: int|
                    0 <= j < k ==> has_edge_between(self.graph, (#[trigger] path@[j]), path@[j
                        + 1]),
            decreases path@.len() - 1 - k,
        {
            if !self.graph.edge_exists(path[k], path[k + 1]) {
                return false;
            }
            k += 1;
        }
        true
    }
}

} // verus!
