//! The CFG builder: walks a function's surface form and grows the graph.
//!
//! A cursor tracks the most recently inserted node; adding a node draws an
//! edge from the cursor carrying the pending label, defaulting to an
//! unlabelled edge. Postconditions written at the top level of a function are
//! deferred and appended as sinks; annotations inside branches take effect in
//! place. Every condition node ends up with a `true`- and a `false`-labelled
//! outgoing edge, provided each loop body inserts at least one node.

use vstd::prelude::*;

use crate::ast::{CondKind, Expr, ExprV};
use crate::cfg::{
    Cfg, CfgNode, Edge, EdgeLabel, NodeV, clean_node, has_edge_to, has_specific_edge,
    is_condition, is_merge, lemma_edge_to_extend, lemma_push_edge_facts,
    lemma_specific_edge_extend, lemma_specific_edge_from, merge_targets,
};
use crate::contracts::ExternalMethods;
use crate::lex::lex;
use crate::parse::parse_formula;
use crate::print::tokens_to_bytes;
use crate::source::{
    ForStmt, IfStmt, SrcElse, SrcExpr, SrcFile, SrcFn, SrcStmt, WhileStmt, expr_adds_node,
    exprs_add_node, loops_ok_else, loops_ok_expr, loops_ok_exprs, loops_ok_file, loops_ok_if,
    loops_ok_stmt, loops_ok_stmts, stmt_adds_node, stmts_add_node,
};
use crate::ast::Token;

verus! {

/// The builder: the graph under construction, the insertion cursor, the
/// pending edge label, the external-contract table and the deferred
/// postconditions of the current function.
pub struct CfgBuilder {
    pub graph: Cfg,
    pub current_node: Option<usize>,
    pub next_edge_label: Option<EdgeLabel>,
    pub external_conditions: ExternalMethods,
    pub postconditions: Vec<CfgNode>,
}

/// The builder's invariant: the graph is well formed and the cursor, when
/// set, points at a live node.
pub open spec fn binv(b: CfgBuilder) -> bool {
    &&& b.graph.wf()
    &&& match b.current_node {
        Some(c) => b.graph.alive(c as int),
        None => true,
    }
    &&& forall|p: int|
        0 <= p < b.postconditions@.len() ==> !((#[trigger] b.postconditions@[p])@ is Condition)
}

/// An edge value, for use in contracts.
pub open spec fn mk_edge(src: usize, dst: usize, label: EdgeLabel) -> Edge {
    Edge { src, dst, label }
}

/// The label drawn when a node is attached to the cursor.
pub open spec fn pending_label(o: Option<EdgeLabel>) -> EdgeLabel {
    match o {
        Some(l) => l,
        None => EdgeLabel::Unlabeled,
    }
}

/// The spelling of the `Call: ` label prefix.
pub open spec fn call_prefix() -> Seq<u8> {
    seq![('C' as u8), ('a' as u8), ('l' as u8), ('l' as u8), (':' as u8), (' ' as u8)]
}

/// The spelling of the `if: ` label prefix.
pub open spec fn if_prefix() -> Seq<u8> {
    seq![('i' as u8), ('f' as u8), (':' as u8), (' ' as u8)]
}

/// The spelling of the `else if: ` label prefix.
pub open spec fn else_if_prefix() -> Seq<u8> {
    seq![
        ('e' as u8), ('l' as u8), ('s' as u8), ('e' as u8), (' ' as u8), ('i' as u8), ('f' as u8),
        (':' as u8), (' ' as u8),
    ]
}

/// The spelling of the `while: ` label prefix.
pub open spec fn while_prefix() -> Seq<u8> {
    seq![('w' as u8), ('h' as u8), ('i' as u8), ('l' as u8), ('e' as u8), (':' as u8), (' ' as u8)]
}

/// The label of a `for` condition node: `for <pat> in <iter>`.
pub open spec fn for_label_of(pat: Seq<u8>, iter: Seq<u8>) -> Seq<u8> {
    seq![('f' as u8), ('o' as u8), ('r' as u8), (' ' as u8)] + pat + seq![
        (' ' as u8), ('i' as u8), ('n' as u8), (' ' as u8),
    ] + iter
}

/// The label of an `if` condition node, `else if: ` when reached along a
/// pending false branch.
pub open spec fn if_label_of(pend: Option<EdgeLabel>, text: Seq<u8>) -> Seq<u8> {
    (if pend == Some(EdgeLabel::False) {
        else_if_prefix()
    } else {
        if_prefix()
    }) + text
}

/// One node inserted at the arena's end, drawing the cursor edge with the
/// pending label and moving the cursor onto it.
pub open spec fn node_edge_added(b0: CfgBuilder, b1: CfgBuilder, nv: NodeV) -> bool {
    &&& b1.graph.n() == b0.graph.n() + 1
    &&& b1.graph.node_at(b0.graph.n()) == nv
    &&& (b1.current_node is Some) && b1.current_node->0 as int == b0.graph.n()
    &&& match b0.current_node {
        Some(cur) => b1.graph.edges@.len() == b0.graph.edges@.len() + 1
            && b1.graph.edges@.drop_last() == b0.graph.edges@ && b1.graph.edges@.last().src == cur
            && b1.graph.edges@.last().dst as int == b0.graph.n() && b1.graph.edges@.last().label
            == pending_label(b0.next_edge_label),
        None => b1.graph.edges@ == b0.graph.edges@,
    }
}

/// The nodes that bracket an externally specified call: the preconditions of
/// the matched table entry, the call statement, then the postconditions; an
/// unknown name yields the call statement alone.
pub open spec fn external_effect(
    b0: CfgBuilder,
    b1: CfgBuilder,
    name: Seq<u8>,
    call_expression: Seq<u8>,
) -> bool {
    let label = call_prefix() + call_expression;
    match crate::contracts::find_spec(b0.external_conditions.external_methods@, name) {
        Some(i) => {
            let m = b0.external_conditions.external_methods@[i];
            let npre = m.preconditions@.len() as int;
            let npost = m.postconditions@.len() as int;
            &&& b1.graph.n() == b0.graph.n() + npre + 1 + npost
            &&& forall|k: int|
                0 <= k < npre ==> b1.graph.node_at(b0.graph.n() + k) == NodeV::Precondition(
                    (#[trigger] m.preconditions@[k])@,
                    crate::parse::parse_text_spec(m.preconditions@[k]@),
                )
            &&& b1.graph.node_at(b0.graph.n() + npre) == NodeV::Statement(label)
            &&& forall|k: int|
                0 <= k < npost ==> b1.graph.node_at(b0.graph.n() + npre + 1 + k)
                    == NodeV::Postcondition(
                    (#[trigger] m.postconditions@[k])@,
                    crate::parse::parse_text_spec(m.postconditions@[k]@),
                )
            &&& external_chain(b0, b1, npre + 1 + npost)
        },
        None => b1.graph.n() == b0.graph.n() + 1 && b1.graph.node_at(b0.graph.n())
            == NodeV::Statement(label) && external_chain(b0, b1, 1),
    }
}

/// The label of the edge entering the `k`-th inserted node from its
/// predecessor: the pending label survives an edgeless first insertion,
/// every later link is unlabelled.
pub open spec fn chain_label(b0: CfgBuilder, k: int) -> EdgeLabel {
    if k == 1 && b0.current_node is None {
        pending_label(b0.next_edge_label)
    } else {
        EdgeLabel::Unlabeled
    }
}

/// The inserted stretch chains by cursor edges: the old cursor enters its
/// first node with the pending label, and each later node hangs off the one
/// before it.
pub open spec fn external_chain(b0: CfgBuilder, b1: CfgBuilder, count: int) -> bool {
    &&& (count > 0 ==> match b0.current_node {
        Some(cur) => has_specific_edge(
            b1.graph,
            cur as int,
            b0.graph.n(),
            pending_label(b0.next_edge_label),
        ),
        None => true,
    })
    &&& forall|k: int|
        1 <= k < count ==> has_specific_edge(
            b1.graph,
            b0.graph.n() + k - 1,
            b0.graph.n() + k,
            chain_label(b0, k),
        )
}

/// The cursor-and-pending state after `done` chained insertions from `b0`.
pub open spec fn chain_state(b0: CfgBuilder, b1: CfgBuilder, done: int) -> bool {
    &&& b1.graph.n() == b0.graph.n() + done
    &&& (done == 0 ==> b1.current_node == b0.current_node && b1.next_edge_label
        == b0.next_edge_label)
    &&& (done > 0 ==> (b1.current_node is Some) && b1.current_node->0 as int == b0.graph.n()
        + done - 1)
    &&& ((done == 1 && b0.current_node is None) ==> b1.next_edge_label == b0.next_edge_label)
    &&& ((done > 1 || (done == 1 && b0.current_node is Some)) ==> b1.next_edge_label is None)
    &&& external_chain(b0, b1, done)
}

/// One more chained insertion keeps the chain state.
proof fn lemma_chain_step(b0: CfgBuilder, bk: CfgBuilder, b1: CfgBuilder, done: int)
    requires
        done >= 0,
        chain_state(b0, bk, done),
        b1.graph.n() == bk.graph.n() + 1,
        (b1.current_node is Some) && b1.current_node->0 as int == bk.graph.n(),
        match bk.current_node {
            Some(cur) => b1.graph.edges@ == bk.graph.edges@.push(
                mk_edge(cur, (bk.graph.n() as usize), pending_label(bk.next_edge_label)),
            ) && (b1.next_edge_label is None),
            None => b1.graph.edges@ == bk.graph.edges@ && b1.next_edge_label
                == bk.next_edge_label,
        },
        bk.graph.n() == bk.graph.nodes@.len() as int,
        bk.graph.nodes@.len() <= usize::MAX,
    ensures
        chain_state(b0, b1, done + 1),
{
    broadcast use vstd::seq_lib::group_seq_properties;

    match bk.current_node {
        Some(cur) => {
            let e = mk_edge(cur, (bk.graph.n() as usize), pending_label(bk.next_edge_label));
            lemma_push_edge_facts(bk.graph.edges@, e);
            assert(has_specific_edge(b1.graph, cur as int, bk.graph.n(), pending_label(
                bk.next_edge_label,
            )));
            assert(bk.graph.edges@.is_prefix_of(b1.graph.edges@)) by {
                assert(bk.graph.edges@ =~= b1.graph.edges@.take(bk.graph.edges@.len() as int));
            }
            if done == 0 {
                // the entry edge from the old cursor
                assert(cur == b0.current_node->0);
            } else {
                // one more link of the chain
                assert(cur as int == b0.graph.n() + done - 1);
                assert(pending_label(bk.next_edge_label) == chain_label(b0, done));
            }
            assert forall|k: int| 1 <= k < done + 1 && k < done implies has_specific_edge(
                b1.graph,
                b0.graph.n() + k - 1,
                b0.graph.n() + k,
                chain_label(b0, k),
            ) by {
                lemma_specific_edge_extend(
                    bk.graph,
                    b1.graph,
                    b0.graph.n() + k - 1,
                    b0.graph.n() + k,
                    chain_label(b0, k),
                );
            }
            if done > 0 {
                match b0.current_node {
                    Some(c0) => {
                        lemma_specific_edge_extend(
                            bk.graph,
                            b1.graph,
                            c0 as int,
                            b0.graph.n(),
                            pending_label(b0.next_edge_label),
                        );
                    },
                    None => {},
                }
            }
        },
        None => {
            assert(done == 0);
        },
    }
}

/// Some node of the stretch added between the two states is the call
/// statement with the given label.
pub open spec fn call_stmt_in(b0: CfgBuilder, b1: CfgBuilder, call_expression: Seq<u8>) -> bool {
    exists|si: int|
        b0.graph.n() <= si < b1.graph.n() && #[trigger] b1.graph.node_at(si) == NodeV::Statement(
            call_prefix() + call_expression,
        )
}

/// Whether some edge carries the back-to-loop label into node `c`.
pub open spec fn has_back_into(g: Cfg, c: int) -> bool {
    exists|j: int|
        0 <= j < g.edges@.len() && (#[trigger] g.edges@[j]).dst as int == c && g.edges@[j].label
            == EdgeLabel::BackToLoop
}

/// What an `if` inserts: its condition node and the merge point the cursor
/// ends on; the `true` edge enters the then-stretch between them (or the
/// merge itself, when the branch inserted nothing) and that stretch rejoins
/// the merge; the `false` edge reaches the merge directly, or enters the
/// else-stretch after it, which also rejoins the merge.
pub open spec fn if_effect(b0: CfgBuilder, b1: CfgBuilder, i: IfStmt) -> bool {
    exists|ci: int, mi: int|
        #![trigger b1.graph.node_at(ci), b1.graph.node_at(mi)]
        {
            &&& b0.graph.n() <= ci && ci < mi && mi < b1.graph.n()
            &&& b1.graph.node_at(ci) == NodeV::Condition(
                if_label_of(b0.next_edge_label, i.cond_text@),
                CondKind::If,
                i.cond@,
            )
            &&& is_merge(b1.graph.node_at(mi))
            &&& (b1.current_node is Some) && b1.current_node->0 as int == mi
            &&& exists|d: int|
                ci < d && d <= mi && has_specific_edge(b1.graph, ci, d, EdgeLabel::True)
            &&& exists|a: int| ci <= a && a < mi && has_edge_to(b1.graph, a, mi)
            &&& exists|d: int|
                (d == mi || (mi < d && d < b1.graph.n())) && has_specific_edge(
                    b1.graph,
                    ci,
                    d,
                    EdgeLabel::False,
                )
            &&& (i.else_branch is Some ==> exists|a: int|
                (a == ci || (mi < a && a < b1.graph.n())) && has_edge_to(b1.graph, a, mi))
            &&& cond_ok(b1.graph, ci)
        }
}

/// What a loop inserts: its condition node, whose `false` edge reaches the
/// exit merge the cursor ends on and whose `true` edge (present whenever the
/// body inserts a node) enters the body stretch between condition and merge;
/// and a back edge, leaving that same stretch, into the invariant the cursor
/// stood on — or into a fresh synthetic cutoff inserted just before the
/// condition.
pub open spec fn loop_effect(
    b0: CfgBuilder,
    b1: CfgBuilder,
    label: Seq<u8>,
    kind: CondKind,
    cv: ExprV,
    body_adds: bool,
) -> bool {
    exists|ci: int, mi: int|
        #![trigger b1.graph.node_at(ci), b1.graph.node_at(mi)]
        {
            &&& b0.graph.n() <= ci && ci < mi && mi < b1.graph.n()
            &&& b1.graph.node_at(ci) == NodeV::Condition(label, kind, cv)
            &&& is_merge(b1.graph.node_at(mi))
            &&& (b1.current_node is Some) && b1.current_node->0 as int == mi
            &&& has_specific_edge(b1.graph, ci, mi, EdgeLabel::False)
            &&& (body_adds ==> exists|d: int|
                ci < d && d < mi && has_specific_edge(b1.graph, ci, d, EdgeLabel::True))
            &&& match b0.current_node {
                Some(c) => if b0.graph.node_at(c as int) is Invariant {
                    exists|a: int|
                        ci <= a && a < mi && has_specific_edge(
                            b1.graph,
                            a,
                            c as int,
                            EdgeLabel::BackToLoop,
                        )
                } else {
                    loop_cutoff_wiring(b0, b1, ci, mi)
                },
                None => loop_cutoff_wiring(b0, b1, ci, mi),
            }
        }
}

/// A fresh cutoff before the condition receives the back edge from the body
/// stretch.
pub open spec fn loop_cutoff_wiring(b0: CfgBuilder, b1: CfgBuilder, ci: int, mi: int) -> bool {
    exists|t: int|
        b0.graph.n() <= t && t < ci && (#[trigger] b1.graph.node_at(t)) is Cutoff && (exists|
            a: int,
        |
            ci <= a && a < mi && has_specific_edge(b1.graph, a, t, EdgeLabel::BackToLoop))
}

/// What one dispatched expression inserts, by its kind. Call arguments and
/// array elements recurse and are covered by the step contract itself.
pub open spec fn expr_effect(b0: CfgBuilder, b1: CfgBuilder, e: SrcExpr) -> bool {
    match e {
        SrcExpr::Other(text) => node_edge_added(b0, b1, NodeV::Statement(text@)),
        SrcExpr::Return(text) => node_edge_added(b0, b1, NodeV::Return(text@)),
        SrcExpr::MethodCall(method, text) => external_effect(
            b0,
            b1,
            method@,
            crate::cleanup::cleaned_text(text@),
        ),
        SrcExpr::MacroCall(name, tokens, text) => if name@ == crate::source::build_cfg_name() {
            b1 == b0
        } else if name@ == crate::print::macro_name_spec(crate::ast::MacroKind::Pre) {
            node_edge_added(
                b0,
                b1,
                NodeV::Precondition(
                    crate::print::bytes_of_tokens(crate::ast::view_tokens(tokens@)),
                    Some(ExprV::MacroCall(crate::ast::MacroKind::Pre, crate::ast::view_tokens(tokens@))),
                ),
            )
        } else if name@ == crate::print::macro_name_spec(crate::ast::MacroKind::Invariant) {
            node_edge_added(
                b0,
                b1,
                NodeV::Invariant(
                    crate::print::bytes_of_tokens(crate::ast::view_tokens(tokens@)),
                    Some(
                        ExprV::MacroCall(
                            crate::ast::MacroKind::Invariant,
                            crate::ast::view_tokens(tokens@),
                        ),
                    ),
                ),
            )
        } else if name@ == crate::print::macro_name_spec(crate::ast::MacroKind::Post) {
            node_edge_added(
                b0,
                b1,
                NodeV::Postcondition(
                    crate::print::bytes_of_tokens(crate::ast::view_tokens(tokens@)),
                    Some(ExprV::MacroCall(crate::ast::MacroKind::Post, crate::ast::view_tokens(tokens@))),
                ),
            )
        } else {
            external_effect(b0, b1, name@ + seq![('!' as u8)], text@)
        },
        SrcExpr::Call(is_vec, args_text, _) => is_vec ==> call_stmt_in(
            b0,
            b1,
            seq![('v' as u8), ('e' as u8), ('c' as u8), ('!' as u8), ('[' as u8)] + args_text@
                + seq![(']' as u8)],
        ),
        SrcExpr::If(i) => if_effect(b0, b1, i),
        SrcExpr::While(w) => loop_effect(
            b0,
            b1,
            while_prefix() + w.cond_text@,
            CondKind::While,
            w.cond@,
            stmts_add_node(w.body@),
        ),
        SrcExpr::For(f) => loop_effect(
            b0,
            b1,
            for_label_of(f.pat_text@, f.iter_text@),
            CondKind::For,
            f.iter@,
            stmts_add_node(f.body@),
        ),
        SrcExpr::Array(_) => true,
    }
}

/// What one dispatched statement inserts, by its kind.
pub open spec fn stmt_effect(b0: CfgBuilder, b1: CfgBuilder, s: SrcStmt) -> bool {
    match s {
        SrcStmt::Local(text) => node_edge_added(b0, b1, NodeV::Statement(text@)),
        SrcStmt::ExprStmt(e) => expr_effect(b0, b1, e),
    }
}

/// The four recognised macro names are pairwise distinct.
proof fn lemma_macro_names_distinct()
    ensures
        crate::print::macro_name_spec(crate::ast::MacroKind::Pre) != crate::print::macro_name_spec(
            crate::ast::MacroKind::Post,
        ),
        crate::print::macro_name_spec(crate::ast::MacroKind::Pre) != crate::print::macro_name_spec(
            crate::ast::MacroKind::Invariant,
        ),
        crate::print::macro_name_spec(crate::ast::MacroKind::Pre)
            != crate::source::build_cfg_name(),
        crate::print::macro_name_spec(crate::ast::MacroKind::Post)
            != crate::print::macro_name_spec(crate::ast::MacroKind::Invariant),
        crate::print::macro_name_spec(crate::ast::MacroKind::Post)
            != crate::source::build_cfg_name(),
        crate::print::macro_name_spec(crate::ast::MacroKind::Invariant)
            != crate::source::build_cfg_name(),
{
    assert(crate::print::macro_name_spec(crate::ast::MacroKind::Invariant)[0] != ('b' as u8));
}

/// Whether a statement is a macro call with the given name.
pub open spec fn is_named_macro_stmt(s: SrcStmt, name: Seq<u8>) -> bool {
    match s {
        SrcStmt::ExprStmt(SrcExpr::MacroCall(nm, _, _)) => nm@ == name,
        _ => false,
    }
}

/// The annotation node a macro statement denotes, of the given kind.
pub open spec fn annotation_view(kind: crate::ast::MacroKind, s: SrcStmt) -> NodeV {
    let tokens = crate::ast::view_tokens(s->ExprStmt_0->MacroCall_1@);
    let text = crate::print::bytes_of_tokens(tokens);
    let e = Some(ExprV::MacroCall(kind, tokens));
    match kind {
        crate::ast::MacroKind::Pre => NodeV::Precondition(text, e),
        crate::ast::MacroKind::Post => NodeV::Postcondition(text, e),
        crate::ast::MacroKind::Invariant => NodeV::Invariant(text, e),
    }
}

/// The deferred postcondition nodes of the first `upto` top-level
/// statements, in source order.
pub open spec fn posts_of(body: Seq<SrcStmt>, upto: int) -> Seq<NodeV>
    decreases upto,
{
    if upto <= 0 {
        Seq::empty()
    } else {
        posts_of(body, upto - 1) + (if is_named_macro_stmt(
            body[upto - 1],
            crate::print::macro_name_spec(crate::ast::MacroKind::Post),
        ) {
            seq![annotation_view(crate::ast::MacroKind::Post, body[upto - 1])]
        } else {
            Seq::<NodeV>::empty()
        })
    }
}

/// Whether a top-level statement is a recognised annotation macro, the
/// gating of function processing.
pub open spec fn is_relevant_stmt(s: SrcStmt) -> bool {
    match s {
        SrcStmt::ExprStmt(SrcExpr::MacroCall(name, _, _)) => name@ == crate::print::macro_name_spec(
            crate::ast::MacroKind::Pre,
        ) || name@ == crate::print::macro_name_spec(crate::ast::MacroKind::Post) || name@
            == crate::print::macro_name_spec(crate::ast::MacroKind::Invariant) || name@
            == crate::source::build_cfg_name(),
        _ => false,
    }
}

/// Whether a function holds a recognised annotation at its top level.
pub open spec fn relevant_fn(f: SrcFn) -> bool {
    exists|k: int| 0 <= k < f.body@.len() && is_relevant_stmt(#[trigger] f.body@[k])
}

/// Graph growth: nodes and their liveness are preserved, edges are appended.
pub open spec fn graph_extends(g0: Cfg, g1: Cfg) -> bool {
    &&& g0.n() <= g1.n()
    &&& forall|i: int| 0 <= i < g0.n() ==> g1.node_at(i) == g0.node_at(i)
    &&& forall|i: int| 0 <= i < g0.n() ==> (g1.alive(i) <==> g0.alive(i))
    &&& g0.edges@.is_prefix_of(g1.edges@)
}

/// A condition node with both branch edges.
pub open spec fn cond_ok(g: Cfg, i: int) -> bool {
    g.has_edge_from(i, EdgeLabel::True) && g.has_edge_from(i, EdgeLabel::False)
}

/// Every condition node at or above `from` has both branch edges.
pub open spec fn conds_ok_from(g: Cfg, from: int) -> bool {
    forall|i: int| from <= i < g.n() && is_condition(g.node_at(i)) ==> cond_ok(g, i)
}

/// What a walk step guarantees about the cursor and the pending label: the
/// first inserted node consumes the pending label into an edge from the old
/// cursor into a node of the inserted stretch; if nothing was inserted, the
/// whole state is untouched.
pub open spec fn step_edge(b0: CfgBuilder, b1: CfgBuilder) -> bool {
    match (b0.current_node, b0.next_edge_label) {
        (Some(cur), Some(l)) => (b1.next_edge_label is None && exists|d: int|
            b0.graph.n() <= d < b1.graph.n() && #[trigger] has_specific_edge(
                b1.graph,
                cur as int,
                d,
                l,
            )) || (b1.graph.nodes@ == b0.graph.nodes@ && b1.graph.edges@ == b0.graph.edges@
            && b1.graph.removed@ == b0.graph.removed@ && b1.current_node == b0.current_node
            && b1.next_edge_label == b0.next_edge_label),
        _ => true,
    }
}

/// The common contract of every walk step. The cursor either stays where it
/// was or lands inside the inserted stretch.
pub open spec fn step_ok(b0: CfgBuilder, b1: CfgBuilder) -> bool {
    &&& binv(b1)
    &&& graph_extends(b0.graph, b1.graph)
    &&& match b0.current_node {
        Some(c0) => b1.current_node is Some && (b1.current_node->0 == c0 || (b0.graph.n()
            <= (b1.current_node->0 as int) && (b1.current_node->0 as int) < b1.graph.n())),
        None => true,
    }
    &&& (b0.next_edge_label is None ==> b1.next_edge_label is None)
    &&& step_edge(b0, b1)
    &&& b1.postconditions@ == b0.postconditions@
}

/// A labelled edge survives appending more edges.
proof fn lemma_has_edge_extend(g0: Cfg, g1: Cfg, i: int, l: EdgeLabel)
    requires
        g0.edges@.is_prefix_of(g1.edges@),
        g0.has_edge_from(i, l),
    ensures
        g1.has_edge_from(i, l),
{
    broadcast use vstd::seq_lib::group_seq_properties;

    let ext = g1.edges@.skip(g0.edges@.len() as int);
    assert(g1.edges@ =~= g0.edges@ + ext);
    Seq::<Edge>::filter_distributes_over_add(g0.edges@, ext, |e: Edge| e.src as int == i);
    let a = crate::cfg::out_edges_spec(g0.edges@, i);
    let b = crate::cfg::out_edges_spec(ext, i);
    let k = choose|k: int| 0 <= k < a.len() && (#[trigger] a[k]).label == l;
    assert((a + b)[k].label == l);
}

/// `step_ok` composes.
proof fn lemma_step_trans(b0: CfgBuilder, b1: CfgBuilder, b2: CfgBuilder)
    requires
        step_ok(b0, b1),
        step_ok(b1, b2),
    ensures
        step_ok(b0, b2),
{
    broadcast use vstd::seq_lib::group_seq_properties;

    assert(b0.graph.edges@.is_prefix_of(b2.graph.edges@)) by {
        assert(b0.graph.edges@ =~= b2.graph.edges@.take(b0.graph.edges@.len() as int));
    }
    match (b0.current_node, b0.next_edge_label) {
        (Some(cur), Some(l)) => {
            if b1.next_edge_label is None && (exists|d: int|
                b0.graph.n() <= d < b1.graph.n() && #[trigger] has_specific_edge(
                    b1.graph,
                    cur as int,
                    d,
                    l,
                )) {
                let d = choose|d: int|
                    b0.graph.n() <= d < b1.graph.n() && #[trigger] has_specific_edge(
                        b1.graph,
                        cur as int,
                        d,
                        l,
                    );
                lemma_specific_edge_extend(b1.graph, b2.graph, cur as int, d, l);
            } else {
                // the first step left everything untouched
                assert(b1.current_node == b0.current_node);
            }
        },
        _ => {},
    }
}

/// Condition wiring carries over a growth step.
proof fn lemma_conds_mono(g0: Cfg, g1: Cfg, from: int)
    requires
        0 <= from,
        graph_extends(g0, g1),
        conds_ok_from(g0, from),
        conds_ok_from(g1, g0.n()),
    ensures
        conds_ok_from(g1, from),
{
    assert forall|i: int|
        from <= i < g1.n() && is_condition(g1.node_at(i)) implies cond_ok(g1, i) by {
        if i < g0.n() {
            assert(is_condition(g0.node_at(i)));
            assert(cond_ok(g0, i));
            lemma_has_edge_extend(g0, g1, i, EdgeLabel::True);
            lemma_has_edge_extend(g0, g1, i, EdgeLabel::False);
        }
    }
}

impl CfgBuilder {
    /// A builder over an empty graph, holding the given contract table.
    pub fn new(external_conditions: ExternalMethods) -> (b: CfgBuilder)
        ensures
            binv(b),
            b.graph.n() == 0,
            b.graph.edges@.len() == 0,
            b.current_node is None,
            b.next_edge_label is None,
            b.postconditions@.len() == 0,
            b.external_conditions == external_conditions,
    {
        CfgBuilder {
            graph: Cfg::new(),
            current_node: None,
            next_edge_label: None,
            external_conditions,
            postconditions: Vec::new(),
        }
    }

    /// Inserts a node and draws an edge from the cursor, consuming the
    /// pending label; moves the cursor to the new node.
    pub fn add_node(&mut self, node: CfgNode) -> (idx: usize)
        requires
            binv(*old(self)),
        ensures
            binv(*final(self)),
            idx == old(self).graph.n(),
            final(self).graph.n() == old(self).graph.n() + 1,
            final(self).graph.nodes@ == old(self).graph.nodes@.push(node),
            final(self).graph.removed@ == old(self).graph.removed@.push(false),
            final(self).current_node == Some(idx),
            final(self).graph.node_at(idx as int) == node@,
            final(self).graph.alive(idx as int),
            graph_extends(old(self).graph, final(self).graph),
            match old(self).current_node {
                Some(cur) => final(self).graph.edges@ == old(self).graph.edges@.push(
                    mk_edge(cur, idx, pending_label(old(self).next_edge_label)),
                ) && (final(self).next_edge_label is None),
                None => final(self).graph.edges@ == old(self).graph.edges@
                    && final(self).next_edge_label == old(self).next_edge_label,
            },
            final(self).postconditions@ == old(self).postconditions@,
            final(self).external_conditions == old(self).external_conditions,
    {
        let idx = self.graph.add_node(node);
        match self.current_node {
            Some(cur) => {
                let lbl = match self.next_edge_label {
                    Some(l) => l,
                    None => EdgeLabel::Unlabeled,
                };
                self.graph.add_edge(cur, idx, lbl);
                self.next_edge_label = None;
            },
            None => {},
        }
        self.current_node = Some(idx);
        proof {
            assert(old(self).graph.edges@.is_prefix_of(self.graph.edges@)) by {
                if old(self).current_node is Some {
                    assert(self.graph.edges@.take(old(self).graph.edges@.len() as int)
                        =~= old(self).graph.edges@);
                } else {
                    assert(self.graph.edges@.take(old(self).graph.edges@.len() as int)
                        =~= old(self).graph.edges@);
                }
            }
        }
        idx
    }

    /// Inserts an isolated node and moves the cursor to it; no edge is
    /// drawn and the pending label is kept.
    pub fn add_node_without_edge(&mut self, node: CfgNode) -> (idx: usize)
        requires
            binv(*old(self)),
        ensures
            binv(*final(self)),
            idx == old(self).graph.n(),
            final(self).graph.n() == old(self).graph.n() + 1,
            final(self).graph.nodes@ == old(self).graph.nodes@.push(node),
            final(self).graph.removed@ == old(self).graph.removed@.push(false),
            final(self).graph.edges@ == old(self).graph.edges@,
            final(self).current_node == Some(idx),
            final(self).next_edge_label == old(self).next_edge_label,
            final(self).graph.node_at(idx as int) == node@,
            final(self).graph.alive(idx as int),
            graph_extends(old(self).graph, final(self).graph),
            final(self).postconditions@ == old(self).postconditions@,
            final(self).external_conditions == old(self).external_conditions,
    {
        let idx = self.graph.add_node(node);
        self.current_node = Some(idx);
        proof {
            assert(self.graph.edges@.take(old(self).graph.edges@.len() as int) =~= old(
                self,
            ).graph.edges@);
        }
        idx
    }

    /// Draws an edge between two existing nodes.
    pub fn add_edge_with_label(&mut self, from: usize, to: usize, label: EdgeLabel)
        requires
            binv(*old(self)),
            old(self).graph.alive(from as int),
            old(self).graph.alive(to as int),
        ensures
            binv(*final(self)),
            final(self).graph.nodes@ == old(self).graph.nodes@,
            final(self).graph.removed@ == old(self).graph.removed@,
            final(self).graph.edges@ == old(self).graph.edges@.push(mk_edge(from, to, label)),
            final(self).current_node == old(self).current_node,
            final(self).next_edge_label == old(self).next_edge_label,
            graph_extends(old(self).graph, final(self).graph),
            final(self).graph.has_edge_from(from as int, label),
            final(self).postconditions@ == old(self).postconditions@,
            final(self).external_conditions == old(self).external_conditions,
    {
        self.graph.add_edge(from, to, label);
        proof {
            assert(self.graph.edges@.take(old(self).graph.edges@.len() as int) =~= old(
                self,
            ).graph.edges@);
            let k = self.graph.edges@.len() - 1;
            assert(crate::cfg::out_edges_spec(self.graph.edges@, from as int).contains(
                self.graph.edges@[k],
            )) by {
                self.graph.edges@.lemma_filter_contains(
                    |e: Edge| e.src as int == from as int,
                    k,
                );
            }
            let oe = crate::cfg::out_edges_spec(self.graph.edges@, from as int);
            let w = choose|w: int| 0 <= w < oe.len() && oe[w] == self.graph.edges@[k];
            assert(oe[w].label == label);
        }
    }

    /// Appends the deferred postconditions, in insertion order, and clears
    /// the buffer.
    pub fn add_postconditions(&mut self)
        requires
            binv(*old(self)),
        ensures
            binv(*final(self)),
            graph_extends(old(self).graph, final(self).graph),
            forall|i: int|
                old(self).graph.n() <= i < final(self).graph.n() ==> !is_condition(
                    final(self).graph.node_at(i),
                ),
            final(self).postconditions@.len() == 0,
            old(self).current_node is Some ==> final(self).current_node is Some,
            final(self).external_conditions == old(self).external_conditions,
            // the buffered nodes are appended, in insertion order
            final(self).graph.n() == old(self).graph.n() + old(self).postconditions@.len(),
            forall|k: int|
                0 <= k < old(self).postconditions@.len() ==> final(self).graph.node_at(
                    old(self).graph.n() + k,
                ) == (#[trigger] old(self).postconditions@[k])@,
    {
        let ghost b0 = *self;
        while self.postconditions.len() > 0
            invariant
                binv(*self),
                graph_extends(b0.graph, self.graph),
                forall|i: int|
                    b0.graph.n() <= i < self.graph.n() ==> !is_condition(
                        self.graph.node_at(i),
                    ),
                b0.current_node is Some ==> self.current_node is Some,
                self.external_conditions == b0.external_conditions,
                self.postconditions@ =~= b0.postconditions@.skip(
                    b0.postconditions@.len() - self.postconditions@.len(),
                ),
                self.graph.n() == b0.graph.n() + b0.postconditions@.len()
                    - self.postconditions@.len(),
                forall|k: int|
                    0 <= k < b0.postconditions@.len() - self.postconditions@.len()
                        ==> self.graph.node_at(b0.graph.n() + k) == (
                    #[trigger] b0.postconditions@[k])@,
            decreases self.postconditions@.len(),
        {
            let ghost c = b0.postconditions@.len() - self.postconditions@.len();
            let pc = self.postconditions.remove(0);
            proof {
                assert(pc == b0.postconditions@[c]);
                assert(self.postconditions@ =~= b0.postconditions@.skip(c + 1));
            }
            self.add_node(pc);
            proof {
                assert(graph_extends(b0.graph, self.graph)) by {
                    assert(b0.graph.edges@ =~= self.graph.edges@.take(
                        b0.graph.edges@.len() as int,
                    ));
                }
            }
        }
    }
}

} // verus!

verus! {

/// `step_ok` is reflexive on any state satisfying the invariant.
proof fn lemma_step_refl(b: CfgBuilder)
    requires
        binv(b),
    ensures
        step_ok(b, b),
{
    assert(b.graph.edges@.is_prefix_of(b.graph.edges@)) by {
        assert(b.graph.edges@.take(b.graph.edges@.len() as int) =~= b.graph.edges@);
    }
}

/// Byte-vector concatenation.
pub fn bytes_concat(a: &[u8], b: &[u8]) -> (r: Vec<u8>)
    ensures
        r@ == a@ + b@,
{
    let mut r: Vec<u8> = Vec::new();
    let mut i: usize = 0;
    while i < a.len()
        invariant
            0 <= i <= a@.len(),
            r@ == a@.take(i as int),
        decreases a@.len() - i,
    {
        r.push(a[i]);
        proof {
            assert(a@.take(i as int + 1) =~= a@.take(i as int).push(a@[i as int]));
        }
        i += 1;
    }
    let mut j: usize = 0;
    while j < b.len()
        invariant
            0 <= j <= b@.len(),
            r@ == a@.take(a@.len() as int) + b@.take(j as int),
        decreases b@.len() - j,
    {
        r.push(b[j]);
        proof {
            assert(b@.take(j as int + 1) =~= b@.take(j as int).push(b@[j as int]));
            assert(a@.take(a@.len() as int) + b@.take(j as int + 1) =~= (a@.take(
                a@.len() as int,
            ) + b@.take(j as int)).push(b@[j as int]));
        }
        j += 1;
    }
    proof {
        assert(a@.take(a@.len() as int) =~= a@);
        assert(b@.take(b@.len() as int) =~= b@);
    }
    r
}

impl CfgBuilder {
    /// An annotation node's text and expression: the text is the printed
    /// argument stream, the expression the macro itself, whose tokens the
    /// substitution of the calculus rewrites token by token.
    fn annotation_parts(&self, kind: crate::ast::MacroKind, tokens: &Vec<Token>) -> (r: (
        Vec<u8>,
        Option<Expr>,
    ))
        ensures
            r.0@ == crate::print::bytes_of_tokens(crate::ast::view_tokens(tokens@)),
            r.1 is Some && r.1->0@ == ExprV::MacroCall(kind, crate::ast::view_tokens(tokens@)),
    {
        let text = tokens_to_bytes(tokens);
        let dup = crate::ast::duplicate_tokens(tokens);
        let e = Expr::MacroCall(kind, dup);
        proof {
            assert(e@ == ExprV::MacroCall(kind, crate::ast::view_tokens(tokens@)));
        }
        (text, Some(e))
    }

    /// Inserts the contract nodes around an externally specified call: its
    /// preconditions, the call statement, then its postconditions. An unknown
    /// name yields the call statement alone.
    #[verifier::rlimit(100)]
    #[verifier::spinoff_prover]
    pub fn process_external_conditions(&mut self, name: &[u8], call_expression: Vec<u8>)
        requires
            binv(*old(self)),
        ensures
            step_ok(*old(self), *final(self)),
            conds_ok_from(final(self).graph, old(self).graph.n()),
            final(self).graph.n() > old(self).graph.n(),
            final(self).external_conditions == old(self).external_conditions,
            external_effect(*old(self), *final(self), name@, call_expression@),
    {
        let ghost b0 = *self;
        let mut call_label: Vec<u8> = Vec::new();
        call_label.push(('C' as u8));
        call_label.push(('a' as u8));
        call_label.push(('l' as u8));
        call_label.push(('l' as u8));
        call_label.push((':' as u8));
        call_label.push((' ' as u8));
        let call_label = bytes_concat(call_label.as_slice(), call_expression.as_slice());
        proof {
            assert(call_label@ =~= call_prefix() + call_expression@);
        }
        let ghost label = call_label@;
        let found = self.external_conditions.find(name);
        match found {
            Some(idx) => {
                let ghost m = b0.external_conditions.external_methods@[idx as int];
                let n_pre = self.external_conditions.external_methods[idx].preconditions.len();
                let mut j: usize = 0;
                while j < n_pre
                    invariant
                        binv(*self),
                        step_ok(b0, *self),
                        conds_ok_from(self.graph, b0.graph.n()),
                        self.external_conditions == b0.external_conditions,
                        self.current_node is Some || b0.current_node is None,
                        idx < self.external_conditions.external_methods@.len(),
                        m == b0.external_conditions.external_methods@[idx as int],
                        n_pre == self.external_conditions.external_methods@[
                            idx as int
                        ].preconditions@.len(),
                        0 <= j <= n_pre,
                        self.graph.n() == b0.graph.n() + j,
                        chain_state(b0, *self, j as int),
                        forall|k: int|
                            0 <= k < j ==> self.graph.node_at(b0.graph.n() + k)
                                == NodeV::Precondition(
                                (#[trigger] m.preconditions@[k])@,
                                crate::parse::parse_text_spec(m.preconditions@[k]@),
                            ),
                    decreases n_pre - j,
                {
                    let ghost bk = *self;
                    let text = self.external_conditions.external_methods[idx].preconditions[
                        j
                    ].clone();
                    proof {
                        assert(text@ =~= m.preconditions@[j as int]@);
                    }
                    let parsed = crate::parse::parse_formula_text(text.as_slice());
                    let ghost textv = text@;
                    let nidx = self.add_node(CfgNode::new_precondition(text, parsed));
                    proof {
                        lemma_chain_step(b0, bk, *self, j as int);
                        assert(self.graph.node_at(b0.graph.n() + j) == NodeV::Precondition(
                            m.preconditions@[j as int]@,
                            crate::parse::parse_text_spec(m.preconditions@[j as int]@),
                        ));
                        assert(step_ok(bk, *self)) by {
                            match (bk.current_node, bk.next_edge_label) {
                                (Some(cur), Some(l)) => {
                                    lemma_push_edge_facts(
                                        bk.graph.edges@,
                                        mk_edge(cur, nidx, pending_label(bk.next_edge_label)),
                                    );
                                    assert(has_specific_edge(
                                        self.graph,
                                        cur as int,
                                        nidx as int,
                                        l,
                                    ));
                                },
                                _ => {},
                            }
                        }
                        lemma_step_trans(b0, bk, *self);
                        lemma_conds_mono(bk.graph, self.graph, b0.graph.n());
                    }
                    j += 1;
                }
                let ghost bk = *self;
                let nidx = self.add_node(CfgNode::new_statement(call_label));
                proof {
                    lemma_chain_step(b0, bk, *self, m.preconditions@.len() as int);
                    assert(self.graph.node_at(b0.graph.n() + m.preconditions@.len())
                        == NodeV::Statement(label));
                    assert(step_ok(bk, *self)) by {
                        match (bk.current_node, bk.next_edge_label) {
                            (Some(cur), Some(l)) => {
                                lemma_push_edge_facts(
                                    bk.graph.edges@,
                                    mk_edge(cur, nidx, pending_label(bk.next_edge_label)),
                                );
                                assert(has_specific_edge(
                                    self.graph,
                                    cur as int,
                                    nidx as int,
                                    l,
                                ));
                            },
                            _ => {},
                        }
                    }
                    lemma_step_trans(b0, bk, *self);
                    lemma_conds_mono(bk.graph, self.graph, b0.graph.n());
                }
                let n_post = self.external_conditions.external_methods[idx].postconditions.len();
                let mut j: usize = 0;
                while j < n_post
                    invariant
                        binv(*self),
                        step_ok(b0, *self),
                        conds_ok_from(self.graph, b0.graph.n()),
                        self.graph.n() > b0.graph.n(),
                        self.external_conditions == b0.external_conditions,
                        idx < self.external_conditions.external_methods@.len(),
                        m == b0.external_conditions.external_methods@[idx as int],
                        n_post == self.external_conditions.external_methods@[
                            idx as int
                        ].postconditions@.len(),
                        0 <= j <= n_post,
                        self.graph.n() == b0.graph.n() + m.preconditions@.len() + 1 + j,
                        chain_state(b0, *self, m.preconditions@.len() + 1 + j),
                        forall|k: int|
                            0 <= k < m.preconditions@.len() ==> self.graph.node_at(
                                b0.graph.n() + k,
                            ) == NodeV::Precondition(
                                (#[trigger] m.preconditions@[k])@,
                                crate::parse::parse_text_spec(m.preconditions@[k]@),
                            ),
                        self.graph.node_at(b0.graph.n() + m.preconditions@.len())
                            == NodeV::Statement(label),
                        forall|k: int|
                            0 <= k < j ==> self.graph.node_at(
                                b0.graph.n() + m.preconditions@.len() + 1 + k,
                            ) == NodeV::Postcondition(
                                (#[trigger] m.postconditions@[k])@,
                                crate::parse::parse_text_spec(m.postconditions@[k]@),
                            ),
                    decreases n_post - j,
                {
                    let ghost bk = *self;
                    let text = self.external_conditions.external_methods[idx].postconditions[
                        j
                    ].clone();
                    proof {
                        assert(text@ =~= m.postconditions@[j as int]@);
                    }
                    let parsed = crate::parse::parse_formula_text(text.as_slice());
                    let nidx = self.add_node(CfgNode::new_postcondition(text, parsed));
                    proof {
                        lemma_chain_step(
                            b0,
                            bk,
                            *self,
                            m.preconditions@.len() + 1 + j,
                        );
                        assert(self.graph.node_at(
                            b0.graph.n() + m.preconditions@.len() + 1 + j,
                        ) == NodeV::Postcondition(
                            m.postconditions@[j as int]@,
                            crate::parse::parse_text_spec(m.postconditions@[j as int]@),
                        ));
                        assert(step_ok(bk, *self)) by {
                            match (bk.current_node, bk.next_edge_label) {
                                (Some(cur), Some(l)) => {
                                    lemma_push_edge_facts(
                                        bk.graph.edges@,
                                        mk_edge(cur, nidx, pending_label(bk.next_edge_label)),
                                    );
                                    assert(has_specific_edge(
                                        self.graph,
                                        cur as int,
                                        nidx as int,
                                        l,
                                    ));
                                },
                                _ => {},
                            }
                        }
                        lemma_step_trans(b0, bk, *self);
                        lemma_conds_mono(bk.graph, self.graph, b0.graph.n());
                    }
                    j += 1;
                }
            },
            None => {
                let nidx = self.add_node(CfgNode::new_statement(call_label));
                proof {
                    lemma_chain_step(b0, b0, *self, 0);
                    assert(self.graph.node_at(b0.graph.n()) == NodeV::Statement(label));
                    assert(step_ok(b0, *self)) by {
                        match (b0.current_node, b0.next_edge_label) {
                            (Some(cur), Some(l)) => {
                                lemma_push_edge_facts(
                                    b0.graph.edges@,
                                    mk_edge(cur, nidx, pending_label(b0.next_edge_label)),
                                );
                                assert(has_specific_edge(
                                    self.graph,
                                    cur as int,
                                    nidx as int,
                                    l,
                                ));
                            },
                            _ => {},
                        }
                    }
                }
            },
        }
    }

    /// Routes a macro call through the external-contract table under the
    /// name `name!`.
    pub fn process_macro(&mut self, name: &[u8], text: &Vec<u8>)
        requires
            binv(*old(self)),
        ensures
            step_ok(*old(self), *final(self)),
            conds_ok_from(final(self).graph, old(self).graph.n()),
            final(self).graph.n() > old(self).graph.n(),
            final(self).external_conditions == old(self).external_conditions,
            external_effect(*old(self), *final(self), name@ + seq![('!' as u8)], text@),
    {
        let mut bang: Vec<u8> = Vec::new();
        bang.push(('!' as u8));
        let macro_name = bytes_concat(name, bang.as_slice());
        proof {
            assert(macro_name@ =~= name@ + seq![('!' as u8)]);
        }
        self.process_external_conditions(macro_name.as_slice(), text.clone());
    }

    /// Treats the vector-literal macro as a call: `vec![args]` goes through
    /// the contract table under the name `vec!`.
    pub fn process_macro_call_as_function(&mut self, args_text: &Vec<u8>)
        requires
            binv(*old(self)),
        ensures
            step_ok(*old(self), *final(self)),
            conds_ok_from(final(self).graph, old(self).graph.n()),
            final(self).graph.n() > old(self).graph.n(),
            final(self).external_conditions == old(self).external_conditions,
            external_effect(
                *old(self),
                *final(self),
                seq![('v' as u8), ('e' as u8), ('c' as u8), ('!' as u8)],
                seq![('v' as u8), ('e' as u8), ('c' as u8), ('!' as u8), ('[' as u8)]
                    + args_text@ + seq![(']' as u8)],
            ),
    {
        let mut name: Vec<u8> = Vec::new();
        name.push(('v' as u8));
        name.push(('e' as u8));
        name.push(('c' as u8));
        name.push(('!' as u8));
        let mut open_b: Vec<u8> = Vec::new();
        open_b.push(('[' as u8));
        let mut close_b: Vec<u8> = Vec::new();
        close_b.push((']' as u8));
        let head = bytes_concat(name.as_slice(), open_b.as_slice());
        let with_args = bytes_concat(head.as_slice(), args_text.as_slice());
        let call_expression = bytes_concat(with_args.as_slice(), close_b.as_slice());
        proof {
            assert(name@ =~= seq![('v' as u8), ('e' as u8), ('c' as u8), ('!' as u8)]);
            assert(call_expression@ =~= seq![
                ('v' as u8), ('e' as u8), ('c' as u8), ('!' as u8), ('[' as u8),
            ] + args_text@ + seq![(']' as u8)]);
        }
        self.process_external_conditions(name.as_slice(), call_expression);
    }

    /// Inserts a method call: when the contract table knows the method, its
    /// preconditions and postconditions bracket the call statement.
    pub fn handle_method_call(&mut self, method: &Vec<u8>, text: &Vec<u8>)
        requires
            binv(*old(self)),
        ensures
            step_ok(*old(self), *final(self)),
            conds_ok_from(final(self).graph, old(self).graph.n()),
            final(self).graph.n() > old(self).graph.n(),
            final(self).external_conditions == old(self).external_conditions,
            external_effect(
                *old(self),
                *final(self),
                method@,
                crate::cleanup::cleaned_text(text@),
            ),
    {
        let cleaned = crate::cleanup::clean_up_formatting(text.as_slice());
        self.process_external_conditions(method.as_slice(), cleaned);
    }

    /// Inserts a return node.
    pub fn handle_return_statement(&mut self, ret_text: &Vec<u8>)
        requires
            binv(*old(self)),
        ensures
            step_ok(*old(self), *final(self)),
            conds_ok_from(final(self).graph, old(self).graph.n()),
            final(self).graph.n() > old(self).graph.n(),
            final(self).external_conditions == old(self).external_conditions,
            node_edge_added(*old(self), *final(self), NodeV::Return(ret_text@)),
    {
        let ghost b0 = *self;
        let nidx = self.add_node(CfgNode::new_return(ret_text.clone()));
        proof {
            assert(step_ok(b0, *self)) by {
                match (b0.current_node, b0.next_edge_label) {
                    (Some(cur), Some(l)) => {
                        lemma_push_edge_facts(
                            b0.graph.edges@,
                            mk_edge(cur, nidx, pending_label(b0.next_edge_label)),
                        );
                        assert(has_specific_edge(
                            self.graph,
                            cur as int,
                            nidx as int,
                            l,
                        ));
                    },
                    _ => {},
                }
            }
            assert(node_edge_added(b0, *self, NodeV::Return(ret_text@))) by {
                match b0.current_node {
                    Some(cur) => {
                        assert(self.graph.edges@.drop_last() =~= b0.graph.edges@);
                    },
                    None => {},
                }
            }
        }
    }
}

} // verus!

verus! {

/// Graph growth is reflexive.
proof fn lemma_extends_refl(g: Cfg)
    ensures
        graph_extends(g, g),
{
    assert(g.edges@.is_prefix_of(g.edges@)) by {
        assert(g.edges@.take(g.edges@.len() as int) =~= g.edges@);
    }
}

/// Graph growth composes.
pub proof fn lemma_graph_extends_trans_pub(g0: Cfg, g1: Cfg, g2: Cfg)
    requires
        graph_extends(g0, g1),
        graph_extends(g1, g2),
    ensures
        graph_extends(g0, g2),
{
    lemma_extends_trans(g0, g1, g2);
}

proof fn lemma_extends_trans(g0: Cfg, g1: Cfg, g2: Cfg)
    requires
        graph_extends(g0, g1),
        graph_extends(g1, g2),
    ensures
        graph_extends(g0, g2),
{
    broadcast use vstd::seq_lib::group_seq_properties;

    assert(g0.edges@.is_prefix_of(g2.edges@)) by {
        assert(g0.edges@ =~= g2.edges@.take(g0.edges@.len() as int));
    }
}

impl CfgBuilder {
    /// Walks every statement of a block, in order.
    pub fn visit_block(&mut self, stmts: &Vec<SrcStmt>)
        requires
            binv(*old(self)),
        ensures
            step_ok(*old(self), *final(self)),
            loops_ok_stmts(stmts@) ==> conds_ok_from(final(self).graph, old(self).graph.n()),
            stmts_add_node(stmts@) ==> final(self).graph.n() > old(self).graph.n(),
            final(self).external_conditions == old(self).external_conditions,
        decreases stmts@, 0int,
    {
        let ghost b0 = *self;
        proof {
            lemma_step_refl(b0);
        }
        let mut k: usize = 0;
        while k < stmts.len()
            invariant
                binv(*self),
                step_ok(b0, *self),
                0 <= k <= stmts@.len(),
                loops_ok_stmts(stmts@) ==> conds_ok_from(self.graph, b0.graph.n()),
                stmts_add_node(stmts@.take(k as int)) ==> self.graph.n() > b0.graph.n(),
                self.external_conditions == b0.external_conditions,
            decreases stmts@.len() - k,
        {
            let ghost bk = *self;
            proof {
                assert(stmts@.skip(0) =~= stmts@);
                assert(decreases_to!(stmts@ => stmts@[k as int]));
            }
            self.visit_stmt(&stmts[k]);
            proof {
                lemma_step_trans(b0, bk, *self);
                if loops_ok_stmts(stmts@) {
                    crate::source::lemma_loops_ok_stmts_index(stmts@, k as int);
                    lemma_conds_mono(bk.graph, self.graph, b0.graph.n());
                }
                crate::source::lemma_stmts_add_snoc(stmts@, k as int);
            }
            k += 1;
        }
        proof {
            assert(stmts@.take(stmts@.len() as int) =~= stmts@);
        }
    }

    /// Walks every expression of a list, in order.
    pub fn visit_expr_list(&mut self, es: &Vec<SrcExpr>)
        requires
            binv(*old(self)),
        ensures
            step_ok(*old(self), *final(self)),
            loops_ok_exprs(es@) ==> conds_ok_from(final(self).graph, old(self).graph.n()),
            exprs_add_node(es@) ==> final(self).graph.n() > old(self).graph.n(),
            final(self).external_conditions == old(self).external_conditions,
        decreases es@, 0int,
    {
        let ghost b0 = *self;
        proof {
            lemma_step_refl(b0);
        }
        let mut k: usize = 0;
        while k < es.len()
            invariant
                binv(*self),
                step_ok(b0, *self),
                0 <= k <= es@.len(),
                loops_ok_exprs(es@) ==> conds_ok_from(self.graph, b0.graph.n()),
                exprs_add_node(es@.take(k as int)) ==> self.graph.n() > b0.graph.n(),
                self.external_conditions == b0.external_conditions,
            decreases es@.len() - k,
        {
            let ghost bk = *self;
            proof {
                assert(decreases_to!(es@ => es@[k as int]));
            }
            self.visit_expr(&es[k]);
            proof {
                lemma_step_trans(b0, bk, *self);
                if loops_ok_exprs(es@) {
                    crate::source::lemma_loops_ok_exprs_index(es@, k as int);
                    lemma_conds_mono(bk.graph, self.graph, b0.graph.n());
                }
                crate::source::lemma_exprs_add_snoc(es@, k as int);
            }
            k += 1;
        }
        proof {
            assert(es@.take(es@.len() as int) =~= es@);
        }
    }

    /// Dispatches one statement.
    pub fn visit_stmt(&mut self, s: &SrcStmt)
        requires
            binv(*old(self)),
        ensures
            step_ok(*old(self), *final(self)),
            loops_ok_stmt(*s) ==> conds_ok_from(final(self).graph, old(self).graph.n()),
            stmt_adds_node(*s) ==> final(self).graph.n() > old(self).graph.n(),
            final(self).external_conditions == old(self).external_conditions,
            stmt_effect(*old(self), *final(self), *s),
        decreases *s, 0int,
    {
        let ghost b0 = *self;
        match s {
            SrcStmt::Local(text) => {
                let nidx = self.add_node(CfgNode::new_statement(text.clone()));
                proof {
                    assert(step_ok(b0, *self)) by {
                        match (b0.current_node, b0.next_edge_label) {
                            (Some(cur), Some(l)) => {
                                lemma_push_edge_facts(
                                    b0.graph.edges@,
                                    mk_edge(cur, nidx, pending_label(b0.next_edge_label)),
                                );
                                assert(has_specific_edge(
                                    self.graph,
                                    cur as int,
                                    nidx as int,
                                    l,
                                ));
                            },
                            _ => {},
                        }
                    }
                    assert(node_edge_added(b0, *self, NodeV::Statement(text@))) by {
                        match b0.current_node {
                            Some(cur) => {
                                assert(self.graph.edges@.drop_last() =~= b0.graph.edges@);
                            },
                            None => {},
                        }
                    }
                }
            },
            SrcStmt::ExprStmt(e) => {
                self.visit_expr(e);
            },
        }
    }

    /// Dispatches one expression: branches, loops, returns, calls, macros,
    /// array literals, or a plain statement node.
    pub fn visit_expr(&mut self, e: &SrcExpr)
        requires
            binv(*old(self)),
        ensures
            step_ok(*old(self), *final(self)),
            loops_ok_expr(*e) ==> conds_ok_from(final(self).graph, old(self).graph.n()),
            expr_adds_node(*e) ==> final(self).graph.n() > old(self).graph.n(),
            final(self).external_conditions == old(self).external_conditions,
            expr_effect(*old(self), *final(self), *e),
        decreases *e, 0int,
    {
        let ghost b0 = *self;
        match e {
            SrcExpr::If(i) => {
                self.handle_if_statement(i);
            },
            SrcExpr::While(w) => {
                self.handle_while_loop(w);
            },
            SrcExpr::For(f) => {
                self.handle_for_loop(f);
            },
            SrcExpr::Return(text) => {
                self.handle_return_statement(text);
            },
            SrcExpr::Call(is_vec, args_text, args) => {
                self.handle_call(*is_vec, args_text, args);
            },
            SrcExpr::MethodCall(method, text) => {
                self.handle_method_call(method, text);
            },
            SrcExpr::MacroCall(name, tokens, text) => {
                let pre_kw = crate::print::macro_name_bytes(crate::ast::MacroKind::Pre);
                let inv_kw = crate::print::macro_name_bytes(crate::ast::MacroKind::Invariant);
                let post_kw = crate::print::macro_name_bytes(crate::ast::MacroKind::Post);
                let mut bc_kw: Vec<u8> = Vec::new();
                bc_kw.push(('b' as u8));
                bc_kw.push(('u' as u8));
                bc_kw.push(('i' as u8));
                bc_kw.push(('l' as u8));
                bc_kw.push(('d' as u8));
                bc_kw.push(('_' as u8));
                bc_kw.push(('c' as u8));
                bc_kw.push(('f' as u8));
                bc_kw.push(('g' as u8));
                proof {
                    assert(bc_kw@ =~= crate::source::build_cfg_name());
                }
                if crate::bytes_eq(name.as_slice(), bc_kw.as_slice()) {
                    // a directive for upstream tools: no effect
                    proof {
                        lemma_step_refl(b0);
                        assert(*self == b0);
                    }
                } else {
                    let node = if crate::bytes_eq(name.as_slice(), pre_kw.as_slice()) {
                        let (t, p) = self.annotation_parts(crate::ast::MacroKind::Pre, tokens);
                        Some(CfgNode::new_precondition(t, p))
                    } else if crate::bytes_eq(name.as_slice(), inv_kw.as_slice()) {
                        let (t, p) = self.annotation_parts(
                            crate::ast::MacroKind::Invariant,
                            tokens,
                        );
                        Some(CfgNode::new_invariant(t, p))
                    } else if crate::bytes_eq(name.as_slice(), post_kw.as_slice()) {
                        let (t, p) = self.annotation_parts(crate::ast::MacroKind::Post, tokens);
                        Some(CfgNode::new_postcondition(t, p))
                    } else {
                        None
                    };
                    match node {
                        Some(n) => {
                            let ghost is_cond = n@ is Condition;
                            let ghost nv = n@;
                            proof {
                                assert(!is_cond);
                            }
                            let nidx = self.add_node(n);
                            proof {
                                assert(step_ok(b0, *self)) by {
                                    match (b0.current_node, b0.next_edge_label) {
                                        (Some(cur), Some(l)) => {
                                            lemma_push_edge_facts(
                                                b0.graph.edges@,
                                                mk_edge(cur, nidx, pending_label(b0.next_edge_label)),
                                            );
                                            assert(has_specific_edge(
                                                self.graph,
                                                cur as int,
                                                nidx as int,
                                                l,
                                            ));
                                        },
                                        _ => {},
                                    }
                                }
                                assert(node_edge_added(b0, *self, nv)) by {
                                    match b0.current_node {
                                        Some(cur) => {
                                            assert(self.graph.edges@.drop_last()
                                                =~= b0.graph.edges@);
                                        },
                                        None => {},
                                    }
                                }
                            }
                        },
                        None => {
                            self.process_macro(name.as_slice(), text);
                        },
                    }
                }
            },
            SrcExpr::Array(elems) => {
                self.visit_expr_list(elems);
            },
            SrcExpr::Other(text) => {
                let nidx = self.add_node(CfgNode::new_statement(text.clone()));
                proof {
                    assert(step_ok(b0, *self)) by {
                        match (b0.current_node, b0.next_edge_label) {
                            (Some(cur), Some(l)) => {
                                lemma_push_edge_facts(
                                    b0.graph.edges@,
                                    mk_edge(cur, nidx, pending_label(b0.next_edge_label)),
                                );
                                assert(has_specific_edge(
                                    self.graph,
                                    cur as int,
                                    nidx as int,
                                    l,
                                ));
                            },
                            _ => {},
                        }
                    }
                    assert(node_edge_added(b0, *self, NodeV::Statement(text@))) by {
                        match b0.current_node {
                            Some(cur) => {
                                assert(self.graph.edges@.drop_last() =~= b0.graph.edges@);
                            },
                            None => {},
                        }
                    }
                }
            },
        }
    }

    /// A free function call: the vector-literal macro goes through the
    /// contract table; the arguments are visited for nested annotations.
    pub fn handle_call(&mut self, is_vec: bool, args_text: &Vec<u8>, args: &Vec<SrcExpr>)
        requires
            binv(*old(self)),
        ensures
            step_ok(*old(self), *final(self)),
            loops_ok_exprs(args@) ==> conds_ok_from(final(self).graph, old(self).graph.n()),
            (is_vec || exprs_add_node(args@)) ==> final(self).graph.n() > old(self).graph.n(),
            final(self).external_conditions == old(self).external_conditions,
            is_vec ==> call_stmt_in(
                *old(self),
                *final(self),
                seq![('v' as u8), ('e' as u8), ('c' as u8), ('!' as u8), ('[' as u8)]
                    + args_text@ + seq![(']' as u8)],
            ),
        decreases args@, 1int,
    {
        let ghost b0 = *self;
        if is_vec {
            self.process_macro_call_as_function(args_text);
        } else {
            proof {
                lemma_step_refl(b0);
            }
        }
        let ghost b1 = *self;
        self.visit_expr_list(args);
        proof {
            lemma_step_trans(b0, b1, *self);
            if loops_ok_exprs(args@) {
                lemma_conds_mono(b1.graph, self.graph, b0.graph.n());
            }
            if is_vec {
                let ghost expr_text = seq![
                    ('v' as u8), ('e' as u8), ('c' as u8), ('!' as u8), ('[' as u8),
                ] + args_text@ + seq![(']' as u8)];
                let ghost vec_name = seq![('v' as u8), ('e' as u8), ('c' as u8), ('!' as u8)];
                assert(call_stmt_in(b0, *self, expr_text)) by {
                    match crate::contracts::find_spec(
                        b0.external_conditions.external_methods@,
                        vec_name,
                    ) {
                        Some(i) => {
                            let si = b0.graph.n()
                                + b0.external_conditions.external_methods@[i].preconditions@.len();
                            assert(b1.graph.node_at(si) == NodeV::Statement(
                                call_prefix() + expr_text,
                            ));
                            assert(self.graph.node_at(si) == b1.graph.node_at(si));
                        },
                        None => {
                            let si = b0.graph.n();
                            assert(b1.graph.node_at(si) == NodeV::Statement(
                                call_prefix() + expr_text,
                            ));
                            assert(self.graph.node_at(si) == b1.graph.node_at(si));
                        },
                    }
                }
            }
        }
    }
}

} // verus!

verus! {

impl CfgBuilder {
    /// An `if`: a condition node, the true branch, a merge point, then the
    /// false branch (or a direct `false` edge). The condition node ends up
    /// with both branch edges.
    #[verifier::rlimit(100)]
    #[verifier::spinoff_prover]
    pub fn handle_if_statement(&mut self, i: &IfStmt)
        requires
            binv(*old(self)),
        ensures
            step_ok(*old(self), *final(self)),
            loops_ok_if(*i) ==> conds_ok_from(final(self).graph, old(self).graph.n()),
            final(self).graph.n() > old(self).graph.n(),
            final(self).external_conditions == old(self).external_conditions,
            if_effect(*old(self), *final(self), *i),
        decreases *i, 0int,
    {
        let ghost b0 = *self;
        let is_else_if = match self.next_edge_label {
            Some(EdgeLabel::False) => true,
            _ => false,
        };
        proof {
            assert(is_else_if == (b0.next_edge_label == Some(EdgeLabel::False)));
        }
        let mut prefix: Vec<u8> = Vec::new();
        if is_else_if {
            prefix.push(('e' as u8));
            prefix.push(('l' as u8));
            prefix.push(('s' as u8));
            prefix.push(('e' as u8));
            prefix.push((' ' as u8));
        }
        prefix.push(('i' as u8));
        prefix.push(('f' as u8));
        prefix.push((':' as u8));
        prefix.push((' ' as u8));
        let label = bytes_concat(prefix.as_slice(), i.cond_text.as_slice());
        proof {
            if is_else_if {
                assert(prefix@ =~= else_if_prefix());
            } else {
                assert(prefix@ =~= if_prefix());
            }
            assert(label@ == if_label_of(b0.next_edge_label, i.cond_text@));
        }
        let cond_node = self.add_node(
            CfgNode::new_condition(label, CondKind::If, i.cond.duplicate()),
        );
        let ghost b1 = *self;
        proof {
            assert(step_ok(b0, b1)) by {
                match (b0.current_node, b0.next_edge_label) {
                    (Some(cur), Some(l)) => {
                        lemma_push_edge_facts(
                            b0.graph.edges@,
                            mk_edge(cur, cond_node, pending_label(b0.next_edge_label)),
                        );
                        assert(has_specific_edge(
                            self.graph,
                            cur as int,
                            cond_node as int,
                            l,
                        ));
                    },
                    _ => {},
                }
            }
        }
        self.next_edge_label = Some(EdgeLabel::True);
        let ghost b2 = *self;
        self.visit_block(&i.then_branch);
        let ghost b3 = *self;
        let true_end = match self.current_node {
            Some(c) => c,
            None => {
                proof {
                    assert(false);
                }
                0
            },
        };
        let merge_node = self.add_node_without_edge(CfgNode::MergePoint);
        let ghost b4 = *self;
        let lbl = match self.next_edge_label {
            Some(l) => l,
            None => EdgeLabel::Unlabeled,
        };
        self.next_edge_label = None;
        self.add_edge_with_label(true_end, merge_node, lbl);
        let ghost b5 = *self;
        proof {
            // the condition node now carries its true edge
            assert(b5.graph.has_edge_from(cond_node as int, EdgeLabel::True)) by {
                if b3.next_edge_label is None && (exists|d: int|
                    b2.graph.n() <= d < b3.graph.n() && #[trigger] has_specific_edge(
                        b3.graph,
                        cond_node as int,
                        d,
                        EdgeLabel::True,
                    )) {
                    let d = choose|d: int|
                        b2.graph.n() <= d < b3.graph.n() && #[trigger] has_specific_edge(
                            b3.graph,
                            cond_node as int,
                            d,
                            EdgeLabel::True,
                        );
                    lemma_specific_edge_extend(
                        b3.graph,
                        b5.graph,
                        cond_node as int,
                        d,
                        EdgeLabel::True,
                    );
                    lemma_specific_edge_from(b5.graph, cond_node as int, d, EdgeLabel::True);
                } else {
                    // the branch inserted nothing: the closing edge is the
                    // true edge, drawn from the condition itself
                    assert(true_end == cond_node && lbl == EdgeLabel::True);
                }
            }
            lemma_extends_trans(b2.graph, b3.graph, b4.graph);
            lemma_extends_trans(b2.graph, b4.graph, b5.graph);
        }
        match &i.else_branch {
            Some(els) => {
                self.current_node = Some(cond_node);
                self.next_edge_label = Some(EdgeLabel::False);
                let ghost b6 = *self;
                match &**els {
                    SrcElse::ElseIf(i2) => {
                        self.handle_if_statement(i2);
                    },
                    SrcElse::Block(ss) => {
                        self.visit_block(ss);
                    },
                    SrcElse::Single(x) => {
                        self.visit_expr(x);
                    },
                }
                let ghost b7 = *self;
                let false_end = match self.current_node {
                    Some(c) => c,
                    None => {
                        proof {
                            assert(false);
                        }
                        0
                    },
                };
                let lbl2 = match self.next_edge_label {
                    Some(l) => l,
                    None => EdgeLabel::Unlabeled,
                };
                self.next_edge_label = None;
                self.add_edge_with_label(false_end, merge_node, lbl2);
                let ghost b8 = *self;
                self.current_node = Some(merge_node);
                self.next_edge_label = None;
                proof {
                    assert(b8.graph.has_edge_from(cond_node as int, EdgeLabel::False)) by {
                        if b7.next_edge_label is None && (exists|d: int|
                            b6.graph.n() <= d < b7.graph.n() && #[trigger] has_specific_edge(
                                b7.graph,
                                cond_node as int,
                                d,
                                EdgeLabel::False,
                            )) {
                            let d = choose|d: int|
                                b6.graph.n() <= d < b7.graph.n() && #[trigger] has_specific_edge(
                                    b7.graph,
                                    cond_node as int,
                                    d,
                                    EdgeLabel::False,
                                );
                            lemma_specific_edge_extend(
                                b7.graph,
                                b8.graph,
                                cond_node as int,
                                d,
                                EdgeLabel::False,
                            );
                            lemma_specific_edge_from(
                                b8.graph,
                                cond_node as int,
                                d,
                                EdgeLabel::False,
                            );
                        } else {
                            assert(false_end == cond_node && lbl2 == EdgeLabel::False);
                        }
                    }
                    lemma_extends_trans(b0.graph, b1.graph, b5.graph);
                    lemma_extends_trans(b6.graph, b7.graph, b8.graph);
                    lemma_extends_trans(b0.graph, b5.graph, b8.graph);
                    assert(step_ok(b0, *self)) by {
                        assert(graph_extends(b0.graph, self.graph));
                        match (b0.current_node, b0.next_edge_label) {
                            (Some(cur), Some(l)) => {
                                let d = choose|d: int|
                                    b0.graph.n() <= d < b1.graph.n() && #[trigger]
                                        has_specific_edge(b1.graph, cur as int, d, l);
                                lemma_specific_edge_extend(
                                    b1.graph,
                                    self.graph,
                                    cur as int,
                                    d,
                                    l,
                                );
                            },
                            _ => {},
                        }
                    }
                    lemma_has_edge_extend(b5.graph, self.graph, cond_node as int, EdgeLabel::True);
                    assert(if_effect(b0, *self, *i)) by {
                        let ghost ci = cond_node as int;
                        let ghost mi = merge_node as int;
                        assert(mi == b3.graph.n());
                        assert(self.graph.node_at(ci) == NodeV::Condition(
                            if_label_of(b0.next_edge_label, i.cond_text@),
                            CondKind::If,
                            i.cond@,
                        ));
                        assert(cond_ok(self.graph, ci));
                        assert(is_merge(self.graph.node_at(mi)));
                        lemma_extends_refl(b5.graph);
                        lemma_extends_trans(b3.graph, b4.graph, b5.graph);
                        lemma_extends_trans(b3.graph, b5.graph, b7.graph);
                        lemma_extends_trans(b3.graph, b7.graph, self.graph);
                        lemma_extends_trans(b5.graph, b7.graph, self.graph);
                        lemma_extends_trans(b6.graph, b7.graph, self.graph);
                        // the true edge enters the then-stretch or the merge
                        assert(exists|d: int|
                            ci < d && d <= mi && #[trigger] has_specific_edge(
                                self.graph,
                                ci,
                                d,
                                EdgeLabel::True,
                            )) by {
                            if b3.next_edge_label is None && (exists|d: int|
                                b2.graph.n() <= d < b3.graph.n() && #[trigger] has_specific_edge(
                                    b3.graph,
                                    ci,
                                    d,
                                    EdgeLabel::True,
                                )) {
                                let d = choose|d: int|
                                    b2.graph.n() <= d < b3.graph.n()
                                        && #[trigger] has_specific_edge(
                                        b3.graph,
                                        ci,
                                        d,
                                        EdgeLabel::True,
                                    );
                                lemma_specific_edge_extend(
                                    b3.graph,
                                    self.graph,
                                    ci,
                                    d,
                                    EdgeLabel::True,
                                );
                            } else {
                                assert(true_end == cond_node && lbl == EdgeLabel::True);
                                lemma_push_edge_facts(
                                    b4.graph.edges@,
                                    mk_edge(true_end, merge_node, lbl),
                                );
                                lemma_specific_edge_extend(
                                    b5.graph,
                                    self.graph,
                                    ci,
                                    mi,
                                    EdgeLabel::True,
                                );
                            }
                        }
                        // the then side rejoins the merge
                        assert(exists|a: int|
                            ci <= a && a < mi && #[trigger] has_edge_to(self.graph, a, mi)) by {
                            lemma_push_edge_facts(
                                b4.graph.edges@,
                                mk_edge(true_end, merge_node, lbl),
                            );
                            assert(has_edge_to(b5.graph, true_end as int, mi));
                            lemma_edge_to_extend(b5.graph, self.graph, true_end as int, mi);
                            assert(ci <= true_end as int && (true_end as int) < mi);
                        }
                        // the false edge reaches the merge or the else-stretch
                        assert(exists|d: int|
                            (d == mi || (mi < d && d < self.graph.n()))
                                && #[trigger] has_specific_edge(
                                self.graph,
                                ci,
                                d,
                                EdgeLabel::False,
                            )) by {
                            if b7.next_edge_label is None && (exists|d: int|
                                b6.graph.n() <= d < b7.graph.n() && #[trigger] has_specific_edge(
                                    b7.graph,
                                    ci,
                                    d,
                                    EdgeLabel::False,
                                )) {
                                let d = choose|d: int|
                                    b6.graph.n() <= d < b7.graph.n()
                                        && #[trigger] has_specific_edge(
                                        b7.graph,
                                        ci,
                                        d,
                                        EdgeLabel::False,
                                    );
                                lemma_specific_edge_extend(
                                    b7.graph,
                                    self.graph,
                                    ci,
                                    d,
                                    EdgeLabel::False,
                                );
                                assert(b6.graph.n() == mi + 1);
                            } else {
                                assert(false_end == cond_node && lbl2 == EdgeLabel::False);
                                lemma_push_edge_facts(
                                    b7.graph.edges@,
                                    mk_edge(false_end, merge_node, lbl2),
                                );
                                assert(has_specific_edge(self.graph, ci, mi, EdgeLabel::False));
                            }
                        }
                        // the else side rejoins the merge
                        assert(exists|a: int|
                            (a == ci || (mi < a && a < self.graph.n()))
                                && #[trigger] has_edge_to(self.graph, a, mi)) by {
                            lemma_push_edge_facts(
                                b7.graph.edges@,
                                mk_edge(false_end, merge_node, lbl2),
                            );
                            assert(has_edge_to(self.graph, false_end as int, mi));
                            assert(false_end as int == ci || (mi < false_end as int
                                && (false_end as int) < self.graph.n()));
                        }
                    }
                    if loops_ok_if(*i) {
                        assert(conds_ok_from(self.graph, b0.graph.n())) by {
                            assert forall|x: int|
                                b0.graph.n() <= x < self.graph.n() && is_condition(
                                    self.graph.node_at(x),
                                ) implies cond_ok(self.graph, x) by {
                                if x == cond_node as int {
                                    lemma_has_edge_extend(
                                        b5.graph,
                                        self.graph,
                                        x,
                                        EdgeLabel::True,
                                    );
                                } else if x < b3.graph.n() {
                                    // inserted by the true branch
                                    assert(cond_ok(b3.graph, x));
                                    lemma_has_edge_extend(b3.graph, b5.graph, x, EdgeLabel::True);
                                    lemma_has_edge_extend(b3.graph, b5.graph, x, EdgeLabel::False);
                                    lemma_has_edge_extend(b5.graph, b8.graph, x, EdgeLabel::True);
                                    lemma_has_edge_extend(b5.graph, b8.graph, x, EdgeLabel::False);
                                } else if x < b6.graph.n() {
                                    // the merge point: not a condition
                                    assert(!is_condition(self.graph.node_at(x)));
                                } else {
                                    // inserted by the else branch
                                    assert(cond_ok(b7.graph, x));
                                    lemma_has_edge_extend(b7.graph, b8.graph, x, EdgeLabel::True);
                                    lemma_has_edge_extend(b7.graph, b8.graph, x, EdgeLabel::False);
                                }
                            }
                        }
                    }
                }
            },
            None => {
                self.add_edge_with_label(cond_node, merge_node, EdgeLabel::False);
                let ghost b8 = *self;
                self.current_node = Some(merge_node);
                self.next_edge_label = None;
                proof {
                    lemma_extends_trans(b0.graph, b1.graph, b5.graph);
                    lemma_extends_trans(b0.graph, b5.graph, b8.graph);
                    assert(step_ok(b0, *self)) by {
                        assert(graph_extends(b0.graph, self.graph));
                        match (b0.current_node, b0.next_edge_label) {
                            (Some(cur), Some(l)) => {
                                let d = choose|d: int|
                                    b0.graph.n() <= d < b1.graph.n() && #[trigger]
                                        has_specific_edge(b1.graph, cur as int, d, l);
                                lemma_specific_edge_extend(
                                    b1.graph,
                                    self.graph,
                                    cur as int,
                                    d,
                                    l,
                                );
                            },
                            _ => {},
                        }
                    }
                    lemma_has_edge_extend(b5.graph, self.graph, cond_node as int, EdgeLabel::True);
                    assert(if_effect(b0, *self, *i)) by {
                        let ghost ci = cond_node as int;
                        let ghost mi = merge_node as int;
                        assert(mi == b3.graph.n());
                        assert(self.graph.node_at(ci) == NodeV::Condition(
                            if_label_of(b0.next_edge_label, i.cond_text@),
                            CondKind::If,
                            i.cond@,
                        ));
                        assert(cond_ok(self.graph, ci));
                        assert(is_merge(self.graph.node_at(mi)));
                        lemma_extends_trans(b3.graph, b4.graph, b5.graph);
                        lemma_extends_trans(b3.graph, b5.graph, self.graph);
                        // the true edge enters the then-stretch or the merge
                        assert(exists|d: int|
                            ci < d && d <= mi && #[trigger] has_specific_edge(
                                self.graph,
                                ci,
                                d,
                                EdgeLabel::True,
                            )) by {
                            if b3.next_edge_label is None && (exists|d: int|
                                b2.graph.n() <= d < b3.graph.n() && #[trigger] has_specific_edge(
                                    b3.graph,
                                    ci,
                                    d,
                                    EdgeLabel::True,
                                )) {
                                let d = choose|d: int|
                                    b2.graph.n() <= d < b3.graph.n()
                                        && #[trigger] has_specific_edge(
                                        b3.graph,
                                        ci,
                                        d,
                                        EdgeLabel::True,
                                    );
                                lemma_specific_edge_extend(
                                    b3.graph,
                                    self.graph,
                                    ci,
                                    d,
                                    EdgeLabel::True,
                                );
                            } else {
                                assert(true_end == cond_node && lbl == EdgeLabel::True);
                                lemma_push_edge_facts(
                                    b4.graph.edges@,
                                    mk_edge(true_end, merge_node, lbl),
                                );
                                lemma_specific_edge_extend(
                                    b5.graph,
                                    self.graph,
                                    ci,
                                    mi,
                                    EdgeLabel::True,
                                );
                            }
                        }
                        // the then side rejoins the merge
                        assert(exists|a: int|
                            ci <= a && a < mi && #[trigger] has_edge_to(self.graph, a, mi)) by {
                            lemma_push_edge_facts(
                                b4.graph.edges@,
                                mk_edge(true_end, merge_node, lbl),
                            );
                            assert(has_edge_to(b5.graph, true_end as int, mi));
                            lemma_edge_to_extend(b5.graph, self.graph, true_end as int, mi);
                            assert(ci <= true_end as int && (true_end as int) < mi);
                        }
                        // without an else branch the false edge reaches the
                        // merge directly
                        assert(has_specific_edge(self.graph, ci, mi, EdgeLabel::False)) by {
                            lemma_push_edge_facts(
                                b5.graph.edges@,
                                mk_edge(cond_node, merge_node, EdgeLabel::False),
                            );
                        }
                    }
                    if loops_ok_if(*i) {
                        assert(conds_ok_from(self.graph, b0.graph.n())) by {
                            assert forall|x: int|
                                b0.graph.n() <= x < self.graph.n() && is_condition(
                                    self.graph.node_at(x),
                                ) implies cond_ok(self.graph, x) by {
                                if x == cond_node as int {
                                    lemma_has_edge_extend(
                                        b5.graph,
                                        self.graph,
                                        x,
                                        EdgeLabel::True,
                                    );
                                } else if x < b3.graph.n() {
                                    assert(cond_ok(b3.graph, x));
                                    lemma_has_edge_extend(b3.graph, b8.graph, x, EdgeLabel::True);
                                    lemma_has_edge_extend(b3.graph, b8.graph, x, EdgeLabel::False);
                                } else {
                                    assert(!is_condition(self.graph.node_at(x)));
                                }
                            }
                        }
                    }
                }
            },
        }
    }

    /// A loop: the jump back from the end of the body targets the invariant
    /// standing before the loop, or a fresh synthetic cutoff.
    pub fn handle_while_loop(&mut self, w: &WhileStmt)
        requires
            binv(*old(self)),
        ensures
            step_ok(*old(self), *final(self)),
            loops_ok_expr(SrcExpr::While(*w)) ==> conds_ok_from(
                final(self).graph,
                old(self).graph.n(),
            ),
            final(self).graph.n() > old(self).graph.n(),
            final(self).external_conditions == old(self).external_conditions,
            loop_effect(
                *old(self),
                *final(self),
                while_prefix() + w.cond_text@,
                CondKind::While,
                w.cond@,
                stmts_add_node(w.body@),
            ),
        decreases *w, 0int,
    {
        let mut lbl: Vec<u8> = Vec::new();
        lbl.push(('w' as u8));
        lbl.push(('h' as u8));
        lbl.push(('i' as u8));
        lbl.push(('l' as u8));
        lbl.push(('e' as u8));
        lbl.push((':' as u8));
        lbl.push((' ' as u8));
        let label = bytes_concat(lbl.as_slice(), w.cond_text.as_slice());
        proof {
            assert(lbl@ =~= while_prefix());
            assert(label@ == while_prefix() + w.cond_text@);
            assert(decreases_to!(*w => w.body));
        }
        self.loop_body(label, CondKind::While, &w.cond, &w.body);
    }

    /// A `for` loop, treated like a `while` whose condition is the iterated
    /// expression.
    pub fn handle_for_loop(&mut self, f: &ForStmt)
        requires
            binv(*old(self)),
        ensures
            step_ok(*old(self), *final(self)),
            loops_ok_expr(SrcExpr::For(*f)) ==> conds_ok_from(
                final(self).graph,
                old(self).graph.n(),
            ),
            final(self).graph.n() > old(self).graph.n(),
            final(self).external_conditions == old(self).external_conditions,
            loop_effect(
                *old(self),
                *final(self),
                for_label_of(f.pat_text@, f.iter_text@),
                CondKind::For,
                f.iter@,
                stmts_add_node(f.body@),
            ),
        decreases *f, 0int,
    {
        let mut head: Vec<u8> = Vec::new();
        head.push(('f' as u8));
        head.push(('o' as u8));
        head.push(('r' as u8));
        head.push((' ' as u8));
        let mut mid: Vec<u8> = Vec::new();
        mid.push((' ' as u8));
        mid.push(('i' as u8));
        mid.push(('n' as u8));
        mid.push((' ' as u8));
        let a = bytes_concat(head.as_slice(), f.pat_text.as_slice());
        let b = bytes_concat(a.as_slice(), mid.as_slice());
        let label = bytes_concat(b.as_slice(), f.iter_text.as_slice());
        proof {
            assert(label@ =~= for_label_of(f.pat_text@, f.iter_text@));
            assert(decreases_to!(*f => f.body));
        }
        self.loop_body(label, CondKind::For, &f.iter, &f.body);
    }

    /// The common loop shape: the cut node, the condition, the body, the
    /// back edge and the exit merge.
    #[verifier::rlimit(100)]
    #[verifier::spinoff_prover]
    fn loop_body(&mut self, label: Vec<u8>, kind: CondKind, cond: &Expr, body: &Vec<SrcStmt>)
        requires
            binv(*old(self)),
        ensures
            step_ok(*old(self), *final(self)),
            (stmts_add_node(body@) && loops_ok_stmts(body@)) ==> conds_ok_from(
                final(self).graph,
                old(self).graph.n(),
            ),
            final(self).graph.n() > old(self).graph.n(),
            final(self).external_conditions == old(self).external_conditions,
            loop_effect(*old(self), *final(self), label@, kind, cond@, stmts_add_node(body@)),
        decreases body@, 1int,
    {
        let ghost b0 = *self;
        // reuse an invariant node standing right before the loop as the
        // jump-back target, or insert a synthetic cutoff
        let reuse = match self.current_node {
            Some(c) => match self.graph.node(c) {
                CfgNode::Invariant(_, _) => true,
                _ => false,
            },
            None => false,
        };
        proof {
            assert(reuse == match b0.current_node {
                Some(c) => b0.graph.node_at(c as int) is Invariant,
                None => false,
            });
        }
        let loop_back: usize;
        if reuse {
            loop_back = match self.current_node {
                Some(c) => c,
                None => {
                    proof {
                        assert(false);
                    }
                    0
                },
            };
            proof {
                lemma_step_refl(b0);
            }
        } else {
            loop_back = self.add_node(CfgNode::new_cutoff(Vec::new()));
            proof {
                assert(step_ok(b0, *self)) by {
                    match (b0.current_node, b0.next_edge_label) {
                        (Some(cur), Some(l)) => {
                            lemma_push_edge_facts(
                                b0.graph.edges@,
                                mk_edge(cur, loop_back, pending_label(b0.next_edge_label)),
                            );
                            assert(has_specific_edge(
                                self.graph,
                                cur as int,
                                loop_back as int,
                                l,
                            ));
                        },
                        _ => {},
                    }
                }
            }
        }
        let ghost ba = *self;
        let cond_node = self.add_node(CfgNode::new_condition(label, kind, cond.duplicate()));
        let ghost b1 = *self;
        proof {
            assert(step_ok(ba, b1)) by {
                match (ba.current_node, ba.next_edge_label) {
                    (Some(cur), Some(l)) => {
                        lemma_push_edge_facts(
                            ba.graph.edges@,
                            mk_edge(cur, cond_node, pending_label(ba.next_edge_label)),
                        );
                        assert(has_specific_edge(
                            self.graph,
                            cur as int,
                            cond_node as int,
                            l,
                        ));
                    },
                    _ => {},
                }
            }
            lemma_step_trans(b0, ba, b1);
        }
        self.next_edge_label = Some(EdgeLabel::True);
        let ghost b2 = *self;
        self.visit_block(body);
        let ghost b3 = *self;
        let end_node = match self.current_node {
            Some(c) => c,
            None => {
                proof {
                    assert(false);
                }
                0
            },
        };
        self.next_edge_label = None;
        self.add_edge_with_label(end_node, loop_back, EdgeLabel::BackToLoop);
        let ghost b4 = *self;
        let merge_node = self.add_node_without_edge(CfgNode::MergePoint);
        let ghost b5 = *self;
        self.add_edge_with_label(cond_node, merge_node, EdgeLabel::False);
        let ghost b6 = *self;
        self.current_node = Some(merge_node);
        self.next_edge_label = None;
        proof {
            lemma_extends_trans(b2.graph, b3.graph, b4.graph);
            lemma_extends_trans(b2.graph, b4.graph, b5.graph);
            lemma_extends_trans(b2.graph, b5.graph, b6.graph);
            lemma_extends_trans(b0.graph, b1.graph, b6.graph);
            assert(step_ok(b0, *self)) by {
                assert(graph_extends(b0.graph, self.graph));
                match (b0.current_node, b0.next_edge_label) {
                    (Some(cur), Some(l)) => {
                        let d = choose|d: int|
                            b0.graph.n() <= d < b1.graph.n() && #[trigger] has_specific_edge(
                                b1.graph,
                                cur as int,
                                d,
                                l,
                            );
                        lemma_specific_edge_extend(b1.graph, self.graph, cur as int, d, l);
                    },
                    _ => {},
                }
            }
            assert(loop_effect(b0, *self, label@, kind, cond@, stmts_add_node(body@))) by {
                let ghost ci = cond_node as int;
                let ghost mi = merge_node as int;
                assert(self.graph.node_at(ci) == NodeV::Condition(label@, kind, cond@));
                assert(is_merge(self.graph.node_at(mi)));
                assert(mi == b3.graph.n());
                // the exit edge reaches the merge the cursor ends on
                assert(has_specific_edge(self.graph, ci, mi, EdgeLabel::False)) by {
                    lemma_push_edge_facts(
                        b5.graph.edges@,
                        mk_edge(cond_node, merge_node, EdgeLabel::False),
                    );
                }
                // the body edge, when the body inserted a node, enters the
                // stretch between condition and merge
                if stmts_add_node(body@) {
                    assert(b3.graph.n() > b2.graph.n());
                    let d = choose|d: int|
                        b2.graph.n() <= d < b3.graph.n() && #[trigger] has_specific_edge(
                            b3.graph,
                            cond_node as int,
                            d,
                            EdgeLabel::True,
                        );
                    lemma_specific_edge_extend(b3.graph, self.graph, ci, d, EdgeLabel::True);
                    assert(ci < d && d < mi);
                }
                // the jump back to the loop's cut node leaves the stretch
                assert(ci <= end_node as int && (end_node as int) < mi);
                assert(has_specific_edge(self.graph, end_node as int, loop_back as int,
                    EdgeLabel::BackToLoop)) by {
                    lemma_push_edge_facts(
                        b3.graph.edges@,
                        mk_edge(end_node, loop_back, EdgeLabel::BackToLoop),
                    );
                    assert(has_specific_edge(
                        b4.graph,
                        end_node as int,
                        loop_back as int,
                        EdgeLabel::BackToLoop,
                    ));
                    assert(b4.graph.edges@.is_prefix_of(self.graph.edges@)) by {
                        assert(b4.graph.edges@ =~= self.graph.edges@.take(
                            b4.graph.edges@.len() as int,
                        ));
                    }
                    lemma_specific_edge_extend(
                        b4.graph,
                        self.graph,
                        end_node as int,
                        loop_back as int,
                        EdgeLabel::BackToLoop,
                    );
                }
                if !reuse {
                    assert(self.graph.node_at(loop_back as int) is Cutoff);
                    assert(b0.graph.n() <= loop_back as int);
                    assert((loop_back as int) < ci);
                }
            }
            if stmts_add_node(body@) && loops_ok_stmts(body@) {
                // the body inserted a node, so the pending `true` label was
                // consumed into an edge from the condition
                assert(b3.graph.has_edge_from(cond_node as int, EdgeLabel::True)) by {
                    assert(b3.graph.n() > b2.graph.n());
                    let d = choose|d: int|
                        b2.graph.n() <= d < b3.graph.n() && #[trigger] has_specific_edge(
                            b3.graph,
                            cond_node as int,
                            d,
                            EdgeLabel::True,
                        );
                    lemma_specific_edge_from(b3.graph, cond_node as int, d, EdgeLabel::True);
                }
                assert(conds_ok_from(self.graph, b0.graph.n())) by {
                    assert forall|x: int|
                        b0.graph.n() <= x < self.graph.n() && is_condition(
                            self.graph.node_at(x),
                        ) implies cond_ok(self.graph, x) by {
                        if x == cond_node as int {
                            lemma_has_edge_extend(b3.graph, b6.graph, x, EdgeLabel::True);
                        } else if x < b3.graph.n() {
                            assert(cond_ok(b3.graph, x));
                            lemma_has_edge_extend(b3.graph, b6.graph, x, EdgeLabel::True);
                            lemma_has_edge_extend(b3.graph, b6.graph, x, EdgeLabel::False);
                        } else {
                            assert(!is_condition(self.graph.node_at(x)));
                        }
                    }
                }
            }
        }
    }
}

} // verus!

verus! {

impl CfgBuilder {
    /// Whether a top-level statement is one of the recognised annotation
    /// macros.
    fn is_relevant_macro(s: &SrcStmt) -> (r: bool)
        ensures
            r == is_relevant_stmt(*s),
    {
        match s {
            SrcStmt::ExprStmt(SrcExpr::MacroCall(name, _, _)) => {
                let pre_kw = crate::print::macro_name_bytes(crate::ast::MacroKind::Pre);
                let post_kw = crate::print::macro_name_bytes(crate::ast::MacroKind::Post);
                let inv_kw = crate::print::macro_name_bytes(crate::ast::MacroKind::Invariant);
                let mut bc_kw: Vec<u8> = Vec::new();
                bc_kw.push(('b' as u8));
                bc_kw.push(('u' as u8));
                bc_kw.push(('i' as u8));
                bc_kw.push(('l' as u8));
                bc_kw.push(('d' as u8));
                bc_kw.push(('_' as u8));
                bc_kw.push(('c' as u8));
                bc_kw.push(('f' as u8));
                bc_kw.push(('g' as u8));
                proof {
                    assert(bc_kw@ =~= crate::source::build_cfg_name());
                }
                crate::bytes_eq(name.as_slice(), pre_kw.as_slice()) || crate::bytes_eq(
                    name.as_slice(),
                    post_kw.as_slice(),
                ) || crate::bytes_eq(name.as_slice(), inv_kw.as_slice()) || crate::bytes_eq(
                    name.as_slice(),
                    bc_kw.as_slice(),
                )
            },
            _ => false,
        }
    }

    /// Walks one function: skipped entirely unless some top-level statement
    /// is an annotation macro. Top-level postconditions are deferred and
    /// appended as sinks before the cursor is cleared.
    pub fn visit_item_fn(&mut self, f: &SrcFn)
        requires
            binv(*old(self)),
            old(self).postconditions@.len() == 0,
        ensures
            binv(*final(self)),
            graph_extends(old(self).graph, final(self).graph),
            loops_ok_stmts(f.body@) ==> conds_ok_from(final(self).graph, old(self).graph.n()),
            relevant_fn(*f) ==> final(self).current_node is None,
            final(self).postconditions@.len() == 0,
            final(self).external_conditions == old(self).external_conditions,
            // a function without a recognised annotation is skipped whole,
            // leaving the builder untouched
            !relevant_fn(*f) ==> *final(self) == *old(self),
            // a relevant function begins with its function node
            relevant_fn(*f) ==> final(self).graph.n() > old(self).graph.n()
                && final(self).graph.node_at(old(self).graph.n()) == NodeV::Function(f.name@)
                && final(self).graph.alive(old(self).graph.n()),
            // every deferred postcondition is appended as a sink after the
            // body, in source order
            relevant_fn(*f) ==> ({
                let posts = posts_of(f.body@, f.body@.len() as int);
                &&& final(self).graph.n() >= old(self).graph.n() + 1 + posts.len()
                &&& forall|k: int|
                    0 <= k < posts.len() ==> final(self).graph.node_at(
                        final(self).graph.n() - posts.len() + k,
                    ) == posts[k]
            }),
            // every top-level pre! and invariant! becomes its node in place
            relevant_fn(*f) ==> forall|k: int|
                0 <= k < f.body@.len() && is_named_macro_stmt(
                    #[trigger] f.body@[k],
                    crate::print::macro_name_spec(crate::ast::MacroKind::Pre),
                ) ==> exists|i: int|
                    old(self).graph.n() < i < final(self).graph.n() && final(self).graph.node_at(
                        i,
                    ) == annotation_view(crate::ast::MacroKind::Pre, f.body@[k]),
            relevant_fn(*f) ==> forall|k: int|
                0 <= k < f.body@.len() && is_named_macro_stmt(
                    #[trigger] f.body@[k],
                    crate::print::macro_name_spec(crate::ast::MacroKind::Invariant),
                ) ==> exists|i: int|
                    old(self).graph.n() < i < final(self).graph.n() && final(self).graph.node_at(
                        i,
                    ) == annotation_view(crate::ast::MacroKind::Invariant, f.body@[k]),
    {
        let ghost b0 = *self;
        let mut relevant = false;
        let mut k: usize = 0;
        while k < f.body.len()
            invariant
                old(self) == self,
                0 <= k <= f.body@.len(),
                relevant == exists|q: int|
                    0 <= q < k && is_relevant_stmt(#[trigger] f.body@[q]),
            decreases f.body@.len() - k,
        {
            let ghost was = relevant;
            if Self::is_relevant_macro(&f.body[k]) {
                relevant = true;
            }
            proof {
                if relevant {
                    if was {
                        let q = choose|q: int| 0 <= q < k && is_relevant_stmt(f.body@[q]);
                        assert(is_relevant_stmt(f.body@[q]));
                    } else {
                        assert(is_relevant_stmt(f.body@[k as int]));
                    }
                }
            }
            k += 1;
        }
        proof {
            assert(relevant == relevant_fn(*f));
        }
        if !relevant {
            proof {
                lemma_step_refl(b0);
            }
            return ;
        }
        self.current_node = None;
        self.next_edge_label = None;
        let func_node = self.add_node(CfgNode::new_function(f.name.clone()));
        let ghost b1 = *self;
        let mut k: usize = 0;
        while k < f.body.len()
            invariant
                binv(*self),
                graph_extends(b0.graph, self.graph),
                0 <= k <= f.body@.len(),
                loops_ok_stmts(f.body@) ==> conds_ok_from(self.graph, b0.graph.n()),
                self.external_conditions == b0.external_conditions,
                self.current_node is Some,
                self.graph.n() > b0.graph.n(),
                self.graph.node_at(b0.graph.n()) == NodeV::Function(f.name@),
                self.graph.alive(b0.graph.n()),
                self.postconditions@.len() == posts_of(f.body@, k as int).len(),
                forall|p: int|
                    0 <= p < self.postconditions@.len() ==> (
                    #[trigger] self.postconditions@[p])@ == posts_of(f.body@, k as int)[p],
                forall|q: int|
                    0 <= q < k && is_named_macro_stmt(
                        #[trigger] f.body@[q],
                        crate::print::macro_name_spec(crate::ast::MacroKind::Pre),
                    ) ==> exists|i: int|
                        b0.graph.n() < i < self.graph.n() && self.graph.node_at(i)
                            == annotation_view(crate::ast::MacroKind::Pre, f.body@[q]),
                forall|q: int|
                    0 <= q < k && is_named_macro_stmt(
                        #[trigger] f.body@[q],
                        crate::print::macro_name_spec(crate::ast::MacroKind::Invariant),
                    ) ==> exists|i: int|
                        b0.graph.n() < i < self.graph.n() && self.graph.node_at(i)
                            == annotation_view(crate::ast::MacroKind::Invariant, f.body@[q]),
            decreases f.body@.len() - k,
        {
            let ghost bk = *self;
            proof {
                assert(decreases_to!(f.body@ => f.body@[k as int]));
            }
            let handled_specially = match &f.body[k] {
                SrcStmt::ExprStmt(SrcExpr::MacroCall(name, tokens, _)) => {
                    let pre_kw = crate::print::macro_name_bytes(crate::ast::MacroKind::Pre);
                    let post_kw = crate::print::macro_name_bytes(crate::ast::MacroKind::Post);
                    let inv_kw = crate::print::macro_name_bytes(
                        crate::ast::MacroKind::Invariant,
                    );
                    let mut bc_kw: Vec<u8> = Vec::new();
                    bc_kw.push(('b' as u8));
                    bc_kw.push(('u' as u8));
                    bc_kw.push(('i' as u8));
                    bc_kw.push(('l' as u8));
                    bc_kw.push(('d' as u8));
                    bc_kw.push(('_' as u8));
                    bc_kw.push(('c' as u8));
                    bc_kw.push(('f' as u8));
                    bc_kw.push(('g' as u8));
                    if crate::bytes_eq(name.as_slice(), bc_kw.as_slice()) {
                        proof {
                            lemma_macro_names_distinct();
                            assert(posts_of(f.body@, k as int + 1) =~= posts_of(
                                f.body@,
                                k as int,
                            ));
                        }
                        true
                    } else if crate::bytes_eq(name.as_slice(), pre_kw.as_slice()) {
                        let (t, p) = self.annotation_parts(crate::ast::MacroKind::Pre, tokens);
                        let nidx = self.add_node(CfgNode::new_precondition(t, p));
                        proof {
                            lemma_macro_names_distinct();
                            assert(posts_of(f.body@, k as int + 1) =~= posts_of(
                                f.body@,
                                k as int,
                            ));
                            assert(self.graph.node_at(nidx as int) == annotation_view(
                                crate::ast::MacroKind::Pre,
                                f.body@[k as int],
                            ));
                            assert(step_ok(bk, *self)) by {
                                match (bk.current_node, bk.next_edge_label) {
                                    (Some(cur), Some(l)) => {
                                        lemma_push_edge_facts(
                                            bk.graph.edges@,
                                            mk_edge(cur, nidx, pending_label(bk.next_edge_label)),
                                        );
                                        assert(has_specific_edge(
                                            self.graph,
                                            cur as int,
                                            nidx as int,
                                            l,
                                        ));
                                    },
                                    _ => {},
                                }
                            }
                        }
                        true
                    } else if crate::bytes_eq(name.as_slice(), inv_kw.as_slice()) {
                        let (t, p) = self.annotation_parts(
                            crate::ast::MacroKind::Invariant,
                            tokens,
                        );
                        let nidx = self.add_node(CfgNode::new_invariant(t, p));
                        proof {
                            lemma_macro_names_distinct();
                            assert(posts_of(f.body@, k as int + 1) =~= posts_of(
                                f.body@,
                                k as int,
                            ));
                            assert(self.graph.node_at(nidx as int) == annotation_view(
                                crate::ast::MacroKind::Invariant,
                                f.body@[k as int],
                            ));
                            assert(step_ok(bk, *self)) by {
                                match (bk.current_node, bk.next_edge_label) {
                                    (Some(cur), Some(l)) => {
                                        lemma_push_edge_facts(
                                            bk.graph.edges@,
                                            mk_edge(cur, nidx, pending_label(bk.next_edge_label)),
                                        );
                                        assert(has_specific_edge(
                                            self.graph,
                                            cur as int,
                                            nidx as int,
                                            l,
                                        ));
                                    },
                                    _ => {},
                                }
                            }
                        }
                        true
                    } else if crate::bytes_eq(name.as_slice(), post_kw.as_slice()) {
                        let (t, p) = self.annotation_parts(crate::ast::MacroKind::Post, tokens);
                        self.postconditions.push(CfgNode::new_postcondition(t, p));
                        proof {
                            assert(binv(*self)) by {
                                assert(forall|p: int|
                                    0 <= p < self.postconditions@.len() ==> !((
                                    #[trigger] self.postconditions@[p])@ is Condition));
                            }
                            assert(posts_of(f.body@, k as int + 1) =~= posts_of(
                                f.body@,
                                k as int,
                            ).push(annotation_view(crate::ast::MacroKind::Post, f.body@[k as int])));
                            assert(self.postconditions@.last()@ == annotation_view(
                                crate::ast::MacroKind::Post,
                                f.body@[k as int],
                            ));
                        }
                        true
                    } else {
                        proof {
                            assert(!is_named_macro_stmt(
                                f.body@[k as int],
                                crate::print::macro_name_spec(crate::ast::MacroKind::Post),
                            ));
                            assert(posts_of(f.body@, k as int + 1) =~= posts_of(
                                f.body@,
                                k as int,
                            ));
                        }
                        false
                    }
                },
                _ => {
                    proof {
                        assert(!is_named_macro_stmt(
                            f.body@[k as int],
                            crate::print::macro_name_spec(crate::ast::MacroKind::Post),
                        ));
                        assert(posts_of(f.body@, k as int + 1) =~= posts_of(
                            f.body@,
                            k as int,
                        ));
                    }
                    false
                },
            };
            if !handled_specially {
                self.visit_stmt(&f.body[k]);
            }
            proof {
                lemma_extends_trans(b0.graph, bk.graph, self.graph);
                if loops_ok_stmts(f.body@) {
                    crate::source::lemma_loops_ok_stmts_index(f.body@, k as int);
                    lemma_conds_mono(bk.graph, self.graph, b0.graph.n());
                }
                // the annotation nodes recorded so far survive the step
                assert forall|q: int|
                    0 <= q < k + 1 && is_named_macro_stmt(
                        #[trigger] f.body@[q],
                        crate::print::macro_name_spec(crate::ast::MacroKind::Pre),
                    ) implies exists|i: int|
                    b0.graph.n() < i < self.graph.n() && self.graph.node_at(i)
                        == annotation_view(crate::ast::MacroKind::Pre, f.body@[q]) by {
                    if q < k {
                        let i = choose|i: int|
                            b0.graph.n() < i < bk.graph.n() && bk.graph.node_at(i)
                                == annotation_view(crate::ast::MacroKind::Pre, f.body@[q]);
                        assert(self.graph.node_at(i) == annotation_view(
                            crate::ast::MacroKind::Pre,
                            f.body@[q],
                        ));
                    }
                }
                assert forall|q: int|
                    0 <= q < k + 1 && is_named_macro_stmt(
                        #[trigger] f.body@[q],
                        crate::print::macro_name_spec(crate::ast::MacroKind::Invariant),
                    ) implies exists|i: int|
                    b0.graph.n() < i < self.graph.n() && self.graph.node_at(i)
                        == annotation_view(crate::ast::MacroKind::Invariant, f.body@[q]) by {
                    if q < k {
                        let i = choose|i: int|
                            b0.graph.n() < i < bk.graph.n() && bk.graph.node_at(i)
                                == annotation_view(crate::ast::MacroKind::Invariant, f.body@[q]);
                        assert(self.graph.node_at(i) == annotation_view(
                            crate::ast::MacroKind::Invariant,
                            f.body@[q],
                        ));
                    }
                }
            }
            k += 1;
        }
        let ghost b2 = *self;
        self.add_postconditions();
        proof {
            lemma_extends_trans(b0.graph, b2.graph, self.graph);
            if loops_ok_stmts(f.body@) {
                lemma_conds_mono(b2.graph, self.graph, b0.graph.n());
            }
            let ghost posts = posts_of(f.body@, f.body@.len() as int);
            assert(self.graph.n() == b2.graph.n() + posts.len());
            assert forall|kk: int| 0 <= kk < posts.len() implies self.graph.node_at(
                self.graph.n() - posts.len() + kk,
            ) == posts[kk] by {
                assert(self.graph.node_at(b2.graph.n() + kk) == b2.postconditions@[kk]@);
            }
        }
        self.current_node = None;
        self.next_edge_label = None;
    }

    /// Fuses and splices the merge points, then normalises the condition and
    /// statement labels.
    pub fn post_process(&mut self)
        requires
            binv(*old(self)),
            old(self).current_node is None,
        ensures
            binv(*final(self)),
            final(self).graph.n() == old(self).graph.n(),
            final(self).current_node is None,
            // every fixed-point merge with one outgoing edge targets a merge
            forall|i: int|
                final(self).graph.alive(i) && is_merge(final(self).graph.node_at(i))
                    && final(self).graph.out_deg(i) == 1 ==> merge_targets(final(self).graph, i),
            // conditions survive with their branch edges
            forall|i: int|
                old(self).graph.alive(i) && is_condition(old(self).graph.node_at(i))
                    ==> final(self).graph.alive(i) && is_condition(final(self).graph.node_at(i)),
            forall|i: int| final(self).graph.alive(i) ==> old(self).graph.alive(i),
            forall|i: int|
                0 <= i < old(self).graph.n() && is_condition(final(self).graph.node_at(i))
                    ==> is_condition(old(self).graph.node_at(i)),
            forall|i: int|
                old(self).graph.alive(i) && is_condition(old(self).graph.node_at(i)) && cond_ok(
                    old(self).graph,
                    i,
                ) ==> cond_ok(final(self).graph, i),
            // labels are normalised in place; nothing else about a node changes
            forall|i: int|
                0 <= i < old(self).graph.n() ==> final(self).graph.node_at(i) == clean_node(
                    old(self).graph.node_at(i),
                ),
            // only merge points are ever removed
            forall|i: int|
                old(self).graph.alive(i) && !is_merge(old(self).graph.node_at(i))
                    ==> final(self).graph.alive(i),
            // every surviving non-merge node keeps its outgoing labels
            forall|i: int, l: EdgeLabel|
                old(self).graph.alive(i) && !is_merge(old(self).graph.node_at(i)) && old(
                    self,
                ).graph.has_edge_from(i, l) ==> final(self).graph.has_edge_from(i, l),
            final(self).postconditions@ == old(self).postconditions@,
    {
        let ghost g0 = self.graph;
        self.graph.post_process_merges();
        let ghost g1 = self.graph;
        self.graph.clean_labels();
        proof {
            assert forall|i: int| 0 <= i < g0.n() implies self.graph.node_at(i) == clean_node(
                g0.node_at(i),
            ) by {
                assert(g1.node_at(i) == g0.node_at(i));
                assert(self.graph.node_at(i) == clean_node(g1.node_at(i)));
            }
            assert forall|i: int|
                0 <= i < g0.n() && is_condition(self.graph.node_at(i)) implies is_condition(
                g0.node_at(i),
            ) by {
                assert(self.graph.node_at(i) == crate::cfg::clean_node(g1.node_at(i)));
                assert(g1.node_at(i) == g0.node_at(i));
            }
            assert forall|i: int|
                g0.alive(i) && is_condition(g0.node_at(i)) implies self.graph.alive(i)
                && is_condition(self.graph.node_at(i)) by {
                assert(!is_merge(g0.node_at(i)));
                assert(g1.node_at(i) == g0.node_at(i));
                assert(self.graph.node_at(i) == crate::cfg::clean_node(g1.node_at(i)));
            }
            assert forall|i: int|
                g0.alive(i) && is_condition(g0.node_at(i)) && cond_ok(g0, i) implies cond_ok(
                self.graph,
                i,
            ) by {
                assert(!is_merge(g0.node_at(i)));
                assert(g1.has_edge_from(i, EdgeLabel::True));
                assert(g1.has_edge_from(i, EdgeLabel::False));
                assert(self.graph.edges@ == g1.edges@);
            }
            assert forall|i: int|
                self.graph.alive(i) && is_merge(self.graph.node_at(i)) && self.graph.out_deg(i)
                    == 1 implies merge_targets(self.graph, i) by {
                assert(self.graph.node_at(i) == crate::cfg::clean_node(g1.node_at(i)));
                assert(is_merge(g1.node_at(i)));
                assert(g1.out_deg(i) == self.graph.out_deg(i));
                assert(merge_targets(g1, i));
                assert forall|k: int|
                    0 <= k < self.graph.out_edges(i).len() implies self.graph.alive(
                    (#[trigger] self.graph.out_edges(i)[k]).dst as int,
                ) && is_merge(
                    self.graph.node_at(self.graph.out_edges(i)[k].dst as int),
                ) by {
                    assert(self.graph.out_edges(i) == g1.out_edges(i));
                    assert(g1.alive(g1.out_edges(i)[k].dst as int) && is_merge(
                        g1.node_at(g1.out_edges(i)[k].dst as int),
                    ));
                    assert(self.graph.node_at(g1.out_edges(i)[k].dst as int)
                        == crate::cfg::clean_node(g1.node_at(g1.out_edges(i)[k].dst as int)));
                }
            }
        }
    }

    /// Builds the whole graph for a source file and post-processes it. When
    /// every loop body inserts a node, every condition node of the result
    /// carries a `true`- and a `false`-labelled outgoing edge; and no merge
    /// point is left with a single outgoing edge into a non-merge node.
    pub fn build_cfg(&mut self, file: &SrcFile)
        requires
            binv(*old(self)),
            old(self).postconditions@.len() == 0,
        ensures
            binv(*final(self)),
            loops_ok_file(*file) && old(self).graph.n() == 0 ==> (forall|i: int|
                final(self).graph.alive(i) && is_condition(final(self).graph.node_at(i))
                    ==> cond_ok(final(self).graph, i)),
            forall|i: int|
                final(self).graph.alive(i) && is_merge(final(self).graph.node_at(i))
                    && final(self).graph.out_deg(i) == 1 ==> merge_targets(final(self).graph, i),
            // every annotated function contributes its function node
            forall|k: int|
                0 <= k < file.functions@.len() && relevant_fn(#[trigger] file.functions@[k])
                    ==> exists|fi: int|
                    0 <= fi < final(self).graph.n() && final(self).graph.alive(fi) && (
                    #[trigger] final(self).graph.node_at(fi)) == NodeV::Function(
                        file.functions@[k].name@,
                    ),
    {
        let ghost b0 = *self;
        let mut k: usize = 0;
        while k < file.functions.len()
            invariant
                binv(*self),
                graph_extends(b0.graph, self.graph),
                0 <= k <= file.functions@.len(),
                loops_ok_file(*file) ==> conds_ok_from(self.graph, b0.graph.n()),
                self.postconditions@.len() == 0,
                forall|q: int|
                    0 <= q < k && relevant_fn(#[trigger] file.functions@[q]) ==> exists|fi: int|
                        0 <= fi < self.graph.n() && self.graph.alive(fi) && (
                        #[trigger] self.graph.node_at(fi)) == NodeV::Function(
                            file.functions@[q].name@,
                        ),
            decreases file.functions@.len() - k,
        {
            let ghost bk = *self;
            self.visit_item_fn(&file.functions[k]);
            proof {
                lemma_extends_trans(b0.graph, bk.graph, self.graph);
                if loops_ok_file(*file) {
                    assert(loops_ok_stmts(file.functions@[k as int].body@));
                    lemma_conds_mono(bk.graph, self.graph, b0.graph.n());
                }
                assert forall|q: int|
                    0 <= q < k + 1 && relevant_fn(#[trigger] file.functions@[q]) implies exists|
                    fi: int,
                |
                    0 <= fi < self.graph.n() && self.graph.alive(fi) && (
                    #[trigger] self.graph.node_at(fi)) == NodeV::Function(
                        file.functions@[q].name@,
                    ) by {
                    if q == k as int {
                        assert(self.graph.alive(bk.graph.n()) && self.graph.node_at(bk.graph.n())
                            == NodeV::Function(file.functions@[q].name@));
                    } else {
                        let fi = choose|fi: int|
                            0 <= fi < bk.graph.n() && bk.graph.alive(fi) && (
                            #[trigger] bk.graph.node_at(fi)) == NodeV::Function(
                                file.functions@[q].name@,
                            );
                        assert(self.graph.alive(fi) && self.graph.node_at(fi)
                            == NodeV::Function(file.functions@[q].name@));
                    }
                }
            }
            k += 1;
        }
        self.current_node = None;
        self.next_edge_label = None;
        let ghost b1 = *self;
        self.post_process();
        proof {
            assert forall|q: int|
                0 <= q < file.functions@.len() && relevant_fn(#[trigger] file.functions@[q])
                implies exists|fi: int|
                0 <= fi < self.graph.n() && self.graph.alive(fi) && (
                #[trigger] self.graph.node_at(fi)) == NodeV::Function(
                    file.functions@[q].name@,
                ) by {
                assert(exists|fi: int|
                    0 <= fi < b1.graph.n() && b1.graph.alive(fi) && (
                    #[trigger] b1.graph.node_at(fi)) == NodeV::Function(
                        file.functions@[q].name@,
                    ));
                let fi = choose|fi: int|
                    0 <= fi < b1.graph.n() && b1.graph.alive(fi) && (
                    #[trigger] b1.graph.node_at(fi)) == NodeV::Function(
                        file.functions@[q].name@,
                    );
                assert(!is_merge(b1.graph.node_at(fi)));
                assert(self.graph.node_at(fi) == clean_node(b1.graph.node_at(fi)));
                assert(self.graph.alive(fi));
            }
            if loops_ok_file(*file) && b0.graph.n() == 0 {
                assert forall|i: int|
                    self.graph.alive(i) && is_condition(self.graph.node_at(i)) implies cond_ok(
                    self.graph,
                    i,
                ) by {
                    assert(b1.graph.alive(i) && is_condition(b1.graph.node_at(i)));
                    assert(cond_ok(b1.graph, i));
                }
            }
        }
    }
}

} // verus!
