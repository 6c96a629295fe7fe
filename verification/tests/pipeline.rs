use secrust::ast::{BinOp, CondKind, Expr};
use secrust::builder::CfgBuilder;
use secrust::cfg::{CfgNode, EdgeLabel};
use secrust::cleanup::clean_up_formatting;
use secrust::contracts::{ExternalMethod, ExternalMethods};
use secrust::lower::{generate_condition_and_vars, verdict_of, BoolTerm, LowerError, SolverOutcome, Verdict};
use secrust::parse::parse_formula_text;
use secrust::source::{IfStmt, SrcElse, SrcExpr, SrcFile, SrcFn, SrcStmt, WhileStmt};
use secrust::subst::recursive_substitution;
use secrust::wp::parse_assignment;

fn text(s: &str) -> Vec<u8> {
    s.as_bytes().to_vec()
}

fn formula(s: &str) -> Expr {
    parse_formula_text(s.as_bytes()).expect("formula inside the grammar")
}

fn stmt_other(s: &str) -> SrcStmt {
    SrcStmt::Local(text(s))
}

fn macro_stmt(name: &str, args: &str) -> SrcStmt {
    let tokens = secrust::lex::lex(args.as_bytes()).expect("lexable");
    let printed = format!("{}!({})", name, args);
    SrcStmt::ExprStmt(SrcExpr::MacroCall(text(name), tokens, text(&printed)))
}

fn builder() -> CfgBuilder {
    CfgBuilder::new(ExternalMethods::empty())
}

/// The triangular-sum function: precondition, two bindings, an invariant
/// before the loop, the loop body, and a postcondition.
fn triangle_file(post: &str) -> SrcFile {
    let body = vec![
        macro_stmt("pre", "n >= 0"),
        stmt_other("let mut i = 1"),
        stmt_other("let mut sum = 0"),
        macro_stmt("invariant", "i <= n + 1 && sum == (i - 1) * i / 2"),
        SrcStmt::ExprStmt(SrcExpr::While(WhileStmt {
            cond_text: text("i <= n"),
            cond: formula("i <= n"),
            body: vec![stmt_other("sum = sum + i"), stmt_other("i = i + 1")],
        })),
        macro_stmt("post", post),
    ];
    SrcFile { functions: vec![SrcFn { name: text("f"), body }] }
}

fn wp_texts_of(file: &SrcFile) -> (Vec<String>, usize) {
    let mut b = builder();
    b.build_cfg(file);
    let paths = b.generate_basic_paths();
    let texts = b.apply_wp_calculus(&paths);
    let strings = texts
        .into_iter()
        .map(|t| String::from_utf8(t).expect("ascii"))
        .collect();
    (strings, paths.len())
}

#[test]
fn triangle_three_paths() {
    let (texts, n_paths) = wp_texts_of(&triangle_file("sum == n * (n + 1) / 2"));
    assert_eq!(n_paths, 3);
    assert_eq!(texts.len(), 3);
    // the precondition-to-invariant path substitutes both bindings
    assert!(texts[0].starts_with("pre ! (n >= 0) >> invariant ! ("));
    assert!(texts[0].contains("(1) <= n + 1"));
    assert!(texts[0].contains("(0) == ((1) - 1) * (1) / 2"));
    // the loop path re-establishes the invariant after the body
    assert!(texts[1].contains("(i <= n) >> invariant ! ("));
    assert!(texts[1].contains("(sum + i) =="));
    // the exit path negates the guard before the postcondition
    assert!(texts[2].contains("! (i <= n) >> post ! (sum == n * (n + 1) / 2)"));
}

#[test]
fn triangle_lowered_obligations() {
    let (texts, _) = wp_texts_of(&triangle_file("sum == n * (n + 1) / 2"));
    for t in &texts {
        let e = parse_formula_text(t.as_bytes()).expect("the emitted text re-parses");
        let (_, _) = generate_condition_and_vars(&e).expect("each obligation lowers");
    }
    // the first obligation speaks of `n` alone: the bindings were substituted
    let e = parse_formula_text(texts[0].as_bytes()).unwrap();
    let (_, vars) = generate_condition_and_vars(&e).unwrap();
    assert_eq!(vars, vec![text("n")]);
}

#[test]
fn off_by_one_postcondition_still_three_paths() {
    let (texts, n_paths) = wp_texts_of(&triangle_file("sum == n * (n - 1) / 2"));
    assert_eq!(n_paths, 3);
    assert!(texts[2].contains("post ! (sum == n * (n - 1) / 2)"));
    // the exit obligation mentions n, i and sum: a solver receives all three
    let e = parse_formula_text(texts[2].as_bytes()).unwrap();
    let (_, vars) = generate_condition_and_vars(&e).unwrap();
    assert_eq!(vars.len(), 3);
}

#[test]
fn missing_invariant_yields_cutoff() {
    let body = vec![
        macro_stmt("pre", "n >= 0"),
        stmt_other("let mut i = 1"),
        stmt_other("let mut sum = 0"),
        SrcStmt::ExprStmt(SrcExpr::While(WhileStmt {
            cond_text: text("i <= n"),
            cond: formula("i <= n"),
            body: vec![stmt_other("sum = sum + i"), stmt_other("i = i + 1")],
        })),
        macro_stmt("post", "sum == n * (n + 1) / 2"),
    ];
    let file = SrcFile { functions: vec![SrcFn { name: text("f"), body }] };
    let mut b = builder();
    b.build_cfg(&file);
    let has_cutoff = b
        .graph
        .nodes
        .iter()
        .any(|n| matches!(n, CfgNode::Cutoff(_)));
    assert!(has_cutoff);
    let paths = b.generate_basic_paths();
    // pre-to-cutoff, cutoff-and-guard around the loop, cutoff-to-post
    assert_eq!(paths.len(), 3);
    let texts = b.apply_wp_calculus(&paths);
    assert_eq!(texts.len(), 3);
}

#[test]
fn if_else_two_paths() {
    let then_post = macro_stmt("post", "x >= 0");
    let else_post = macro_stmt("post", "x <= 0");
    let body = vec![
        macro_stmt("pre", "true"),
        SrcStmt::ExprStmt(SrcExpr::If(IfStmt {
            cond_text: text("x > 0"),
            cond: formula("x > 0"),
            then_branch: vec![then_post],
            else_branch: Some(Box::new(SrcElse::Block(vec![else_post]))),
        })),
    ];
    let file = SrcFile { functions: vec![SrcFn { name: text("g"), body }] };
    let (texts, n_paths) = wp_texts_of(&file);
    assert_eq!(n_paths, 2);
    assert_eq!(texts.len(), 2);
    assert!(texts[0].contains("pre ! (true) >> (x > 0) >> post ! (x >= 0)"));
    assert!(texts[1].contains("pre ! (true) >> ! (x > 0) >> post ! (x <= 0)"));
}

#[test]
fn substitution_through_a_macro() {
    let inv = formula("invariant!(x + 1 == 3)");
    let replacement = formula("2");
    let out = recursive_substitution(&inv, b"x", &replacement);
    let printed = String::from_utf8(secrust::print::expr_to_bytes(&out)).unwrap();
    assert_eq!(printed, "invariant ! ((2) + 1 == 3)");
}

#[test]
fn substitution_leaves_other_variables() {
    let e = formula("y + 1 == 3");
    let out = recursive_substitution(&e, b"x", &formula("2"));
    assert_eq!(out, e);
}

#[test]
fn contradiction_lowers_to_a_conjunction() {
    let e = formula("i > 0 && i < 0");
    let (t, vars) = generate_condition_and_vars(&e).expect("lowers");
    assert_eq!(vars, vec![text("i")]);
    assert!(matches!(t, BoolTerm::And(_, _)));
}

#[test]
fn lowering_rejects_what_the_grammar_excludes() {
    let opaque = Expr::Opaque(text("a.b()"));
    assert_eq!(
        generate_condition_and_vars(&opaque).unwrap_err(),
        LowerError::UnsupportedExpr
    );
    let int_top = formula("n + 1");
    assert_eq!(
        generate_condition_and_vars(&int_top).unwrap_err(),
        LowerError::ExpectedBool
    );
    let huge = formula("99999999999999999999 == 0");
    assert_eq!(
        generate_condition_and_vars(&huge).unwrap_err(),
        LowerError::BadLiteral
    );
}

#[test]
fn implication_chain_re_associates_to_the_right() {
    let e = formula("(a == 0) >> (b == 0) >> (c == 0)");
    let (t, _) = generate_condition_and_vars(&e).expect("lowers");
    match t {
        BoolTerm::Implies(_, rest) => match *rest {
            BoolTerm::Implies(_, _) => {}
            other => panic!("the tail must nest to the right: {:?}", other),
        },
        other => panic!("expected an implication: {:?}", other),
    }
}

#[test]
fn verdicts_follow_the_solver_answer() {
    assert_eq!(verdict_of(SolverOutcome::Unsat), Verdict::Valid);
    assert_eq!(verdict_of(SolverOutcome::Unknown), Verdict::Undetermined);
    let model = vec![(text("n"), text("1"))];
    match verdict_of(SolverOutcome::Sat(model.clone())) {
        Verdict::Invalid(m) => assert_eq!(m, model),
        other => panic!("a satisfiable negation is a counterexample: {:?}", other),
    }
}

#[test]
fn label_cleanup_strips_sticky_whitespace() {
    assert_eq!(clean_up_formatting(b"f ( x , y ) ;"), text("f(x,y);"));
    assert_eq!(clean_up_formatting(b"vec! [ 1 , 2 ]"), text("vec![1,2]"));
    // `+ ` widens by design, mirroring the label normalisation rule
    assert_eq!(clean_up_formatting(b"i + 1"), text("i  + 1"));
    assert_eq!(clean_up_formatting(b"x<=y"), text("x<=y"));
}

#[test]
fn assignments_of_each_shape() {
    let (v, e) = parse_assignment(b"sum = sum + i;").unwrap();
    assert_eq!(v, text("sum"));
    assert!(matches!(e, Expr::Binary(BinOp::Add, _, _)));

    let (v, e) = parse_assignment(b"i += 1").unwrap();
    assert_eq!(v, text("i"));
    assert!(matches!(e, Expr::Binary(BinOp::Add, _, _)));

    let (v, e) = parse_assignment(b"let mut sum = 0;").unwrap();
    assert_eq!(v, text("sum"));
    assert!(matches!(e, Expr::Lit(_)));

    assert!(parse_assignment(b"x == y").is_none());
    assert!(parse_assignment(b"foo(1)").is_none());

    // an operator outside the formula algebra still rewrites, opaquely
    let (v, e) = parse_assignment(b"x %= 2;").unwrap();
    assert_eq!(v, text("x"));
    match e {
        Expr::Opaque(t) => assert_eq!(t, text("x % 2")),
        other => panic!("expected an opaque rewrite: {:?}", other),
    }
}

#[test]
fn external_contracts_bracket_a_method_call() {
    let table = ExternalMethods {
        external_methods: vec![ExternalMethod {
            name: text("push"),
            preconditions: vec![text("n >= 0")],
            postconditions: vec![text("n >= 1")],
        }],
    };
    assert!(table.find(b"push").is_some());
    assert!(table.find(b"pop").is_none());
    let mut b = CfgBuilder::new(table);
    let body = vec![
        macro_stmt("pre", "n >= 0"),
        SrcStmt::ExprStmt(SrcExpr::MethodCall(text("push"), text("v . push ( x )"))),
        macro_stmt("post", "n >= 1"),
    ];
    let file = SrcFile { functions: vec![SrcFn { name: text("h"), body }] };
    b.build_cfg(&file);
    let pres = b
        .graph
        .nodes
        .iter()
        .filter(|n| matches!(n, CfgNode::Precondition(_, _)))
        .count();
    let posts = b
        .graph
        .nodes
        .iter()
        .filter(|n| matches!(n, CfgNode::Postcondition(_, _)))
        .count();
    assert_eq!(pres, 2);
    assert_eq!(posts, 2);
    let call = b.graph.nodes.iter().any(|n| match n {
        CfgNode::Statement(t) => t.starts_with(b"Call: "),
        _ => false,
    });
    assert!(call);
}

#[test]
fn conditions_carry_both_branch_edges() {
    let file = triangle_file("sum == n * (n + 1) / 2");
    let mut b = builder();
    b.build_cfg(&file);
    for (i, n) in b.graph.nodes.iter().enumerate() {
        if matches!(n, CfgNode::Condition(_, _, _)) {
            let mut has_true = false;
            let mut has_false = false;
            for e in b.graph.edges.iter() {
                if e.src == i {
                    has_true |= matches!(e.label, EdgeLabel::True);
                    has_false |= matches!(e.label, EdgeLabel::False);
                }
            }
            assert!(has_true && has_false);
        }
    }
}

#[test]
fn merge_points_reach_their_fixed_point() {
    let file = triangle_file("sum == n * (n + 1) / 2");
    let mut b = builder();
    b.build_cfg(&file);
    for (i, n) in b.graph.nodes.iter().enumerate() {
        if matches!(n, CfgNode::MergePoint) && !b.graph.removed[i] {
            let outs: Vec<_> = b.graph.edges.iter().filter(|e| e.src == i).collect();
            if outs.len() == 1 {
                assert!(matches!(
                    b.graph.nodes[outs[0].dst],
                    CfgNode::MergePoint
                ));
            }
        }
    }
}

#[test]
fn basic_path_endpoints_are_cut_nodes() {
    let file = triangle_file("sum == n * (n + 1) / 2");
    let mut b = builder();
    b.build_cfg(&file);
    let paths = b.generate_basic_paths();
    for p in &paths {
        assert!(p.len() >= 2);
        let ends = [p[0], *p.last().unwrap()];
        for idx in ends {
            assert!(matches!(
                b.graph.nodes[idx],
                CfgNode::Precondition(_, _)
                    | CfgNode::Postcondition(_, _)
                    | CfgNode::Invariant(_, _)
                    | CfgNode::Cutoff(_)
            ));
        }
        for idx in &p[1..p.len() - 1] {
            assert!(!matches!(
                b.graph.nodes[*idx],
                CfgNode::Precondition(_, _)
                    | CfgNode::Postcondition(_, _)
                    | CfgNode::Invariant(_, _)
                    | CfgNode::Cutoff(_)
            ));
        }
    }
}
