use dimcheck::constraints::{constraint_system_to_linear_system, fits_linear_system};
use dimcheck::frames::{cheapest_conversion, Conversions};
use dimcheck::search::{first_candidate, next_candidate, pin_repair_rows};
use dimcheck::types::VALUE_SCALE;
use dimcheck::walker::{
    extract_types, get_binary_operator, get_initialization, get_rhs, has_initialization, is_repairable_operator, AstNode,
    LiteralValue, NodeKind, VisitResult, WalkContext,
};
use nalgebra::{DMatrix, DVector};

fn node(kind: NodeKind, location: &str) -> AstNode {
    AstNode {
        kind,
        name: None,
        comment: None,
        is_definition: false,
        is_unexposed: false,
        mangled_name: None,
        location: location.to_string(),
        spelling: None,
        literal: None,
        operator: None,
        children: vec![],
    }
}

fn decl(name: &str, comment: Option<&str>, init: Option<AstNode>, location: &str) -> AstNode {
    let mut n = node(NodeKind::Other, location);
    n.name = Some(name.to_string());
    n.comment = comment.map(|c| c.to_string());
    n.is_definition = true;
    n.children = init.into_iter().collect();
    n
}

fn decl_ref(name: &str, location: &str) -> AstNode {
    let mut n = node(NodeKind::DeclRefExpr, location);
    n.name = Some(name.to_string());
    n.spelling = Some(name.to_string());
    n
}

fn float_literal(text: &str, value: f64, location: &str) -> AstNode {
    let mut n = node(NodeKind::FloatingLiteral, location);
    n.spelling = Some(text.to_string());
    n.literal = Some(LiteralValue {
        label: format!("literal {} at {}", value, location),
        log_value: (value.log10() * VALUE_SCALE as f64).round() as i64,
    });
    n
}

fn binop(op: &str, lhs: AstNode, rhs: AstNode, location: &str) -> AstNode {
    let mut n = node(NodeKind::BinaryOperator, location);
    n.operator = Some(op.to_string());
    n.children = vec![lhs, rhs];
    n
}

fn unit(children: Vec<AstNode>) -> AstNode {
    let mut n = node(NodeKind::Other, "unit");
    n.children = children;
    n
}

struct Solved {
    labels: Vec<String>,
    x: Vec<f64>,
}

impl Solved {
    fn component(&self, label: &str, offset: usize) -> f64 {
        let k = self.labels.iter().position(|l| l == label).unwrap();
        self.x[8 * k + offset]
    }
}

fn solve(w: &WalkContext) -> Option<Solved> {
    assert!(fits_linear_system(&w.constraints));
    let (rows, labels) = constraint_system_to_linear_system(&w.constraints);
    let repairs: Vec<String> = w.tmp_terms_to_repair_contexts.iter().map(|(k, _)| k.clone()).collect();
    let mut pins = first_candidate(repairs.len());
    loop {
        let system = pin_repair_rows(&rows, &labels, &repairs, &pins);
        let cols = 8 * labels.len();
        let a = DMatrix::from_fn(system.len(), cols, |i, j| system[i][j] as f64);
        let b = DVector::from_iterator(system.len(), system.iter().map(|r| r[cols] as f64 / VALUE_SCALE as f64));
        let result = lstsq::lstsq(&a, &b, 0.001).unwrap();
        if result.residuals.abs() <= 0.01 {
            return Some(Solved { labels, x: result.solution.iter().cloned().collect() });
        }
        match next_candidate(&pins) {
            Some(p) => pins = p,
            None => return None,
        }
    }
}

fn nonzero_repairs(w: &WalkContext, s: &Solved) -> Vec<(String, String, f64)> {
    let mut out = vec![];
    for (label, ctx) in &w.tmp_terms_to_repair_contexts {
        let v = s.component(label, 0);
        if v.abs() > 1e-8 {
            out.push((ctx.source_location.clone(), ctx.original_expression.clone(), v));
        }
    }
    out
}

#[test]
fn centimeter_to_meter_mismatch() {
    let root = unit(vec![
        decl("cm_value", Some("cm_value : cm"), None, "line 1"),
        decl("d", Some("d : m"), Some(decl_ref("cm_value", "line 2 col 12")), "line 2"),
    ]);
    let w = extract_types(&root);
    let s = solve(&w).unwrap();
    let repairs = nonzero_repairs(&w, &s);
    assert_eq!(repairs.len(), 1);
    assert_eq!(repairs[0].0, "line 2");
    assert_eq!(repairs[0].1, "cm_value");
    assert!((repairs[0].2 - 2.0).abs() < 1e-6);
}

#[test]
fn dimension_mismatch_unrepairable() {
    let root = unit(vec![
        decl("length", Some("length : m"), None, "line 1"),
        decl("t", Some("t : s"), Some(decl_ref("length", "line 2 col 12")), "line 2"),
    ]);
    let w = extract_types(&root);
    assert!(solve(&w).is_none());
}

#[test]
fn multiplication_composes_units() {
    let product = binop("*", decl_ref("a", "line 3 col 12"), decl_ref("b", "line 3 col 16"), "line 3 col 12");
    let root = unit(vec![
        decl("a", Some("a : m"), None, "line 1"),
        decl("b", Some("b : m"), None, "line 2"),
        decl("c", None, Some(product), "line 3"),
    ]);
    let w = extract_types(&root);
    let s = solve(&w).unwrap();
    assert!(nonzero_repairs(&w, &s).is_empty());
    assert!(s.component("T0", 0).abs() < 1e-6);
    assert!((s.component("T0", 2) - 2.0).abs() < 1e-6);
    for d in [1, 3, 4, 5, 6, 7] {
        assert!(s.component("T0", d).abs() < 1e-6);
    }
}

#[test]
fn literal_normalization() {
    // A literal has no dimension, so assigning one to a length cannot be
    // repaired by a scalar alone.
    let root = unit(vec![decl("d", Some("d : m"), Some(float_literal("100.0", 100.0, "line 1 col 12")), "line 1")]);
    let w = extract_types(&root);
    assert_eq!(w.constraints.len(), 3);
    assert!(solve(&w).is_none());
    // Scaled by a length, the literal contributes its decimal logarithm.
    let scaled = binop("*", float_literal("100.0", 100.0, "line 2 col 12"), decl_ref("x", "line 2 col 20"), "line 2 col 12");
    let root = unit(vec![decl("x", Some("x : m"), None, "line 1"), decl("d", Some("d : m"), Some(scaled), "line 2")]);
    let w = extract_types(&root);
    let s = solve(&w).unwrap();
    assert!((s.component("literal 100 at line 2 col 12", 0) - 2.0).abs() < 1e-6);
    let repairs = nonzero_repairs(&w, &s);
    assert_eq!(repairs.len(), 1);
    assert!((repairs[0].2 + 2.0).abs() < 1e-6);
}

#[test]
fn walker_names_fresh_objects_in_order() {
    let product = binop("*", decl_ref("a", "l3"), decl_ref("b", "l3"), "l3");
    let root = unit(vec![decl("c", None, Some(product), "line 3")]);
    let w = extract_types(&root);
    assert_eq!(w.fresh_count, 3);
    assert_eq!(w.frame_conversion_name_to_repair_context[0].0, "T1");
    assert_eq!(w.tmp_terms_to_repair_contexts.len(), 1);
    assert_eq!(w.tmp_terms_to_repair_contexts[0].0, "T2");
    assert_eq!(w.constraints.len(), 2);
    assert_eq!(w.frames.assignments[0].lhs_var, "c_frame");
    assert_eq!(w.frames.assignments[0].rhs_var, "T0_frame");
}

#[test]
fn walker_qualifies_names_in_scopes() {
    let mut ns = node(NodeKind::Namespace, "line 1");
    ns.name = Some("geo".to_string());
    ns.is_definition = true;
    ns.mangled_name = Some("geo".to_string());
    ns.children = vec![decl("x", Some("x : m"), Some(decl_ref("y", "line 2")), "line 2")];
    let w = extract_types(&unit(vec![ns]));
    assert!(w.context.is_empty());
    assert_eq!(w.frames.assignments[0].lhs_var, "geo::x_frame");
    assert_eq!(w.frames.assignments[0].rhs_var, "geo::y_frame");
    let (_, labels) = constraint_system_to_linear_system(&w.constraints);
    assert_eq!(labels, vec!["geo::x".to_string(), "geo::y".to_string(), "T1".to_string()]);
}

#[test]
fn walker_warns_on_unevaluated_literal() {
    let mut lit = node(NodeKind::FloatingLiteral, "line 1 col 9");
    lit.spelling = Some("1e999".to_string());
    let root = unit(vec![decl("d", None, Some(lit), "line 1")]);
    let w = extract_types(&root);
    assert!(w.constraints.is_empty());
    assert_eq!(w.warnings.len(), 2);
    assert_eq!(w.warnings[0], "Warning: Could not evaluate node at line 1 col 9");
    assert_eq!(w.warnings[1], "Warning: has a RHS with an unknown object name in line 1.");
}

#[test]
fn walker_assignment_operator_is_repairable() {
    let assign = binop("=", decl_ref("a", "l4 c1"), decl_ref("b", "l4 c5"), "l4 c1");
    let mut body = node(NodeKind::Other, "l3");
    body.children = vec![assign];
    let root = unit(vec![
        decl("a", Some("a : m"), None, "l1"),
        decl("b", Some("b : cm"), None, "l2"),
        body,
    ]);
    let w = extract_types(&root);
    assert_eq!(w.tmp_terms_to_repair_contexts.len(), 1);
    assert_eq!(w.tmp_terms_to_repair_contexts[0].1.source_location, "l4 c5");
    assert_eq!(w.tmp_terms_to_repair_contexts[0].1.original_expression, "b");
    let s = solve(&w).unwrap();
    assert!((s.component("T0", 0) - 2.0).abs() < 1e-6);
}

#[test]
fn frame_no_op_through_walk() {
    let root = unit(vec![
        decl("b", Some("frame(b) = (global, epoch)"), None, "l1"),
        decl("a", Some("frame(a) = (global, epoch)"), Some(decl_ref("b", "l2")), "l2"),
    ]);
    let w = extract_types(&root);
    assert_eq!(w.frames.declared, vec![("b_frame".to_string(), 4), ("a_frame".to_string(), 4)]);
    let asg = &w.frames.assignments[0];
    let lhs = w.frames.declared.iter().find(|(v, _)| *v == asg.lhs_var).unwrap().1;
    let rhs = w.frames.declared.iter().find(|(v, _)| *v == asg.rhs_var).unwrap().1;
    assert_eq!(cheapest_conversion(lhs, rhs), Some((Conversions::NoOp, 0)));
}

#[test]
fn frame_local_to_global_through_walk() {
    let root = unit(vec![
        decl("b", Some("frame(b) = (local, _)"), None, "l1"),
        decl("a", Some("frame(a) = (global, _)"), Some(decl_ref("b", "l2")), "l2"),
    ]);
    let w = extract_types(&root);
    let asg = &w.frames.assignments[0];
    let lhs = w.frames.declared.iter().find(|(v, _)| *v == asg.lhs_var).unwrap().1;
    let rhs = w.frames.declared.iter().find(|(v, _)| *v == asg.rhs_var).unwrap().1;
    assert_eq!(cheapest_conversion(lhs, rhs), Some((Conversions::LocalToGlobal, 1)));
}

#[test]
fn operators_and_tokens() {
    assert!(is_repairable_operator("<="));
    assert!(!is_repairable_operator("*"));
    let tokens = vec!["a".to_string(), "+".to_string(), "b".to_string()];
    assert_eq!(get_binary_operator(Some(1), &tokens), Some("+".to_string()));
    assert_eq!(get_binary_operator(None, &tokens), None);
    assert_eq!(get_binary_operator(Some(3), &tokens), None);
}

#[test]
fn initialization_of_definitions() {
    let d = decl("d", None, Some(decl_ref("x", "l1 c9")), "l1");
    assert!(has_initialization(&d));
    assert_eq!(get_initialization(&d).unwrap().name, Some("x".to_string()));
    assert_eq!(get_rhs(&d).unwrap().location, "l1 c9");
    let bare = decl("e", None, None, "l2");
    assert!(!has_initialization(&bare));
    assert!(get_initialization(&bare).is_none());
    assert!(get_rhs(&bare).is_none());
    let mut expr = decl_ref("y", "l3");
    expr.children = vec![decl_ref("z", "l3")];
    assert!(!has_initialization(&expr));
    assert!(get_rhs(&expr).is_some());
}

#[test]
fn relate_operands_by_operator() {
    let sum = binop("-", decl_ref("a", "l1 c1"), decl_ref("b", "l1 c5"), "l1 c1");
    let mut w = WalkContext::new();
    w.object_name = Some("b".to_string());
    assert_eq!(w.relate_operands(&sum, Some("a".to_string())), VisitResult::Continue);
    assert_eq!(w.object_name, Some("a".to_string()));
    assert_eq!(w.constraints.len(), 1);
    assert_eq!(w.tmp_terms_to_repair_contexts[0].0, "T0");
    assert_eq!(w.tmp_terms_to_repair_contexts[0].1.source_location, "l1 c5");

    let quotient = binop("/", decl_ref("a", "l2"), decl_ref("b", "l2"), "l2");
    let mut w = WalkContext::new();
    w.object_name = Some("b".to_string());
    assert_eq!(w.relate_operands(&quotient, Some("a".to_string())), VisitResult::Continue);
    assert_eq!(w.object_name, Some("T0".to_string()));
    assert!(w.tmp_terms_to_repair_contexts.is_empty());

    let modulo = binop("%", decl_ref("a", "l3"), decl_ref("b", "l3"), "l3");
    let mut w = WalkContext::new();
    w.object_name = Some("b".to_string());
    assert_eq!(w.relate_operands(&modulo, Some("a".to_string())), VisitResult::Recurse);
    assert_eq!(w.object_name, Some("b".to_string()));
    assert!(w.constraints.is_empty());
    assert_eq!(w.relate_operands(&sum, None), VisitResult::Continue);
    assert!(w.constraints.is_empty());
}
