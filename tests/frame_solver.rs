use dimcheck::frames::{
    frame_assert, frame_cases, on_frame_assignment, Conversions, FrameSystem, InertialFrames, TemporalFrames,
};
use z3::ast::Ast;

/// Minimizes the repairs of a frame system; returns the total and the
/// conversion of each assignment.
fn minimize(system: &FrameSystem) -> Option<(i64, Vec<Conversions>)> {
    let cfg = z3::Config::new();
    let ctx = z3::Context::new(&cfg);
    let solver = z3::Optimize::new(&ctx);
    let int = |v: i64| z3::ast::Int::from_i64(&ctx, v);
    for (var, code) in &system.declared {
        solver.assert(&z3::ast::Int::new_const(&ctx, var.as_str())._eq(&int(*code)));
    }
    let cases = frame_cases();
    let mut repairs = Vec::new();
    let mut convs = Vec::new();
    for asg in &system.assignments {
        let lhs = z3::ast::Int::new_const(&ctx, asg.lhs_var.as_str());
        let rhs = z3::ast::Int::new_const(&ctx, asg.rhs_var.as_str());
        let conv = z3::ast::Int::new_const(&ctx, asg.conversion.as_str());
        let repair = z3::ast::Int::new_const(&ctx, asg.repair.as_str());
        let branches: Vec<z3::ast::Bool> = cases
            .iter()
            .map(|c| {
                let frames_match = if c.same_frame {
                    lhs._eq(&rhs)
                } else {
                    z3::ast::Bool::and(&ctx, &[&lhs._eq(&int(c.lhs_frame)), &rhs._eq(&int(c.rhs_frame))])
                };
                z3::ast::Bool::and(&ctx, &[&frames_match, &conv._eq(&int(c.conversion.number())), &repair._eq(&int(c.repair))])
            })
            .collect();
        let refs: Vec<&z3::ast::Bool> = branches.iter().collect();
        solver.assert(&z3::ast::Bool::or(&ctx, &refs));
        repairs.push(repair);
        convs.push(conv);
    }
    let refs: Vec<&z3::ast::Int> = repairs.iter().collect();
    let total = z3::ast::Int::add(&ctx, &refs);
    solver.minimize(&total);
    if solver.check(&[]) != z3::SatResult::Sat {
        return None;
    }
    let model = solver.get_model()?;
    let sum = model.eval(&total)?.as_i64()?;
    let conversions = convs.iter().map(|c| Conversions::from_number(model.eval(c).unwrap().as_i64().unwrap())).collect();
    Some((sum, conversions))
}

#[test]
fn solver_frame_no_op_assignment() {
    let mut system = FrameSystem::new();
    frame_assert("a", (InertialFrames::Global, TemporalFrames::Epoch), &mut system);
    frame_assert("b", (InertialFrames::Global, TemporalFrames::Epoch), &mut system);
    on_frame_assignment("a", "b", &mut system, "T0".to_string());
    assert_eq!(minimize(&system), Some((0, vec![Conversions::NoOp])));
}

#[test]
fn solver_frame_local_to_global() {
    let mut system = FrameSystem::new();
    frame_assert("a", (InertialFrames::Global, TemporalFrames::Unconstrained), &mut system);
    frame_assert("b", (InertialFrames::Local, TemporalFrames::Unconstrained), &mut system);
    on_frame_assignment("a", "b", &mut system, "T0".to_string());
    assert_eq!(minimize(&system), Some((1, vec![Conversions::LocalToGlobal])));
}

#[test]
fn solver_frame_unannotated_source_needs_no_repair() {
    let mut system = FrameSystem::new();
    frame_assert("a", (InertialFrames::Local, TemporalFrames::Boot), &mut system);
    on_frame_assignment("a", "b", &mut system, "T0".to_string());
    on_frame_assignment("c", "a", &mut system, "T1".to_string());
    assert_eq!(minimize(&system), Some((0, vec![Conversions::NoOp, Conversions::NoOp])));
}

#[test]
fn solver_frame_mismatch_is_unsatisfiable() {
    let mut system = FrameSystem::new();
    frame_assert("a", (InertialFrames::Global, TemporalFrames::Epoch), &mut system);
    frame_assert("b", (InertialFrames::Local, TemporalFrames::Boot), &mut system);
    on_frame_assignment("a", "b", &mut system, "T0".to_string());
    assert_eq!(minimize(&system), None);
}
