use dimcheck::frames::{
    cheapest_conversion, frame_assert, frame_cases, frame_from_number, frame_number, get_frame_var_name,
    on_frame_assignment, parse_human_frame, Conversions, FrameSystem, InertialFrames, TemporalFrames,
};

#[test]
fn frame_numbers_round_trip() {
    for n in 0..9 {
        assert_eq!(frame_number(frame_from_number(n)), n);
    }
    assert_eq!(frame_number((InertialFrames::Global, TemporalFrames::Epoch)), 4);
    assert_eq!(frame_from_number(5), (InertialFrames::Global, TemporalFrames::Unconstrained));
}

#[test]
fn conversion_numbers_round_trip() {
    for n in 0..5 {
        assert_eq!(Conversions::from_number(n).number(), n);
    }
    assert_eq!(Conversions::LocalToGlobal.number(), 1);
}

#[test]
fn frame_var_name_has_suffix() {
    assert_eq!(get_frame_var_name("ns::a"), "ns::a_frame");
}

#[test]
fn frame_annotation_is_parsed() {
    let (name, i, t) = parse_human_frame("frame(pos) = (local, boot)").unwrap();
    assert_eq!(name, "pos");
    assert_eq!(i, InertialFrames::Local);
    assert_eq!(t, TemporalFrames::Boot);
    let (name, i, t) = parse_human_frame("see frame(v)=(_,epoch)").unwrap();
    assert_eq!(name, "v");
    assert_eq!(i, InertialFrames::Unconstrained);
    assert_eq!(t, TemporalFrames::Epoch);
    assert!(parse_human_frame("frame(v) = (up, boot)").is_none());
    assert!(parse_human_frame("x : m").is_none());
}

#[test]
fn frame_names_are_read() {
    assert_eq!(InertialFrames::from_name("global"), Some(InertialFrames::Global));
    assert_eq!(TemporalFrames::from_name("_"), Some(TemporalFrames::Unconstrained));
    assert_eq!(TemporalFrames::from_name("noon"), None);
}

#[test]
fn frame_no_op_assignment() {
    let a = frame_number((InertialFrames::Global, TemporalFrames::Epoch));
    let b = frame_number((InertialFrames::Global, TemporalFrames::Epoch));
    assert_eq!(cheapest_conversion(a, b), Some((Conversions::NoOp, 0)));
}

#[test]
fn frame_local_to_global() {
    let a = frame_number((InertialFrames::Global, TemporalFrames::Unconstrained));
    let b = frame_number((InertialFrames::Local, TemporalFrames::Unconstrained));
    assert_eq!(cheapest_conversion(a, b), Some((Conversions::LocalToGlobal, 1)));
}

#[test]
fn frame_temporal_conversions() {
    let epoch = frame_number((InertialFrames::Unconstrained, TemporalFrames::Epoch));
    let boot = frame_number((InertialFrames::Unconstrained, TemporalFrames::Boot));
    assert_eq!(cheapest_conversion(epoch, boot), Some((Conversions::BootToEpoch, 1)));
    assert_eq!(cheapest_conversion(boot, epoch), Some((Conversions::EpochToBoot, 1)));
    assert_eq!(cheapest_conversion(0, 4), None);
}

#[test]
fn frame_cases_cover_every_conversion() {
    let cases = frame_cases();
    assert_eq!(cases.len(), 5);
    assert!(cases[0].same_frame);
    assert_eq!(cases[0].repair, 0);
    assert_eq!((cases[1].lhs_frame, cases[1].rhs_frame), (5, 2));
    assert_eq!((cases[2].lhs_frame, cases[2].rhs_frame), (2, 5));
    assert_eq!((cases[3].lhs_frame, cases[3].rhs_frame), (7, 6));
    assert_eq!((cases[4].lhs_frame, cases[4].rhs_frame), (6, 7));
}

#[test]
fn frame_system_records_facts() {
    let mut system = FrameSystem::new();
    let var = frame_assert("a", (InertialFrames::Local, TemporalFrames::Boot), &mut system);
    assert_eq!(var, "a_frame");
    assert_eq!(system.declared, vec![("a_frame".to_string(), 0)]);
    let conv = on_frame_assignment("a", "b", &mut system, "T4".to_string());
    assert_eq!(conv, "T4");
    let asg = &system.assignments[0];
    assert_eq!(asg.lhs_var, "a_frame");
    assert_eq!(asg.rhs_var, "b_frame");
    assert_eq!(asg.repair, "T4_repair_const");
}
