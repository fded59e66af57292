use pid_legend::primitive::{BoxStep, CommandSteps, DynRole, EnterStep, PointStep, Shape};

#[test]
fn a_cylinder_takes_a_centre_a_radius_then_its_height() {
    let mut s = CommandSteps::new("CYLINDER");
    assert_eq!(s.shape, Shape::Cylinder);
    assert_eq!(s.prompt(), "CYLINDER  Specify center point:");
    assert_eq!(s.on_point(), PointStep::NeedPoint);
    assert_eq!(s.prompt(), "CYLINDER  Specify radius:");
    assert!(!s.wants_text_input());
    assert_eq!(s.on_point(), PointStep::NeedPoint);
    assert!(s.height_step);
    assert!(s.wants_text_input());
    assert!(s.constrained_to_axis());
    assert_eq!(s.dyn_role(), Some(DynRole::Height));
    assert_eq!(s.prompt(), "CYLINDER  Specify height <Enter for default>:");
    assert_eq!(s.on_enter(), EnterStep::CommitDefault);
    assert_eq!(s.on_point(), PointStep::Commit);
}

#[test]
fn a_torus_takes_three_points_and_no_height() {
    let mut s = CommandSteps::new("TORUS");
    assert_eq!(s.on_point(), PointStep::NeedPoint);
    assert_eq!(s.prompt(), "TORUS  Specify outer radius:");
    assert_eq!(s.on_point(), PointStep::NeedPoint);
    assert_eq!(s.prompt(), "TORUS  Specify inner radius:");
    assert_eq!(s.on_point(), PointStep::Commit);
    assert!(!s.height_step);
    assert_eq!(s.on_enter(), EnterStep::Cancel);
}

#[test]
fn a_sphere_commits_on_its_radius_and_a_wedge_asks_for_corners() {
    let mut s = CommandSteps::new("SPHERE");
    assert_eq!(s.on_point(), PointStep::NeedPoint);
    assert_eq!(s.on_point(), PointStep::Commit);
    let w = CommandSteps::new("WEDGE");
    assert_eq!(w.prompt(), "WEDGE  Specify first corner:");
    let p = CommandSteps::new("PYR");
    assert_eq!(p.shape, Shape::Pyramid);
    assert_eq!(CommandSteps::new("NOPE").shape, Shape::Box);
}

#[test]
fn a_box_takes_keywords_at_its_point_steps() {
    let mut s = CommandSteps::new("BOX");
    assert_eq!(s.prompt(), "BOX  Specify first corner or [Center]:");
    assert_eq!(s.options(), vec![("Center".to_string(), "C".to_string())]);
    assert!(s.point_step_accepts_keywords());
    assert!(!s.on_keyword("cube"));
    assert_eq!(s.box_step, BoxStep::FirstCorner);
    assert!(s.on_keyword("  center "));
    assert!(s.box_centered);
    assert_eq!(s.box_step, BoxStep::CenterPoint);
    assert_eq!(s.on_point(), PointStep::NeedPoint);
    assert_eq!(s.box_step, BoxStep::OppositeCorner);
    assert_eq!(
        s.options(),
        vec![("Cube".to_string(), "C".to_string()), ("Length".to_string(), "L".to_string())]
    );
    assert!(s.on_keyword("l"));
    assert_eq!(s.box_step, BoxStep::Length);
    assert_eq!(s.dyn_role(), Some(DynRole::Distance));
    assert_eq!(s.on_point(), PointStep::Measure);
    s.length_set();
    assert_eq!(s.box_step, BoxStep::Width);
    assert_eq!(s.dyn_role(), Some(DynRole::Width));
    s.footprint_set();
    assert_eq!(s.box_step, BoxStep::Height);
    assert!(s.constrained_to_axis());
    assert!(s.on_keyword("2p"));
    assert_eq!(s.box_step, BoxStep::HeightFirstPoint);
    assert!(!s.wants_text_input());
    assert_eq!(s.on_point(), PointStep::NeedPoint);
    assert_eq!(s.prompt(), "BOX  Specify second point for height:");
    assert_eq!(s.on_point(), PointStep::Measure);
    assert_eq!(s.on_enter(), EnterStep::Cancel);
}

#[test]
fn a_keyword_is_read_in_any_case_the_unicode_way() {
    let mut s = CommandSteps::new("BOX");
    s.box_step = BoxStep::Height;
    // U+0131 (dotless i) uppercases to a plain I.
    assert!(s.on_keyword("2po\u{131}nt"));
    assert_eq!(s.box_step, BoxStep::HeightFirstPoint);
    let mut c = CommandSteps::new("CONE");
    assert!(!c.on_keyword("C"));
    assert_eq!(c, CommandSteps::new("CONE"));
}
