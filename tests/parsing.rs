use rbs::parse;
use rbs::parser::{to_centimeters, to_degrees, Parser};
use rbs::{Amount, Command, Scale, Unit};

fn value(a: &Amount) -> f32 {
    let n: f32 = a.number.parse().unwrap();
    match a.scale {
        Scale::One => n,
        Scale::InchesToCentimeters => n * 2.54,
        Scale::RadiansToDegrees => n * (180.0 / std::f32::consts::PI),
    }
}

fn amount(c: &Command) -> Option<&Amount> {
    match c {
        Command::MoveForward(a)
        | Command::MoveBackward(a)
        | Command::RotateRight(a)
        | Command::RotateLeft(a)
        | Command::FrontArmUp(a)
        | Command::FrontArmDown(a)
        | Command::BackArmUp(a)
        | Command::BackArmDown(a) => Some(a),
        Command::PyDebug | Command::Nop => None,
    }
}

#[test]
fn two_statements_end_to_end() {
    let (cmds, errs) = parse("move forward 10\nrotate right 90 deg\n".to_string());
    assert_eq!(cmds.len(), 2);
    assert!(matches!(&cmds[0], Command::MoveForward(a) if a.number == "10" && a.scale == Scale::One));
    assert!(matches!(&cmds[1], Command::RotateRight(a) if a.number == "90" && a.scale == Scale::One));
    assert_eq!(value(amount(&cmds[0]).unwrap()), 10.0);
    assert_eq!(value(amount(&cmds[1]).unwrap()), 90.0);
    assert!(errs.is_empty());
}

#[test]
fn missing_number_is_reported() {
    let (cmds, errs) = parse("move forward cm\n".to_string());
    assert!(cmds.is_empty());
    assert_eq!(errs.len(), 1);
    assert!(errs[0].starts_with("expected number after"));
    assert_eq!(errs[0], "expected number after \"move forward\". ignoring");
}

#[test]
fn angle_unit_on_distance_keeps_number() {
    let (cmds, errs) = parse("move forward 5 deg\n".to_string());
    assert_eq!(cmds.len(), 1);
    assert!(matches!(&cmds[0], Command::MoveForward(a) if a.number == "5" && a.scale == Scale::One));
    assert_eq!(value(amount(&cmds[0]).unwrap()), 5.0);
    assert_eq!(errs, vec!["cannot convert degrees to centimeters".to_string()]);
}

#[test]
fn comments_and_blank_lines() {
    let (cmds, errs) = parse("# comment\n\nmove forward 1\n".to_string());
    assert_eq!(cmds.len(), 1);
    assert!(matches!(&cmds[0], Command::MoveForward(a) if a.number == "1"));
    assert!(errs.is_empty());
}

#[test]
fn inches_convert_to_centimeters() {
    let (cmds, errs) = parse("move forward 10 in\n".to_string());
    assert!(errs.is_empty());
    assert!(matches!(&cmds[0], Command::MoveForward(a) if a.scale == Scale::InchesToCentimeters));
    assert!((value(amount(&cmds[0]).unwrap()) - 25.4).abs() < 1e-4);
}

#[test]
fn radians_convert_to_degrees() {
    let (cmds, errs) = parse("rotate left 90 rad\n".to_string());
    assert!(errs.is_empty());
    assert!(matches!(&cmds[0], Command::RotateLeft(a) if a.scale == Scale::RadiansToDegrees));
    assert!((value(amount(&cmds[0]).unwrap()) - 5156.62).abs() < 0.01);
}

#[test]
fn no_suffix_keeps_number() {
    let (cmds, errs) = parse("move backward 2.5\nfront arm up 30\nback arm down 1e2\n".to_string());
    assert!(errs.is_empty());
    assert_eq!(cmds.len(), 3);
    assert!(matches!(&cmds[0], Command::MoveBackward(a) if a.number == "2.5" && a.scale == Scale::One));
    assert!(matches!(&cmds[1], Command::FrontArmUp(a) if a.number == "30" && a.scale == Scale::One));
    assert!(matches!(&cmds[2], Command::BackArmDown(a) if a.number == "1e2" && a.scale == Scale::One));
    assert_eq!(value(amount(&cmds[2]).unwrap()), 100.0);
}

#[test]
fn garbage_line_gives_one_diagnostic() {
    let (cmds, errs) = parse("hello there\nmove forward 2\n".to_string());
    assert_eq!(cmds.len(), 1);
    assert!(matches!(&cmds[0], Command::MoveForward(a) if a.number == "2"));
    assert_eq!(errs, vec!["could not parse \"hello there\". ignoring".to_string()]);
}

#[test]
fn only_garbage() {
    let (cmds, errs) = parse("!!!".to_string());
    assert!(cmds.is_empty());
    assert_eq!(errs.len(), 1);
}

#[test]
fn empty_input() {
    let (cmds, errs) = parse(String::new());
    assert!(cmds.is_empty());
    assert!(errs.is_empty());
}

#[test]
fn bad_number_skips_line() {
    let (cmds, errs) = parse("move forward 1..2\n\ndebug\nmove forward 4\n".to_string());
    assert_eq!(cmds.len(), 1);
    assert!(matches!(&cmds[0], Command::MoveForward(a) if a.number == "4"));
    assert_eq!(
        errs,
        vec![
            "expected number after \"move forward\". ignoring".to_string(),
            "could not parse number 1..2".to_string()
        ]
    );
}

#[test]
fn bad_number_at_end() {
    let (cmds, errs) = parse("move forward 1e".to_string());
    assert!(cmds.is_empty());
    assert_eq!(
        errs,
        vec![
            "could not parse number 1e".to_string(),
            "expected number after \"move forward\". ignoring".to_string()
        ]
    );
}

#[test]
fn unexpected_number_and_unit() {
    let (cmds, errs) = parse("5\ncm\nrad\n".to_string());
    assert!(cmds.is_empty());
    assert_eq!(
        errs,
        vec![
            "unexpected number 5, ignoring".to_string(),
            "unexpected \"cm\", ignoring".to_string(),
            "unexpected \"rad\", ignoring".to_string()
        ]
    );
}

#[test]
fn length_unit_on_angle_keeps_number() {
    let (cmds, errs) = parse("rotate right 4 in\nrotate right 6 cm\n".to_string());
    assert_eq!(cmds.len(), 2);
    assert!(matches!(&cmds[0], Command::RotateRight(a) if a.number == "4" && a.scale == Scale::One));
    assert_eq!(
        errs,
        vec![
            "cannot convert inches to degrees".to_string(),
            "cannot convert centimeters to degrees".to_string()
        ]
    );
}

#[test]
fn separator_and_debug_on_one_line() {
    let (cmds, errs) = parse("debug then move forward 3, turn left 45".to_string());
    assert!(errs.is_empty());
    assert_eq!(cmds.len(), 3);
    assert!(matches!(&cmds[0], Command::PyDebug));
    assert!(matches!(&cmds[1], Command::MoveForward(a) if a.number == "3"));
    assert!(matches!(&cmds[2], Command::RotateLeft(a) if a.number == "45"));
}

#[test]
fn number_may_follow_on_later_line() {
    let (cmds, errs) = parse("move forward\n# note\n\n8\n".to_string());
    assert!(errs.is_empty());
    assert!(matches!(&cmds[0], Command::MoveForward(a) if a.number == "8"));
}

#[test]
fn unit_on_next_line_is_not_attached() {
    let (cmds, errs) = parse("move forward 3\ncm\n".to_string());
    assert_eq!(cmds.len(), 1);
    assert!(matches!(&cmds[0], Command::MoveForward(a) if a.scale == Scale::One));
    assert_eq!(errs, vec!["unexpected \"cm\", ignoring".to_string()]);
}

#[test]
fn spelling_variants() {
    let (cmds, errs) = parse("move_backwards 1\narm-front down 2\nrear arm raise 3\nrot right 4 radians\n".to_string());
    assert!(errs.is_empty());
    assert_eq!(cmds.len(), 4);
    assert!(matches!(&cmds[0], Command::MoveBackward(_)));
    assert!(matches!(&cmds[1], Command::FrontArmDown(_)));
    assert!(matches!(&cmds[2], Command::BackArmUp(_)));
    assert!(matches!(&cmds[3], Command::RotateRight(a) if a.scale == Scale::RadiansToDegrees));
}

#[test]
fn parser_drains_then_finishes() {
    let mut p = Parser::new("move forward 1\nxyz\n");
    assert!(p.command().is_some());
    assert!(p.command().is_none());
    assert!(p.command().is_none());
    assert_eq!(p.finish(), vec!["could not parse \"xyz\". ignoring".to_string()]);
}

#[test]
fn unit_resolution() {
    let (a, e) = to_centimeters("7".to_string(), Some(Unit::In));
    assert_eq!(a.scale, Scale::InchesToCentimeters);
    assert!(e.is_none());
    let (a, e) = to_centimeters("7".to_string(), None);
    assert_eq!(a.scale, Scale::One);
    assert!(e.is_none());
    let (_, e) = to_centimeters("7".to_string(), Some(Unit::Rad));
    assert_eq!(e.unwrap(), "cannot convert radians to centimeters");
    let (a, e) = to_degrees("7".to_string(), Some(Unit::Rad));
    assert_eq!(a.scale, Scale::RadiansToDegrees);
    assert!(e.is_none());
    let (a, e) = to_degrees("7".to_string(), Some(Unit::Deg));
    assert_eq!(a.scale, Scale::One);
    assert_eq!(a.number, "7");
    assert!(e.is_none());
}

#[test]
fn parse_with_own_keywords() {
    let mut l = rbs::keywords::Lookup::new();
    l.insert("fw".chars().collect(), rbs::keywords::Keyword::MoveForward);
    l.insert("in".chars().collect(), rbs::keywords::Keyword::In);
    let (cmds, errs) = rbs::parse_with("fw 3 in\nmove forward 1\n", l);
    assert_eq!(cmds.len(), 1);
    assert!(matches!(&cmds[0], Command::MoveForward(a) if a.number == "3" && a.scale == Scale::InchesToCentimeters));
    assert_eq!(errs, vec!["could not parse \"move forward 1\". ignoring".to_string()]);
}

#[test]
fn misplaced_unit_skips_its_line() {
    let mut p = Parser::new("deg move forward 5\nmove forward 1\n");
    match p.command() {
        Some(Command::MoveForward(a)) => assert_eq!(a.number, "1"),
        other => panic!("unexpected {:?}", other),
    }
    assert!(p.command().is_none());
    assert_eq!(p.finish(), vec!["unexpected \"deg\", ignoring".to_string()]);
}

#[test]
fn misplaced_number_skips_its_line() {
    let (cmds, errs) = parse("6 move forward 2\nmove forward 3\n".to_string());
    assert_eq!(cmds.len(), 1);
    assert!(matches!(&cmds[0], Command::MoveForward(a) if a.number == "3"));
    assert_eq!(errs, vec!["unexpected number 6, ignoring".to_string()]);
}
