use preprocess_cancellation::gcode::parser::{comment, extrude_move, M486};

#[test]
fn parse_extrude_move() {
    let result = extrude_move("G1 X98.536 Y84.964 E2.15296").unwrap();
    assert_eq!(result.x.parse::<f32>().unwrap(), 98.536);
    assert_eq!(result.y.parse::<f32>().unwrap(), 84.964);
    assert_eq!(result.e.parse::<f32>().unwrap(), 2.15296);
}

#[test]
fn test_extrude_move() {
    let result = extrude_move("G1 X98.536 Y84.964 E2.15296");
    println!("{:?}", &result);
}

#[test]
fn parse_comment() {
    assert_eq!(comment("; test test\n").unwrap(), "test test");
    assert_eq!(comment("; test test ").unwrap(), "test test");
    assert_eq!(comment(";test test").unwrap(), "test test");
}

#[test]
fn comment_needs_a_semicolon_first() {
    assert_eq!(comment("  ;  spaced out  \n").unwrap(), "spaced out");
    assert_eq!(comment("\t;tab").unwrap(), "tab");
    assert_eq!(comment(";").unwrap(), "");
    assert!(comment("G1 X1 ; trailing").is_none());
    assert!(comment("").is_none());
}

#[test]
fn comment_is_one_line() {
    assert!(comment("; one\ntwo").is_none());
    assert!(comment("; one\n\n").is_none());
}

#[test]
fn extrude_move_takes_any_order() {
    let m = extrude_move("G1 E-0.5 Y2 X.5 F1800\n").unwrap();
    assert_eq!(m.x, ".5");
    assert_eq!(m.y, "2");
    assert_eq!(m.e, "-0.5");
}

#[test]
fn extrude_move_reads_exponents_and_words() {
    let m = extrude_move("G0 X1e3 Y+2.5E-1 Einf").unwrap();
    assert_eq!(m.x, "1e3");
    assert_eq!(m.y, "+2.5E-1");
    assert_eq!(m.e, "inf");
    let m = extrude_move("G1 XNaN Y-Infinity E0").unwrap();
    assert_eq!(m.x, "NaN");
    assert_eq!(m.y, "-Infinity");
}

#[test]
fn extrude_move_needs_all_three_once() {
    assert!(extrude_move("G1 X1 Y2").is_none());
    assert!(extrude_move("G1 X1 X2 Y2 E1").is_none());
    assert!(extrude_move("G1X1 Y2 E1").is_none());
    assert!(extrude_move("G X1 Y2 E1").is_none());
    assert!(extrude_move("M104 S200").is_none());
    assert!(extrude_move("G1 X Y2 E1").is_none());
    assert!(extrude_move("G1 X1e Y2 E1").is_none());
}

#[test]
fn m486_commands() {
    assert_eq!(M486::parse("M486 S12\n"), Some(M486::S(12)));
    assert_eq!(M486::parse("  M486   S-1"), Some(M486::S(-1)));
    assert_eq!(M486::parse("M486 S0"), Some(M486::S(0)));
    assert_eq!(M486::parse("M486 T3\n"), Some(M486::T));
    assert_eq!(M486::parse("M486 S2147483647"), Some(M486::S(2147483647)));
    assert_eq!(M486::parse("M486 S-2147483648"), Some(M486::S(-2147483648)));
}

#[test]
fn m486_rejects_other_lines() {
    assert_eq!(M486::parse("M486 S2147483648"), None);
    assert_eq!(M486::parse("M486 S-0"), None);
    assert_eq!(M486::parse("M486 Sx"), None);
    assert_eq!(M486::parse("M486S1"), None);
    assert_eq!(M486::parse("M486 A1"), None);
    assert_eq!(M486::parse("G1 X1"), None);
}
