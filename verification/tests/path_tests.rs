use intuit_empire::command::{Command, Kind, ParseError};
use intuit_empire::emit::Instruction;
use intuit_empire::geom::Vec2;
use intuit_empire::path::CommandSequence;

const M: i64 = 1_000_000;

fn origin() -> Vec2 {
    Vec2 { x: 0, y: 0 }
}

#[test]
fn move_to_token_parses() {
    let c = Command::parse("M1,2", origin()).unwrap();
    assert_eq!(c.kind, Kind::MoveTo);
    assert_eq!(c.args, vec![Vec2 { x: 1 * M, y: 2 * M }]);
}

#[test]
fn round_trip_move_line_curve() {
    // Parsing a token and re-emitting it reproduces the coordinates
    // at six decimal places.
    let m = Command::parse("M1.5,-2.25", origin()).unwrap();
    assert_eq!(m.serialize(origin()), "move_to(1.500000, -2.250000)");
    let m2 = Command::parse("M1.500000,-2.250000", origin()).unwrap();
    assert_eq!(m.args, m2.args);

    let l = Command::parse("L0.000001,3", origin()).unwrap();
    assert_eq!(l.serialize(origin()), "line_to(0.000001, 3.000000)");
    let l2 = Command::parse("L0.000001,3.000000", origin()).unwrap();
    assert_eq!(l.args, l2.args);

    let c = Command::parse("C1,2 3,4 5,6", origin()).unwrap();
    assert_eq!(
        c.serialize(origin()),
        "curve_to(1.000000, 2.000000, 3.000000, 4.000000, 5.000000, 6.000000)"
    );
    let c2 = Command::parse(
        "C1.000000,2.000000 3.000000,4.000000 5.000000,6.000000",
        origin(),
    )
    .unwrap();
    assert_eq!(c.args, c2.args);
}

#[test]
fn arity_mismatch_on_short_curve() {
    let r = Command::parse("C 1,2 3,4", origin());
    assert_eq!(r.unwrap_err(), ParseError::ArityMismatch);
}

#[test]
fn curve_with_three_pairs_succeeds() {
    let c = Command::parse("C 1,2 3,4 5,6", origin()).unwrap();
    assert_eq!(c.kind, Kind::CubicCurveTo);
    assert_eq!(
        c.args,
        vec![
            Vec2 { x: 1 * M, y: 2 * M },
            Vec2 { x: 3 * M, y: 4 * M },
            Vec2 { x: 5 * M, y: 6 * M },
        ]
    );
}

#[test]
fn horizontal_line_takes_pen_y() {
    let pen = Vec2 { x: 10 * M, y: 20 * M };
    let c = Command::parse("H 50", pen).unwrap();
    assert_eq!(c.kind, Kind::LineTo);
    assert_eq!(c.args, vec![Vec2 { x: 50 * M, y: 20 * M }]);
}

#[test]
fn vertical_line_takes_pen_x() {
    let pen = Vec2 { x: 10 * M, y: 20 * M };
    let c = Command::parse("V 99", pen).unwrap();
    assert_eq!(c.kind, Kind::LineTo);
    assert_eq!(c.args, vec![Vec2 { x: 10 * M, y: 99 * M }]);
}

#[test]
fn invalid_code_is_rejected() {
    let r = Command::parse("X 1 2", origin());
    assert_eq!(r.unwrap_err(), ParseError::InvalidCommandCode);
}

#[test]
fn empty_token_is_rejected() {
    let r = Command::parse("", origin());
    assert_eq!(r.unwrap_err(), ParseError::EmptyToken);
}

#[test]
fn bad_numeral_is_rejected() {
    assert_eq!(
        Command::parse("M 1,2.3.4", origin()).unwrap_err(),
        ParseError::NumericParseFailure
    );
    assert_eq!(
        Command::parse("L1.,2", origin()).unwrap_err(),
        ParseError::NumericParseFailure
    );
    assert_eq!(
        Command::parse("L99999999999999999999,0", origin()).unwrap_err(),
        ParseError::NumericParseFailure
    );
}

#[test]
fn close_path_takes_no_arguments() {
    let c = Command::parse("Z", origin()).unwrap();
    assert_eq!(c.kind, Kind::ClosePath);
    assert!(c.args.is_empty());
    assert_eq!(
        Command::parse("Z 1", origin()).unwrap_err(),
        ParseError::ArityMismatch
    );
}

#[test]
fn wrong_arity_for_axis_lines() {
    assert_eq!(
        Command::parse("H 1 2", origin()).unwrap_err(),
        ParseError::ArityMismatch
    );
    assert_eq!(
        Command::parse("V", origin()).unwrap_err(),
        ParseError::ArityMismatch
    );
}

#[test]
fn unsupported_codes_parse_and_emit_placeholder() {
    let c = Command::parse("S 1,2 3,4", origin()).unwrap();
    assert_eq!(c.kind, Kind::Unsupported);
    assert_eq!(c.args.len(), 2);
    assert_eq!(c.serialize(origin()), "# unsupported S");
    assert_eq!(
        Command::parse("S 1,2 3", origin()).unwrap_err(),
        ParseError::ArityMismatch
    );
}

#[test]
fn fraction_digits_beyond_six_are_truncated() {
    let c = Command::parse("L0.1234567,0", origin()).unwrap();
    assert_eq!(c.args[0], Vec2 { x: 123_456, y: 0 });
}

#[test]
fn separators_are_interchangeable() {
    let a = Command::parse("M1 2", origin()).unwrap();
    let b = Command::parse("M1,2", origin()).unwrap();
    let c = Command::parse("M \t1,\n2 ", origin()).unwrap();
    assert_eq!(a.args, b.args);
    assert_eq!(b.args, c.args);
}

#[test]
fn end_to_end_square() {
    let seq = CommandSequence::parse("M0,0 L10,0 L10,10 Z").unwrap();
    assert_eq!(seq.len(), 4);

    let b = seq.bounds().unwrap();
    assert_eq!(b.top_left(), Vec2 { x: 0, y: 0 });
    assert_eq!(b.bottom_right(), Vec2 { x: 10 * M, y: 10 * M });

    let n = seq.normalize();
    let nb = n.bounds().unwrap();
    assert_eq!(nb.top_left(), Vec2 { x: -5 * M, y: -5 * M });
    assert_eq!(nb.bottom_right(), Vec2 { x: 5 * M, y: 5 * M });

    let ins = n.emit();
    assert_eq!(
        ins,
        vec![
            Instruction::MoveTo(Vec2 { x: -5 * M, y: -5 * M }),
            Instruction::LineTo(Vec2 { x: 5 * M, y: -5 * M }),
            Instruction::LineTo(Vec2 { x: 5 * M, y: 5 * M }),
            Instruction::ClosePath,
        ]
    );

    let lines = n.serialize();
    assert_eq!(
        lines,
        vec![
            "move_to(-5.000000, -5.000000)",
            "line_to(5.000000, -5.000000)",
            "line_to(5.000000, 5.000000)",
            "close_path()",
        ]
    );
}

#[test]
fn normalize_is_idempotent() {
    let seq = CommandSequence::parse("M1,3 L9,4 C2,2 8,8 3,7").unwrap();
    let once = seq.normalize();
    let twice = once.normalize();
    assert_eq!(once.bounds().unwrap(), twice.bounds().unwrap());
    let b = once.bounds().unwrap();
    let sx = b.top_left().x + b.bottom_right().x;
    let sy = b.top_left().y + b.bottom_right().y;
    assert!(0 <= sx && sx <= 1);
    assert!(0 <= sy && sy <= 1);
}

#[test]
fn bounds_enclose_every_coordinate() {
    let seq = CommandSequence::parse("M-3,7 C1,-2 8,14 0,0 L5,5").unwrap();
    let b = seq.bounds().unwrap();
    for c in &seq.cmds {
        for p in &c.args {
            assert!(b.top_left().x <= p.x && p.x <= b.bottom_right().x);
            assert!(b.top_left().y <= p.y && p.y <= b.bottom_right().y);
        }
    }
    // each bound is achieved
    let pts: Vec<Vec2> = seq.cmds.iter().flat_map(|c| c.args.clone()).collect();
    assert!(pts.iter().any(|p| p.x == b.top_left().x));
    assert!(pts.iter().any(|p| p.x == b.bottom_right().x));
    assert!(pts.iter().any(|p| p.y == b.top_left().y));
    assert!(pts.iter().any(|p| p.y == b.bottom_right().y));
}

#[test]
fn empty_path_has_no_bounds() {
    let seq = CommandSequence::parse("").unwrap();
    assert_eq!(seq.len(), 0);
    assert!(seq.bounds().is_none());
    let n = seq.normalize();
    assert_eq!(n.len(), 0);
    assert!(n.emit().is_empty());
}

#[test]
fn leading_separators_are_tolerated() {
    let seq = CommandSequence::parse("  M0,0 L1,1").unwrap();
    assert_eq!(seq.len(), 2);
}

#[test]
fn leading_junk_is_an_invalid_code() {
    assert_eq!(
        CommandSequence::parse("# M0,0").unwrap_err(),
        ParseError::InvalidCommandCode
    );
}

#[test]
fn pen_threads_through_sequence_parse() {
    // H resolves against the point reached by the previous command.
    let seq = CommandSequence::parse("M10,20 H50 V99").unwrap();
    assert_eq!(seq.cmds[1].args, vec![Vec2 { x: 50 * M, y: 20 * M }]);
    assert_eq!(seq.cmds[2].args, vec![Vec2 { x: 50 * M, y: 99 * M }]);
}

#[test]
fn close_resets_pen_to_origin() {
    let seq = CommandSequence::parse("M10,20 Z H7").unwrap();
    // after Z the pen is at the origin, so H takes y = 0
    assert_eq!(seq.cmds[2].args, vec![Vec2 { x: 7 * M, y: 0 }]);
}

#[test]
fn first_error_stops_the_whole_parse() {
    assert_eq!(
        CommandSequence::parse("M0,0 L1,1.2.3 L2,2").unwrap_err(),
        ParseError::NumericParseFailure
    );
    assert_eq!(
        CommandSequence::parse("M0,0 L1,? L2,2").unwrap_err(),
        ParseError::NumericParseFailure
    );
}
