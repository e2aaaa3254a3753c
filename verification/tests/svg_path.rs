use spanda::svg_path::{NumberSpan, PathOp, SvgPathParser, Token, Tokenizer};

fn literal(d: &str, n: &NumberSpan) -> f32 {
    d[n.start..n.end].parse::<f32>().unwrap()
}

fn args(d: &str, op: &PathOp) -> Vec<f32> {
    op.args.iter().map(|n| literal(d, n)).collect()
}

fn letters(ops: &[PathOp]) -> String {
    ops.iter().map(|o| o.command as char).collect()
}

fn close(a: f32, b: f32) -> bool {
    (a - b).abs() < 1e-4
}

#[test]
fn parse_move_line_close() {
    let d = "M 0 0 L 100 0 L 100 100 Z";
    let cmds = SvgPathParser::parse_structure(d);
    assert_eq!(cmds.len(), 4);
    assert_eq!(letters(&cmds), "MLLZ");
    let p = args(d, &cmds[0]);
    assert!(p[0].abs() < 1e-4 && p[1].abs() < 1e-4);
    assert!(close(args(d, &cmds[1])[0], 100.0));
    assert!(cmds[3].args.is_empty());
}

#[test]
fn parse_cubic() {
    let d = "M 0 0 C 50 100 100 100 150 0";
    let cmds = SvgPathParser::parse_structure(d);
    assert_eq!(cmds.len(), 2);
    assert_eq!(cmds[1].command, b'C');
    let a = args(d, &cmds[1]);
    assert!(close(a[0], 50.0));
    assert!(close(a[2], 100.0));
    assert!(close(a[4], 150.0));
}

#[test]
fn parse_quad() {
    let d = "M 0 0 Q 50 100 100 0";
    let cmds = SvgPathParser::parse_structure(d);
    assert_eq!(cmds.len(), 2);
    assert_eq!(cmds[1].command, b'Q');
    let a = args(d, &cmds[1]);
    assert!(close(a[0], 50.0));
    assert!(close(a[2], 100.0));
}

#[test]
fn parse_relative() {
    let d = "M 10 20 l 30 40";
    let cmds = SvgPathParser::parse_structure(d);
    assert_eq!(cmds.len(), 2);
    assert_eq!(letters(&cmds), "Ml");
    let m = args(d, &cmds[0]);
    let l = args(d, &cmds[1]);
    // relative to the current point (10, 20): (40, 60)
    assert!(close(m[0] + l[0], 40.0), "Expected x=40, got {}", m[0] + l[0]);
    assert!(close(m[1] + l[1], 60.0), "Expected y=60, got {}", m[1] + l[1]);
}

#[test]
fn parse_horizontal_vertical() {
    let d = "M 0 0 H 100 V 50";
    let cmds = SvgPathParser::parse_structure(d);
    assert_eq!(cmds.len(), 3);
    assert_eq!(letters(&cmds), "MHV");
    assert_eq!(cmds[1].args.len(), 1);
    assert_eq!(cmds[2].args.len(), 1);
    let m = args(d, &cmds[0]);
    // H sets x only: the point is (100, y of M)
    let after_h = [args(d, &cmds[1])[0], m[1]];
    assert!(close(after_h[0], 100.0) && after_h[1].abs() < 1e-4);
    // V sets y only: the point is (x after H, 50)
    let after_v = [after_h[0], args(d, &cmds[2])[0]];
    assert!(close(after_v[0], 100.0) && close(after_v[1], 50.0));
}

#[test]
fn parse_relative_h_v() {
    let d = "M 10 20 h 30 v 40";
    let cmds = SvgPathParser::parse_structure(d);
    assert_eq!(cmds.len(), 3);
    assert_eq!(letters(&cmds), "Mhv");
    let m = args(d, &cmds[0]);
    assert!(close(m[0] + args(d, &cmds[1])[0], 40.0));
    assert!(close(m[1] + args(d, &cmds[2])[0], 60.0));
}

#[test]
fn parse_compact_notation() {
    let d = "M0,0L100,50L200,0Z";
    let cmds = SvgPathParser::parse_structure(d);
    assert_eq!(cmds.len(), 4);
    assert_eq!(letters(&cmds), "MLLZ");
    let a = args(d, &cmds[1]);
    assert!(close(a[0], 100.0));
    assert!(close(a[1], 50.0));
}

#[test]
fn parse_empty() {
    let cmds = SvgPathParser::parse_structure("");
    assert!(cmds.is_empty());
}

#[test]
fn parse_implicit_lineto() {
    let d = "M 0 0 50 50 100 0";
    let cmds = SvgPathParser::parse_structure(d);
    assert_eq!(cmds.len(), 3);
    assert_eq!(letters(&cmds), "MLL");
    let a = args(d, &cmds[1]);
    assert!(close(a[0], 50.0));
    assert!(close(a[1], 50.0));
}

#[test]
fn parse_implicit_relative_lineto() {
    let cmds = SvgPathParser::parse_structure("m 1 2 3 4 5 6");
    assert_eq!(letters(&cmds), "mll");
}

#[test]
fn parse_negative_coords() {
    let d = "M -10 -20 L -30 -40";
    let cmds = SvgPathParser::parse_structure(d);
    assert_eq!(cmds.len(), 2);
    let a = args(d, &cmds[0]);
    assert!(close(a[0], -10.0));
    assert!(close(a[1], -20.0));
}

#[test]
fn parse_relative_cubic() {
    let d = "M 10 10 c 10 20 30 20 40 0";
    let cmds = SvgPathParser::parse_structure(d);
    assert_eq!(cmds.len(), 2);
    assert_eq!(letters(&cmds), "Mc");
    let m = args(d, &cmds[0]);
    let c = args(d, &cmds[1]);
    assert!(close(m[0] + c[0], 20.0));
    assert!(close(m[1] + c[1], 30.0));
    assert!(close(m[0] + c[2], 40.0));
    assert!(close(m[1] + c[3], 30.0));
    assert!(close(m[0] + c[4], 50.0));
    assert!(close(m[1] + c[5], 10.0));
}

#[test]
fn parse_numbers_without_separators() {
    // a sign or a second dot starts a new literal
    let d = "M1-2L.5.25";
    let cmds = SvgPathParser::parse_structure(d);
    assert_eq!(letters(&cmds), "ML");
    let m = args(d, &cmds[0]);
    assert!(close(m[0], 1.0) && close(m[1], -2.0));
    let l = args(d, &cmds[1]);
    assert!(close(l[0], 0.5) && close(l[1], 0.25));
}

#[test]
fn parse_exponents() {
    let d = "M 1e2 -2.5E-1";
    let cmds = SvgPathParser::parse_structure(d);
    let m = args(d, &cmds[0]);
    assert!(close(m[0], 100.0));
    assert!(close(m[1], -0.25));
}

#[test]
fn parse_skips_bad_literals_and_unknown_bytes() {
    // "1e" does not parse: it is skipped together with the byte after it;
    // '#' is skipped on its own
    let d = "M 3 4 # L 1e 7 5 6";
    let cmds = SvgPathParser::parse_structure(d);
    assert_eq!(letters(&cmds), "ML");
    let l = args(d, &cmds[1]);
    assert!(close(l[0], 7.0) && close(l[1], 5.0));
    // the byte right after a literal that does not parse is skipped too
    let d = "M 0 0 L .M 1 2";
    let cmds = SvgPathParser::parse_structure(d);
    assert_eq!(letters(&cmds), "ML");
    let l = args(d, &cmds[1]);
    assert!(close(l[0], 1.0) && close(l[1], 2.0));
}

#[test]
fn parse_numbers_before_command_are_ignored() {
    let d = "1 2 M 3 4 Z 5 6";
    let cmds = SvgPathParser::parse_structure(d);
    assert_eq!(letters(&cmds), "MZ");
    let m = args(d, &cmds[0]);
    assert!(close(m[0], 3.0) && close(m[1], 4.0));
}

#[test]
fn parse_incomplete_command_is_dropped() {
    let cmds = SvgPathParser::parse_structure("M 1 2 C 1 2 3");
    assert_eq!(letters(&cmds), "M");
}

#[test]
fn args_needed_per_command() {
    assert_eq!(SvgPathParser::args_needed(b'M'), 2);
    assert_eq!(SvgPathParser::args_needed(b'l'), 2);
    assert_eq!(SvgPathParser::args_needed(b'h'), 1);
    assert_eq!(SvgPathParser::args_needed(b'V'), 1);
    assert_eq!(SvgPathParser::args_needed(b'Q'), 4);
    assert_eq!(SvgPathParser::args_needed(b'c'), 6);
    assert_eq!(SvgPathParser::args_needed(b'Z'), 0);
    assert_eq!(SvgPathParser::args_needed(b'A'), 0);
}

#[test]
fn tokenizer_reads_commands_and_literals() {
    let d = " M10,-2.5e1\tz";
    let mut t = Tokenizer::new(d);
    assert_eq!(t.next_token(), Some(Token::Command(b'M')));
    assert_eq!(t.next_token(), Some(Token::Number(NumberSpan { start: 2, end: 4 })));
    assert_eq!(t.next_token(), Some(Token::Number(NumberSpan { start: 5, end: 11 })));
    assert_eq!(t.next_token(), Some(Token::Command(b'z')));
    assert_eq!(t.next_token(), None);
    assert_eq!(t.next_token(), None);
}

#[test]
fn tokenizer_skips_separators() {
    let mut t = Tokenizer::new(" ,\t\r\n L");
    t.skip_whitespace_and_commas();
    assert_eq!(t.next_token(), Some(Token::Command(b'L')));
    assert!(Tokenizer::is_command(b'q'));
    assert!(!Tokenizer::is_command(b'A'));
}

#[test]
fn parse_signs_and_bare_dots() {
    let d = "M +5 5. L -.5 +.25e+1";
    let cmds = SvgPathParser::parse_structure(d);
    assert_eq!(letters(&cmds), "ML");
    let m = args(d, &cmds[0]);
    assert!(close(m[0], 5.0) && close(m[1], 5.0));
    let l = args(d, &cmds[1]);
    assert!(close(l[0], -0.5) && close(l[1], 2.5));
}

#[test]
fn every_coordinate_literal_parses() {
    let d = "m-1.5.5e1 2E-3-4 h+7 v.0 q1 2 3 4 c1,2,3,4,5,6 z M 9 9 l 1 1";
    for op in SvgPathParser::parse_structure(d) {
        assert_eq!(op.args.len(), SvgPathParser::args_needed(op.command));
        for n in &op.args {
            assert!(n.start < n.end && n.end <= d.len());
            assert!(d[n.start..n.end].parse::<f32>().is_ok());
        }
    }
}

#[test]
fn parse_doc_example_counts_commands() {
    let cmds = SvgPathParser::parse_structure("M 10 20 L 30 40 Z");
    assert_eq!(cmds.len(), 3); // MoveTo, LineTo, Close
}
