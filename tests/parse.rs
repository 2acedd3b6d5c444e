use poscar::literal::{classify_coord_line, is_real_literal, is_valid_symbol_for_symbol_line, parse_logical, parse_unsigned};
use poscar::parse::{presence_of, velocities, Presence};
use poscar::text::chars_of;
use poscar::{CoordLineType, Coords, Kind, ParseError, Poscar, Reason, ScaleLine, UnsignedError};

fn s(x: &str) -> String {
    x.to_string()
}

fn t3(a: &str, b: &str, c: &str) -> [String; 3] {
    [s(a), s(b), s(c)]
}

fn parse(text: &str) -> Result<Poscar, ParseError> {
    Poscar::from_reader(text)
}

fn err_text(text: &str) -> String {
    parse(text).unwrap_err().message()
}

const LATTICE: &str = "1.0 0.0 0.0\n0.0 1.0 0.0\n0.0 0.0 1.0\n";

fn doc(scale: &str, rest: &str) -> String {
    format!("x\n{}\n{}{}", scale, LATTICE, rest)
}

#[test]
fn minimal_document_parses_and_round_trips() {
    let p = parse(&doc("1.0", "1\nDirect\n0.0 0.0 0.0\n")).unwrap();
    assert_eq!(p.comment, "x");
    assert_eq!(p.scale, ScaleLine::Factor(s("1.0")));
    assert_eq!(p.group_symbols, None);
    assert_eq!(p.group_counts, vec![1]);
    assert_eq!(p.positions, Coords::Frac(vec![t3("0.0", "0.0", "0.0")]));
    assert_eq!(p.dynamics, None);
    assert_eq!(p.velocities, None);
    let text = p.to_text();
    assert_eq!(
        text,
        "x\n  1.0\n    1.0 0.0 0.0\n    0.0 1.0 0.0\n    0.0 0.0 1.0\n   1\nDirect\n  0.0 0.0 0.0\n",
    );
    assert_eq!(parse(&text).unwrap(), p);
}

#[test]
fn negative_scale_is_a_volume() {
    let p = parse(&doc("-27.0", "1\nDirect\n0 0 0\n")).unwrap();
    assert_eq!(p.scale, ScaleLine::Volume(s("27.0")));
    assert!(p.to_text().starts_with("x\n  -27.0\n"));
}

#[test]
fn two_floats_on_scale_line_fail() {
    let e = err_text(&doc("1.0 2.0", "1\nDirect\n0 0 0\n"));
    assert!(e.contains("too many floats"), "{}", e);
    assert_eq!(e, "<input>:2:5: too many floats on scale line (expected just one)");
}

#[test]
fn scale_followed_by_a_comment_word_is_fine() {
    let p = parse(&doc("1.0 scale", "1\nDirect\n0 0 0\n")).unwrap();
    assert_eq!(p.scale, ScaleLine::Factor(s("1.0")));
}

#[test]
fn zero_and_nan_scales_fail() {
    assert_eq!(err_text(&doc("0.0", "1\nDirect\n0 0 0\n")), "<input>:2:1: scale cannot be zero");
    assert_eq!(err_text(&doc("-0e5", "1\nDirect\n0 0 0\n")), "<input>:2:1: scale cannot be zero");
    assert_eq!(err_text(&doc(" NaN", "1\nDirect\n0 0 0\n")), "<input>:2:2: scale cannot be nan");
    assert_eq!(err_text(&doc("abc", "1\nDirect\n0 0 0\n")), "<input>:2:1: invalid float literal");
    assert_eq!(err_text(&doc("", "1\nDirect\n0 0 0\n")), "<input>:2: expected scale");
}

#[test]
fn species_line_then_counts() {
    let p = parse(&doc("1.0", "Si Si\n1 1\nDirect\n0 0 0\n0.5 0.5 0.5\n")).unwrap();
    assert_eq!(p.group_symbols, Some(vec![s("Si"), s("Si")]));
    assert_eq!(p.group_counts, vec![1, 1]);
    assert_eq!(p.positions.raw().len(), 2);
}

#[test]
fn counts_of_other_length_than_species_fail() {
    let e = err_text(&doc("1.0", "Si\n1 2\nDirect\n0 0 0\n0 0 0\n0 0 0\n"));
    assert!(e.to_lowercase().contains("inconsistent number of counts"), "{}", e);
    assert_eq!(e, "<input>:7:1: Inconsistent number of counts");
}

#[test]
fn counts_stop_at_first_word_that_is_no_integer() {
    let p = parse(&doc("1.0", "2 1 # comment 4\nDirect\n0 0 0\n0 0 0\n0 0 0\n")).unwrap();
    assert_eq!(p.group_counts, vec![2, 1]);
    // "+1" is a symbol, so the next line holds the counts, and it has none
    let e = err_text(&doc("1.0", "+1\nDirect\n0 0 0\n"));
    assert_eq!(e, "<input>:7:1: Inconsistent number of counts");
}

#[test]
fn zero_atoms_fail() {
    let e = err_text(&doc("1.0", "0 0\nDirect\n"));
    assert_eq!(e, "<input>:6:1: There must be at least one atom.");
}

#[test]
fn invalid_symbol_fails() {
    let e = err_text(&doc("1.0", "Si 2x\n1 1\nDirect\n0 0 0\n0 0 0\n"));
    assert_eq!(e, "<input>:6:4: invalid symbol");
}

#[test]
fn missing_species_line_fails() {
    let e = err_text(&doc("1.0", "   \n"));
    assert_eq!(e, "<input>:6: expected at least one element or count");
}

#[test]
fn boolean_literals() {
    for t in [".T", "T", ".TRUE.", "t"] {
        assert_eq!(parse_logical(&chars_of(t)), Ok(true), "{}", t);
    }
    for f in [".F", "F", "false"] {
        assert_eq!(parse_logical(&chars_of(f)), Ok(false), "{}", f);
    }
    assert_eq!(parse_logical(&chars_of("X")), Err(Kind::ParseLogical(s("X"))));
    assert!(parse_logical(&chars_of(".")).is_err());
    assert!(parse_logical(&chars_of("")).is_err());
}

#[test]
fn unsigned_literals() {
    assert_eq!(parse_unsigned(&chars_of("5")), Ok(5));
    assert_eq!(parse_unsigned(&chars_of("+5")), Err(UnsignedError::LeadingPlus));
    assert_eq!(parse_unsigned(&chars_of("")), Err(UnsignedError::Empty));
    assert_eq!(parse_unsigned(&chars_of("5a")), Err(UnsignedError::InvalidDigit));
    assert_eq!(parse_unsigned(&chars_of("18446744073709551615")), Ok(u64::MAX));
    assert_eq!(parse_unsigned(&chars_of("18446744073709551616")), Err(UnsignedError::Overflow));
}

#[test]
fn real_literals_follow_float_grammar() {
    for ok in ["1", "1.", ".5", "-1.5e-3", "+2E+10", "inf", "-Infinity", "NaN", "007"] {
        assert!(is_real_literal(&chars_of(ok)), "{}", ok);
        assert!(ok.parse::<f64>().is_ok(), "{}", ok);
    }
    for bad in ["", ".", "e5", "1e", "1.2.3", "--1", "1,0", "infinit", "0x10", "1e+"] {
        assert!(!is_real_literal(&chars_of(bad)), "{}", bad);
        assert!(bad.parse::<f64>().is_err(), "{}", bad);
    }
}

#[test]
fn symbol_validity() {
    assert!(is_valid_symbol_for_symbol_line(&chars_of("Si")));
    assert!(!is_valid_symbol_for_symbol_line(&chars_of("")));
    assert!(!is_valid_symbol_for_symbol_line(&chars_of("S i")));
    assert!(!is_valid_symbol_for_symbol_line(&chars_of("1Si")));
}

#[test]
fn coordinate_line_classes() {
    assert_eq!(classify_coord_line(&chars_of("Cartesian")), CoordLineType::Cartesian);
    assert_eq!(classify_coord_line(&chars_of("k")), CoordLineType::Cartesian);
    assert_eq!(classify_coord_line(&chars_of("direct")), CoordLineType::Direct);
    assert_eq!(classify_coord_line(&chars_of(" \t ")), CoordLineType::EmptyOrWhitespace);
    assert_eq!(classify_coord_line(&chars_of("")), CoordLineType::EmptyOrWhitespace);
    assert_eq!(classify_coord_line(&chars_of("  Cart")), CoordLineType::IndentedText);
    assert_eq!(classify_coord_line(&chars_of("fractional")), CoordLineType::SuspiciouslyDirect);
}

#[test]
fn file_ending_after_positions_has_no_velocities() {
    let p = parse("x\n1.0\n1 0 0\n0 1 0\n0 0 1\n1\nDirect\n0 0 0").unwrap();
    assert_eq!(p.velocities, None);
}

#[test]
fn one_trailing_blank_line_has_no_velocities() {
    let p = parse(&doc("1.0", "1\nDirect\n0 0 0\n\n")).unwrap();
    assert_eq!(p.velocities, None);
    let p = parse(&doc("1.0", "1\nDirect\n0 0 0\n  \n \n\n")).unwrap();
    assert_eq!(p.velocities, None);
}

#[test]
fn content_after_trailing_blank_lines_fails() {
    let e = err_text(&doc("1.0", "1\nDirect\n0 0 0\n\n\n  junk\n"));
    assert!(e.contains("expected end of file"), "{}", e);
    assert_eq!(e, "<input>:11:3: expected end of file");
}

#[test]
fn blank_line_then_data_is_a_direct_velocity_block() {
    let p = parse(&doc("1.0", "1\nDirect\n0 0 0\n\n0.1 0.2 0.3\n")).unwrap();
    assert_eq!(p.velocities, Some(Coords::Frac(vec![t3("0.1", "0.2", "0.3")])));
    let text = p.to_text();
    assert!(text.ends_with("Direct\n  0 0 0\n\n  0.1 0.2 0.3\n"), "{}", text);
    assert_eq!(parse(&text).unwrap(), p);
}

#[test]
fn cartesian_velocities() {
    let p = parse(&doc("1.0", "1\nDirect\n0 0 0\nCartesian\n0.1 0.2 0.3\n")).unwrap();
    assert_eq!(p.velocities, Some(Coords::Cart(vec![t3("0.1", "0.2", "0.3")])));
    assert!(p.to_text().ends_with("Cartesian\n  0.1 0.2 0.3\n"));
}

#[test]
fn velocity_header_at_end_of_file_fails() {
    let e = err_text(&doc("1.0", "1\nDirect\n0 0 0\nCartesian\n"));
    assert_eq!(e, "<input>:10: unexpected end of file");
}

#[test]
fn content_after_velocities_fails() {
    let e = err_text(&doc("1.0", "1\nDirect\n0 0 0\nCartesian\n0.1 0.2 0.3\nmore\n"));
    assert_eq!(e, "<input>:11:1: expected end of file");
}

#[test]
fn selective_dynamics_flags() {
    let p = parse(&doc("1.0", "H O\n1 1\nSelective dynamics\nCartesian\n0 0 0 T F .true.\n1 1 1 f .F. F ! c\n"))
        .unwrap();
    assert_eq!(p.dynamics, Some(vec![[true, false, true], [false, false, false]]));
    assert!(matches!(p.positions, Coords::Cart(_)));
    let text = p.to_text();
    assert!(text.contains("   H  O\n   1  1\nSelective Dynamics\nCartesian\n  0 0 0 T F T\n  1 1 1 F F F\n"), "{}", text);
    assert_eq!(parse(&text).unwrap(), p);
}

#[test]
fn missing_flags_and_bad_flags_fail() {
    let e = err_text(&doc("1.0", "1\nS\nDirect\n0 0 0 T T\n"));
    assert_eq!(e, "<input>:9: expected 3 boolean flags");
    let e = err_text(&doc("1.0", "1\nS\nDirect\n0 0 0 T X T\n"));
    assert_eq!(e, "<input>:9:9: invalid Fortran logical value: \"X\"");
}

#[test]
fn missing_coordinates_fail() {
    let e = err_text(&doc("1.0", "1\nDirect\n0 0\n"));
    assert_eq!(e, "<input>:8: expected 3 coordinates");
    let e = err_text("x\n1.0\n1 0 0\n0 1\n");
    assert_eq!(e, "<input>:4: expected three components for lattice vector");
}

#[test]
fn truncated_file_fails_at_the_missing_line() {
    assert_eq!(err_text(""), "<input>:1: unexpected end of file");
    assert_eq!(err_text("x\n1.0\n"), "<input>:3: unexpected end of file");
    assert_eq!(err_text(&doc("1.0", "2\nDirect\n0 0 0\n")), "<input>:9: unexpected end of file");
}

#[test]
fn crlf_lines_are_read_like_lf_lines() {
    let p = parse("x\r\n1.0\r\n1 0 0\r\n0 1 0\r\n0 0 1\r\n1\r\nDirect\r\n0 0 0\r\n").unwrap();
    assert_eq!(p.comment, "x");
    assert_eq!(p.positions, Coords::Frac(vec![t3("0", "0", "0")]));
}

#[test]
fn error_kinds_and_places() {
    let e = parse(&doc("1.0", "1\nDirect\n0 y 0\n")).unwrap_err();
    assert_eq!(e.kind, Kind::ParseFloat);
    assert_eq!(e.line, Some(7));
    assert_eq!(e.col, Some(2));
    assert_eq!(e.kind, Kind::ParseFloat);
    let e = parse("").unwrap_err();
    assert_eq!(e.kind, Kind::Generic(Reason::UnexpectedEof));
    let e = ParseError { kind: Kind::Generic(Reason::NoAtoms), path: Some(s("POSCAR")), line: None, col: None };
    assert_eq!(e.message(), "POSCAR:There must be at least one atom.");
}

#[test]
fn counts_are_right_aligned_and_invariants_hold() {
    let p = parse(&doc("1.0", "Fe\n12\nDirect\n0 0 0\n0 0 0\n0 0 0\n0 0 0\n0 0 0\n0 0 0\n0 0 0\n0 0 0\n0 0 0\n0 0 0\n0 0 0\n0 0 0\n")).unwrap();
    let text = p.to_text();
    assert!(text.contains("\n  Fe\n  12\n"), "{}", text);
    let n: usize = p.group_counts.iter().sum();
    assert_eq!(p.positions.raw().len(), n);
}

fn lines_of(ls: &[&str]) -> poscar::Lines {
    poscar::Lines::new(ls.iter().map(|l| chars_of(l)).collect())
}

#[test]
fn velocity_decision_procedure() {
    // end of input: no velocities
    let mut l = lines_of(&[]);
    assert_eq!(velocities(&mut l, 1), Ok(None));
    // one blank line, then the end: no velocities
    let mut l = lines_of(&["  "]);
    assert_eq!(velocities(&mut l, 1), Ok(None));
    // a header, then the end: data missing
    let mut l = lines_of(&["Cartesian"]);
    let e = velocities(&mut l, 1).unwrap_err();
    assert_eq!((e.kind, e.line, e.col), (Kind::Generic(Reason::UnexpectedEof), Some(1), None));
    // two blank lines: no velocities, the rest must be blank
    let mut l = lines_of(&["", " ", "", "\t"]);
    assert_eq!(velocities(&mut l, 1), Ok(None));
    let mut l = lines_of(&["", "", "x"]);
    let e = velocities(&mut l, 1).unwrap_err();
    assert_eq!((e.kind, e.line, e.col), (Kind::Generic(Reason::ExpectedEof), Some(2), Some(0)));
    // a blank header and data: direct velocities
    let mut l = lines_of(&["", "1 2 3", "4 5 6"]);
    assert_eq!(
        velocities(&mut l, 2),
        Ok(Some(Coords::Frac(vec![t3("1", "2", "3"), t3("4", "5", "6")]))),
    );
    // an indented header is odd, but means direct
    let mut l = lines_of(&["  x", "1 2 3"]);
    assert_eq!(velocities(&mut l, 1), Ok(Some(Coords::Frac(vec![t3("1", "2", "3")]))));
    // too few data lines
    let mut l = lines_of(&["Cart", "1 2 3"]);
    let e = velocities(&mut l, 2).unwrap_err();
    assert_eq!(e.line, Some(2));
}

#[test]
fn presence_from_one_line() {
    assert_eq!(presence_of(&chars_of("")), (Presence::Possible, false));
    assert_eq!(presence_of(&chars_of("Cartesian")), (Presence::Required, true));
    assert_eq!(presence_of(&chars_of("Direct")), (Presence::Required, false));
    assert_eq!(presence_of(&chars_of(" 1 2 3")), (Presence::Required, false));
}

#[test]
fn validity_check_matches_invariants() {
    let p = parse(&doc("1.0", "Si\n2\nDirect\n0 0 0\n1 1 1\n")).unwrap();
    assert!(p.is_valid());
    let mut q = p.clone();
    q.group_counts = vec![3];
    assert!(!q.is_valid());
    let mut q = p.clone();
    q.scale = ScaleLine::Factor(s("0.0"));
    assert!(!q.is_valid());
    let mut q = p.clone();
    q.group_symbols = Some(vec![s("1x")]);
    assert!(!q.is_valid());
    let mut q = p.clone();
    q.positions = Coords::Frac(vec![t3("0", "0", "0"), t3("0", "zero", "0")]);
    assert!(!q.is_valid());
    let mut q = p.clone();
    q.group_counts = vec![usize::MAX, 2];
    q.group_symbols = None;
    assert!(!q.is_valid());
}

#[test]
fn unicode_space_and_odd_scales() {
    let p = parse(&doc("+1e0", "1\nDirect\n0 0 0\n")).unwrap();
    assert_eq!(p.scale, ScaleLine::Factor(s("+1e0")));
    let p = parse(&doc("-inf", "1\nDirect\n0 0 0\n")).unwrap();
    assert_eq!(p.scale, ScaleLine::Volume(s("inf")));
}

#[test]
fn last_line_without_line_feed_keeps_its_carriage_return() {
    // the comment is the only line and keeps its '\r'; the scale line is missing
    let e = parse("x\r").unwrap_err();
    assert_eq!(e.message(), "<input>:2: unexpected end of file");
    // a final data line with '\r' and no line feed still reads: '\r' separates words
    let p = parse("x\n1.0\n1 0 0\n0 1 0\n0 0 1\n1\nDirect\n0 0 0\r").unwrap();
    assert_eq!(p.positions, Coords::Frac(vec![t3("0", "0", "0")]));
}

#[test]
fn symbols_with_unicode_space_round_trip() {
    let p = parse(&doc("1.0", "A\u{a0} B\n1 1\nDirect\n0 0 0\n1 1 1\n")).unwrap();
    assert_eq!(p.group_symbols, Some(vec![s("A\u{a0}"), s("B")]));
    assert_eq!(parse(&p.to_text()).unwrap(), p);
}

#[test]
fn first_error_places() {
    // lattice line with a bad component
    assert_eq!(err_text("x\n1.0\n1 0 0\n0 q 0\n"), "<input>:4:3: invalid float literal");
    // missing lattice line
    assert_eq!(err_text("x\n1.0\n1 0 0\n"), "<input>:4: unexpected end of file");
    // the species line is followed by no counts line
    assert_eq!(err_text(&doc("1.0", "Si\n")), "<input>:7: unexpected end of file");
    // the flag line is the last line
    assert_eq!(err_text(&doc("1.0", "1\nSelective\n")), "<input>:8: unexpected end of file");
    // a comment word after the counts makes no difference; zero atoms is refused at the counts line
    assert_eq!(err_text(&doc("1.0", "0 # none\nDirect\n")), "<input>:6:1: There must be at least one atom.");
    // a second real on the scale line
    assert_eq!(err_text(&doc("-2 3", "1\nDirect\n0 0 0\n")), "<input>:2:4: too many floats on scale line (expected just one)");
}

#[test]
fn comment_with_line_feed_is_not_a_document() {
    let mut p = parse(&doc("1.0", "1\nDirect\n0 0 0\n")).unwrap();
    assert!(p.is_valid());
    p.comment = s("a\nb");
    assert!(!p.is_valid());
}
