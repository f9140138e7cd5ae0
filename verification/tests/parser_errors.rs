use rstim::parser::{parse_lines, ParseErrorKind};

#[test]
fn rejects_unmatched_brace() {
    let err = parse_lines("}\n").unwrap_err();
    assert_eq!(err.kind, ParseErrorKind::UnmatchedBrace);
}

#[test]
fn rejects_repeat_zero() {
    let err = parse_lines("REPEAT 0 {\nH 0\n}\n").unwrap_err();
    assert_eq!(err.kind, ParseErrorKind::RepeatZero);
}

#[test]
fn rejects_non_repeat_block() {
    let err = parse_lines("H 0 {\n}\n").unwrap_err();
    assert_eq!(err.kind, ParseErrorKind::OnlyRepeatOpensBlock);
}

#[test]
fn rejects_missing_repeat_count() {
    let err = parse_lines("REPEAT {\n}\n").unwrap_err();
    assert_eq!(err.kind, ParseErrorKind::MissingRepeatCount);
}

#[test]
fn rejects_bad_repeat_count() {
    let err = parse_lines("REPEAT x {\n}\n").unwrap_err();
    assert_eq!(err.kind, ParseErrorKind::BadRepeatCount);
}

#[test]
fn rejects_unterminated_repeat() {
    let err = parse_lines("REPEAT 2 {\nH 0\n").unwrap_err();
    assert_eq!(err.kind, ParseErrorKind::UnterminatedRepeat);
}

#[test]
fn rejects_bad_rec_target() {
    let err = parse_lines("DETECTOR rec[x]\n").unwrap_err();
    assert_eq!(err.kind, ParseErrorKind::BadRecTarget);
}

#[test]
fn rejects_unsupported_target() {
    let err = parse_lines("H foo\n").unwrap_err();
    assert_eq!(err.kind, ParseErrorKind::UnsupportedTarget);
}

#[test]
fn rejects_non_ascii_program() {
    let err = parse_lines("H \u{03a9}\n").unwrap_err();
    assert_eq!(err.kind, ParseErrorKind::NonAscii);
}

#[test]
fn comments_and_blank_lines_are_ignored(){
    let instrs = parse_lines("# a comment\n\nH 0 # trailing\n").unwrap();
    assert_eq!(instrs.len(), 1);
}
