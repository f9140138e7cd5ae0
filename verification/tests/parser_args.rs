use rstim::parser::parse_lines;

#[test]
fn parses_observable_args() {
    let instrs = parse_lines("OBSERVABLE_INCLUDE(2) rec[-1]\n").unwrap();
    let args = instrs[0].args().unwrap();
    assert_eq!(args[0].mantissa(), 2);
    assert_eq!(args[0].scale_pow10(), 0);
}

#[test]
fn parses_fractional_args_exactly() {
    let instrs = parse_lines("X_ERROR(0.25) 0\n").unwrap();
    let args = instrs[0].args().unwrap();
    assert_eq!(args[0].mantissa(), 25);
    assert_eq!(args[0].scale_pow10(), 2);
}

#[test]
fn rejects_malformed_argument() {
    let err = parse_lines("X_ERROR(1..2) 0\n").unwrap_err();
    assert_eq!(err.line, 1);
}

#[test]
fn rejects_unclosed_argument_list() {
    assert!(parse_lines("X_ERROR(0.1 0\n").is_err());
}

#[test]
fn long_fractions_truncate_to_carried_precision() {
    let instrs = rstim::parser::parse_lines("X_ERROR(0.1234567890123456789999) 0\n").unwrap();
    let args = instrs[0].args().unwrap();
    assert_eq!(args[0].mantissa(), 123456789012345678);
    assert_eq!(args[0].scale_pow10(), 18);
}
