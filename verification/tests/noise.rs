use rand::rngs::StdRng;
use rand::SeedableRng;
use rstim::executor::Executor;
use rstim::parser::parse_lines;

#[test]
fn x_error_flips_measurement() {
    let program = "X_ERROR(1) 0\nM 0\n"; // always flip
    let instrs = parse_lines(program).unwrap();
    let mut ex = Executor::from_instrs(instrs).unwrap();
    let mut rng = StdRng::seed_from_u64(1);
    let out = ex.run(&mut rng).unwrap();
    assert_eq!(out.measurements[0], true);
}

#[test]
fn x_error_zero_is_a_no_op() {
    let program = "X_ERROR(0) 0\nM 0\n";
    let instrs = parse_lines(program).unwrap();
    let mut ex = Executor::from_instrs(instrs).unwrap();
    let mut rng = StdRng::seed_from_u64(1);
    let out = ex.run(&mut rng).unwrap();
    assert_eq!(out.measurements[0], false);
}

#[test]
fn x_error_defaults_to_probability_zero() {
    let program = "X_ERROR 0\nM 0\n";
    let instrs = parse_lines(program).unwrap();
    let mut ex = Executor::from_instrs(instrs).unwrap();
    let mut rng = StdRng::seed_from_u64(1);
    let out = ex.run(&mut rng).unwrap();
    assert_eq!(out.measurements[0], false);
}
