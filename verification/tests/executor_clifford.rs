use rand::rngs::StdRng;
use rand::SeedableRng;
use rstim::executor::Executor;
use rstim::parser::parse_lines;

#[test]
fn bell_pair_measurements_match() {
    let program = "H 0\nCNOT 0 1\nM 0 1\n";
    let instrs = parse_lines(program).unwrap();
    let mut ex = Executor::from_instrs(instrs).unwrap();
    let mut rng = StdRng::seed_from_u64(1);
    let out = ex.run(&mut rng).unwrap();
    assert_eq!(out.measurements[0], out.measurements[1]);
}

#[test]
fn cz_conjugated_by_h_acts_as_cnot() {
    // H on the target turns CZ into CNOT, so |00> stays |00>.
    let program = "H 1\nCZ 0 1\nH 1\nM 0 1\n";
    let instrs = parse_lines(program).unwrap();
    let mut ex = Executor::from_instrs(instrs).unwrap();
    let mut rng = StdRng::seed_from_u64(3);
    let out = ex.run(&mut rng).unwrap();
    assert_eq!(out.measurements, vec![false, false]);
}

#[test]
fn mx_after_h_is_deterministic_zero() {
    let program = "H 0\nMX 0\n";
    let instrs = parse_lines(program).unwrap();
    let mut ex = Executor::from_instrs(instrs).unwrap();
    let mut rng = StdRng::seed_from_u64(5);
    let out = ex.run(&mut rng).unwrap();
    assert_eq!(out.measurements, vec![false]);
}

#[test]
fn my_on_plus_i_state_is_deterministic_zero() {
    let program = "H 0\nS 0\nMY 0\n";
    let instrs = parse_lines(program).unwrap();
    let mut ex = Executor::from_instrs(instrs).unwrap();
    let mut rng = StdRng::seed_from_u64(5);
    let out = ex.run(&mut rng).unwrap();
    assert_eq!(out.measurements, vec![false]);
}

#[test]
fn four_s_gates_are_identity_on_plus_state() {
    let program = "H 0\nS 0\nS 0\nS 0\nS 0\nH 0\nM 0\n";
    let instrs = parse_lines(program).unwrap();
    let mut ex = Executor::from_instrs(instrs).unwrap();
    let mut rng = StdRng::seed_from_u64(5);
    let out = ex.run(&mut rng).unwrap();
    assert_eq!(out.measurements, vec![false]);
}

#[test]
fn s_dag_then_s_is_identity_on_plus_state() {
    let program = "H 0\nS_DAG 0\nS 0\nH 0\nM 0\n";
    let instrs = parse_lines(program).unwrap();
    let mut ex = Executor::from_instrs(instrs).unwrap();
    let mut rng = StdRng::seed_from_u64(5);
    let out = ex.run(&mut rng).unwrap();
    assert_eq!(out.measurements, vec![false]);
}
