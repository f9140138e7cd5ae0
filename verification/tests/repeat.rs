use rand::rngs::StdRng;
use rand::SeedableRng;
use rstim::executor::Executor;
use rstim::ir::StimInstr;
use rstim::parser::parse_lines;

#[test]
fn parses_repeat_block() {
    let program = "REPEAT 2 {\nH 0\n}\n";
    let instrs = parse_lines(program).unwrap();
    assert_eq!(instrs.len(), 1);
}

#[test]
fn repeat_shares_the_recorder_across_iterations() {
    // The detector of each iteration reads the bit of that iteration, and
    // the last iteration can still reach the first iteration's bit.
    let program = "M 0\nREPEAT 3 {\nM 0\nDETECTOR rec[-1] rec[-2]\n}\n";
    let instrs = parse_lines(program).unwrap();
    let mut ex = Executor::from_instrs(instrs).unwrap();
    let mut rng = StdRng::seed_from_u64(1);
    let out = ex.run(&mut rng).unwrap();
    assert_eq!(out.measurements.len(), 4);
    assert_eq!(out.detectors, vec![false, false, false]);
}

#[test]
fn repeat_body_measurements_accumulate() {
    let program = "REPEAT 3 {\nX 0\nM 0\n}\n";
    let instrs = parse_lines(program).unwrap();
    let mut ex = Executor::from_instrs(instrs).unwrap();
    let mut rng = StdRng::seed_from_u64(1);
    let out = ex.run(&mut rng).unwrap();
    // X toggles each pass over the shared state: |1>, |0>, |1>.
    assert_eq!(out.measurements, vec![true, false, true]);
}

#[test]
fn nested_repeat_counts_unroll() {
    let program = "REPEAT 2 {\nREPEAT 3 {\nM 0\n}\n}\n";
    let instrs = parse_lines(program).unwrap();
    assert_eq!(instrs.len(), 1);
    match &instrs[0] {
        StimInstr::Repeat { count, body } => {
            assert_eq!(*count, 2);
            assert_eq!(body.len(), 1);
        }
        _ => panic!("expected Repeat"),
    }
    let mut ex = Executor::from_instrs(instrs).unwrap();
    let mut rng = StdRng::seed_from_u64(1);
    let out = ex.run(&mut rng).unwrap();
    assert_eq!(out.measurements.len(), 6);
}
