use rand::rngs::StdRng;
use rand::SeedableRng;
use rstim::decimal::Decimal;
use rstim::executor::{ExecError, Executor};
use rstim::ir::StimInstr;
use rstim::parser::parse_lines;

fn run_program(program: &str) -> Result<(), ExecError> {
    let instrs = parse_lines(program).unwrap();
    let mut ex = Executor::from_instrs(instrs).unwrap();
    let mut rng = StdRng::seed_from_u64(1);
    ex.run(&mut rng).map(|_| ())
}

#[test]
fn unknown_instruction_is_rejected() {
    assert_eq!(run_program("FOO 0\n"), Err(ExecError::UnsupportedInstruction));
}

#[test]
fn gate_rejects_rec_target() {
    assert_eq!(run_program("H rec[-1]\n"), Err(ExecError::ExpectedQubitTarget));
}

#[test]
fn gate_rejects_inverted_target() {
    assert_eq!(run_program("H !0\n"), Err(ExecError::ExpectedQubitTarget));
}

#[test]
fn pair_gate_rejects_odd_target_count() {
    assert_eq!(run_program("CX 0\n"), Err(ExecError::OddTargetCount));
}

#[test]
fn detector_rejects_qubit_target() {
    assert_eq!(run_program("M 0\nDETECTOR 0\n"), Err(ExecError::ExpectedRecTarget));
}

#[test]
fn detector_rejects_out_of_range_offset() {
    assert_eq!(run_program("M 0\nDETECTOR rec[-2]\n"), Err(ExecError::RecOutOfRange));
}

#[test]
fn huge_qubit_index_is_rejected() {
    assert_eq!(run_program("M 4294967295\n"), Err(ExecError::TooManyQubits));
}

#[test]
fn from_instrs_rejects_out_of_range_decimal() {
    let bad = Decimal { mant: 1, scale: 99 };
    let instr = StimInstr::new("X_ERROR", vec![bad], vec![]);
    assert!(matches!(
        Executor::from_instrs(vec![instr]),
        Err(ExecError::InvalidArgument)
    ));
}

#[test]
fn error_messages_name_the_fault() {
    assert!(ExecError::RecOutOfRange.message().contains("rec"));
    assert!(ExecError::OddTargetCount.message().contains("odd"));
}

#[test]
fn two_qubit_pauli_enumeration_is_lexicographic() {
    let mut expected: Vec<(u8, u8)> = Vec::new();
    for a in 0..4u8 {
        for b in 0..4u8 {
            if !(a == 0 && b == 0) {
                expected.push((a, b));
            }
        }
    }
    for r in 0..15u32 {
        assert_eq!(rstim::executor::two_qubit_pauli(r), expected[r as usize]);
    }
}
