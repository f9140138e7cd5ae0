use rstim::decimal::Decimal;
use rstim::ir::StimInstr;

#[test]
fn builds_qubit_coords_instr() {
    let instr = StimInstr::new(
        "QUBIT_COORDS",
        vec![Decimal::from_int(1), Decimal::from_int(2)],
        vec![],
    );
    assert_eq!(instr.name().unwrap(), "QUBIT_COORDS");
}
