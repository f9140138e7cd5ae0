use rstim::ir::StimInstr;
use rstim::parser::parse_lines;

#[test]
fn parses_coord_instructions() {
    let program = "QUBIT_COORDS(1,2) 0 1\nSHIFT_COORDS(3,4)\nTICK\n";
    let instrs = parse_lines(program).unwrap();
    assert_eq!(instrs.len(), 3);
    match &instrs[0] {
        StimInstr::Op { name, args, .. } => {
            assert_eq!(name, "QUBIT_COORDS");
            assert_eq!(args.len(), 2);
            assert_eq!(args[0].mantissa(), 1);
            assert_eq!(args[1].mantissa(), 2);
        }
        _ => panic!("expected Op"),
    }
}
