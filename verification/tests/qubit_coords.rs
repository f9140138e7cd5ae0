use rand::rngs::StdRng;
use rand::SeedableRng;
use rstim::decimal::Decimal;
use rstim::executor::Executor;
use rstim::parser::parse_lines;

fn dec_f64(d: &Decimal) -> f64 {
    (d.mantissa() as f64) / 10f64.powi(d.scale_pow10() as i32)
}

#[test]
fn stores_qubit_coords() {
    let program = "QUBIT_COORDS(1,2) 0 1\nM 0\n";
    let instrs = parse_lines(program).unwrap();
    let mut ex = Executor::from_instrs(instrs).unwrap();
    let mut rng = StdRng::seed_from_u64(1);
    let out = ex.run(&mut rng).unwrap();
    let got: Vec<f64> = out.qubit_coord(0).unwrap().iter().map(dec_f64).collect();
    assert_eq!(got, vec![1.0, 2.0]);
}
