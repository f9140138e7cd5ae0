use rand::rngs::StdRng;
use rand::SeedableRng;
use rstim::sim::tableau::StabilizerState;

#[test]
fn h_then_m_gives_random() {
    let mut st = StabilizerState::new(1);
    st.h(0);
    let mut rng = StdRng::seed_from_u64(1);
    let (m0, _) = st.measure_z(0, &mut rng).unwrap();
    let (m1, _) = st.measure_z(0, &mut rng).unwrap();
    assert!(m0 == 0 || m0 == 1);
    assert!(m1 == 0 || m1 == 1);
}

#[test]
fn fresh_state_measures_zero_deterministically() {
    let mut st = StabilizerState::new(2);
    let mut rng = StdRng::seed_from_u64(1);
    let (m, was_random) = st.measure_z(1, &mut rng).unwrap();
    assert_eq!(m, 0);
    assert!(!was_random);
}

#[test]
fn second_measurement_repeats_the_first() {
    let mut st = StabilizerState::new(1);
    st.h(0);
    let mut rng = StdRng::seed_from_u64(9);
    let (m0, r0) = st.measure_z(0, &mut rng).unwrap();
    let (m1, r1) = st.measure_z(0, &mut rng).unwrap();
    assert!(r0);
    assert!(!r1);
    assert_eq!(m0, m1);
}

#[test]
fn x_gate_flips_measurement() {
    let mut st = StabilizerState::new(1);
    st.x_gate(0);
    let mut rng = StdRng::seed_from_u64(1);
    let (m, was_random) = st.measure_z(0, &mut rng).unwrap();
    assert_eq!(m, 1);
    assert!(!was_random);
}
