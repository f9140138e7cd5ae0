use rand::rngs::StdRng;
use rand::SeedableRng;
use std::collections::HashMap;

fn sample_lines(program: &str, shots: usize, seed: Option<u64>) -> String {
    let instrs = rstim::parser::parse_lines(program).unwrap();
    let mut ex = rstim::executor::Executor::from_instrs(instrs).unwrap();
    let mut out = String::new();
    for s in 0..shots {
        let mut rng = seeded_rng(seed, s as u64);
        let result = ex.run(&mut rng).unwrap();
        let line: String = result
            .measurements
            .iter()
            .map(|b| if *b { '1' } else { '0' })
            .collect();
        out.push_str(&line);
        out.push('\n');
    }
    out
}

fn deviation(sample_content: &str, expected: &HashMap<&str, f32>) -> String {
    let actual = line_freq(sample_content);
    let mut actual_total = 0usize;
    for (k, v) in actual.iter() {
        if !expected.contains_key(k.as_str()) {
            return format!("Sampled {} which was not expected.", k);
        }
        actual_total += *v;
    }
    if actual_total == 0 {
        return "No samples.".to_string();
    }
    let expected_unity: f32 = expected.values().sum();
    if (expected_unity - 1.0).abs() > 1e-5 {
        return "Expected distribution doesn't add up to 1.".to_string();
    }
    for (k, expected_rate) in expected.iter() {
        let allowed_variation =
            5.0 * ((*expected_rate * (1.0 - *expected_rate) / actual_total as f32).sqrt());
        if *expected_rate - allowed_variation < 0.0 || *expected_rate + allowed_variation > 1.0 {
            return "Not enough samples to bound results away from extremes.".to_string();
        }
        let actual_rate = *actual.get(&k.to_string()).unwrap_or(&0) as f32 / actual_total as f32;
        if (*expected_rate - actual_rate).abs() > allowed_variation {
            return format!(
                "Actual rate {} of sample '{}' is more than 5 standard deviations from expected rate {}",
                actual_rate, k, expected_rate
            );
        }
    }
    String::new()
}

fn line_freq(data: &str) -> HashMap<String, usize> {
    let mut result = HashMap::new();
    for line in data.trim().split('\n') {
        if line.is_empty() {
            continue;
        }
        *result.entry(line.to_string()).or_insert(0) += 1;
    }
    result
}

fn seeded_rng(seed: Option<u64>, shot: u64) -> StdRng {
    match seed {
        Some(s) => StdRng::seed_from_u64(s + shot),
        None => StdRng::from_entropy(),
    }
}

#[test]
fn sample_flag_single_shot() {
    let out = sample_lines("M 0\n", 1, None);
    assert_eq!(out.trim(), "0");
}

#[test]
fn sample_flag_x_then_m() {
    let out = sample_lines("X 0\nM 0\n", 1, None);
    assert_eq!(out.trim(), "1");
}

#[test]
fn sample_flag_inverted_target() {
    let out = sample_lines("M !0\n", 1, None);
    assert_eq!(out.trim(), "1");
}

#[test]
fn basic_distributions_bell() {
    let mut expected: HashMap<&str, f32> = HashMap::new();
    expected.insert("00", 0.5);
    expected.insert("11", 0.5);
    let out = sample_lines("H 0\nCNOT 0 1\nM 0 1\n", 10_000, None);
    assert_eq!(deviation(&out, &expected), "");
}

#[test]
fn sample_x_error_distribution() {
    let mut expected: HashMap<&str, f32> = HashMap::new();
    expected.insert("00", 0.9 * 0.9);
    expected.insert("01", 0.9 * 0.1);
    expected.insert("10", 0.9 * 0.1);
    expected.insert("11", 0.1 * 0.1);
    let out = sample_lines("X_ERROR(0.1) 0 1\nM 0 1\n", 100_000, None);
    assert_eq!(deviation(&out, &expected), "");
}

#[test]
fn sample_z_error_distribution() {
    let mut expected: HashMap<&str, f32> = HashMap::new();
    expected.insert("00", 0.9 * 0.9);
    expected.insert("01", 0.9 * 0.1);
    expected.insert("10", 0.9 * 0.1);
    expected.insert("11", 0.1 * 0.1);
    let out = sample_lines("H 0 1\nZ_ERROR(0.1) 0 1\nH 0 1\nM 0 1\n", 100_000, None);
    assert_eq!(deviation(&out, &expected), "");
}

#[test]
fn sample_depolarize1_distribution() {
    let mut expected: HashMap<&str, f32> = HashMap::new();
    expected.insert("00", 0.8 * 0.8);
    expected.insert("01", 0.8 * 0.2);
    expected.insert("10", 0.8 * 0.2);
    expected.insert("11", 0.2 * 0.2);
    let out = sample_lines("DEPOLARIZE1(0.3) 0 1\nM 0 1\n", 100_000, None);
    assert_eq!(deviation(&out, &expected), "");
}

#[test]
fn sample_depolarize2_distribution() {
    let mut expected: HashMap<&str, f32> = HashMap::new();
    expected.insert("00", 0.1 * 3.0 / 15.0 + 0.9);
    expected.insert("01", 0.1 * 4.0 / 15.0);
    expected.insert("10", 0.1 * 4.0 / 15.0);
    expected.insert("11", 0.1 * 4.0 / 15.0);
    let out = sample_lines("DEPOLARIZE2(0.1) 0 1\nM 0 1\n", 100_000, None);
    assert_eq!(deviation(&out, &expected), "");
}

#[test]
fn repeat_of_h_then_m_covers_all_triples() {
    let mut expected: HashMap<&str, f32> = HashMap::new();
    for s in ["000", "001", "010", "011", "100", "101", "110", "111"] {
        expected.insert(s, 1.0 / 8.0);
    }
    let out = sample_lines("REPEAT 3 {\nH 0\nM 0\n}\n", 40_000, None);
    assert_eq!(deviation(&out, &expected), "");
}

#[test]
fn same_seed_gives_identical_output() {
    let program = "H 0\nCNOT 0 1\nX_ERROR(0.3) 0 1\nM 0 1\nDETECTOR rec[-1] rec[-2]\n";
    let a = sample_lines(program, 200, Some(42));
    let b = sample_lines(program, 200, Some(42));
    assert_eq!(a, b);
}
