use bingo::diagnostic::{
    binstr, div_ciel, drain_filter, str_to_val, usize_to_val, val_to_str, val_to_usize,
};
use bingo::power;

fn sample_readings() -> Vec<&'static str> {
    vec![
        "00100", "11110", "10110", "10111", "10101", "01111", "00111", "11100", "10000", "11001",
        "00010", "01010",
    ]
}

#[test]
fn numeric_gamma_epsilon() {
    let data: Vec<usize> = vec![4, 30, 22, 23, 21, 15, 7, 28, 16, 25, 2, 10];
    let report = power::DiagReport { width: 5, data };
    let (gamma, epsilon) = power::calc_gamma_epsilon(&report);
    assert_eq!(gamma, 22);
    assert_eq!(epsilon, 9);
    assert_eq!(gamma * epsilon, 198);
}

#[test]
fn bitvec_gamma_epsilon() {
    let data: Vec<Vec<bool>> = sample_readings().iter().map(|s| str_to_val(s)).collect();
    let report = bingo::diagnostic::DiagReport { width: 5, data };
    let (gamma, epsilon) = report.calc_gamma_epsilon();
    assert_eq!(val_to_usize(&gamma), 22);
    assert_eq!(val_to_usize(&epsilon), 9);
    assert_eq!(val_to_str(&gamma), "10110");
    assert_eq!(val_to_str(&epsilon), "01001");
}

#[test]
fn scrubber_ratings() {
    let data: Vec<Vec<bool>> = sample_readings().iter().map(|s| str_to_val(s)).collect();
    let report = bingo::diagnostic::DiagReport { width: 5, data };
    assert_eq!(val_to_str(report.o2_scrubber_rating()), "10111");
    assert_eq!(val_to_str(report.co2_scrubber_rating()), "01010");
    assert_eq!(val_to_usize(report.o2_scrubber_rating()), 23);
    assert_eq!(val_to_usize(report.co2_scrubber_rating()), 10);
    assert_eq!(report.life_support_rating(), 230);
}

#[test]
fn string_conversions_round_trip() {
    let v = str_to_val("10110");
    assert_eq!(v, vec![true, false, true, true, false]);
    assert_eq!(val_to_str(&v), "10110");
    assert_eq!(val_to_usize(&v), 22);
}

#[test]
fn greedy_binary_rendering() {
    assert_eq!(binstr(22, 5), "10110");
    assert_eq!(binstr(0, 3), "000");
    assert_eq!(binstr(1, 1), "1");
    // bit positions are indexed from the least significant end
    assert_eq!(usize_to_val(22, 5), vec![false, true, true, false, true]);
    assert_eq!(usize_to_val(0, 2), vec![false, false]);
}

#[test]
fn ceiling_division() {
    assert_eq!(div_ciel(5, 2), 3);
    assert_eq!(div_ciel(4, 2), 2);
    assert_eq!(div_ciel(0, 3), 0);
    assert_eq!(div_ciel(1, 1), 1);
    assert_eq!(div_ciel(usize::MAX, 1), usize::MAX);
    assert_eq!(div_ciel(usize::MAX, 2), usize::MAX / 2 + 1);
}

#[test]
fn greedy_rendering_of_oversized_values() {
    // a value too wide for the field is rendered greedily, not truncated
    assert_eq!(binstr(5, 2), "11");
    assert_eq!(usize_to_val(5, 2), vec![true, true]);
}

#[test]
fn wide_values_round_trip() {
    let s = "1000000000000000000000000000000000000000000000000000000000000001";
    let v = str_to_val(s);
    assert_eq!(v.len(), 64);
    assert_eq!(val_to_usize(&v), (1usize << 63) + 1);
    assert_eq!(val_to_str(&v), s);
}

#[test]
fn drain_filter_removes_matches() {
    let mut v: Vec<usize> = vec![1, 2, 3, 4, 5, 6];
    drain_filter(&mut v, |x: &usize| *x % 2 == 0);
    assert_eq!(v, vec![1, 3, 5]);

    let mut w: Vec<usize> = vec![7, 9];
    drain_filter(&mut w, |_x: &usize| false);
    assert_eq!(w, vec![7, 9]);

    let mut z: Vec<usize> = vec![7, 9];
    drain_filter(&mut z, |_x: &usize| true);
    assert_eq!(z, Vec::<usize>::new());
}
