use mathutils::sorting::sort_ascending;

fn to_bits(values: &[f64]) -> Vec<u64> {
    values.iter().map(|x| x.to_bits()).collect()
}

fn sorted(values: &[f64]) -> Vec<u64> {
    let mut bits = to_bits(values);
    sort_ascending(&mut bits);
    bits
}

#[test]
fn sort_ascending_leaves_the_empty_sample_alone() {
    let mut bits: Vec<u64> = Vec::new();
    sort_ascending(&mut bits);
    assert!(bits.is_empty());
}

#[test]
fn sort_ascending_of_one_value() {
    assert_eq!(sorted(&[4.5]), to_bits(&[4.5]));
}

#[test]
fn sort_ascending_orders_numbers() {
    assert_eq!(
        sorted(&[3.0, 1.0, 4.0, 1.0, 5.0, 9.0, 2.0, 6.0, 1.0]),
        to_bits(&[1.0, 1.0, 1.0, 2.0, 3.0, 4.0, 5.0, 6.0, 9.0])
    );
}

#[test]
fn sort_ascending_handles_signs_and_infinities() {
    assert_eq!(
        sorted(&[0.5, f64::INFINITY, -2.0, 0.0, -0.0, f64::NEG_INFINITY, -0.5, 2.0]),
        to_bits(&[f64::NEG_INFINITY, -2.0, -0.5, -0.0, 0.0, 0.5, 2.0, f64::INFINITY])
    );
}

#[test]
fn sort_ascending_keeps_sorted_input() {
    let values = [-3.0, -1.0, 0.0, 0.25, 7.0, 7.0, 8.0];
    assert_eq!(sorted(&values), to_bits(&values));
}

#[test]
fn sort_ascending_reverses_descending_input() {
    assert_eq!(sorted(&[5.0, 4.0, 3.0, 2.0, 1.0, 0.0]), to_bits(&[0.0, 1.0, 2.0, 3.0, 4.0, 5.0]));
}

#[test]
fn sort_ascending_places_nans_at_the_ends() {
    let out = sorted(&[1.0, f64::NAN, -1.0, -f64::NAN, 0.0]);
    assert_eq!(out, to_bits(&[-f64::NAN, -1.0, 0.0, 1.0, f64::NAN]));
}

#[test]
fn sort_ascending_agrees_with_the_total_order_on_many_values() {
    let mut values: Vec<f64> = Vec::new();
    let mut state: u64 = 0x9e37_79b9_7f4a_7c15;
    for _ in 0..1000 {
        state = state.wrapping_mul(6364136223846793005).wrapping_add(1442695040888963407);
        values.push(((state >> 11) as f64) / 1.0e12 - 4000.0);
    }
    let mut expected = values.clone();
    expected.sort_by(|a, b| a.total_cmp(b));
    assert_eq!(sorted(&values), to_bits(&expected));
}
