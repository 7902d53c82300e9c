use algorithms::hyper_log_log::HyperLogLog;
use algorithms::hyper_log_log::B;
use algorithms::hyper_log_log::M;

#[test]
fn new_sketch_has_only_empty_registers() {
    let hll: HyperLogLog<u32> = HyperLogLog::new();
    assert_eq!(hll.registers(), [0u8; 256]);
    assert_eq!(hll.empty_registers(), 256);
    let other: HyperLogLog<u32> = HyperLogLog::default();
    assert_eq!(other.registers(), [0u8; 256]);
}

#[test]
fn constants() {
    assert_eq!(M, 256);
    assert_eq!(B, 8);
}

#[test]
fn a_hash_goes_to_the_register_of_its_last_bits_with_its_rank() {
    let mut hll: HyperLogLog<u32> = HyperLogLog::new();
    hll.add_hash(0x1FF);
    let mut expected = [0u8; 256];
    expected[0xFF] = 56;
    assert_eq!(hll.registers(), expected);
    assert_eq!(hll.empty_registers(), 255);

    hll.add_hash(0);
    expected[0] = 57;
    assert_eq!(hll.registers(), expected);

    hll.add_hash(u64::MAX);
    assert_eq!(hll.registers(), expected);

    hll.add_hash(0x8000_0000_0000_0003);
    expected[3] = 1;
    assert_eq!(hll.registers(), expected);

    hll.add_hash(0x0000_0100_0000_0003);
    expected[3] = 24;
    assert_eq!(hll.registers(), expected);

    hll.add_hash(0x0100_0000_0000_0003);
    assert_eq!(hll.registers(), expected);
    assert_eq!(hll.empty_registers(), 253);
}

#[test]
fn adding_an_item_twice_is_adding_it_once() {
    let mut hll = HyperLogLog::new();
    hll.add(&"a");
    let once = hll.registers();
    hll.add(&"a");
    assert_eq!(hll.registers(), once);
    assert_eq!(hll.empty_registers(), 255);
    let rank = once.iter().copied().max().unwrap();
    assert!(1 <= rank && rank <= 57);
}

#[test]
fn adding_items_only_raises_registers() {
    let mut hll = HyperLogLog::new();
    let mut before = hll.registers();
    for item in 0..1000u32 {
        hll.add(&item);
        let after = hll.registers();
        let mut changed = 0;
        for i in 0..256 {
            assert!(after[i] >= before[i]);
            assert!(after[i] <= 57);
            if after[i] != before[i] {
                changed += 1;
            }
        }
        assert!(changed <= 1);
        before = after;
    }
    assert!(hll.empty_registers() < 256);
}

#[test]
fn merge_takes_the_greater_register() {
    let mut one: HyperLogLog<u32> = HyperLogLog::new();
    let mut other: HyperLogLog<u32> = HyperLogLog::new();
    one.add_hash(0x1FF);
    one.add_hash(0x0000_0100_0000_0003);
    other.add_hash(0x8000_0000_0000_00FF);
    other.add_hash(0x0000_0001_0000_0003);
    other.add_hash(0x0000_0001_0000_0004);
    let both = one.merge(&other);
    let mut expected = [0u8; 256];
    expected[0xFF] = 56;
    expected[3] = 32;
    expected[4] = 32;
    assert_eq!(both.registers(), expected);
    assert_eq!(both.empty_registers(), 253);

    let mut left = [0u8; 256];
    left[0xFF] = 56;
    left[3] = 24;
    assert_eq!(one.registers(), left);
}

#[test]
fn merged_sketch_is_the_sketch_of_all_items() {
    let mut hll = HyperLogLog::new();
    let mut other_hll = HyperLogLog::new();
    let mut all = HyperLogLog::new();
    for item in 0..1000 {
        hll.add(&item);
        all.add(&item);
    }
    for item in 500..1500 {
        other_hll.add(&item);
        all.add(&item);
    }
    let merged_hll = hll.merge(&other_hll);
    assert_eq!(merged_hll.registers(), all.registers());
}

/// The estimate of the number of distinct items, computed from the
/// registers of the sketch.
fn count<T: std::hash::Hash>(hll: &HyperLogLog<T>) -> u64 {
    let z = 1f64
        / hll
            .registers()
            .iter()
            .map(|&i| 2f64.powi(-(i32::from(i))))
            .sum::<f64>();

    let am = 0.7213 / (1f64 + 1.079 / M as f64);
    let estimate = am * M as f64 * M as f64 * z;
    if estimate < M as f64 * 5. / 2. {
        let empty_registers = hll.empty_registers();
        if empty_registers == 0 {
            estimate as u64
        } else {
            (M as f64 * (M as f64 / empty_registers as f64).log2()) as u64
        }
    } else {
        estimate as u64
    }
}

fn expected_error_rate() -> f64 {
    1.04 / (M as f64).sqrt()
}

fn error_rate(estimated_count: u64, true_count: u64) -> f64 {
    (std::cmp::max(estimated_count, true_count) - std::cmp::min(estimated_count, true_count)) as f64
        / std::cmp::max(estimated_count, true_count) as f64
}

fn assert_acceptable_error_rate(estimated_count: u64, true_count: u64, acceptable_error_rate: f64) {
    let error_rate = error_rate(estimated_count, true_count);
    assert!(
        error_rate < acceptable_error_rate,
        "Expected and error rate less than {:.6}, got {:.6}",
        acceptable_error_rate,
        error_rate
    );
}

#[test]
fn test_large_set() {
    let n = 100_000;
    let multiples_of_two = (0..n).step_by(2);
    let multiples_of_three = (0..n).step_by(3);
    let items = multiples_of_two.chain(multiples_of_three);
    let num_distinct = n / 2 + n / 3 - n / 6;

    let mut hll = HyperLogLog::new();
    for item in items {
        hll.add(&item);
    }

    assert_acceptable_error_rate(count(&hll), num_distinct, 2.0 * expected_error_rate());
}

#[test]
fn test_small_set() {
    let items = vec!["a", "a", "b", "c", "d"];
    let true_distinct = 4;

    let mut hll = HyperLogLog::new();
    for item in items {
        hll.add(&item);
    }

    let distinct = count(&hll);
    assert!(
        distinct <= 5 && distinct >= 3,
        "Distinct elements: {}, found {}",
        true_distinct,
        distinct
    );
}

#[test]
fn test_merge() {
    let mut hll = HyperLogLog::new();
    let mut other_hll = HyperLogLog::new();
    let num_distinct = 150_000;
    for item in 0..100_000 {
        hll.add(&item);
    }
    for item in 50_000..150_000 {
        other_hll.add(&item);
    }
    let merged_hll = hll.merge(&other_hll);

    assert_acceptable_error_rate(count(&merged_hll), num_distinct, 2.0 * expected_error_rate());
}
