use webgraph_algo::utils::hyper_log_log::counter_array::{
    HyperLogLogCounter, HyperLogLogCounterArray, HyperLogLogCounterArrayBuilder, HyperLogLogError,
};

/// The relative standard deviation of a counter with `2^log_2_num_registers`
/// registers.
fn relative_standard_deviation(log_2_num_registers: usize) -> f64 {
    let tmp = match log_2_num_registers {
        4 => 1.106,
        5 => 1.070,
        6 => 1.054,
        7 => 1.046,
        _ => 1.04,
    };
    tmp / ((1u64 << log_2_num_registers) as f64).sqrt()
}

/// The estimate of the number of distinct elements that a counter has seen.
fn estimate_count(counters: &HyperLogLogCounterArray, counter: &HyperLogLogCounter) -> f64 {
    let registers = counter.register_values(counters);
    let m = registers.len() as f64;
    let alpha = match counters.log_2_num_registers() {
        4 => 0.673,
        5 => 0.697,
        6 => 0.709,
        _ => 0.7213 / (1.0 + 1.079 / m),
    };
    let mut harmonic_mean = 0.0;
    let mut zeroes = 0;
    for value in registers {
        if value == 0 {
            zeroes += 1;
        }
        harmonic_mean += 1.0 / (1u64 << value) as f64;
    }
    let mut estimate = alpha * m * m / harmonic_mean;
    if zeroes != 0 && estimate < 2.5 * m {
        estimate = m * (m / zeroes as f64).ln();
    }
    estimate
}

fn with_log_2_num_registers(
    num_counters: usize,
    num_elements: usize,
    log_2_num_registers: usize,
) -> Result<HyperLogLogCounterArray, HyperLogLogError> {
    HyperLogLogCounterArrayBuilder::new()
        .log_2_num_registers(log_2_num_registers)
        .num_elements_upper_bound(num_elements)
        .build(num_counters)
}

#[test]
fn test_single() {
    let num_trials = 10;
    let sizes = [1, 10, 100, 1000, 100_000];
    let log2ms = [6, 8, 12];

    for size in sizes {
        for log2m in log2ms {
            let rsd = relative_standard_deviation(log2m);
            let mut correct = 0;

            for _ in 0..num_trials {
                let mut counters = with_log_2_num_registers(1, size, log2m).unwrap();
                let mut counter = counters.get_counter(0);
                let incr = (1 << 32) / size as i64;
                let mut x = i64::MIN;
                for _ in 0..size {
                    counter.add(&mut counters, x as usize);
                    x += incr;
                }

                let float_size = size as f64;

                if (float_size - estimate_count(&counters, &counter)).abs() / float_size
                    < 2.0 * rsd
                {
                    correct += 1;
                }
            }

            assert!(correct >= 9);
        }
    }
}

#[test]
fn test_double() {
    let num_trials = 10;
    let sizes = [1, 10, 100, 1000, 100_000];
    let log2ms = [4, 6, 8, 12];

    for size in sizes {
        for log2m in log2ms {
            let rsd = relative_standard_deviation(log2m);
            let mut correct_0 = 0;
            let mut correct_1 = 0;

            for _ in 0..num_trials {
                let mut counters = match with_log_2_num_registers(2, size, log2m) {
                    Ok(counters) => counters,
                    Err(e) => {
                        // 16 registers of 5 bits do not fill whole words
                        assert_eq!(log2m, 4);
                        assert_eq!(e, HyperLogLogError::Misaligned);
                        correct_0 += 1;
                        correct_1 += 1;
                        continue;
                    }
                };
                let incr = (1 << 32) / size as i64;
                let mut x = i64::MIN;
                for _ in 0..size {
                    counters.get_counter(0).add(&mut counters, x as usize);
                    counters.get_counter(1).add(&mut counters, x as usize);
                    x += incr;
                }

                let float_size = size as f64;

                if (float_size - estimate_count(&counters, &counters.get_counter(0))).abs()
                    / float_size
                    < 2.0 * rsd
                {
                    correct_0 += 1;
                }
                if (float_size - estimate_count(&counters, &counters.get_counter(1))).abs()
                    / float_size
                    < 2.0 * rsd
                {
                    correct_1 += 1;
                }
            }

            assert!(correct_0 >= 9);
            assert!(correct_1 >= 9);
        }
    }
}

#[test]
fn test_safe_merge() {
    let num_trials = 10;
    let sizes = [1, 10, 100, 1000, 100_000];
    let log2ms = [4, 6, 8, 12];

    for size in sizes {
        for log2m in log2ms {
            let rsd = relative_standard_deviation(log2m);
            let mut correct_0 = 0;
            let mut correct_1 = 0;

            for _ in 0..num_trials {
                let mut counters = match with_log_2_num_registers(2, size, log2m) {
                    Ok(counters) => counters,
                    Err(e) => {
                        assert_eq!(log2m, 4);
                        assert_eq!(e, HyperLogLogError::Misaligned);
                        correct_0 += 1;
                        correct_1 += 1;
                        continue;
                    }
                };
                let incr = (1 << 32) / (size * 2) as i64;
                let mut x = i64::MIN;
                for _ in 0..size {
                    counters.get_counter(0).add(&mut counters, x as usize);
                    x += incr;
                    counters.get_counter(1).add(&mut counters, x as usize);
                    x += incr;
                }

                let other = counters.get_counter(1);
                counters.get_counter(0).merge(&mut counters, &other);

                let float_size = size as f64;

                if (float_size * 2.0 - estimate_count(&counters, &counters.get_counter(0))).abs()
                    / (float_size * 2.0)
                    < 2.0 * rsd
                {
                    correct_0 += 1;
                }
                if (float_size - estimate_count(&counters, &counters.get_counter(1))).abs()
                    / (float_size * 2.0)
                    < 2.0 * rsd
                {
                    correct_1 += 1;
                }
            }

            assert!(correct_0 >= 9);
            assert!(correct_1 >= 9);
        }
    }
}

#[test]
fn test_merge_unsafe() {
    let num_trials = 10;
    let sizes = [1, 10, 100, 1000, 100_000];
    let log2ms = [4];

    for size in sizes {
        for log2m in log2ms {
            let rsd = relative_standard_deviation(log2m);
            let mut correct_0 = 0;
            let mut correct_1 = 0;

            for _ in 0..num_trials {
                let mut counters = match with_log_2_num_registers(2, size, log2m) {
                    Ok(counters) => counters,
                    Err(e) => {
                        assert_eq!(log2m, 4);
                        assert_eq!(e, HyperLogLogError::Misaligned);
                        correct_0 += 1;
                        correct_1 += 1;
                        continue;
                    }
                };
                let incr = (1 << 32) / (size * 2) as i64;
                let mut x = i64::MIN;
                for _ in 0..size {
                    counters.get_counter(0).add(&mut counters, x as usize);
                    x += incr;
                    counters.get_counter(1).add(&mut counters, x as usize);
                    x += incr;
                }

                let other = counters.get_counter(1);
                let mut helper = counters.get_thread_helper();
                counters
                    .get_counter(0)
                    .merge_unsafe(&mut counters, &other, &mut helper);

                let float_size = size as f64;

                println!(
                    "size: {}, count_0: {}, count_1: {}",
                    size,
                    estimate_count(&counters, &counters.get_counter(0)),
                    estimate_count(&counters, &counters.get_counter(1))
                );

                if (float_size * 2.0 - estimate_count(&counters, &counters.get_counter(0))).abs()
                    / (float_size * 2.0)
                    < 2.0 * rsd
                {
                    correct_0 += 1;
                }
                if (float_size - estimate_count(&counters, &counters.get_counter(1))).abs()
                    / (float_size * 2.0)
                    < 2.0 * rsd
                {
                    correct_1 += 1;
                }
            }

            assert!(correct_0 >= 9);
            assert!(correct_1 >= 9);
        }
    }
}

/// The word-parallel merge on counters that fill whole words, against the
/// merge register by register.
#[test]
fn merge_unsafe_agrees_with_merge() {
    for log2m in [6, 8, 12] {
        for size in [1usize, 10, 100, 1000, 100_000] {
            let mut fast = with_log_2_num_registers(2, size, log2m).unwrap();
            let mut slow = with_log_2_num_registers(2, size, log2m).unwrap();
            let incr = (1 << 32) / (size * 2) as i64;
            let mut x = i64::MIN;
            for _ in 0..size {
                fast.get_counter(0).add(&mut fast, x as usize);
                slow.get_counter(0).add(&mut slow, x as usize);
                x += incr;
                fast.get_counter(1).add(&mut fast, x as usize);
                slow.get_counter(1).add(&mut slow, x as usize);
                x += incr;
            }
            let before = fast.get_counter(0).register_values(&fast);
            let other_registers = fast.get_counter(1).register_values(&fast);
            let other = fast.get_counter(1);
            let mut helper = fast.get_thread_helper();
            let changed = fast
                .get_counter(0)
                .merge_unsafe(&mut fast, &other, &mut helper);
            let other = slow.get_counter(1);
            slow.get_counter(0).merge(&mut slow, &other);
            let merged = fast.get_counter(0).register_values(&fast);
            assert_eq!(merged, slow.get_counter(0).register_values(&slow));
            assert_eq!(fast.as_slice(), slow.as_slice());
            for j in 0..merged.len() {
                assert_eq!(merged[j], before[j].max(other_registers[j]));
            }
            assert_eq!(changed, merged != before);
            assert_eq!(
                fast.get_counter(1).register_values(&fast),
                other_registers
            );
        }
    }
}

/// Registers of 6 bits: more than `2^32` elements are announced.
#[test]
fn merge_unsafe_on_wide_registers() {
    let mut counters = with_log_2_num_registers(3, 1 << 40, 5).unwrap();
    assert_eq!(counters.register_size(), 6);
    assert_eq!(counters.words_per_counter(), 3);
    for x in 0..5000usize {
        counters.get_counter(0).add(&mut counters, x);
        counters.get_counter(1).add(&mut counters, x + 2500);
    }
    let a = counters.get_counter(0).register_values(&counters);
    let b = counters.get_counter(1).register_values(&counters);
    let other = counters.get_counter(1);
    let mut helper = counters.get_thread_helper();
    let changed = counters
        .get_counter(0)
        .merge_unsafe(&mut counters, &other, &mut helper);
    let merged = counters.get_counter(0).register_values(&counters);
    for j in 0..32 {
        assert_eq!(merged[j], a[j].max(b[j]));
    }
    assert!(changed);
    assert_eq!(counters.get_counter(1).register_values(&counters), b);
    assert_eq!(
        counters.get_counter(2).register_values(&counters),
        vec![0; 32]
    );
}

#[test]
fn add_twice_changes_nothing() {
    let mut counters = with_log_2_num_registers(2, 1000, 6).unwrap();
    counters.get_counter(1).add(&mut counters, 42);
    let once: Vec<u64> = counters.as_slice().to_vec();
    counters.get_counter(1).add(&mut counters, 42);
    assert_eq!(counters.as_slice(), once.as_slice());
    assert!(once.iter().any(|&w| w != 0));
}

#[test]
fn merge_with_itself_changes_nothing() {
    let mut counters = with_log_2_num_registers(2, 1000, 6).unwrap();
    for x in 0..100usize {
        counters.get_counter(0).add(&mut counters, x);
    }
    let before: Vec<u64> = counters.as_slice().to_vec();
    let same = counters.get_counter(0);
    let mut helper = counters.get_thread_helper();
    let changed = counters
        .get_counter(0)
        .merge_unsafe(&mut counters, &same, &mut helper);
    assert!(!changed);
    assert_eq!(counters.as_slice(), before.as_slice());
}

#[test]
fn merge_both_ways_gives_equal_counters() {
    let mut counters = with_log_2_num_registers(2, 1000, 6).unwrap();
    for x in 0..300usize {
        counters.get_counter(0).add(&mut counters, x);
        counters.get_counter(1).add(&mut counters, x + 1000);
    }
    let a = counters.get_counter(0).register_values(&counters);
    let b = counters.get_counter(1).register_values(&counters);
    let mut helper = counters.get_thread_helper();
    let second = counters.get_counter(1);
    counters
        .get_counter(0)
        .merge_unsafe(&mut counters, &second, &mut helper);
    let first = counters.get_counter(0);
    counters
        .get_counter(1)
        .merge_unsafe(&mut counters, &first, &mut helper);
    let merged_a = counters.get_counter(0).register_values(&counters);
    let merged_b = counters.get_counter(1).register_values(&counters);
    assert_eq!(merged_a, merged_b);
    for j in 0..a.len() {
        assert_eq!(merged_a[j], a[j].max(b[j]));
    }
}

#[test]
fn build_checks_alignment() {
    // 16 registers of 5 bits: 80 bits do not fill 64-bit words
    assert_eq!(
        with_log_2_num_registers(10, 30, 4).err(),
        Some(HyperLogLogError::Misaligned)
    );
    // 64 registers of 5 bits: 320 bits are five words
    let counters = with_log_2_num_registers(10, 30, 6).unwrap();
    assert_eq!(counters.words_per_counter(), 5);
    assert_eq!(counters.num_registers(), 64);
    assert_eq!(counters.register_size(), 5);
    assert_eq!(counters.as_slice().len(), 50);
    // 32 registers of 6 bits: 192 bits are three words
    let counters = with_log_2_num_registers(10, usize::MAX, 5).unwrap();
    assert_eq!(counters.words_per_counter(), 3);
    assert_eq!(counters.register_size(), 6);
}

#[test]
fn build_rejects_few_registers_and_large_arrays() {
    assert_eq!(
        with_log_2_num_registers(10, 30, 3).err(),
        Some(HyperLogLogError::TooFewRegisters)
    );
    assert_eq!(
        with_log_2_num_registers(10, 30, 0).err(),
        Some(HyperLogLogError::TooFewRegisters)
    );
    assert_eq!(
        with_log_2_num_registers(10, 30, 58).err(),
        Some(HyperLogLogError::TooLarge)
    );
    assert_eq!(
        with_log_2_num_registers(usize::MAX, 30, 6).err(),
        Some(HyperLogLogError::TooLarge)
    );
}

#[test]
fn register_size_grows_with_the_bound() {
    assert_eq!(
        HyperLogLogCounterArray::register_size_from_number_of_elements(0),
        5
    );
    assert_eq!(
        HyperLogLogCounterArray::register_size_from_number_of_elements(1 << 32),
        5
    );
    assert_eq!(
        HyperLogLogCounterArray::register_size_from_number_of_elements((1 << 32) + 1),
        6
    );
}

#[test]
fn swap_with_refuses_another_shape() {
    let mut a = with_log_2_num_registers(4, 30, 6).unwrap();
    let mut b = with_log_2_num_registers(4, 30, 7).unwrap();
    let mut c = with_log_2_num_registers(4, 30, 6).unwrap();
    assert_eq!(a.swap_with(&mut b), Err(HyperLogLogError::Mismatch));
    c.get_counter(2).add(&mut c, 7);
    let filled: Vec<u64> = c.as_slice().to_vec();
    assert_eq!(a.swap_with(&mut c), Ok(()));
    assert_eq!(a.as_slice(), filled.as_slice());
    assert!(c.as_slice().iter().all(|&w| w == 0));
}

#[test]
fn clear_and_set_to() {
    let mut a = with_log_2_num_registers(4, 30, 6).unwrap();
    let mut b = with_log_2_num_registers(4, 30, 6).unwrap();
    for x in 0..50usize {
        a.get_counter(1).add(&mut a, x);
    }
    let registers = a.get_counter(1).register_values(&a);
    let source = a.get_counter(1);
    b.get_counter(3).set_to(&mut b, &source, &a);
    assert_eq!(b.get_counter(3).register_values(&b), registers);
    assert_eq!(b.get_counter(2).register_values(&b), vec![0; 64]);
    let mut counter = a.get_counter(1);
    counter.clear(&mut a);
    assert_eq!(a.get_counter(1).register_values(&a), vec![0; 64]);
    b.clear();
    assert!(b.as_slice().iter().all(|&w| w == 0));
    assert_eq!(b.into_vec().len(), 4);
}
