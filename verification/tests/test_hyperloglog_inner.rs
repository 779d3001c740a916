use webgraph_algo::utils::hyper_log_log::alignment::min_alignment;
use webgraph_algo::utils::hyper_log_log::counter_array::{
    HyperLogLogCounterArrayBuilder, HyperLogLogError,
};

#[test]
fn test_counter_creation() {
    let counters = HyperLogLogCounterArrayBuilder::new()
        .log_2_num_registers(6)
        .build(10)
        .unwrap();

    let counter_4 = counters.get_counter(4);

    assert!(counter_4.cached_words().is_none());
    assert_eq!(counter_4.offset(&counters), 2usize.pow(6) * 4);
}

#[test]
fn test_counter_edit_inplace() {
    let mut counters = HyperLogLogCounterArrayBuilder::new()
        .log_2_num_registers(6)
        .build(10)
        .unwrap();
    let mut counter_4 = counters.get_counter(4);

    counter_4.add(&mut counters, 42);

    assert_eq!(counters.residual_mask().count_ones(), 64);
    assert!(counter_4.cached_words().is_none());
    for i in 0..10 {
        let words = counters.words_per_counter();
        let slice = &counters.as_slice()[i * words..(i + 1) * words];
        if i != 4 {
            assert_eq!(slice, vec![0; counters.words_per_counter()]);
        } else {
            let mut ones = 0;
            for word in slice {
                ones += word.count_ones();
            }
            assert!(ones > 0);
        }
    }
}

#[test]
fn test_counter_edit_cached() {
    let mut counters = HyperLogLogCounterArrayBuilder::new()
        .log_2_num_registers(6)
        .build(10)
        .unwrap();
    let mut counter_4 = counters.get_counter(4);

    assert!(counter_4.cached_words().is_none());

    counter_4.cache(&counters);

    assert!(counter_4.cached_words().is_some());
    assert!(!counter_4.is_changed());
    assert_eq!(
        counter_4.cached_words().unwrap().as_slice(),
        vec![0; counters.words_per_counter()]
    );

    counter_4.add(&mut counters, 42);

    assert!(counter_4.is_changed());
    for i in 0..10 {
        let words = counters.words_per_counter();
        let slice = &counters.as_slice()[i * words..(i + 1) * words];
        assert_eq!(slice, vec![0; counters.words_per_counter()]);
    }

    let mut ones = 0;
    for word in counter_4.cached_words().unwrap().as_slice() {
        ones += word.count_ones();
    }
    assert!(ones > 0);
}

#[test]
fn test_counter_commit_changes() {
    let mut counters = HyperLogLogCounterArrayBuilder::new()
        .log_2_num_registers(6)
        .build(10)
        .unwrap();
    let mut counter_4 = counters.get_counter(4);
    counter_4.cache(&counters);
    counter_4.add(&mut counters, 42);

    counter_4.commit_changes(&mut counters, false);

    assert!(counter_4.cached_words().is_none());
    for i in 0..10 {
        let words = counters.words_per_counter();
        let slice = &counters.as_slice()[i * words..(i + 1) * words];
        if i != 4 {
            assert_eq!(slice, vec![0; counters.words_per_counter()]);
        } else {
            let mut ones = 0;
            for word in slice {
                ones += word.count_ones();
            }
            assert!(ones > 0);
        }
    }
}

#[test]
fn test_counter_sync_changes() {
    let mut counters = HyperLogLogCounterArrayBuilder::new()
        .log_2_num_registers(6)
        .build(10)
        .unwrap();
    let mut counter_4 = counters.get_counter(4);
    counter_4.cache(&counters);
    counter_4.add(&mut counters, 42);

    counter_4.commit_changes(&mut counters, true);

    assert!(counter_4.cached_words().is_some());
    assert!(!counter_4.is_changed());
    for i in 0..10 {
        let words = counters.words_per_counter();
        let slice = &counters.as_slice()[i * words..(i + 1) * words];
        if i != 4 {
            assert_eq!(slice, vec![0; counters.words_per_counter()]);
        } else {
            assert_eq!(slice, counter_4.cached_words().unwrap().as_slice())
        }
    }
}

#[test]
fn test_counter_sync() {
    let mut counters = HyperLogLogCounterArrayBuilder::new()
        .log_2_num_registers(6)
        .build(10)
        .unwrap();
    let mut counter_4 = counters.get_counter(4);
    counter_4.cache(&counters);
    counter_4.add(&mut counters, 42);

    counter_4.sync_to_backend(&mut counters);

    assert!(counter_4.cached_words().is_some());
    assert!(!counter_4.is_changed());
    for i in 0..10 {
        let words = counters.words_per_counter();
        let slice = &counters.as_slice()[i * words..(i + 1) * words];
        if i != 4 {
            assert_eq!(slice, vec![0; counters.words_per_counter()]);
        } else {
            assert_eq!(slice, counter_4.cached_words().unwrap().as_slice())
        }
    }
}

#[test]
fn every_counter_is_a_chunk_of_its_own() {
    let counters = HyperLogLogCounterArrayBuilder::new()
        .log_2_num_registers(6)
        .num_elements_upper_bound(100)
        .build(5)
        .unwrap();
    assert_eq!(counters.chunk_size(), 1);
    for i in 0..5 {
        let counter = counters.get_counter(i);
        assert_eq!(counter.counter_index(), i);
        assert_eq!(counter.chunk_index(), i);
        assert!(counter.is_last_of_chunk());
    }
}

#[test]
fn min_alignment_names_the_widest_word() {
    assert_eq!(min_alignment(0), "u128");
    assert_eq!(min_alignment(256), "u128");
    assert_eq!(min_alignment(320), "u64");
    assert_eq!(min_alignment(96), "u32");
    assert_eq!(min_alignment(80), "u16");
    assert_eq!(min_alignment(8), "u8");
    assert_eq!(min_alignment(5), "u8");
}

#[test]
fn errors_say_what_is_wrong() {
    assert_eq!(
        HyperLogLogError::TooFewRegisters.message(),
        "a counter needs 16 registers at least"
    );
    assert_eq!(
        HyperLogLogError::Misaligned.message(),
        "the registers of a counter do not fill whole words"
    );
    assert_eq!(HyperLogLogError::TooLarge.message(), "the array of counters is too large");
    assert_eq!(HyperLogLogError::Mismatch.message(), "the arrays of counters differ in shape");
}
