use statsd::client::Pipeline;
use statsd::sampling::{accept_sample, sample_decision};
use statsd::text::{check_value, dec_str};

#[test]
fn test_sample_rate_zero_never_fires() {
    for _ in 0..10000 {
        assert!(!sample_decision("0"));
        assert!(!sample_decision("0.0"));
    }
}

#[test]
fn test_sample_rate_one_always_fires() {
    for _ in 0..10000 {
        assert!(sample_decision("1"));
        assert!(sample_decision("1.0"));
    }
}

#[test]
fn test_sampled_count_rate_zero_enqueues_nothing() {
    let mut pipeline = Pipeline::new();
    for _ in 0..10000 {
        pipeline.sampled_count("metric", "1", "0");
    }
    let bufs = pipeline.flush("myapp");
    assert_eq!(0, bufs.len());
}

#[test]
fn test_sampled_count_rate_one_enqueues_every_call() {
    let mut pipeline = Pipeline::new();
    for _ in 0..100 {
        pipeline.sampled_count("metric", "1", "1");
    }
    let bufs = pipeline.flush("myapp");
    let lines: usize = bufs.iter().map(|b| b.split('\n').count()).sum();
    assert_eq!(100, lines);
    for buf in bufs {
        for line in buf.split('\n') {
            assert_eq!("myapp.metric:1|c", line);
        }
    }
}

#[test]
fn test_sampled_count_line_carries_rate() {
    let mut pipeline = Pipeline::new();
    loop {
        pipeline.sampled_count("metric", "4", "0.5");
        let bufs = pipeline.flush("myapp");
        if !bufs.is_empty() {
            assert_eq!(vec!["myapp.metric:4|c|@0.5"], bufs);
            break;
        }
    }
}

#[test]
fn test_accept_sample_exact_boundaries() {
    // draw / 2^32 < rate, decided digit by digit.
    assert!(accept_sample(0, "0.5"));
    assert!(accept_sample(2147483647, "0.5"));
    assert!(!accept_sample(2147483648, "0.5")); // exactly one half
    assert!(!accept_sample(u32::MAX, "0.5"));
    assert!(accept_sample(0, "0.000001"));
    assert!(!accept_sample(0, "0"));
    assert!(!accept_sample(0, "0.0"));
    assert!(!accept_sample(0, "000.000"));
    assert!(!accept_sample(0, "-0.5"));
    assert!(!accept_sample(u32::MAX, "-3"));
    assert!(accept_sample(u32::MAX, "1"));
    assert!(accept_sample(u32::MAX, "123"));
    assert!(accept_sample(u32::MAX, "01.0"));
    // 1/2^32 is 0.00000000023283064365386962890625 exactly.
    assert!(!accept_sample(1, "0.00000000023283064365386962890625"));
    assert!(accept_sample(1, "0.00000000023283064365386962890626"));
    assert!(!accept_sample(1, "0.00000000023283064365386962890624"));
}

#[test]
fn test_check_value_grammar() {
    for ok in ["0", "1", "12.3", "-1", "-0.5", "007", "18.123", "0.00001"] {
        assert!(check_value(ok), "{} should be a value", ok);
    }
    for bad in ["", ".", "-", "1.", ".5", "1.2.3", "+1", "1e5", "NaN", "--1", "1 ", " 1", "1.-2"] {
        assert!(!check_value(bad), "{} should not be a value", bad);
    }
}

#[test]
fn test_dec_str_renders_decimal() {
    assert_eq!("0", dec_str(0));
    assert_eq!("7", dec_str(7));
    assert_eq!("10", dec_str(10));
    assert_eq!("1234567890123", dec_str(1234567890123));
    assert_eq!(
        "340282366920938463463374607431768211455",
        dec_str(u128::MAX)
    );
}
