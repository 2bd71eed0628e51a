use statsd::client::{prepare, Pipeline};

struct TimeTest {
    num: u8,
}

#[test]
fn test_pipeline_sending_gauge() {
    let mut pipeline = Pipeline::new();
    pipeline.gauge("metric", "9.1");
    let bufs = pipeline.flush("myapp");
    assert_eq!(vec!["myapp.metric:9.1|g"], bufs);
}

#[test]
fn test_pipeline_sending_gauge_without_prefix() {
    let mut pipeline = Pipeline::new();
    pipeline.gauge("metric", "9.1");
    let bufs = pipeline.flush("");
    assert_eq!(vec!["metric:9.1|g"], bufs);
}

#[test]
fn test_pipeline_sending_histogram() {
    let mut pipeline = Pipeline::new();
    pipeline.histogram("metric", "9.1");
    let bufs = pipeline.flush("myapp");
    assert_eq!(vec!["myapp.metric:9.1|h"], bufs);
}

#[test]
fn test_pipeline_sending_kv() {
    let mut pipeline = Pipeline::new();
    pipeline.kv("metric", "15.26");
    let bufs = pipeline.flush("myapp");
    assert_eq!(vec!["myapp.metric:15.26|kv"], bufs);
}

#[test]
fn test_pipeline_sending_multiple_data() {
    let mut pipeline = Pipeline::new();
    pipeline.gauge("metric", "9.1");
    pipeline.count("metric", "12.2");
    let bufs = pipeline.flush("myapp");
    assert_eq!(vec!["myapp.metric:9.1|g\nmyapp.metric:12.2|c"], bufs);
}

#[test]
fn test_pipeline_set_max_udp_size() {
    let mut pipeline = Pipeline::new();
    pipeline.set_max_udp_size(20);
    pipeline.gauge("metric", "9.1");
    pipeline.count("metric", "12.2");
    let bufs = pipeline.flush("myapp");
    assert_eq!(vec!["myapp.metric:9.1|g", "myapp.metric:12.2|c"], bufs);
}

#[test]
fn test_pipeline_sending_time_block() {
    let mut pipeline = Pipeline::new();
    pipeline.gauge("metric", "9.1");
    let mut t = TimeTest { num: 10 };
    pipeline.time("time_block", || {
        t.num += 2;
    });
    assert_eq!(t.num, 12);
    let bufs = pipeline.flush("myapp");
    assert_eq!(vec!["myapp.metric:9.1|g\nmyapp.time_block:0|ms"], bufs);
}

#[test]
fn test_pipeline_send_metric_after_pipeline() {
    let mut pipeline = Pipeline::new();
    pipeline.gauge("load", "9");
    pipeline.count("customers", "7");
    let bufs = pipeline.flush("myapp");
    assert_eq!(vec!["myapp.load:9|g\nmyapp.customers:7|c"], bufs);

    // The queue is empty after a flush and the batcher can be reused.
    pipeline.count("customers", "6");
    let bufs = pipeline.flush("myapp");
    assert_eq!(vec!["myapp.customers:6|c"], bufs);
}

#[test]
fn test_pipeline_incr_decr() {
    let mut pipeline = Pipeline::new();
    pipeline.incr("metric");
    pipeline.decr("metric");
    let bufs = pipeline.flush("myapp");
    assert_eq!(vec!["myapp.metric:1|c\nmyapp.metric:-1|c"], bufs);
}

#[test]
fn test_pipeline_timer() {
    let mut pipeline = Pipeline::new();
    pipeline.timer("metric", "21.39");
    let bufs = pipeline.flush("myapp");
    assert_eq!(vec!["myapp.metric:21.39|ms"], bufs);
}

#[test]
fn test_flush_empty_yields_no_buffers() {
    let mut pipeline = Pipeline::new();
    let bufs = pipeline.flush("myapp");
    assert_eq!(0, bufs.len());
}

#[test]
fn test_packing_three_lines_limit_25() {
    // Three lines of encoded length 10 with limit 25: the first two join
    // into one packet of 21 bytes, the third starts its own.
    let mut pipeline = Pipeline::new();
    pipeline.set_max_udp_size(25);
    pipeline.gauge("abcdef", "1");
    pipeline.gauge("abcdef", "1");
    pipeline.gauge("abcdef", "1");
    let bufs = pipeline.flush("");
    assert_eq!(vec!["abcdef:1|g\nabcdef:1|g", "abcdef:1|g"], bufs);
}

#[test]
fn test_packing_keeps_buffer_exactly_at_limit() {
    // 10 + 1 + 10 = 21 is not over a limit of 21, so one packet suffices.
    let mut pipeline = Pipeline::new();
    pipeline.set_max_udp_size(21);
    pipeline.gauge("abcdef", "1");
    pipeline.gauge("abcdef", "1");
    let bufs = pipeline.flush("");
    assert_eq!(vec!["abcdef:1|g\nabcdef:1|g"], bufs);
}

#[test]
fn test_oversized_single_line_flushed_alone() {
    let mut pipeline = Pipeline::new();
    pipeline.set_max_udp_size(5);
    pipeline.gauge("metric", "9.1");
    pipeline.gauge("other", "1");
    let bufs = pipeline.flush("");
    assert_eq!(vec!["metric:9.1|g", "other:1|g"], bufs);
}

#[test]
fn test_single_count_with_prefix() {
    let mut pipeline = Pipeline::new();
    pipeline.count("metric", "12.2");
    let bufs = pipeline.flush("myapp");
    assert_eq!(vec!["myapp.metric:12.2|c"], bufs);
}

#[test]
fn test_pipeline_default_matches_new() {
    let mut pipeline: Pipeline = Default::default();
    pipeline.gauge("metric", "9.1");
    assert_eq!(vec!["metric:9.1|g"], pipeline.flush(""));
}

#[test]
fn test_prepare_applies_prefix_once() {
    assert_eq!("metric:1|c", prepare("", "metric:1|c"));
    assert_eq!("myapp.metric:1|c", prepare("myapp", "metric:1|c"));
}
