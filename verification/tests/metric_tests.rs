use statsd::metric::{Metric, MetricKind, ParseError};

#[test]
fn test_metric_kind_debug_fmt() {
    assert_eq!("Gauge", MetricKind::Gauge.describe());
    assert_eq!("Timer", MetricKind::Timer.describe());
    assert_eq!(
        "Counter(s=6)",
        MetricKind::Counter(String::from("6")).describe()
    );
}

#[test]
fn test_metric_kind_describe_others() {
    assert_eq!("Histogram", MetricKind::Histogram.describe());
    assert_eq!("KeyValue", MetricKind::KeyValue.describe());
}

#[test]
fn test_metric_from_str_invalid_no_name() {
    let res = Metric::decode("");
    assert!(res.is_err(), "Should have an error");
    assert!(!res.is_ok(), "Should have an error");
}

#[test]
fn test_metric_from_str_invalid_no_value() {
    let res = Metric::decode("foo:");
    assert!(res.is_err(), "Should have an error");
    assert!(!res.is_ok(), "Should have an error");
}

#[test]
fn test_metric_valid() {
    let valid = vec![
        ("foo.test:12.3|ms", "foo.test", "12.3", "Timer"),
        ("test:18.123|g", "test", "18.123", "Gauge"),
        ("thing.total:12|c", "thing.total", "12", "Counter(s=1)"),
        ("thing.total:5.6|c|@123", "thing.total", "5.6", "Counter(s=123)"),
    ];
    for (input, name, value, kind) in valid {
        let result = Metric::decode(input);
        assert!(result.is_ok());

        let actual = result.ok().unwrap();
        assert_eq!(name, actual.name);
        assert_eq!(value, actual.value);
        assert_eq!(kind, actual.kind.describe());
    }
}

#[test]
fn test_metric_invalid() {
    let invalid = vec![
        "",
        "metric",
        "metric|12",
        "metric:13|",
        "metric:14|c@1",
        ":|@",
        ":1.0|c",
    ];
    for input in invalid.iter() {
        let result = Metric::decode(*input);
        assert!(result.is_err());
    }
}

#[test]
fn test_decode_error_kinds() {
    assert_eq!(Metric::decode("").err(), Some(ParseError::MissingName));
    assert_eq!(Metric::decode("foo").err(), Some(ParseError::MissingName));
    assert_eq!(Metric::decode(":1|c").err(), Some(ParseError::MissingName));
    assert_eq!(
        Metric::decode("a|b:1|c").err(),
        Some(ParseError::MissingName)
    );
    assert_eq!(Metric::decode("foo:").err(), Some(ParseError::MissingValue));
    assert_eq!(
        Metric::decode("foo:12.3").err(),
        Some(ParseError::MissingValue)
    );
    assert_eq!(
        Metric::decode("foo:|c").err(),
        Some(ParseError::MissingValue)
    );
    assert_eq!(
        Metric::decode("foo:abc|c").err(),
        Some(ParseError::InvalidValue)
    );
    assert_eq!(
        Metric::decode("foo:1.2.3|g").err(),
        Some(ParseError::InvalidValue)
    );
    assert_eq!(
        Metric::decode("foo:1|c|@zz").err(),
        Some(ParseError::InvalidValue)
    );
    assert_eq!(
        Metric::decode("foo:1|zz").err(),
        Some(ParseError::UnknownType)
    );
    assert_eq!(Metric::decode("foo:1|").err(), Some(ParseError::UnknownType));
}

#[test]
fn test_decode_counter_rate_forms() {
    // No third segment: the default rate.
    let m = Metric::decode("a:1|c").unwrap();
    assert_eq!("Counter(s=1)", m.kind.describe());
    // A third segment without the leading `@` leaves the default rate.
    let m = Metric::decode("a:1|c|5").unwrap();
    assert_eq!("Counter(s=1)", m.kind.describe());
    // An `@`-led third segment carries the rate.
    let m = Metric::decode("a:1|c|@0.25").unwrap();
    assert_eq!("Counter(s=0.25)", m.kind.describe());
    // Segments after the third are ignored.
    let m = Metric::decode("a:1|c|@0.5|junk").unwrap();
    assert_eq!("Counter(s=0.5)", m.kind.describe());
    let m = Metric::decode("a:1|g|extra").unwrap();
    assert_eq!("Gauge", m.kind.describe());
}

#[test]
fn test_encode_each_kind() {
    let m = Metric::new("gorets", "1", MetricKind::Counter(String::from("1"))).unwrap();
    assert_eq!("gorets:1|c", m.encode());
    let m = Metric::new("gorets", "1", MetricKind::Counter(String::from("0.1"))).unwrap();
    assert_eq!("gorets:1|c|@0.1", m.encode());
    let m = Metric::new("glork", "320", MetricKind::Timer).unwrap();
    assert_eq!("glork:320|ms", m.encode());
    let m = Metric::new("gaugor", "333", MetricKind::Gauge).unwrap();
    assert_eq!("gaugor:333|g", m.encode());
    let m = Metric::new("hist", "5.5", MetricKind::Histogram).unwrap();
    assert_eq!("hist:5.5|h", m.encode());
    let m = Metric::new("kvname", "-2.5", MetricKind::KeyValue).unwrap();
    assert_eq!("kvname:-2.5|kv", m.encode());
}

#[test]
fn test_new_rejects_invalid_parts() {
    assert!(Metric::new("", "1", MetricKind::Gauge).is_none());
    assert!(Metric::new("a:b", "1", MetricKind::Gauge).is_none());
    assert!(Metric::new("a|b", "1", MetricKind::Gauge).is_none());
    assert!(Metric::new("a", "", MetricKind::Gauge).is_none());
    assert!(Metric::new("a", "1.2.3", MetricKind::Gauge).is_none());
    assert!(Metric::new("a", "NaN", MetricKind::Gauge).is_none());
    assert!(Metric::new("a", "1", MetricKind::Counter(String::from("x"))).is_none());
    assert!(Metric::new("a.b.c", "-12.5", MetricKind::Timer).is_some());
}

#[test]
fn test_round_trip() {
    let metrics = vec![
        Metric::new("foo.test", "12.3", MetricKind::Timer).unwrap(),
        Metric::new("test", "18.123", MetricKind::Gauge).unwrap(),
        Metric::new("h", "0.5", MetricKind::Histogram).unwrap(),
        Metric::new("kv", "-7", MetricKind::KeyValue).unwrap(),
        Metric::new("c1", "12", MetricKind::Counter(String::from("1"))).unwrap(),
        Metric::new("c2", "5.6", MetricKind::Counter(String::from("123"))).unwrap(),
        Metric::new("c3", "-1", MetricKind::Counter(String::from("0.25"))).unwrap(),
        Metric::new("c4", "1", MetricKind::Counter(String::from("1.0"))).unwrap(),
    ];
    for m in metrics {
        let line = m.encode();
        let back = Metric::decode(line.as_str()).unwrap();
        assert_eq!(m.name, back.name);
        assert_eq!(m.value, back.value);
        assert_eq!(m.kind.describe(), back.kind.describe());
    }
}
