use bus_exporter::otlp::{
    build_request, build_request_with_internal, encode_fixed64, encode_ld, encode_single_metric,
    encode_varint, encode_varint_field, next_push_step, otlp_url, Backoff, PushOutcome, PushStep,
};
use bus_exporter::store::{MetricType, MetricValue};

fn metric(name: &str, v: f64, t: MetricType, labels: Vec<(&str, &str)>) -> MetricValue {
    MetricValue {
        name: name.to_string(),
        value_bits: v.to_bits(),
        metric_type: t,
        labels: labels.into_iter().map(|(k, v)| (k.to_string(), v.to_string())).collect(),
        description: "d".to_string(),
        unit: "V".to_string(),
        updated_at_nanos: 5,
    }
}

#[test]
fn varint_encoding() {
    let mut b = Vec::new();
    encode_varint(0, &mut b);
    encode_varint(1, &mut b);
    encode_varint(127, &mut b);
    encode_varint(128, &mut b);
    encode_varint(300, &mut b);
    assert_eq!(b, vec![0, 1, 127, 0x80, 0x01, 0xAC, 0x02]);
    let mut m = Vec::new();
    encode_varint(u64::MAX, &mut m);
    assert_eq!(m, vec![0xFF, 0xFF, 0xFF, 0xFF, 0xFF, 0xFF, 0xFF, 0xFF, 0xFF, 0x01]);
}

#[test]
fn field_encodings() {
    let mut b = Vec::new();
    encode_ld(1, b"abc", &mut b);
    assert_eq!(b, vec![0x0A, 3, b'a', b'b', b'c']);
    let mut f = Vec::new();
    encode_fixed64(4, 1.5f64.to_bits(), &mut f);
    let mut expect = vec![0x21];
    expect.extend_from_slice(&1.5f64.to_bits().to_le_bytes());
    assert_eq!(f, expect);
    let mut v = Vec::new();
    encode_varint_field(2, 2, &mut v);
    assert_eq!(v, vec![0x10, 0x02]);
}

#[test]
fn gauge_metric_message() {
    let m = metric("v", 2.0, MetricType::Gauge, vec![("b", "2"), ("a", "1")]);
    let bytes = encode_single_metric(&m, 99);
    // name, description, unit
    assert_eq!(&bytes[0..3], &[0x0A, 1, b'v']);
    assert_eq!(&bytes[3..6], &[0x12, 1, b'd']);
    assert_eq!(&bytes[6..9], &[0x1A, 1, b'V']);
    // gauge (field 5) holding one data point
    assert_eq!(bytes[9], 0x2A);
    let dp = &bytes[13..];
    // attributes sorted by key: "a" first
    assert_eq!(&dp[0..4], &[0x3A, 8, 0x0A, 1]);
    assert_eq!(dp[4], b'a');
    // no start time for a gauge: time (field 3) then value (field 4)
    let tail = &dp[dp.len() - 18..];
    assert_eq!(tail[0], 0x19);
    assert_eq!(&tail[1..9], &5u64.to_le_bytes());
    assert_eq!(tail[9], 0x21);
    assert_eq!(&tail[10..18], &2.0f64.to_bits().to_le_bytes());
}

#[test]
fn counter_metric_message_has_sum_and_start_time() {
    let m = metric("c", 7.0, MetricType::Counter, vec![]);
    let bytes = encode_single_metric(&m, 42);
    assert_eq!(bytes[9], 0x3A); // Sum, field 7
    let sum = &bytes[11..];
    assert_eq!(sum[0], 0x0A); // data point
    let dp_len = sum[1] as usize;
    let dp = &sum[2..2 + dp_len];
    assert_eq!(dp[0], 0x11); // start time, field 2
    assert_eq!(&dp[1..9], &42u64.to_le_bytes());
    // temporality cumulative, monotonic
    assert_eq!(&sum[2 + dp_len..], &[0x10, 0x02, 0x18, 0x01]);
}

#[test]
fn request_wraps_resource_and_scope() {
    let ms = vec![metric("x", 1.0, MetricType::Gauge, vec![])];
    let global = vec![("env".to_string(), "prod".to_string())];
    let req = build_request(&ms, &global, 0);
    assert_eq!(req[0], 0x0A);
    let s = String::from_utf8_lossy(&req);
    assert!(s.contains("bus-exporter"));
    assert!(s.contains("env") && s.contains("prod"));
    let req2 = build_request_with_internal(&ms, &ms, &global, 0);
    let s2 = String::from_utf8_lossy(&req2);
    assert!(s2.contains("bus-exporter-internal"));
    assert!(req2.len() > req.len());
}

#[test]
fn url_strips_trailing_slashes() {
    assert_eq!(otlp_url("http://collector:4318/"), "http://collector:4318/v1/metrics");
    assert_eq!(otlp_url("http://collector:4318//"), "http://collector:4318/v1/metrics");
    assert_eq!(otlp_url("http://c"), "http://c/v1/metrics");
}

#[test]
fn backoff_doubles_with_jitter_and_caps() {
    let mut b = Backoff::new();
    // base 1000 ms, jitter range 250: source 0 gives 750
    assert_eq!(b.next_delay(0), 750);
    // base 2000 ms, range 500: 2000 - 500 + 500 % 1001
    assert_eq!(b.next_delay(500), 2000);
    assert_eq!(b.next_delay(0), 3000);
    assert_eq!(b.next_delay(0), 6000);
    assert_eq!(b.next_delay(0), 12000);
    // capped at 30 s
    assert_eq!(b.next_delay(7500), 30000);
    assert_eq!(b.next_delay(15000), 37500);
    b.reset();
    assert_eq!(b.next_delay(250), 1000);
}

#[test]
fn push_steps() {
    let mut b = Backoff::new();
    let ok = PushOutcome::Response { status: 204, retry_after_secs: None, body: String::new() };
    assert_eq!(next_push_step(1, &ok, &mut b, 0), PushStep::Done);
    let busy = PushOutcome::Response { status: 429, retry_after_secs: Some(7), body: "slow".to_string() };
    assert_eq!(next_push_step(1, &busy, &mut b, 0), PushStep::WaitSeconds(7));
    let busy2 = PushOutcome::Response { status: 429, retry_after_secs: None, body: "slow".to_string() };
    assert_eq!(next_push_step(2, &busy2, &mut b, 250), PushStep::WaitMillis(1000));
    assert_eq!(
        next_push_step(3, &busy, &mut b, 0),
        PushStep::Fail("OTLP export failed: HTTP 429 after 3 attempts: slow".to_string())
    );
    let bad = PushOutcome::Response { status: 400, retry_after_secs: None, body: "no".to_string() };
    assert_eq!(next_push_step(1, &bad, &mut b, 0), PushStep::Fail("OTLP export failed: HTTP 400: no".to_string()));
    let down = PushOutcome::Response { status: 503, retry_after_secs: None, body: "x".to_string() };
    assert!(matches!(next_push_step(1, &down, &mut b, 0), PushStep::WaitMillis(_)));
    let net = PushOutcome::RequestError { message: "refused".to_string() };
    assert_eq!(
        next_push_step(3, &net, &mut b, 0),
        PushStep::Fail("OTLP export failed after 3 attempts: refused".to_string())
    );
}

#[test]
fn varint_is_shortest_with_continuation_bits() {
    for v in [0u64, 127, 128, 16383, 16384, 1 << 35, u64::MAX] {
        let mut b = Vec::new();
        encode_varint(v, &mut b);
        assert!(!b.is_empty() && b.len() <= 10);
        assert!(b[..b.len() - 1].iter().all(|x| x & 0x80 != 0));
        assert!(b[b.len() - 1] < 0x80);
        assert_eq!(b.len() == 1, v < 128);
        if b.len() > 1 {
            assert_ne!(b[b.len() - 1], 0);
        }
        let back = b.iter().enumerate().fold(0u128, |acc, (i, x)| acc | (((x & 0x7F) as u128) << (7 * i)));
        assert_eq!(back, v as u128);
    }
}
