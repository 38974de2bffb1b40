use ntex_grpc::client::{
    baseline_headers, checked_grpc_timeout, duration_to_grpc_timeout, grpc_timeout_value,
    RequestContext,
};
use std::time::Duration;

#[test]
fn duration_to_grpc_timeout_less_than_second() {
    let timeout = Duration::from_millis(500);
    let value = duration_to_grpc_timeout(timeout);
    assert_eq!(value, format!("{}u", timeout.as_micros()));

    let timeout = Duration::from_secs(30);
    let value = duration_to_grpc_timeout(timeout);
    assert_eq!(value, format!("{}u", timeout.as_micros()));

    let one_hour = Duration::from_secs(60 * 60);
    let value = duration_to_grpc_timeout(one_hour);
    assert_eq!(value, format!("{}m", one_hour.as_millis()));
}

#[test]
fn grpc_timeout_picks_most_precise_unit() {
    assert_eq!(duration_to_grpc_timeout(Duration::from_secs(30)), "30000000u");
    assert_eq!(duration_to_grpc_timeout(Duration::from_millis(100)), "100000u");
    assert_eq!(duration_to_grpc_timeout(Duration::from_nanos(0)), "0n");
    assert_eq!(duration_to_grpc_timeout(Duration::from_nanos(99_999_999)), "99999999n");
    assert_eq!(duration_to_grpc_timeout(Duration::from_nanos(100_000_000)), "100000u");
    assert_eq!(duration_to_grpc_timeout(Duration::from_micros(99_999_999)), "99999999u");
    assert_eq!(duration_to_grpc_timeout(Duration::from_micros(100_000_000)), "100000m");
    assert_eq!(duration_to_grpc_timeout(Duration::from_millis(99_999_999)), "99999999m");
    assert_eq!(duration_to_grpc_timeout(Duration::from_millis(100_000_000)), "100000S");
    assert_eq!(duration_to_grpc_timeout(Duration::from_secs(99_999_999)), "99999999S");
    assert_eq!(duration_to_grpc_timeout(Duration::from_secs(100_000_000)), "1666666M");
    assert_eq!(duration_to_grpc_timeout(Duration::from_secs(60 * 99_999_999)), "99999999M");
    assert_eq!(duration_to_grpc_timeout(Duration::from_secs(60 * 100_000_000)), "1666666H");
    assert_eq!(
        duration_to_grpc_timeout(Duration::from_secs(3600 * 99_999_999)),
        "99999999H"
    );
}

#[test]
fn grpc_timeout_value_has_no_unit_for_the_unsayable() {
    assert_eq!(grpc_timeout_value(3600 * 100_000_000, 0), None);
    assert_eq!(grpc_timeout_value(u64::MAX, 999_999_999), None);
    assert_eq!(grpc_timeout_value(1, 500_000_000), Some("1500000u".to_string()));
}

#[test]
fn a_deadline_too_far_off_is_not_set() {
    let mut ctx = RequestContext::new();
    ctx.header("x-test", "value");
    assert!(!ctx.try_timeout(Duration::from_secs(3600 * 100_000_000)));
    assert_eq!(ctx.headers_len(), 1);
    assert_eq!(ctx.get_timeout(), None);
    assert!(ctx.try_timeout(Duration::from_secs(3600 * 99_999_999 + 3599)));
    assert_eq!(ctx.headers_len(), 2);
    assert_eq!(ctx.header_at(1), ("grpc-timeout", "99999999H"));
    assert_eq!(ctx.get_timeout(), Some(Duration::from_secs(3600 * 99_999_999 + 3599)));

    assert_eq!(checked_grpc_timeout(Duration::from_secs(3600 * 100_000_000)), None);
    assert_eq!(checked_grpc_timeout(Duration::from_millis(100)), Some("100000u".to_string()));
    assert_eq!(checked_grpc_timeout(Duration::from_secs(30)), Some("30000000u".to_string()));
}

#[test]
fn request_context_gathers_headers() {
    let mut ctx = RequestContext::new();
    assert_eq!(ctx.headers_len(), 0);
    assert_eq!(ctx.get_timeout(), None);
    assert!(!ctx.get_disconnect_on_drop());
    ctx.header("x-test", "value");
    ctx.timeout(Duration::from_secs(30));
    ctx.disconnect_on_drop();
    assert_eq!(ctx.headers_len(), 2);
    assert_eq!(ctx.header_at(0), ("x-test", "value"));
    assert_eq!(ctx.header_at(1), ("grpc-timeout", "30000000u"));
    assert_eq!(ctx.get_timeout(), Some(Duration::from_secs(30)));
    assert!(ctx.get_disconnect_on_drop());
}

#[test]
fn baseline_headers_are_those_of_grpc() {
    assert_eq!(
        baseline_headers(),
        vec![
            ("content-type", "application/grpc"),
            ("user-agent", "ntex-grpc/1.0.0"),
            ("te", "trailers"),
            ("grpc-encoding", "identity"),
            ("grpc-accept-encoding", "identity"),
        ]
    );
}
