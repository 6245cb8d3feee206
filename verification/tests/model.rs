use field_monitor::model::timestamp_iso8601;

#[test]
fn timestamps_in_iso8601_utc() {
    assert_eq!(timestamp_iso8601(0), "1970-01-01T00:00:00Z");
    assert_eq!(timestamp_iso8601(951782400), "2000-02-29T00:00:00Z");
    assert_eq!(timestamp_iso8601(1753000000), "2025-07-20T08:26:40Z");
    assert_eq!(timestamp_iso8601(4102444799), "2099-12-31T23:59:59Z");
    assert_eq!(timestamp_iso8601(68256000000), "4132-12-12T00:00:00Z");
}

use field_monitor::model::Target;

fn target(name: &str, host: &str, url: &str, ip: &str) -> Target {
    Target {
        name: String::from(name),
        host: String::from(host),
        url: String::from(url),
        ip: String::from(ip),
    }
}

#[test]
fn safe_targets() {
    assert!(target("example", "example.com", "https://example.com/x?y=1", "").is_safe(false));
    // an address-only target is legitimate when the operator lists it
    assert!(target("resolver", "", "", "9.9.9.9").is_safe(true));
    assert!(!target("resolver", "", "", "9.9.9.9x").is_safe(false));
}

#[test]
fn unsafe_targets() {
    assert!(!target("a,b", "example.com", "", "").is_safe(true));
    assert!(!target("a|b", "example.com", "", "").is_safe(true));
    assert!(!target("a\u{7}", "example.com", "", "").is_safe(true));
    assert!(!target("x", "example.com:8443", "", "").is_safe(true));
    assert!(!target("x", "example.com/path", "", "").is_safe(true));
    assert!(!target("x", "example.com;rm", "", "").is_safe(true));
    assert!(!target("x", "", "https://e.com/$(id)", "").is_safe(true));
    assert!(!target("x", "", "https://e.com/a b", "").is_safe(true));
    assert!(!target("x", "", "", "").is_safe(true));
}
