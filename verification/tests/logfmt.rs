use field_monitor::logfmt::{
    emit_audit_line, emit_probe_row, fnum, parse_probe_line, PROBE_FIELDS, PROBE_PREFIX,
};
use field_monitor::aggregate::parse_audit_line;
use field_monitor::model::ProbeRow;

fn sample() -> ProbeRow {
    ProbeRow {
        server: String::from("203.0.113.5"),
        label: String::from("edge-1"),
        target: String::from("github.com"),
        dns_ip: String::from("93.184.216.34"),
        dns_ms: Some(12),
        https_code: Some(200),
        https_ms: Some(45),
        tcp: String::from("open"),
        tcp_ms: Some(30),
        icmp: String::from("ok"),
        icmp_ms: Some(20),
        sane: true,
        partial: false,
        ts: 1753000000,
    }
}

#[test]
fn round_trip_preserves_fields() {
    let r = sample();
    let line = emit_probe_row(&r);
    assert!(line.starts_with(PROBE_PREFIX));
    let parsed = parse_probe_line(&line, "203.0.113.5", "edge-1").expect("parses back");
    assert_eq!(parsed.target, r.target);
    assert_eq!(parsed.dns_ip, r.dns_ip);
    assert_eq!(parsed.dns_ms, r.dns_ms);
    assert_eq!(parsed.https_code, r.https_code);
    assert_eq!(parsed.https_ms, r.https_ms);
    assert_eq!(parsed.tcp, r.tcp);
    assert_eq!(parsed.tcp_ms, r.tcp_ms);
    assert_eq!(parsed.icmp, r.icmp);
    assert_eq!(parsed.icmp_ms, r.icmp_ms);
    assert!(!parsed.partial);
}

#[test]
fn round_trip_with_run_all_prefix() {
    let r = sample();
    let line = format!("[2] 203.0.113.5 -> {}", emit_probe_row(&r));
    let parsed = parse_probe_line(&line, "203.0.113.5", "edge-1").expect("parses back");
    assert_eq!(parsed.target, "github.com");
}

#[test]
fn parse_rejects_short_line() {
    assert!(parse_probe_line("target,only,two", "ip", "lbl").is_none());
}

#[test]
fn parse_rejects_nonalpha_target() {
    assert!(parse_probe_line("target,,93.0.0.1,-,-,-,-,-,-,-,0", "ip", "lbl").is_none());
}

#[test]
fn emit_probe_row_exact_line() {
    let mut r = sample();
    r.partial = true;
    r.https_code = None;
    r.icmp_ms = None;
    assert_eq!(
        emit_probe_row(&r),
        "target,github.com,93.184.216.34,12,-,45,open,30,ok,-,1,1753000000"
    );
}

#[test]
fn round_trip_keeps_partial_and_timestamp() {
    let mut r = sample();
    r.partial = true;
    let parsed = parse_probe_line(&emit_probe_row(&r), "s", "l").expect("parses back");
    assert!(parsed.partial);
    assert_eq!(parsed.ts, 1753000000);
    assert!(parsed.sane);
    assert_eq!(parsed.server, "s");
    assert_eq!(parsed.label, "l");
}

#[test]
fn implausible_latency_marks_row_not_sane() {
    let parsed = parse_probe_line("target,x,1.2.3.4,60000,200,5,open,5,ok,5", "s", "l").expect("parses");
    assert!(!parsed.sane);
    let parsed = parse_probe_line("target,x,1.2.3.4,59999,200,5,open,5,ok,5", "s", "l").expect("parses");
    assert!(parsed.sane);
    assert!(!parsed.partial);
    assert_eq!(parsed.ts, 0);
}

#[test]
fn legacy_ten_field_line_parses_with_defaults() {
    let parsed = parse_probe_line("target,example,-,-,0,8029,closed,8030,-,-", "s", "l").expect("parses");
    assert_eq!(parsed.dns_ip, "-");
    assert_eq!(parsed.dns_ms, None);
    assert_eq!(parsed.https_code, Some(0));
    assert_eq!(parsed.tcp_ms, Some(8030));
    assert_eq!(PROBE_FIELDS, 10);
    assert!(parse_probe_line("target,example,-,-,0,8029,closed,8030,-", "s", "l").is_none());
    assert!(parse_probe_line("no probe here", "s", "l").is_none());
}

#[test]
fn fnum_formats_dash_and_digits() {
    assert_eq!(fnum(None), "-");
    assert_eq!(fnum(Some(0)), "0");
    assert_eq!(fnum(Some(18446744073709551615)), "18446744073709551615");
}

#[test]
fn audit_line_round_trip() {
    let a = parse_audit_line("AUDIT:1.2.3.4|s1|no|Ubuntu|22|no|no|active|yes|no|tcp 22|udp 53").expect("parses");
    assert_eq!(emit_audit_line(&a), "AUDIT:1.2.3.4|s1|no|Ubuntu|22|no|no|active|yes|no|tcp 22|udp 53");
}
