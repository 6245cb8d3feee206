use field_monitor::aggregate::{
    format_summary, parse_audit_line, parse_probe_log, render_markdown_report, summarize,
    summarize_at,
};
use field_monitor::model::ProbeRow;
use std::time::{SystemTime, UNIX_EPOCH};

fn row(
    server: &str,
    label: &str,
    target: &str,
    https_code: Option<u16>,
    https_ms: Option<u64>,
    tcp: &str,
    ts: u64,
) -> ProbeRow {
    ProbeRow {
        server: String::from(server),
        label: String::from(label),
        target: String::from(target),
        dns_ip: String::from(server),
        dns_ms: Some(10),
        https_code,
        https_ms,
        tcp: String::from(tcp),
        tcp_ms: Some(20),
        icmp: String::from("ok"),
        icmp_ms: Some(5),
        sane: true,
        partial: false,
        ts,
    }
}

#[test]
fn parse_audit_line_ok() {
    let line = "AUDIT:YOUR_SERVER_IP|server-1|no|Ubuntu 24.04|22|default|yes|none|none|none|";
    let a = parse_audit_line(line).expect("should parse");
    assert_eq!(a.ip, "YOUR_SERVER_IP");
    assert_eq!(a.name, "server-1");
    assert_eq!(a.os, "Ubuntu 24.04");
    assert_eq!(a.ssh_port, "22");
}

#[test]
fn parse_audit_line_too_short_is_none() {
    assert!(parse_audit_line("AUDIT:only|two|fields").is_none());
    assert!(parse_audit_line("not an audit line").is_none());
}

#[test]
fn parse_audit_line_ports_field_keeps_pipes() {
    let line = "AUDIT:1.2.3.4|s1|no|Ubuntu|22|no|no|active|yes|no|tcp 22|tcp 443|udp 53";
    let a = parse_audit_line(line).expect("should parse");
    assert_eq!(a.ports, "tcp 22|tcp 443|udp 53");
}

#[test]
fn summarize_flags_non_200() {
    let rows = vec![ProbeRow {
        server: String::from("YOUR_SERVER_IP"),
        label: String::from("server-1"),
        target: String::from("example"),
        dns_ip: String::from("YOUR_SERVER_IP"),
        dns_ms: Some(10),
        https_code: Some(403),
        https_ms: Some(120),
        tcp: String::from("open"),
        tcp_ms: Some(20),
        icmp: String::from("ok"),
        icmp_ms: Some(5),
        sane: true,
        partial: false,
        ts: 0,
    }];
    let s = summarize(rows);
    assert_eq!(s.anomalies.len(), 1);
    assert_eq!(s.anomalies[0].target, "example");
}

#[test]
fn summarize_flags_tcp_closed() {
    let rows = vec![ProbeRow {
        server: String::from("YOUR_SERVER_IP"),
        label: String::from("server-1"),
        target: String::from("example"),
        dns_ip: String::from("YOUR_SERVER_IP"),
        dns_ms: Some(10),
        https_code: None,
        https_ms: None,
        tcp: String::from("closed"),
        tcp_ms: Some(20),
        icmp: String::from("ok"),
        icmp_ms: Some(5),
        sane: true,
        partial: false,
        ts: 0,
    }];
    let s = summarize(rows);
    assert_eq!(s.anomalies.len(), 1);
}

#[test]
fn summarize_clean_has_no_anomalies() {
    let rows = vec![ProbeRow {
        server: String::from("YOUR_SERVER_IP"),
        label: String::from("server-1"),
        target: String::from("example"),
        dns_ip: String::from("YOUR_SERVER_IP"),
        dns_ms: Some(10),
        https_code: Some(200),
        https_ms: Some(120),
        tcp: String::from("open"),
        tcp_ms: Some(20),
        icmp: String::from("ok"),
        icmp_ms: Some(5),
        sane: true,
        partial: false,
        ts: 0,
    }];
    let s = summarize(rows);
    assert!(s.anomalies.is_empty());
}

#[test]
fn summarize_windows_to_last_hour() {
    let now = SystemTime::now()
        .duration_since(UNIX_EPOCH)
        .map(|d| d.as_secs())
        .unwrap_or(0);
    let old = now.saturating_sub(7200);
    let fresh = now.saturating_sub(60);
    let mk = |server: &str, label: &str, ts: u64| ProbeRow {
        server: String::from(server),
        label: String::from(label),
        target: String::from("apple"),
        dns_ip: String::from("-"),
        dns_ms: None,
        https_code: Some(0),
        https_ms: Some(8029),
        tcp: String::from("closed"),
        tcp_ms: Some(8030),
        icmp: String::from("-"),
        icmp_ms: None,
        sane: true,
        partial: false,
        ts,
    };
    let rows = vec![mk("10.0.0.1", "A", old), mk("10.0.0.2", "B", fresh), mk("10.0.0.3", "C", 0)];
    let s = summarize(rows);
    assert_eq!(s.anomalies.len(), 2, "stale row must be windowed out");
    assert!(s.anomalies.iter().any(|a| a.ip == "10.0.0.2"));
    assert!(s.anomalies.iter().any(|a| a.ip == "10.0.0.3"));
    assert!(!s.anomalies.iter().any(|a| a.ip == "10.0.0.1"));
}

#[test]
fn summarize_at_counts_servers_once_in_order() {
    let rows = vec![
        row("10.0.0.2", "B", "apple", Some(200), Some(100), "open", 0),
        row("10.0.0.1", "A", "apple", Some(200), Some(100), "open", 0),
        row("10.0.0.2", "B2", "icloud", Some(200), Some(100), "open", 0),
    ];
    let s = summarize_at(rows, 10_000);
    assert_eq!(s.n_points, 2);
    assert_eq!(s.servers.len(), 2);
    assert_eq!(s.servers[0].ip, "10.0.0.1");
    assert_eq!(s.servers[1].ip, "10.0.0.2");
    // the first label seen for a server is kept
    assert_eq!(s.servers[1].label, "B");
    assert_eq!(s.rows.len(), 3);
    assert!(s.anomalies.is_empty());
}

#[test]
fn summarize_at_edges_of_the_rules() {
    let mut slow = row("s", "l", "slow", Some(200), Some(2001), "open", 0);
    let edge = row("s", "l", "edge", Some(200), Some(2000), "-", 0);
    let mut dns = row("s", "l", "dns", Some(200), Some(10), "", 0);
    dns.dns_ms = Some(2001);
    let mut insane = row("s", "l", "insane", Some(500), Some(90000), "closed", 0);
    insane.sane = false;
    slow.icmp = String::from("-");
    let s = summarize_at(vec![slow, edge, dns, insane], 10_000);
    let targets: Vec<&str> = s.anomalies.iter().map(|a| a.target.as_str()).collect();
    assert_eq!(targets, vec!["slow", "dns"]);
}

#[test]
fn summarize_at_cutoff_is_one_hour() {
    let rows = vec![
        row("s", "l", "at_cutoff", Some(0), None, "-", 6400),
        row("s", "l", "before_cutoff", Some(0), None, "-", 6399),
    ];
    let s = summarize_at(rows, 10_000);
    assert_eq!(s.anomalies.len(), 1);
    assert_eq!(s.anomalies[0].target, "at_cutoff");
}

#[test]
fn parse_probe_log_reads_run_all_format() {
    let text = "[1] YOUR_SERVER_IP -> PROBE_IP=YOUR_SERVER_IP NAME=server-1\n[1] YOUR_SERVER_IP -> target,example,YOUR_DNS_IP,32,200,391,open,77,-,-,0\n[1] YOUR_SERVER_IP -> target,resolver,YOUR_RESOLVER_IP,0,-,-,-,-,ok,4,0\n";
    let rows = parse_probe_log(text);
    assert_eq!(rows.len(), 2);
    assert_eq!(rows[0].server, "YOUR_SERVER_IP");
    assert_eq!(rows[0].label, "server-1");
    assert_eq!(rows[0].target, "example");
    assert_eq!(rows[0].https_code, Some(200));
    assert_eq!(rows[1].target, "resolver");
    assert_eq!(rows[1].icmp, "ok");
}

#[test]
fn parse_probe_log_reads_plain_log_and_skips_audit() {
    let text = "target,early,1.1.1.1,1,200,2,open,3,-,-\nPROBE_IP=10.0.0.2 NAME=B\nAUDIT:10.0.0.2|B|no|x|22|no|no|none|none|none|\ntarget,example,1.2.3.4,32,0,8029,closed,8030,-,-,0\n";
    let rows = parse_probe_log(text);
    assert_eq!(rows.len(), 2);
    assert_eq!(rows[0].server, "?");
    assert_eq!(rows[0].label, "?");
    assert_eq!(rows[1].server, "10.0.0.2");
    assert_eq!(rows[1].label, "B");
    assert_eq!(rows[1].https_code, Some(0));
}

#[test]
fn format_summary_exact_text() {
    let rows = vec![row("10.0.0.1", "A", "apple", Some(403), Some(120), "open", 0)];
    let s = summarize_at(rows, 10_000);
    let t = format_summary(&s);
    let expected = format!(
        "\n=== FIELD MONITOR SUMMARY, points: 1 ===\n\nserver          label          target       HTTPS  ms     DNSms TCP    ICMP\n{}\n10.0.0.1  A  apple  403  120  10  open  ok\n\n=== ANOMALIES ===\n  10.0.0.1 A apple: HTTPS=Some(403) ms=Some(120) TCP=open\n",
        "-".repeat(68)
    );
    assert_eq!(t, expected);
}

#[test]
fn format_summary_without_anomalies() {
    let s = summarize_at(Vec::new(), 10_000);
    let t = format_summary(&s);
    assert!(t.ends_with("=== ANOMALIES ===\n  none (all targets 200/open, latencies normal)\n"));
    assert!(t.starts_with("\n=== FIELD MONITOR SUMMARY, points: 0 ===\n"));
}

#[test]
fn markdown_report_exact_text() {
    let mut second = row("10.0.0.1", "A", "apple", Some(200), Some(90), "open", 0);
    second.dns_ms = Some(11);
    let rows = vec![
        row("10.0.0.1", "A", "icloud", None, None, "closed", 0),
        row("10.0.0.1", "A", "apple", Some(200), Some(3000), "open", 0),
        second,
    ];
    let s = summarize_at(rows, 10_000);
    let t = render_markdown_report(&s, "2026-07-24T10:00:00Z");
    let expected = "# Field Monitor Report\n\n**Generated:** 2026-07-24T10:00:00Z\n\n**Vantage points:** 1\n\n**Anomalies:** 2 (see below)\n\n## A\n\n| Target | DNS IP | HTTPS | Latency (ms) | DNS (ms) | TCP | ICMP |\n|--------|--------|-------|--------------|----------|-----|------|\n| apple | 10.0.0.1 | 200 | 90 ms | 11 ms | open | ok | OK\n| icloud | 10.0.0.1 | - | - | 10 ms | closed | ok | BLOCKED\n\n## Anomalies\n\n| Server | Label | Target | HTTPS | Latency (ms) | TCP | Status |\n|--------|-------|--------|-------|--------------|-----|--------|\n| 10.0.0.1 | A | icloud | None | None | closed | HTTPS_FAIL |\n| 10.0.0.1 | A | apple | Some(200) | Some(3000) | open | HIGH_LATENCY |\n";
    assert_eq!(t, expected);
}

#[test]
fn markdown_report_all_ok() {
    let s = summarize_at(vec![row("10.0.0.1", "A", "apple", Some(200), Some(90), "-", 0)], 1);
    let t = render_markdown_report(&s, "T");
    assert!(t.contains("**Status:** All OK\n\n"));
    assert!(t.contains("| apple | 10.0.0.1 | 200 | 90 ms | 10 ms | - | ok | OK\n"));
    assert!(t.ends_with("## Anomalies\n\nNone detected (all targets 200/open, latencies normal).\n"));
}

#[test]
fn summarize_flags_slow_tcp() {
    let mut r = row("s", "L", "t", Some(200), Some(100), "open", 0);
    r.tcp_ms = Some(3000);
    assert_eq!(summarize(vec![r]).anomalies.len(), 1);
    let mut r = row("s", "L", "t", Some(200), Some(100), "open", 0);
    r.tcp_ms = Some(2000);
    assert!(summarize(vec![r]).anomalies.is_empty());
}

#[test]
fn markdown_report_shows_latest_row_per_target() {
    let first = row("10.0.0.1", "A", "apple", Some(0), Some(8000), "closed", 0);
    let second = row("10.0.0.1", "A", "apple", Some(200), Some(40), "open", 0);
    let s = summarize_at(vec![first, second], 10_000);
    let t = render_markdown_report(&s, "T");
    assert!(t.contains("| apple | 10.0.0.1 | 200 | 40 ms | 10 ms | open | ok | OK\n"));
    assert!(!t.contains("| apple | 10.0.0.1 | 0 |"));
}
