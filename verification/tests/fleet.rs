use field_monitor::corroborate::CorroRow;
use field_monitor::fleet::{
    audit_identity, batch_end, batch_width, bin_for_arch, corro_line, error_line, host_name,
    needs_resolved_ip, probe_banner, probe_ip, probe_label, probe_stdout, relay_lines,
    run_all_banner, scp_failure, server_block, server_listing_line, ssh_failure,
};
use field_monitor::logfmt::{emit_probe_row, parse_probe_line};
use field_monitor::model::{ProbeRow, ServerEntry};

#[test]
fn list_servers_line_redacts_key() {
    let s = ServerEntry {
        ip: String::from("192.0.2.1"),
        name: String::from("edge"),
        key: String::from("/secret/key"),
        user: String::from("op"),
        port: 22,
        arch: String::from("x86_64"),
    };
    let line = server_listing_line(&s);
    assert_eq!(line, "192.0.2.1|edge|<redacted>|22|op");
    assert!(!line.contains("/secret/key"));
}

#[test]
fn probe_output_lines_read_back() {
    let r = ProbeRow {
        server: String::from("203.0.113.5"),
        label: String::from("edge"),
        target: String::from("apple"),
        dns_ip: String::from("17.1.1.1"),
        dns_ms: Some(3),
        https_code: None,
        https_ms: None,
        tcp: String::from("closed"),
        tcp_ms: Some(8000),
        icmp: String::from("-"),
        icmp_ms: None,
        sane: true,
        partial: false,
        ts: 0,
    };
    let line = emit_probe_row(&r);
    assert_eq!(line, "target,apple,17.1.1.1,3,-,-,closed,8000,-,-,0,0");
    let back = parse_probe_line(&line, "203.0.113.5", "edge").expect("reads back");
    assert_eq!(back.target, "apple");
    assert_eq!(back.tcp_ms, Some(8000));
    assert_eq!(back.https_code, None);
    assert_eq!(probe_banner("203.0.113.5", "edge"), "PROBE_IP=203.0.113.5 NAME=edge");
}

#[test]
fn who_a_measurement_is_labelled_as() {
    assert!(needs_resolved_ip(None));
    assert!(needs_resolved_ip(Some("")));
    assert!(!needs_resolved_ip(Some("1.2.3.4")));
    assert_eq!(probe_ip(Some("1.2.3.4"), Some("5.6.7.8")), "1.2.3.4");
    assert_eq!(probe_ip(Some(""), Some("5.6.7.8")), "5.6.7.8");
    assert_eq!(probe_ip(None, None), "unknown");
    assert_eq!(probe_label(Some("n"), Some("h"), "ip"), "n");
    assert_eq!(probe_label(Some(""), Some("h"), "ip"), "h");
    assert_eq!(probe_label(None, None, "ip"), "ip");
    assert_eq!(host_name(" box-1\n"), Some(String::from("box-1")));
    assert_eq!(host_name(" \n"), None);
    assert_eq!(audit_identity(None, None), (String::from("unknown"), String::from("unknown")));
    assert_eq!(audit_identity(Some(""), None), (String::new(), String::new()));
    assert_eq!(audit_identity(Some("1.2.3.4"), Some("n")), (String::from("1.2.3.4"), String::from("n")));
}

#[test]
fn corroborate_line() {
    let r = CorroRow {
        target: String::from("gh"),
        input: String::from("https://github.com"),
        ref_anomaly: String::from("False"),
        blocking_type: String::new(),
        last_measurement: String::from("t"),
        probe_count: 10,
        local_https: String::from("-"),
    };
    assert_eq!(corro_line(&r), "CORRO:gh,https://github.com,False,,t,10");
}

#[test]
fn batches_of_the_fleet() {
    assert_eq!(batch_width(0, 0), 1);
    assert_eq!(batch_width(0, 7), 7);
    assert_eq!(batch_width(4, 7), 4);
    assert_eq!(batch_end(0, 4, 7), 4);
    assert_eq!(batch_end(4, 4, 7), 7);
    assert_eq!(batch_end(4, usize::MAX, 7), 7);
    let mut starts = Vec::new();
    let mut start = 0;
    let w = batch_width(3, 8);
    while start < 8 {
        let end = batch_end(start, w, 8);
        starts.push((start, end));
        start = end;
    }
    assert_eq!(starts, vec![(0, 3), (3, 6), (6, 8)]);
}

#[test]
fn relayed_output() {
    let out = "PROBE_IP=1.2.3.4 NAME=a\nnoise\ntarget,x,1,2,3,4,5,6,7,8\nAUDIT:1|2\n# remote-stderr: boom\n";
    let lines = relay_lines(1, "1.2.3.4", out);
    assert_eq!(
        lines,
        vec![
            "[2] 1.2.3.4 -> PROBE_IP=1.2.3.4 NAME=a",
            "[2] 1.2.3.4 -> target,x,1,2,3,4,5,6,7,8",
            "[2] 1.2.3.4 -> AUDIT:1|2",
            "[2] 1.2.3.4 -> # remote-stderr: boom",
        ]
    );
    assert_eq!(error_line(0, "1.2.3.4", "scp failed"), "[1] 1.2.3.4 — error: scp failed");
    assert_eq!(server_block(&lines[..2]), "[2] 1.2.3.4 -> PROBE_IP=1.2.3.4 NAME=a\n[2] 1.2.3.4 -> target,x,1,2,3,4,5,6,7,8");
    assert_eq!(server_block(&[]), "");
}

#[test]
fn run_all_texts() {
    assert_eq!(
        run_all_banner(3, 10),
        "=== field-monitor run-all: 3 servers (rate-limit 10s/target, max 4 in parallel) ==="
    );
    assert_eq!(bin_for_arch(" aarch64\n", "/usr/bin/fm"), "target/aarch64-unknown-linux-gnu/release/field-monitor");
    assert_eq!(bin_for_arch("x86_64", "/usr/bin/fm"), "/usr/bin/fm");
    assert_eq!(scp_failure("exit status: 1", " denied \n"), "scp failed (exit status: 1): denied");
    assert_eq!(ssh_failure("probe", "exit status: 255", ""), "ssh probe failed (exit status: 255): ");
}

#[test]
fn relayed_probe_line_reads_like_the_line() {
    let line = "target,github.com,93.184.216.34,12,200,45,open,30,ok,20,0,1753000000";
    let relayed = relay_lines(6, "203.0.113.5", line);
    assert_eq!(relayed.len(), 1);
    let direct = parse_probe_line(line, "s", "l").expect("a probe line");
    let via = parse_probe_line(&relayed[0], "s", "l").expect("still a probe line");
    assert_eq!(via.target, direct.target);
    assert_eq!(via.https_ms, direct.https_ms);
    assert_eq!(via.ts, direct.ts);
    assert!(relayed[0].starts_with("[7] 203.0.113.5 -> target,"));
}

#[test]
fn probe_output_reads_back_through_the_log_reader() {
    let mk = |target: &str, code: Option<u16>, tcp: &str| ProbeRow {
        server: String::from("elsewhere"),
        label: String::from("other"),
        target: String::from(target),
        dns_ip: String::from("1.2.3.4"),
        dns_ms: Some(9),
        https_code: code,
        https_ms: Some(70000),
        tcp: String::from(tcp),
        tcp_ms: None,
        icmp: String::from("-"),
        icmp_ms: None,
        sane: true,
        partial: true,
        ts: 99,
    };
    let rows = vec![mk("apple", Some(200), "open"), mk("icloud", None, "closed")];
    let mut text = probe_banner("203.0.113.5", "edge-1");
    for r in &rows {
        text.push('\n');
        text.push_str(&emit_probe_row(r));
    }
    let back = field_monitor::aggregate::parse_probe_log(&text);
    assert_eq!(back.len(), 2);
    for (b, r) in back.iter().zip(rows.iter()) {
        assert_eq!(b.server, "203.0.113.5");
        assert_eq!(b.label, "edge-1");
        assert_eq!(b.target, r.target);
        assert_eq!(b.https_code, r.https_code);
        assert_eq!(b.https_ms, r.https_ms);
        assert_eq!(b.tcp, r.tcp);
        assert!(!b.sane, "a latency of 70000 ms is not sane");
        assert_eq!(b.partial, r.partial);
        assert_eq!(b.ts, r.ts);
    }
}

#[test]
fn unicode_whitespace_is_trimmed() {
    assert_eq!(host_name("\u{3000}box\u{200B}\u{85}"), Some(String::from("box\u{200B}")));
    assert_eq!(host_name("\u{2028}\u{A0}\t"), None);
}

#[test]
fn probe_command_output_reads_back() {
    let r = ProbeRow {
        server: String::from("x"),
        label: String::from("y"),
        target: String::from("github.com"),
        dns_ip: String::from("140.82.121.3"),
        dns_ms: Some(7),
        https_code: Some(200),
        https_ms: Some(80),
        tcp: String::from("open"),
        tcp_ms: Some(30),
        icmp: String::from("-"),
        icmp_ms: None,
        sane: true,
        partial: false,
        ts: 1753000000,
    };
    let out = probe_stdout("203.0.113.5", "edge-1", &[r]);
    assert_eq!(
        out,
        "PROBE_IP=203.0.113.5 NAME=edge-1\ntarget,github.com,140.82.121.3,7,200,80,open,30,-,-,0,1753000000\n"
    );
    let back = field_monitor::aggregate::parse_probe_log(&out);
    assert_eq!(back.len(), 1);
    assert_eq!(back[0].server, "203.0.113.5");
    assert_eq!(back[0].ts, 1753000000);
    assert_eq!(probe_stdout("a", "b", &[]), "PROBE_IP=a NAME=b\n");
}
