use field_monitor::model::Target;
use field_monitor::probe::{
    curl_args, dig_args, dns_timeout, elapsed_ms, https_timeout, is_dotted_quad, parse_curl_code,
    parse_dig_output, pick_public_ip, ping_count, probe_row, run, tcp_state, tcp_timeout_secs,
    ProbeOutcomes,
};

fn target(name: &str, host: &str, url: &str, ip: &str) -> Target {
    Target {
        name: String::from(name),
        host: String::from(host),
        url: String::from(url),
        ip: String::from(ip),
    }
}

fn outcomes() -> ProbeOutcomes {
    ProbeOutcomes {
        dns: Some((String::from("93.184.216.34"), 7)),
        https: Some((200, 45)),
        tcp: (String::from("open"), Some(30)),
        icmp: (String::from("ok"), Some(20)),
        ts: 77,
    }
}

#[test]
fn parse_curl_code_parses_valid() {
    assert_eq!(parse_curl_code("200"), 200);
    assert_eq!(parse_curl_code("404"), 404);
}

#[test]
fn parse_curl_code_handles_invalid() {
    assert_eq!(parse_curl_code("not_a_code"), 0);
    assert_eq!(parse_curl_code(""), 0);
}

#[test]
fn parse_curl_code_trims_and_bounds() {
    assert_eq!(parse_curl_code(" 301\n"), 301);
    assert_eq!(parse_curl_code("65535"), 65535);
    assert_eq!(parse_curl_code("65536"), 0);
    assert_eq!(parse_curl_code("-1"), 0);
}

#[test]
fn dig_output_takes_first_address_line() {
    assert_eq!(parse_dig_output("93.184.216.34\n"), Some(String::from("93.184.216.34")));
    assert_eq!(
        parse_dig_output("cdn.example.net.\n1.2.3.4\n5.6.7.8\n"),
        Some(String::from("1.2.3.4"))
    );
    assert_eq!(parse_dig_output("1.2.3.256\n1.2.3\n"), None);
    assert_eq!(parse_dig_output(""), None);
}

#[test]
fn dotted_quad_needs_four_bytes() {
    let c = |s: &str| s.chars().collect::<Vec<char>>();
    assert!(is_dotted_quad(&c("0.0.0.0")));
    assert!(is_dotted_quad(&c("255.255.255.255")));
    assert!(!is_dotted_quad(&c("255.255.255.256")));
    assert!(!is_dotted_quad(&c("1.2.3.4.5")));
    assert!(!is_dotted_quad(&c("1..3.4")));
}

#[test]
fn public_ip_prefers_valid_external_answer() {
    assert_eq!(pick_public_ip(Some(" 203.0.113.5\n"), Some("10.0.0.1 fe80::1")), Some(String::from("203.0.113.5")));
    assert_eq!(pick_public_ip(Some("<html>"), Some("10.0.0.1 fe80::1\n")), Some(String::from("10.0.0.1")));
    assert_eq!(pick_public_ip(None, Some("fe80::1 10.0.0.1")), None);
    assert_eq!(pick_public_ip(None, None), None);
}

#[test]
fn command_arguments() {
    assert_eq!(dig_args("example.com", "3"), vec!["+short", "+time=3", "+tries=1", "example.com"]);
    assert_eq!(
        curl_args("https://example.com", "8"),
        vec!["-s", "-o", "/dev/null", "-w", "%{http_code}", "--max-time", "8", "https://example.com"]
    );
}

#[test]
fn settings_and_small_helpers() {
    assert_eq!(dns_timeout(None), "3");
    assert_eq!(dns_timeout(Some("5")), "5");
    assert_eq!(ping_count(None), "3");
    assert_eq!(tcp_timeout_secs("12"), 12);
    assert_eq!(tcp_timeout_secs("soon"), 8);
    assert_eq!(elapsed_ms(100, 250), 150);
    assert_eq!(elapsed_ms(250, 100), 0);
    assert_eq!(tcp_state(true), "open");
    assert_eq!(tcp_state(false), "closed");
}

#[test]
fn row_of_a_host_target_with_lookup() {
    let t = target("t", "example.com", "https://example.com", "");
    let r = probe_row("lbl", "203.0.113.5", &t, &outcomes());
    assert!(!r.partial, "measured row is not partial");
    assert_eq!(r.dns_ip, "93.184.216.34");
    assert_eq!(r.dns_ms, Some(7));
    assert_eq!(r.https_code, Some(200));
    assert_eq!(r.tcp, "open");
    assert_eq!(r.icmp, "-");
    assert_eq!(r.icmp_ms, None);
    assert_eq!(r.server, "203.0.113.5");
    assert_eq!(r.label, "lbl");
    assert_eq!(r.ts, 77);
    assert!(r.sane);
}

#[test]
fn row_of_an_address_target_and_failures() {
    let t = target("dns", "", "", "1.1.1.1");
    let r = probe_row("lbl", "ip", &t, &outcomes());
    assert_eq!(r.dns_ip, "1.1.1.1");
    assert_eq!(r.dns_ms, Some(0));
    assert_eq!(r.https_code, None);
    assert_eq!(r.tcp, "-");
    assert_eq!(r.icmp, "ok");
    let failed = ProbeOutcomes {
        dns: None,
        https: None,
        tcp: (String::from("closed"), None),
        icmp: (String::from("fail"), None),
        ts: 0,
    };
    let t = target("t", "example.com", "https://example.com", "");
    let r = probe_row("lbl", "ip", &t, &failed);
    assert_eq!(r.dns_ip, "-");
    assert_eq!(r.https_code, Some(0));
    assert_eq!(r.https_ms, None);
    assert_eq!(r.tcp, "closed");
    assert!(r.partial);
}

#[test]
fn run_skips_unsafe_targets() {
    let targets = vec![
        target("a", "a.example", "https://a.example", ""),
        target("bad target", "b;rm", "", ""),
        target("c", "", "", "9.9.9.9"),
    ];
    let outs = vec![Some(outcomes()), None, Some(outcomes())];
    let rows = run("lbl", "ip", &targets, &[false, false, true], &outs);
    assert_eq!(rows.len(), 2);
    assert_eq!(rows[0].target, "a");
    assert_eq!(rows[1].target, "c");
    assert_eq!(rows[1].dns_ip, "9.9.9.9");
}

#[test]
fn dns_resolve_parses_mock_output() {
    // the lookup `dig +short +time=3 +tries=1 example.com`, answered by an address
    assert_eq!(
        dig_args("example.com", &dns_timeout(None)),
        vec!["+short", "+time=3", "+tries=1", "example.com"]
    );
    let got = parse_dig_output("93.184.216.34\n");
    assert_eq!(got, Some("93.184.216.34".to_string()));
}

#[test]
fn https_check_parses_mock_code() {
    assert_eq!(
        curl_args("https://example.com", &https_timeout(None)),
        vec!["-s", "-o", "/dev/null", "-w", "%{http_code}", "--max-time", "8", "https://example.com"]
    );
    assert_eq!(parse_curl_code("200"), 200);
}

#[test]
fn run_with_mock_marks_not_partial_when_measured() {
    let targets = vec![Target {
        name: "t".into(),
        host: "example.com".into(),
        url: "https://example.com".into(),
        ip: "".into(),
    }];
    let measured = ProbeOutcomes {
        dns: parse_dig_output("93.184.216.34\n").map(|ip| (ip, 4)),
        https: Some((parse_curl_code("200"), 51)),
        tcp: (tcp_state(true), Some(12)),
        icmp: (String::new(), None),
        ts: 1753000000,
    };
    let rows = run("lbl", "203.0.113.5", &targets, &[false], &[Some(measured)]);
    assert_eq!(rows.len(), 1);
    assert!(!rows[0].partial, "measured row is not partial");
    assert_eq!(rows[0].dns_ip, "93.184.216.34");
    assert_eq!(rows[0].https_code, Some(200));
    assert_eq!(rows[0].ts, 1753000000);
}

#[test]
fn run_refuses_unsafe_target_even_with_outcomes() {
    let targets = vec![target("a,b", "example.com", "", ""), target("ok", "example.com", "", "")];
    let rows = run("lbl", "ip", &targets, &[false, false], &[Some(outcomes()), Some(outcomes())]);
    assert_eq!(rows.len(), 1);
    assert_eq!(rows[0].target, "ok");
    // an address that does not parse refuses the target
    let targets = vec![target("r", "", "", "9.9.9.9")];
    assert!(run("lbl", "ip", &targets, &[false], &[Some(outcomes())]).is_empty());
}
