use field_monitor::report::{
    arg_value, build_fail_table, build_timeline, checklist_text, csv_rows, fill_template,
    nonempty_lines, numbered_list, parse_cli_args, render_report, replace_all, required_arg,
    server_table,
};

fn strings(xs: &[&str]) -> Vec<String> {
    xs.iter().map(|x| String::from(*x)).collect()
}

fn snapshots() -> Vec<Vec<String>> {
    let lines = nonempty_lines(
        "2026-07-22,01,vp-01,apple,OK\n2026-07-22,01,vp-01,icloud,OK\n2026-07-22,02,vp-01,apple,SLOW\n2026-07-23,03,vp-02,apple,OK\n",
    );
    csv_rows(&lines)
}

fn anomalies() -> Vec<Vec<String>> {
    let lines = nonempty_lines("2026-07-22,01,vp-01,apple,HTTPS_FAIL\n2026-07-22,01,vp-01,apple,HIGH_LATENCY\n");
    csv_rows(&lines)
}

#[test]
fn timeline_groups_by_day_and_hour() {
    let t = build_timeline(&snapshots());
    let expected = "| Generated (UTC) | vps | apple OK | icloud OK | Статус / интерпретация |\n\
|-----------------|----:|---------:|----------:|------------------------|\n\
| 07-22 01:00 | 1 | 1 | 1 | CLEAR |\n\
| 07-22 02:00 | 1 | 0 | 0 | SLOW/FAIL |\n\
| 07-23 03:00 | 1 | 1 | 0 | CLEAR |\n";
    assert_eq!(t, expected);
}

#[test]
fn timeline_counts_distinct_servers_and_sorts_slots() {
    let rows = csv_rows(&strings(&[
        "2026-07-23,10,b,apple,OK",
        "2026-07-22,11,a,icloud,FAIL",
        "2026-07-23,10,a,apple,OK",
        "2026-07-23,10,b,icloud",
        "short,row,only",
        "2026-07-22,11,a,apple,OK,extra",
    ]));
    let t = build_timeline(&rows);
    assert!(t.ends_with("| 07-22 11:00 | 1 | 1 | 0 | CLEAR |\n| 07-23 10:00 | 2 | 2 | 0 | CLEAR |\n"));
}

#[test]
fn fail_tables_per_target() {
    assert_eq!(build_fail_table(&anomalies(), "apple"), "| vp-01 | 1 | 1 |\n");
    assert_eq!(build_fail_table(&anomalies(), "icloud"), "");
    let rows = csv_rows(&strings(&["d,h,z,apple,FAIL", "d,h,a,apple,", "d,h,z,apple,LATENCY_FAIL", "d,h,a,icloud,FAIL"]));
    assert_eq!(build_fail_table(&rows, "apple"), "| a | 0 | 0 |\n| z | 2 | 1 |\n");
}

#[test]
fn server_map_redacts_addresses() {
    let t = server_table();
    assert!(t.starts_with("| ruvds-x7yuy | Владивосток | RUVDS | [REDACTED] |\n"));
    assert!(t.ends_with("| ruvds-ow0uq | Новосибирск | RUVDS | [REDACTED] |\n"));
    assert_eq!(t.lines().count(), 12);
}

#[test]
fn command_line_pairs() {
    let args = strings(&["--title", "T", "stray", "--flag", "--title", "T2", "--empty"]);
    let pairs = parse_cli_args(&args);
    assert_eq!(
        pairs,
        vec![
            (String::from("title"), String::from("T")),
            (String::from("flag"), String::new()),
            (String::from("title"), String::from("T2")),
            (String::from("empty"), String::new()),
        ]
    );
    assert_eq!(arg_value(&pairs, "title"), Some(String::from("T2")));
    assert_eq!(arg_value(&pairs, "nope"), None);
    assert_eq!(required_arg(&pairs, "empty"), None);
    assert_eq!(required_arg(&pairs, "title"), Some(String::from("T2")));
}

#[test]
fn lines_lists_and_replacement() {
    assert_eq!(nonempty_lines("a  \n\n  \nb\r\n"), strings(&["a", "b"]));
    assert_eq!(numbered_list(&strings(&["one", "two"])), "1. one\n2. two");
    assert_eq!(numbered_list(&[]), "");
    assert_eq!(checklist_text(&strings(&["q"])), "- [ ] q");
    let c = |s: &str| s.chars().collect::<Vec<char>>();
    assert_eq!(replace_all(&c("a{{X}}b{{X}}{{X"), &c("{{X}}"), &c("1")), c("a1b1{{X"));
    assert_eq!(replace_all(&c("aaa"), &c("aa"), &c("b")), c("ba"));
    let reps = vec![(String::from("{{A}}"), String::from("{{B}}")), (String::from("{{B}}"), String::from("x"))];
    assert_eq!(fill_template("{{A}} {{B}}", &reps), "x x");
}

fn full_args() -> Vec<(String, String)> {
    parse_cli_args(&strings(&[
        "--title", "Test Report", "--created", "2026-07-24", "--heading", "Test Heading",
        "--current-ts", "01.01 00:00Z", "--empty-reason", "test reason", "--geo-notes", "test geo",
        "--current-state", "test state", "--raw-blocked", "| EXAMPLE |", "--raw-ok", "| apple |",
        "--raw-tail", "(tail)",
    ]))
}

#[test]
fn report_fills_every_placeholder() {
    let template = "# {{HEADING}}\n{{TITLE}} {{CREATED}}\n{{TIMELINE_TABLE}}[{{EMPTY_HOURS}}] {{EMPTY_REASON}}\n| Сервер (label) |\n{{SERVER_TABLE}}{{APPLE_FAIL_TABLE}}{{ICLOUD_FAIL_TABLE}}{{GEO_NOTES}}\n{{FACTS}}\n{{OPEN_QUESTIONS}}\n{{CURRENT_STATE}} {{CURRENT_TS}} {{RAW_BLOCKED_EXAMPLE}} {{RAW_OK_EXAMPLE}} {{RAW_TAIL_EXAMPLE}}";
    let snaps = nonempty_lines("2026-07-22,01,vp-01,apple,OK\n");
    let anoms = nonempty_lines("2026-07-22,01,vp-01,apple,HTTPS_FAIL\n");
    let facts = nonempty_lines("Example fact one\nExample fact two\n");
    let oq = nonempty_lines("Example question one\n");
    let out = render_report(&full_args(), template, &snaps, &anoms, &facts, &oq).expect("all options given");
    assert!(!out.contains("{{"), "unfilled placeholder left in output:\n{}", out);
    assert!(out.starts_with("# Test Heading\nTest Report 2026-07-24\n| Generated (UTC)"));
    assert!(out.contains("| 07-22 01:00 | 1 | 1 | 0 | CLEAR |\n[] test reason\n"));
    assert!(out.contains("| Сервер (label)"));
    assert!(out.contains("| vp-01 | 1 | 0 |\ntest geo\n1. Example fact one\n2. Example fact two\n- [ ] Example question one\n"));
    assert!(out.ends_with("test state 01.01 00:00Z | EXAMPLE | | apple | (tail)"));
}

#[test]
fn report_names_first_missing_option() {
    let mut args = full_args();
    args.retain(|(k, _)| k != "heading" && k != "raw-tail");
    let r = render_report(&args, "", &[], &[], &[], &[]);
    assert_eq!(r, Err(String::from("heading")));
    let mut args = full_args();
    args.push((String::from("created"), String::new()));
    let r = render_report(&args, "", &[], &[], &[], &[]);
    assert_eq!(r, Err(String::from("created")));
}
