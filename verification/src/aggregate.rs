//! Aggregation of the logs of all vantage points: parsing, the anomaly
//! rules, and the text of the summary and the markdown report.

use vstd::prelude::*;

use crate::logfmt::{
    audit_line, audit_prefix, code_string, code_text, dash, fnum, fnum_text, parse_probe_spec,
};
use crate::model::{Anomaly, AnomalyView, AuditRow, ProbeRow, ProbeRowView, ServerInfo, Summary};
use crate::text::{
    chars_equal, chars_of, contains, decimal, find_chars, first_index_table, first_indices, free_of,
    has_prefix, is_char, join, join_pieces, join_strings, lemma_join_split, lemma_split_join,
    lemma_split_where_concat, lines, lines_of, push_char, push_decimal, push_str, second_piece,
    second_piece_chars, seq_lt, slice_chars, split_chars, split_on, starts_with, str_views,
    string_from_chars, strip_all_prefix, strip_all_prefix_chars, table_of, trim, trim_chars, views,
    words, words_of,
};

verus! {

/// The eleven audit fields of a line: after `AUDIT:`, the first ten pieces
/// between `|`, and the rest (which may itself hold `|`) as the eleventh.
pub open spec fn audit_fields_of(line: Seq<char>) -> Option<Seq<Seq<char>>> {
    if starts_with(line, audit_prefix()) {
        let p = split_on(line.skip(6), '|');
        if p.len() >= 11 {
            Some(p.take(10).push(join(p.skip(10), seq!['|'])))
        } else {
            None
        }
    } else {
        None
    }
}

/// Parses an `AUDIT:` line; `None` when it is not one or has fewer than
/// eleven `|`-separated fields. The last field (`ports`) keeps any `|`.
pub fn parse_audit_line(line: &str) -> (r: Option<AuditRow>)
    ensures
        match r {
            Some(a) => audit_fields_of(line@) == Some(a@),
            None => audit_fields_of(line@) is None,
        },
{
    let cs = chars_of(line);
    let prefix = chars_of("AUDIT:");
    proof {
        reveal_strlit("AUDIT:");
    }
    assert(prefix@ =~= audit_prefix());
    if !has_prefix(cs.as_slice(), prefix.as_slice()) {
        return None;
    }
    let rest = slice_chars(cs.as_slice(), 6, cs.len());
    assert(rest@ =~= line@.skip(6));
    let p = split_chars(rest.as_slice(), '|');
    if p.len() < 11 {
        return None;
    }
    let ports = join_pieces(p.as_slice(), 10, '|');
    let a = AuditRow {
        ip: string_from_chars(p[0].as_slice()),
        name: string_from_chars(p[1].as_slice()),
        sudo_nopass: string_from_chars(p[2].as_slice()),
        os: string_from_chars(p[3].as_slice()),
        ssh_port: string_from_chars(p[4].as_slice()),
        ssh_pw: string_from_chars(p[5].as_slice()),
        ssh_root: string_from_chars(p[6].as_slice()),
        ufw: string_from_chars(p[7].as_slice()),
        fail2ban: string_from_chars(p[8].as_slice()),
        docker: string_from_chars(p[9].as_slice()),
        ports: string_from_chars(ports.as_slice()),
    };
    let ghost pv = views(p@);
    assert(a@ =~= pv.take(10).push(join(pv.skip(10), seq!['|'])));
    Some(a)
}

/// Law (write, then read back): the line that `emit_audit_line` writes for
/// a row reads back, through `parse_audit_line`, as the same eleven fields,
/// provided none of the first ten holds a `|` (the ports field may).
pub proof fn law_audit_line_round_trip(fields: Seq<Seq<char>>)
    requires
        fields.len() == 11,
        forall|i: int| 0 <= i < 10 ==> free_of(#[trigger] fields[i], '|'),
    ensures
        audit_fields_of(audit_line(fields)) == Some(fields),
{
    let line = audit_line(fields);
    let first = fields.take(10);
    let ports = fields[10];
    assert(fields.drop_last() == first);
    assert(join(fields, seq!['|']) == join(first, seq!['|']) + seq!['|'] + ports);
    assert(line.take(6) =~= audit_prefix());
    assert(line.skip(6) =~= join(fields, seq!['|']));
    assert forall|i: int| 0 <= i < first.len() implies free_of(#[trigger] first[i], '|') by {
        assert(first[i] == fields[i]);
    }
    lemma_split_join(first, '|');
    lemma_split_where_concat(join(first, seq!['|']), '|', ports, is_char('|'));
    let p = split_on(line.skip(6), '|');
    assert(p == first + split_on(ports, '|'));
    crate::text::lemma_split_where_len(ports, is_char('|'));
    assert(p.take(10) =~= first);
    assert(p.skip(10) =~= split_on(ports, '|'));
    lemma_join_split(ports, '|');
    assert(first.push(ports) =~= fields);
}

} // verus!

verus! {

/// The views of a sequence of probe rows.
pub open spec fn row_views(rows: Seq<ProbeRow>) -> Seq<ProbeRowView> {
    rows.map_values(|r: ProbeRow| r@)
}

pub open spec fn anomaly_views(a: Seq<Anomaly>) -> Seq<AnomalyView> {
    a.map_values(|x: Anomaly| x@)
}

pub open spec fn server_views(s: Seq<ServerInfo>) -> Seq<(Seq<char>, Seq<char>)> {
    s.map_values(|x: ServerInfo| x@)
}

pub open spec fn server_keys(rows: Seq<ProbeRowView>) -> Seq<Seq<char>> {
    rows.map_values(|r: ProbeRowView| r.server)
}

/// `open`, the TCP state of a reachable port.
pub open spec fn open_word() -> Seq<char> {
    seq!['o', 'p', 'e', 'n']
}

/// A TCP state that is neither `open`, nor `-` (not checked), nor empty.
pub open spec fn tcp_failed(t: Seq<char>) -> bool {
    t != open_word() && t != dash() && t.len() > 0
}

/// A latency above 2000 ms.
pub open spec fn over_2s(v: Option<u64>) -> bool {
    match v {
        Some(m) => m > 2000,
        None => false,
    }
}

/// An HTTPS status other than 200.
pub open spec fn code_not_ok(v: Option<u16>) -> bool {
    match v {
        Some(c) => c != 200,
        None => false,
    }
}

/// The anomaly rules: a sane row with HTTPS status other than 200, HTTPS,
/// DNS or TCP latency above 2000 ms, or a failed TCP check.
pub open spec fn is_anomalous(r: ProbeRowView) -> bool {
    r.sane && (code_not_ok(r.https_code) || over_2s(r.https_ms) || over_2s(r.dns_ms) || over_2s(
        r.tcp_ms,
    ) || tcp_failed(r.tcp))
}

/// The start of the last hour before `now` (0 if `now` is within the first hour).
pub open spec fn cutoff(now: u64) -> u64 {
    if now >= 3600 {
        (now - 3600) as u64
    } else {
        0
    }
}

/// A row counts for anomalies when it has no timestamp (older agents) or
/// was measured at or after the cutoff.
pub open spec fn in_window(r: ProbeRowView, from: u64) -> bool {
    r.ts == 0 || r.ts >= from
}

pub open spec fn flagged(from: u64) -> spec_fn(ProbeRowView) -> bool {
    |r: ProbeRowView| in_window(r, from) && is_anomalous(r)
}

/// The anomaly that a row gives.
pub open spec fn anomaly_of(r: ProbeRowView) -> AnomalyView {
    AnomalyView {
        ip: r.server,
        label: r.label,
        target: r.target,
        https_code: r.https_code,
        https_ms: r.https_ms,
        tcp: r.tcp,
    }
}

/// The anomalies of the rows measured since `from`, in row order.
pub open spec fn anomalies_since(rows: Seq<ProbeRowView>, from: u64) -> Seq<AnomalyView> {
    rows.filter(flagged(from)).map_values(|r: ProbeRowView| anomaly_of(r))
}

/// The distinct servers of the rows, sorted by address, each with the label
/// of the first row that names it.
pub open spec fn servers_of(rows: Seq<ProbeRowView>) -> Seq<(Seq<char>, Seq<char>)> {
    table_of(server_keys(rows)).map_values(|j: usize| (rows[j as int].server, rows[j as int].label))
}

/// What `summarize` gives for the clock reading `now`.
pub open spec fn summary_of(rows: Seq<ProbeRowView>, now: u64, s: Summary) -> bool {
    &&& row_views(s.rows@) == rows
    &&& server_views(s.servers@) == servers_of(rows)
    &&& s.n_points == s.servers@.len()
    &&& anomaly_views(s.anomalies@) == anomalies_since(rows, cutoff(now))
}

/// The addresses of a server list.
pub open spec fn addresses(servers: Seq<(Seq<char>, Seq<char>)>) -> Seq<Seq<char>> {
    servers.map_values(|s: (Seq<char>, Seq<char>)| s.0)
}

/// Each vantage point of the rows is listed, once: every row's server is
/// among the listed addresses, and the addresses are in strictly increasing
/// order.
pub open spec fn each_server_once(rows: Seq<ProbeRowView>, servers: Seq<(Seq<char>, Seq<char>)>) -> bool {
    &&& forall|k: int| 0 <= k < rows.len() ==> addresses(servers).contains(#[trigger] rows[k].server)
    &&& forall|i: int, j: int|
        0 <= i < j < servers.len() ==> seq_lt((#[trigger] servers[i]).0, (#[trigger] servers[j]).0)
}

/// The server list of a table of first rows lists each server once.
proof fn lemma_servers_once(rows: Seq<ProbeRowView>, idx: Seq<usize>)
    requires
        first_index_table(server_keys(rows), idx),
    ensures
        each_server_once(rows, servers_of(rows)),
{
    let keys = server_keys(rows);
    crate::text::lemma_table_of(keys, idx);
    let sv = servers_of(rows);
    assert forall|k: int| 0 <= k < rows.len() implies addresses(sv).contains(
        #[trigger] rows[k].server,
    ) by {
        assert(keys[k] == rows[k].server);
        let i = choose|i: int| 0 <= i < idx.len() && keys[#[trigger] idx[i] as int] == #[trigger] keys[k];
        assert(addresses(sv)[i] == rows[idx[i] as int].server);
    }
    assert forall|i: int, j: int| 0 <= i < j < sv.len() implies seq_lt(
        (#[trigger] sv[i]).0,
        (#[trigger] sv[j]).0,
    ) by {
        assert(seq_lt(keys[idx[i] as int], keys[idx[j] as int]));
    }
}

/// Whether a row breaks one of the anomaly rules.
pub fn row_is_anomalous(r: &ProbeRow) -> (b: bool)
    ensures
        b == is_anomalous(r@),
{
    let code_bad = match r.https_code {
        Some(c) => c != 200,
        None => false,
    };
    let https_slow = match r.https_ms {
        Some(m) => m > 2000,
        None => false,
    };
    let dns_slow = match r.dns_ms {
        Some(m) => m > 2000,
        None => false,
    };
    let tcp_slow = match r.tcp_ms {
        Some(m) => m > 2000,
        None => false,
    };
    let tcp = chars_of(r.tcp.as_str());
    let open = chars_of("open");
    let dash_word = chars_of("-");
    proof {
        reveal_strlit("open");
        reveal_strlit("-");
    }
    assert(open@ =~= open_word());
    assert(dash_word@ =~= dash());
    let tcp_bad = !chars_equal(tcp.as_slice(), open.as_slice()) && !chars_equal(
        tcp.as_slice(),
        dash_word.as_slice(),
    ) && tcp.len() > 0;
    r.sane && (code_bad || https_slow || dns_slow || tcp_slow || tcp_bad)
}

/// Aggregates rows into a `Summary` for the clock reading `now` (seconds
/// since the Unix epoch): the distinct servers, the rows themselves, and
/// the anomalies of the last hour (rows without a timestamp always count).
pub fn summarize_at(rows: Vec<ProbeRow>, now: u64) -> (s: Summary)
    ensures
        summary_of(row_views(rows@), now, s),
        each_server_once(row_views(rows@), server_views(s.servers@)),
{
    let from: u64 = if now >= 3600 { now - 3600 } else { 0 };
    let ghost rv = row_views(rows@);
    let n = rows.len();
    // Distinct servers, first label of each, sorted by address.
    let mut keys: Vec<Vec<char>> = Vec::new();
    for i in 0..n
        invariant
            n == rows@.len(),
            rv == row_views(rows@),
            views(keys@) == server_keys(rv).take(i as int),
    {
        let ghost old_keys = keys@;
        assert(rv[i as int] == rows@[i as int]@);
        let key = chars_of(rows[i].server.as_str());
        keys.push(key);
        assert(views(keys@) =~= views(old_keys).push(rv[i as int].server));
        assert(server_keys(rv).take(i + 1) =~= server_keys(rv).take(i as int).push(rv[i as int].server));
    }
    assert(server_keys(rv).take(n as int) =~= server_keys(rv));
    let idx = first_indices(keys.as_slice());
    let mut servers: Vec<ServerInfo> = Vec::new();
    let m = idx.len();
    for i in 0..m
        invariant
            m == idx@.len(),
            n == rows@.len(),
            rv == row_views(rows@),
            first_index_table(server_keys(rv), idx@),
            servers@.len() == i,
            forall|j: int|
                0 <= j < i ==> #[trigger] server_views(servers@)[j] == (
                    rv[idx@[j] as int].server,
                    rv[idx@[j] as int].label,
                ),
    {
        assert(idx@[i as int] < n);
        let r = &rows[idx[i]];
        let ghost old_servers = servers@;
        servers.push(ServerInfo { ip: r.server.clone(), label: r.label.clone() });
        assert forall|j: int| 0 <= j < i + 1 implies #[trigger] server_views(servers@)[j] == (
            rv[idx@[j] as int].server,
            rv[idx@[j] as int].label,
        ) by {
            if j < i {
                assert(server_views(servers@)[j] == server_views(old_servers)[j]);
            }
        }
    }
    assert(server_views(servers@) =~= servers_of(rv));
    proof {
        lemma_servers_once(rv, idx@);
    }
    // Anomalies of the window, in row order.
    let ghost pred = flagged(from);
    let mut anomalies: Vec<Anomaly> = Vec::new();
    for i in 0..n
        invariant
            n == rows@.len(),
            rv == row_views(rows@),
            pred == flagged(from),
            anomaly_views(anomalies@) == rv.take(i as int).filter(pred).map_values(
                |r: ProbeRowView| anomaly_of(r),
            ),
    {
        let r = &rows[i];
        let ghost old_an = anomalies@;
        assert(rv.take(i + 1) =~= rv.take(i as int).push(rv[i as int]));
        proof {
            rv.take(i as int).lemma_filter_push(rv[i as int], pred);
        }
        let in_win = r.ts == 0 || r.ts >= from;
        if in_win && row_is_anomalous(r) {
            anomalies.push(
                Anomaly {
                    ip: r.server.clone(),
                    label: r.label.clone(),
                    target: r.target.clone(),
                    https_code: r.https_code,
                    https_ms: r.https_ms,
                    tcp: r.tcp.clone(),
                },
            );
            assert(anomaly_views(anomalies@) =~= anomaly_views(old_an).push(anomaly_of(rv[i as int])));
        }
        assert(anomaly_views(anomalies@) =~= rv.take(i + 1).filter(pred).map_values(
            |r: ProbeRowView| anomaly_of(r),
        ));
    }
    assert(rv.take(n as int) =~= rv);
    let count = servers.len();
    Summary { n_points: count, servers: servers, rows: rows, anomalies: anomalies }
}

/// The system clock's time, `std::time::SystemTime`.
#[verifier::external_type_specification]
#[verifier::external_body]
pub struct ExSystemTime(std::time::SystemTime);

/// Wraps `SystemTime::now`: the current time of the system clock; nothing
/// is stated of it.
#[verifier::external_body]
fn clock_now() -> std::time::SystemTime {
    std::time::SystemTime::now()
}

/// Wraps `SystemTime::duration_since(UNIX_EPOCH)`: how long after the Unix
/// epoch `t` is, `None` when it is before it; nothing is stated of it.
#[verifier::external_body]
fn since_epoch(t: &std::time::SystemTime) -> Option<std::time::Duration> {
    t.duration_since(std::time::UNIX_EPOCH).ok()
}

/// Wraps `Duration::as_secs`: the whole seconds of `d`; nothing is stated of
/// them.
#[verifier::external_body]
fn whole_secs(d: &std::time::Duration) -> u64 {
    d.as_secs()
}

/// Seconds since the Unix epoch by the system clock, or 0 when the clock is
/// set before the epoch.
fn unix_time_secs() -> u64 {
    match since_epoch(&clock_now()) {
        Some(d) => whole_secs(&d),
        None => 0,
    }
}

/// Aggregates rows into a `Summary` with the anomalies of the last hour by
/// the system clock (see `summarize_at`).
pub fn summarize(rows: Vec<ProbeRow>) -> (s: Summary)
    ensures
        exists|now: u64| summary_of(row_views(rows@), now, s),
        each_server_once(row_views(rows@), server_views(s.servers@)),
{
    let now = unix_time_secs();
    summarize_at(rows, now)
}

} // verus!

verus! {

/// `PROBE_IP=`, which starts the banner of a server's block.
pub open spec fn banner_key() -> Seq<char> {
    seq!['P', 'R', 'O', 'B', 'E', '_', 'I', 'P', '=']
}

/// `NAME=`, which starts the label word of a banner.
pub open spec fn name_key() -> Seq<char> {
    seq!['N', 'A', 'M', 'E', '=']
}

/// `?`: the address and label of rows read before any banner.
pub open spec fn unknown_word() -> Seq<char> {
    seq!['?']
}

/// The server (address, label) that a banner line sets, given the one
/// before it: the first word after `PROBE_IP=` is the address (`?` if there
/// is none), the second, without leading `NAME=`, the label (kept if absent).
pub open spec fn banner_server(rest: Seq<char>, before: (Seq<char>, Seq<char>)) -> (Seq<char>, Seq<char>) {
    let w = words(rest);
    let ip = if w.len() > 0 { trim(w[0]) } else { unknown_word() };
    let label = if w.len() > 1 { trim(strip_all_prefix(w[1], name_key())) } else { before.1 };
    (ip, label)
}

/// The server in effect after reading the given lines.
pub open spec fn server_after(ls: Seq<Seq<char>>) -> (Seq<char>, Seq<char>)
    decreases ls.len(),
{
    if ls.len() == 0 {
        (unknown_word(), unknown_word())
    } else {
        let before = server_after(ls.drop_last());
        match second_piece(ls.last(), banner_key()) {
            Some(rest) => banner_server(rest, before),
            None => before,
        }
    }
}

/// The probe rows that a log's lines hold: each probe line belongs to the
/// server of the banner above it; banner lines and audit lines are skipped.
pub open spec fn log_rows(ls: Seq<Seq<char>>) -> Seq<ProbeRowView>
    decreases ls.len(),
{
    if ls.len() == 0 {
        Seq::empty()
    } else {
        let before = log_rows(ls.drop_last());
        let srv = server_after(ls.drop_last());
        let l = ls.last();
        if second_piece(l, banner_key()) is Some || contains(l, audit_prefix()) {
            before
        } else {
            match parse_probe_spec(l, srv.0, srv.1) {
                Some(r) => before.push(r),
                None => before,
            }
        }
    }
}

/// Reads the probe rows out of the text of one log file.
pub fn parse_probe_log(text: &str) -> (rows: Vec<ProbeRow>)
    ensures
        row_views(rows@) == log_rows(lines(text@)),
{
    let cs = chars_of(text);
    let ls = lines_of(cs.as_slice());
    let ghost lv = views(ls@);
    let banner = chars_of("PROBE_IP=");
    let name = chars_of("NAME=");
    let audit = chars_of("AUDIT:");
    proof {
        reveal_strlit("PROBE_IP=");
        reveal_strlit("NAME=");
        reveal_strlit("AUDIT:");
    }
    assert(banner@ =~= banner_key());
    assert(name@ =~= name_key());
    assert(audit@ =~= audit_prefix());
    let mut cur_ip = String::from_str("?");
    let mut cur_label = String::from_str("?");
    proof {
        reveal_strlit("?");
    }
    assert(cur_ip@ =~= unknown_word());
    let mut rows: Vec<ProbeRow> = Vec::new();
    let n = ls.len();
    assert(lv.take(0) =~= Seq::<Seq<char>>::empty());
    for i in 0..n
        invariant
            n == ls@.len(),
            lv == views(ls@),
            lv == lines(text@),
            banner@ == banner_key(),
            name@ == name_key(),
            audit@ == audit_prefix(),
            (cur_ip@, cur_label@) == server_after(lv.take(i as int)),
            row_views(rows@) == log_rows(lv.take(i as int)),
    {
        let line = &ls[i];
        let ghost l = lv[i as int];
        assert(line@ == l);
        assert(lv.take(i + 1).drop_last() =~= lv.take(i as int));
        assert(lv.take(i + 1).last() == l);
        let ghost before = (cur_ip@, cur_label@);
        proof {
            reveal_strlit("?");
        }
        match second_piece_chars(line.as_slice(), banner.as_slice()) {
            Some(rest) => {
                let w = words_of(rest.as_slice());
                let ghost wv = views(w@);
                if w.len() > 0 {
                    assert(w@[0]@ == wv[0]);
                    let ip = trim_chars(w[0].as_slice());
                    cur_ip = string_from_chars(ip.as_slice());
                } else {
                    cur_ip = String::from_str("?");
                }
                if w.len() > 1 {
                    assert(w@[1]@ == wv[1]);
                    let stripped = strip_all_prefix_chars(w[1].as_slice(), name.as_slice());
                    let label = trim_chars(stripped.as_slice());
                    cur_label = string_from_chars(label.as_slice());
                }
                assert((cur_ip@, cur_label@) == banner_server(rest@, before));
            },
            None => {
                let is_audit = find_chars(line.as_slice(), audit.as_slice()).is_some();
                if !is_audit {
                    let line_str = string_from_chars(line.as_slice());
                    match crate::logfmt::parse_probe_line(line_str.as_str(), cur_ip.as_str(), cur_label.as_str()) {
                        Some(row) => {
                            let ghost old_rows = rows@;
                            rows.push(row);
                            assert(row_views(rows@) =~= row_views(old_rows).push(row@));
                        },
                        None => {},
                    }
                }
            },
        }
    }
    assert(lv.take(n as int) =~= lv);
    rows
}

} // verus!

verus! {

/// Concatenation of texts.
pub open spec fn concat(ts: Seq<Seq<char>>) -> Seq<char> {
    join(ts, Seq::<char>::empty())
}

/// `{:?}` of an optional status code: `Some(403)` or `None`.
pub open spec fn debug_code(v: Option<u16>) -> Seq<char> {
    match v {
        Some(c) => "Some("@ + decimal(c as nat) + ")"@,
        None => "None"@,
    }
}

/// `{:?}` of an optional number: `Some(120)` or `None`.
pub open spec fn debug_num(v: Option<u64>) -> Seq<char> {
    match v {
        Some(c) => "Some("@ + decimal(c as nat) + ")"@,
        None => "None"@,
    }
}

/// One table line of the console summary.
pub open spec fn console_row(r: ProbeRowView) -> Seq<char> {
    join(
        seq![
            r.server,
            r.label,
            r.target,
            code_text(r.https_code),
            fnum_text(r.https_ms),
            fnum_text(r.dns_ms),
            r.tcp,
            r.icmp,
        ],
        "  "@,
    ) + "\n"@
}

/// The rows of one server, in row order.
pub open spec fn rows_of_server(rows: Seq<ProbeRowView>, ip: Seq<char>) -> Seq<ProbeRowView> {
    rows.filter(|r: ProbeRowView| r.server == ip)
}

/// The console block of one server: its rows, then an empty line.
pub open spec fn console_block(rows: Seq<ProbeRowView>, ip: Seq<char>) -> Seq<char> {
    concat(rows_of_server(rows, ip).map_values(|r: ProbeRowView| console_row(r))) + "\n"@
}

/// One line of the console anomaly list.
pub open spec fn console_anomaly(a: AnomalyView) -> Seq<char> {
    "  "@ + a.ip + " "@ + a.label + " "@ + a.target + ": HTTPS="@ + debug_code(a.https_code)
        + " ms="@ + debug_num(a.https_ms) + " TCP="@ + a.tcp + "\n"@
}

/// The console summary: header, one block per server, then the anomalies.
pub open spec fn console_summary(
    n_points: usize,
    servers: Seq<(Seq<char>, Seq<char>)>,
    rows: Seq<ProbeRowView>,
    anomalies: Seq<AnomalyView>,
) -> Seq<char> {
    "\n=== FIELD MONITOR SUMMARY, points: "@ + decimal(n_points as nat) + " ===\n\n"@
        + "server          label          target       HTTPS  ms     DNSms TCP    ICMP\n"@
        + Seq::new(68, |i: int| '-') + "\n"@
        + concat(servers.map_values(|s: (Seq<char>, Seq<char>)| console_block(rows, s.0)))
        + "=== ANOMALIES ===\n"@
        + if anomalies.len() == 0 {
            "  none (all targets 200/open, latencies normal)\n"@
        } else {
            concat(anomalies.map_values(|a: AnomalyView| console_anomaly(a)))
        }
}

/// Appends `Some(n)` / `None` as `{:?}` writes them.
fn push_debug_num(out: &mut String, v: Option<u64>)
    ensures
        final(out)@ == old(out)@ + debug_num(v),
{
    match v {
        Some(c) => {
            push_str(out, "Some(");
            push_decimal(out, c);
            push_str(out, ")");
        },
        None => push_str(out, "None"),
    }
}

/// Appends `Some(c)` / `None` as `{:?}` writes them.
fn push_debug_code(out: &mut String, v: Option<u16>)
    ensures
        final(out)@ == old(out)@ + debug_code(v),
{
    match v {
        Some(c) => {
            push_str(out, "Some(");
            push_decimal(out, c as u64);
            push_str(out, ")");
        },
        None => push_str(out, "None"),
    }
}

fn console_row_string(r: &ProbeRow) -> (t: String)
    ensures
        t@ == console_row(r@),
{
    let mut fields: Vec<String> = Vec::new();
    fields.push(r.server.clone());
    fields.push(r.label.clone());
    fields.push(r.target.clone());
    fields.push(code_string(r.https_code));
    fields.push(fnum(r.https_ms));
    fields.push(fnum(r.dns_ms));
    fields.push(r.tcp.clone());
    fields.push(r.icmp.clone());
    assert(str_views(fields@) =~= seq![
        r@.server,
        r@.label,
        r@.target,
        code_text(r@.https_code),
        fnum_text(r@.https_ms),
        fnum_text(r@.dns_ms),
        r@.tcp,
        r@.icmp,
    ]);
    let mut t = join_strings(fields.as_slice(), "  ");
    push_str(&mut t, "\n");
    t
}

/// Appends the console block of the server `ip`.
fn push_console_block(out: &mut String, rows: &Vec<ProbeRow>, ip: &String)
    ensures
        final(out)@ == old(out)@ + console_block(row_views(rows@), ip@),
{
    let ghost rv = row_views(rows@);
    let ghost pred = |r: ProbeRowView| r.server == ip@;
    let ghost f = |r: ProbeRowView| console_row(r);
    let ipc = chars_of(ip.as_str());
    let n = rows.len();
    let ghost start = out@;
    assert(rv.take(0).filter(pred) =~= Seq::<ProbeRowView>::empty()) by {
        reveal_with_fuel(Seq::filter, 1);
    }
    assert(concat(Seq::<Seq<char>>::empty()) =~= Seq::<char>::empty());
    for i in 0..n
        invariant
            n == rows@.len(),
            rv == row_views(rows@),
            ipc@ == ip@,
            pred == (|r: ProbeRowView| r.server == ip@),
            f == (|r: ProbeRowView| console_row(r)),
            out@ == start + concat(rv.take(i as int).filter(pred).map_values(f)),
    {
        let ghost prev = rv.take(i as int).filter(pred);
        assert(rv.take(i + 1) =~= rv.take(i as int).push(rv[i as int]));
        proof {
            rv.take(i as int).lemma_filter_push(rv[i as int], pred);
        }
        assert(rv[i as int] == rows@[i as int]@);
        let sc = chars_of(rows[i].server.as_str());
        if chars_equal(sc.as_slice(), ipc.as_slice()) {
            let line = console_row_string(&rows[i]);
            push_str(out, line.as_str());
            assert(prev.push(rv[i as int]).map_values(f) =~= prev.map_values(f).push(f(rv[i as int])));
            proof {
                crate::text::lemma_join_push(prev.map_values(f), Seq::<char>::empty(), f(rv[i as int]));
            }
            assert(out@ =~= start + concat(rv.take(i + 1).filter(pred).map_values(f)));
        }
    }
    assert(rv.take(n as int) =~= rv);
    push_str(out, "\n");
}

fn console_anomaly_string(a: &Anomaly) -> (t: String)
    ensures
        t@ == console_anomaly(a@),
{
    let mut out = String::new();
    push_str(&mut out, "  ");
    push_str(&mut out, a.ip.as_str());
    push_str(&mut out, " ");
    push_str(&mut out, a.label.as_str());
    push_str(&mut out, " ");
    push_str(&mut out, a.target.as_str());
    push_str(&mut out, ": HTTPS=");
    push_debug_code(&mut out, a.https_code);
    push_str(&mut out, " ms=");
    push_debug_num(&mut out, a.https_ms);
    push_str(&mut out, " TCP=");
    push_str(&mut out, a.tcp.as_str());
    push_str(&mut out, "\n");
    assert(out@ =~= console_anomaly(a@));
    out
}

/// The console summary of an aggregate (what the `aggregate` command prints).
pub fn format_summary(s: &Summary) -> (t: String)
    ensures
        t@ == console_summary(s.n_points, server_views(s.servers@), row_views(s.rows@), anomaly_views(s.anomalies@)),
{
    let mut out = String::new();
    push_str(&mut out, "\n=== FIELD MONITOR SUMMARY, points: ");
    push_decimal(&mut out, s.n_points as u64);
    push_str(&mut out, " ===\n\n");
    push_str(&mut out, "server          label          target       HTTPS  ms     DNSms TCP    ICMP\n");
    let ghost head = out@;
    for i in 0..68usize
        invariant
            out@ == head + Seq::new(i as nat, |j: int| '-'),
    {
        push_char(&mut out, '-');
        assert(out@ =~= head + Seq::new((i + 1) as nat, |j: int| '-'));
    }
    push_str(&mut out, "\n");
    let ghost sv = server_views(s.servers@);
    let ghost rv = row_views(s.rows@);
    let ghost g = |x: (Seq<char>, Seq<char>)| console_block(rv, x.0);
    let ghost mid = out@;
    let m = s.servers.len();
    assert(concat(Seq::<Seq<char>>::empty()) =~= Seq::<char>::empty());
    for i in 0..m
        invariant
            m == s.servers@.len(),
            sv == server_views(s.servers@),
            rv == row_views(s.rows@),
            g == (|x: (Seq<char>, Seq<char>)| console_block(rv, x.0)),
            out@ == mid + concat(sv.take(i as int).map_values(g)),
    {
        let ghost prev = sv.take(i as int).map_values(g);
        assert(sv.take(i + 1).map_values(g) =~= prev.push(g(sv[i as int])));
        proof {
            crate::text::lemma_join_push(prev, Seq::<char>::empty(), g(sv[i as int]));
        }
        assert(sv[i as int] == s.servers@[i as int]@);
        push_console_block(&mut out, &s.rows, &s.servers[i].ip);
        assert(out@ =~= mid + concat(sv.take(i + 1).map_values(g)));
    }
    assert(sv.take(m as int) =~= sv);
    push_str(&mut out, "=== ANOMALIES ===\n");
    let ghost av = anomaly_views(s.anomalies@);
    let ghost h = |a: AnomalyView| console_anomaly(a);
    let k = s.anomalies.len();
    if k == 0 {
        push_str(&mut out, "  none (all targets 200/open, latencies normal)\n");
    } else {
        let ghost tail_start = out@;
        for i in 0..k
            invariant
                k == s.anomalies@.len(),
                av == anomaly_views(s.anomalies@),
                h == (|a: AnomalyView| console_anomaly(a)),
                out@ == tail_start + concat(av.take(i as int).map_values(h)),
        {
            let ghost prev = av.take(i as int).map_values(h);
            assert(av.take(i + 1).map_values(h) =~= prev.push(h(av[i as int])));
            proof {
                crate::text::lemma_join_push(prev, Seq::<char>::empty(), h(av[i as int]));
            }
            let a = &s.anomalies[i];
            assert(av[i as int] == a@);
            let line = console_anomaly_string(a);
            push_str(&mut out, line.as_str());
            assert(out@ =~= tail_start + concat(av.take(i + 1).map_values(h)));
        }
        assert(av.take(k as int) =~= av);
    }
    out
}

} // verus!

verus! {

/// Copies of the rows of the server `ip`, in row order.
pub fn rows_for_server(rows: &Vec<ProbeRow>, ip: &String) -> (r: Vec<ProbeRow>)
    ensures
        row_views(r@) == rows_of_server(row_views(rows@), ip@),
{
    let ghost rv = row_views(rows@);
    let ghost pred = |r: ProbeRowView| r.server == ip@;
    let ipc = chars_of(ip.as_str());
    let n = rows.len();
    let mut out: Vec<ProbeRow> = Vec::new();
    assert(rv.take(0).filter(pred) =~= Seq::<ProbeRowView>::empty()) by {
        reveal_with_fuel(Seq::filter, 1);
    }
    for i in 0..n
        invariant
            n == rows@.len(),
            rv == row_views(rows@),
            ipc@ == ip@,
            pred == (|r: ProbeRowView| r.server == ip@),
            row_views(out@) == rv.take(i as int).filter(pred),
    {
        assert(rv.take(i + 1) =~= rv.take(i as int).push(rv[i as int]));
        proof {
            rv.take(i as int).lemma_filter_push(rv[i as int], pred);
        }
        assert(rv[i as int] == rows@[i as int]@);
        let sc = chars_of(rows[i].server.as_str());
        if chars_equal(sc.as_slice(), ipc.as_slice()) {
            let ghost old_out = out@;
            out.push(rows[i].duplicate());
            assert(row_views(out@) =~= row_views(old_out).push(rv[i as int]));
        }
    }
    assert(rv.take(n as int) =~= rv);
    out
}

/// Targets of rows, in row order.
pub open spec fn target_keys(rs: Seq<ProbeRowView>) -> Seq<Seq<char>> {
    rs.map_values(|r: ProbeRowView| r.target)
}

/// The rows from the last to the first.
pub open spec fn newest_first(rs: Seq<ProbeRowView>) -> Seq<ProbeRowView> {
    Seq::new(rs.len(), |i: int| rs[rs.len() - 1 - i])
}

/// The latest row (the last in the log) of each distinct target, sorted by
/// target: the first row of each target when reading from the newest.
pub open spec fn latest_rows(rs: Seq<ProbeRowView>) -> Seq<ProbeRowView> {
    let nf = newest_first(rs);
    table_of(target_keys(nf)).map_values(|j: usize| nf[j as int])
}

/// Copies of the rows, from the last to the first.
fn rows_newest_first(rs: &Vec<ProbeRow>) -> (r: Vec<ProbeRow>)
    ensures
        row_views(r@) == newest_first(row_views(rs@)),
{
    let ghost rv = row_views(rs@);
    let n = rs.len();
    let mut out: Vec<ProbeRow> = Vec::new();
    for i in 0..n
        invariant
            n == rs@.len(),
            rv == row_views(rs@),
            row_views(out@) == newest_first(rv).take(i as int),
    {
        let ghost prev = out@;
        assert(rv[n - 1 - i] == rs@[n - 1 - i]@);
        out.push(rs[n - 1 - i].duplicate());
        assert(row_views(out@) =~= row_views(prev).push(rv[n - 1 - i]));
        assert(newest_first(rv).take(i + 1) =~= newest_first(rv).take(i as int).push(rv[n - 1 - i]));
    }
    assert(newest_first(rv).take(n as int) =~= newest_first(rv));
    out
}

/// A latency in the report: `132 ms`, or `-`.
pub open spec fn latency_text(v: Option<u64>) -> Seq<char> {
    match v {
        Some(m) => decimal(m as nat) + " ms"@,
        None => "-"@,
    }
}

/// The status of a measurement in the report: a closed port is BLOCKED, a
/// slow HTTPS answer SLOW, a 200 / open port / ICMP reply OK, anything else
/// NOT MEASURED.
pub open spec fn row_status(r: ProbeRowView) -> Seq<char> {
    if r.tcp == "closed"@ {
        "BLOCKED"@
    } else if over_2s(r.https_ms) {
        "SLOW"@
    } else if r.https_code == Some(200u16) || r.tcp == "open"@ || r.icmp == "ok"@ {
        "OK"@
    } else {
        "NOT MEASURED"@
    }
}

/// The status column of the report: a measurement whose TCP port is closed
/// is BLOCKED; otherwise an HTTPS answer that took more than 2000 ms is
/// SLOW, whatever its status code, TCP or ICMP state; any other row is OK
/// exactly when it has a 200 answer, an open port or an ICMP reply, and NOT
/// MEASURED when it has none of them.
pub proof fn law_report_status(r: ProbeRowView)
    ensures
        r.tcp == "closed"@ ==> row_status(r) == "BLOCKED"@,
        forall|m: u64|
            r.tcp != "closed"@ && r.https_ms == Some(m) && m > 2000 ==> row_status(r) == "SLOW"@,
        row_status(r) == "OK"@ <==> r.tcp != "closed"@ && (forall|m: u64|
            r.https_ms == Some(m) ==> m <= 2000) && (r.https_code == Some(200u16) || r.tcp == "open"@
            || r.icmp == "ok"@),
        row_status(r) == "BLOCKED"@ || row_status(r) == "SLOW"@ || row_status(r) == "OK"@
            || row_status(r) == "NOT MEASURED"@,
        row_status(r) == "NOT MEASURED"@ ==> r.https_code != Some(200u16) && r.tcp != "open"@
            && r.icmp != "ok"@,
{
    reveal_strlit("BLOCKED");
    reveal_strlit("SLOW");
    reveal_strlit("OK");
    reveal_strlit("NOT MEASURED");
    assert("OK"@.len() == 2 && "SLOW"@.len() == 4 && "BLOCKED"@.len() == 7
        && "NOT MEASURED"@.len() == 12);
}

pub open spec fn report_row(r: ProbeRowView) -> Seq<char> {
    "| "@ + r.target + " | "@ + r.dns_ip + " | "@ + code_text(r.https_code) + " | "@
        + latency_text(r.https_ms) + " | "@ + latency_text(r.dns_ms) + " | "@ + r.tcp + " | "@
        + r.icmp + " | "@ + row_status(r) + "\n"@
}

pub open spec fn report_table_head() -> Seq<char> {
    "| Target | DNS IP | HTTPS | Latency (ms) | DNS (ms) | TCP | ICMP |\n"@
        + "|--------|--------|-------|--------------|----------|-----|------|\n"@
}

/// The report section of one server: its label, then the latest row of
/// each target (or `(no data)`).
pub open spec fn report_block(rows: Seq<ProbeRowView>, srv: (Seq<char>, Seq<char>)) -> Seq<char> {
    let rs = rows_of_server(rows, srv.0);
    "## "@ + srv.1 + "\n\n"@ + if rs.len() > 0 {
        report_table_head() + concat(latest_rows(rs).map_values(|r: ProbeRowView| report_row(r)))
            + "\n"@
    } else {
        "(no data)\n\n"@
    }
}

/// HTTPS_FAIL when the status is not 200 (or absent), else HIGH_LATENCY.
pub open spec fn anomaly_status(a: AnomalyView) -> Seq<char> {
    if a.https_code != Some(200u16) {
        "HTTPS_FAIL"@
    } else {
        "HIGH_LATENCY"@
    }
}

pub open spec fn report_anomaly(a: AnomalyView) -> Seq<char> {
    "| "@ + a.ip + " | "@ + a.label + " | "@ + a.target + " | "@ + debug_code(a.https_code) + " | "@
        + debug_num(a.https_ms) + " | "@ + a.tcp + " | "@ + anomaly_status(a) + " |\n"@
}

pub open spec fn report_anomaly_section(anomalies: Seq<AnomalyView>) -> Seq<char> {
    if anomalies.len() > 0 {
        "## Anomalies\n\n"@ + "| Server | Label | Target | HTTPS | Latency (ms) | TCP | Status |\n"@
            + "|--------|-------|--------|-------|--------------|-----|--------|\n"@ + concat(
            anomalies.map_values(|a: AnomalyView| report_anomaly(a)),
        )
    } else {
        "## Anomalies\n\nNone detected (all targets 200/open, latencies normal).\n"@
    }
}

/// The markdown report of an aggregate, generated at `generated`.
pub open spec fn markdown_report(
    n_points: usize,
    servers: Seq<(Seq<char>, Seq<char>)>,
    rows: Seq<ProbeRowView>,
    anomalies: Seq<AnomalyView>,
    generated: Seq<char>,
) -> Seq<char> {
    "# Field Monitor Report\n\n"@ + "**Generated:** "@ + generated + "\n\n"@ + "**Vantage points:** "@
        + decimal(n_points as nat) + "\n\n"@ + (if anomalies.len() > 0 {
        "**Anomalies:** "@ + decimal(anomalies.len()) + " (see below)\n\n"@
    } else {
        "**Status:** All OK\n\n"@
    }) + concat(servers.map_values(|s: (Seq<char>, Seq<char>)| report_block(rows, s)))
        + report_anomaly_section(anomalies)
}

fn push_latency(out: &mut String, v: Option<u64>)
    ensures
        final(out)@ == old(out)@ + latency_text(v),
{
    match v {
        Some(m) => {
            push_decimal(out, m);
            push_str(out, " ms");
        },
        None => push_str(out, "-"),
    }
}

/// Whether a string holds exactly the given text.
fn str_is(s: &String, lit: &str) -> (b: bool)
    ensures
        b == (s@ == lit@),
{
    let a = chars_of(s.as_str());
    let b = chars_of(lit);
    chars_equal(a.as_slice(), b.as_slice())
}

fn report_row_string(r: &ProbeRow) -> (t: String)
    ensures
        t@ == report_row(r@),
{
    let status = if str_is(&r.tcp, "closed") {
        "BLOCKED"
    } else if match r.https_ms { Some(m) => m > 2000, None => false } {
        "SLOW"
    } else if r.https_code == Some(200u16) || str_is(&r.tcp, "open") || str_is(&r.icmp, "ok") {
        "OK"
    } else {
        "NOT MEASURED"
    };
    assert(status@ == row_status(r@));
    let mut out = String::new();
    push_str(&mut out, "| ");
    push_str(&mut out, r.target.as_str());
    push_str(&mut out, " | ");
    push_str(&mut out, r.dns_ip.as_str());
    push_str(&mut out, " | ");
    let code = code_string(r.https_code);
    push_str(&mut out, code.as_str());
    push_str(&mut out, " | ");
    push_latency(&mut out, r.https_ms);
    push_str(&mut out, " | ");
    push_latency(&mut out, r.dns_ms);
    push_str(&mut out, " | ");
    push_str(&mut out, r.tcp.as_str());
    push_str(&mut out, " | ");
    push_str(&mut out, r.icmp.as_str());
    push_str(&mut out, " | ");
    push_str(&mut out, status);
    push_str(&mut out, "\n");
    assert(out@ =~= report_row(r@));
    out
}

/// Appends the report section of one server.
fn push_report_block(out: &mut String, rows: &Vec<ProbeRow>, srv: &crate::model::ServerInfo)
    ensures
        final(out)@ == old(out)@ + report_block(row_views(rows@), srv@),
{
    let ghost start = out@;
    push_str(out, "## ");
    push_str(out, srv.label.as_str());
    push_str(out, "\n\n");
    let mine = rows_for_server(rows, &srv.ip);
    let rs = rows_newest_first(&mine);
    let ghost rsv = row_views(rs@);
    assert(rsv.len() == row_views(mine@).len());
    assert(latest_rows(row_views(mine@)) == table_of(target_keys(rsv)).map_values(
        |j: usize| rsv[j as int],
    ));
    if rs.len() > 0 {
        let mut keys: Vec<Vec<char>> = Vec::new();
        let n = rs.len();
        for i in 0..n
            invariant
                n == rs@.len(),
                rsv == row_views(rs@),
                views(keys@) == target_keys(rsv).take(i as int),
        {
            let ghost old_keys = keys@;
            assert(rsv[i as int] == rs@[i as int]@);
            let key = chars_of(rs[i].target.as_str());
            keys.push(key);
            assert(views(keys@) =~= views(old_keys).push(rsv[i as int].target));
            assert(target_keys(rsv).take(i + 1) =~= target_keys(rsv).take(i as int).push(
                rsv[i as int].target,
            ));
        }
        assert(target_keys(rsv).take(n as int) =~= target_keys(rsv));
        let idx = first_indices(keys.as_slice());
        push_str(out, "| Target | DNS IP | HTTPS | Latency (ms) | DNS (ms) | TCP | ICMP |\n");
        push_str(out, "|--------|--------|-------|--------------|----------|-----|------|\n");
        let ghost latest = latest_rows(row_views(mine@));
        let ghost f = |r: ProbeRowView| report_row(r);
        let ghost mid = out@;
        let m = idx.len();
        assert(latest.len() == m);
        assert(concat(Seq::<Seq<char>>::empty()) =~= Seq::<char>::empty());
        for i in 0..m
            invariant
                m == idx@.len(),
                n == rs@.len(),
                rsv == row_views(rs@),
                idx@ == table_of(target_keys(rsv)),
                first_index_table(target_keys(rsv), idx@),
                latest == table_of(target_keys(rsv)).map_values(|j: usize| rsv[j as int]),
                f == (|r: ProbeRowView| report_row(r)),
                out@ == mid + concat(latest.take(i as int).map_values(f)),
        {
            let ghost prev = latest.take(i as int).map_values(f);
            assert(latest.take(i + 1).map_values(f) =~= prev.push(f(latest[i as int])));
            proof {
                crate::text::lemma_join_push(prev, Seq::<char>::empty(), f(latest[i as int]));
            }
            assert(idx@[i as int] < n);
            assert(latest[i as int] == rs@[idx@[i as int] as int]@);
            let line = report_row_string(&rs[idx[i]]);
            push_str(out, line.as_str());
            assert(out@ =~= mid + concat(latest.take(i + 1).map_values(f)));
        }
        assert(latest.take(m as int) =~= latest);
        push_str(out, "\n");
    } else {
        push_str(out, "(no data)\n\n");
    }
    assert(out@ =~= start + report_block(row_views(rows@), srv@));
}

fn report_anomaly_string(a: &Anomaly) -> (t: String)
    ensures
        t@ == report_anomaly(a@),
{
    let mut out = String::new();
    push_str(&mut out, "| ");
    push_str(&mut out, a.ip.as_str());
    push_str(&mut out, " | ");
    push_str(&mut out, a.label.as_str());
    push_str(&mut out, " | ");
    push_str(&mut out, a.target.as_str());
    push_str(&mut out, " | ");
    push_debug_code(&mut out, a.https_code);
    push_str(&mut out, " | ");
    push_debug_num(&mut out, a.https_ms);
    push_str(&mut out, " | ");
    push_str(&mut out, a.tcp.as_str());
    push_str(&mut out, " | ");
    let status = if a.https_code != Some(200u16) { "HTTPS_FAIL" } else { "HIGH_LATENCY" };
    push_str(&mut out, status);
    push_str(&mut out, " |\n");
    assert(out@ =~= report_anomaly(a@));
    out
}

fn push_anomaly_section(out: &mut String, anomalies: &Vec<Anomaly>)
    ensures
        final(out)@ == old(out)@ + report_anomaly_section(anomaly_views(anomalies@)),
{
    let ghost start = out@;
    let k = anomalies.len();
    if k > 0 {
        push_str(out, "## Anomalies\n\n");
        push_str(out, "| Server | Label | Target | HTTPS | Latency (ms) | TCP | Status |\n");
        push_str(out, "|--------|-------|--------|-------|--------------|-----|--------|\n");
        let ghost av = anomaly_views(anomalies@);
        let ghost h = |a: AnomalyView| report_anomaly(a);
        let ghost mid = out@;
        assert(concat(Seq::<Seq<char>>::empty()) =~= Seq::<char>::empty());
        for i in 0..k
            invariant
                k == anomalies@.len(),
                av == anomaly_views(anomalies@),
                h == (|a: AnomalyView| report_anomaly(a)),
                out@ == mid + concat(av.take(i as int).map_values(h)),
        {
            let ghost prev = av.take(i as int).map_values(h);
            assert(av.take(i + 1).map_values(h) =~= prev.push(h(av[i as int])));
            proof {
                crate::text::lemma_join_push(prev, Seq::<char>::empty(), h(av[i as int]));
            }
            assert(av[i as int] == anomalies@[i as int]@);
            let line = report_anomaly_string(&anomalies[i]);
            push_str(out, line.as_str());
            assert(out@ =~= mid + concat(av.take(i + 1).map_values(h)));
        }
        assert(av.take(k as int) =~= av);
    } else {
        push_str(out, "## Anomalies\n\nNone detected (all targets 200/open, latencies normal).\n");
    }
    assert(out@ =~= start + report_anomaly_section(anomaly_views(anomalies@)));
}

/// The markdown report of an aggregate; `generated` is the time stamp
/// written in its header.
pub fn render_markdown_report(s: &Summary, generated: &str) -> (t: String)
    ensures
        t@ == markdown_report(
            s.n_points,
            server_views(s.servers@),
            row_views(s.rows@),
            anomaly_views(s.anomalies@),
            generated@,
        ),
{
    let mut out = String::new();
    push_str(&mut out, "# Field Monitor Report\n\n");
    push_str(&mut out, "**Generated:** ");
    push_str(&mut out, generated);
    push_str(&mut out, "\n\n");
    push_str(&mut out, "**Vantage points:** ");
    push_decimal(&mut out, s.n_points as u64);
    push_str(&mut out, "\n\n");
    if s.anomalies.len() > 0 {
        push_str(&mut out, "**Anomalies:** ");
        push_decimal(&mut out, s.anomalies.len() as u64);
        push_str(&mut out, " (see below)\n\n");
    } else {
        push_str(&mut out, "**Status:** All OK\n\n");
    }
    let ghost sv = server_views(s.servers@);
    let ghost rv = row_views(s.rows@);
    let ghost g = |x: (Seq<char>, Seq<char>)| report_block(rv, x);
    let ghost mid = out@;
    let m = s.servers.len();
    assert(concat(Seq::<Seq<char>>::empty()) =~= Seq::<char>::empty());
    for i in 0..m
        invariant
            m == s.servers@.len(),
            sv == server_views(s.servers@),
            rv == row_views(s.rows@),
            g == (|x: (Seq<char>, Seq<char>)| report_block(rv, x)),
            out@ == mid + concat(sv.take(i as int).map_values(g)),
    {
        let ghost prev = sv.take(i as int).map_values(g);
        assert(sv.take(i + 1).map_values(g) =~= prev.push(g(sv[i as int])));
        proof {
            crate::text::lemma_join_push(prev, Seq::<char>::empty(), g(sv[i as int]));
        }
        assert(sv[i as int] == s.servers@[i as int]@);
        push_report_block(&mut out, &s.rows, &s.servers[i]);
        assert(out@ =~= mid + concat(sv.take(i + 1).map_values(g)));
    }
    assert(sv.take(m as int) =~= sv);
    push_anomaly_section(&mut out, &s.anomalies);
    out
}

} // verus!

verus! {

/// A single word: not empty, and without whitespace.
pub open spec fn one_word(s: Seq<char>) -> bool {
    s.len() > 0 && forall|i: int| 0 <= i < s.len() ==> !crate::text::white_space(#[trigger] s[i])
}

/// What a measurement reads back as from its log line under the banner of
/// `ip` and `label`: the same measurement (partial flag and time stamp
/// included) of that server, sane when every latency is under 60000 ms.
pub open spec fn read_back(r: ProbeRowView, ip: Seq<char>, label: Seq<char>) -> ProbeRowView {
    ProbeRowView {
        server: ip,
        label: label,
        sane: crate::logfmt::plausible(r.dns_ms) && crate::logfmt::plausible(r.https_ms)
            && crate::logfmt::plausible(r.tcp_ms) && crate::logfmt::plausible(r.icmp_ms),
        ..r
    }
}

/// A row whose log line reads back: no comma in its text fields, a
/// target that starts with an alphabetic character, and a line that holds
/// neither `PROBE_IP=` nor `AUDIT:`.
pub open spec fn readable_row(r: ProbeRowView) -> bool {
    &&& free_of(r.target, ',')
    &&& free_of(r.dns_ip, ',')
    &&& free_of(r.tcp, ',')
    &&& free_of(r.icmp, ',')
    &&& r.target.len() > 0
    &&& crate::text::alphabetic(r.target[0])
    &&& !contains(crate::logfmt::probe_line(r), banner_key())
    &&& !contains(crate::logfmt::probe_line(r), audit_prefix())
}

/// The lines of the `probe` subcommand's output: its banner, then the log
/// line of each row.
pub open spec fn probe_output(ip: Seq<char>, label: Seq<char>, rows: Seq<ProbeRowView>) -> Seq<Seq<char>> {
    seq![crate::fleet::probe_banner_text(ip, label)] + rows.map_values(
        |r: ProbeRowView| crate::logfmt::probe_line(r),
    )
}

/// A word is its own trim.
proof fn lemma_trim_word(s: Seq<char>)
    requires
        one_word(s),
    ensures
        trim(s) == s,
{
    assert(crate::text::trim_start(s) == s);
    assert(s.last() == s[s.len() - 1]);
    assert(crate::text::trim_end(s) == s);
}

/// Two words with a space between them are those two words.
proof fn lemma_two_words(a: Seq<char>, b: Seq<char>)
    requires
        one_word(a),
        one_word(b),
    ensures
        words(a + seq![' '] + b) == seq![a, b],
{
    let pred = crate::text::ws_pred();
    assert(pred(' '));
    crate::text::lemma_split_where_concat(a, ' ', b, pred);
    assert forall|i: int| 0 <= i < a.len() implies !pred(#[trigger] a[i]) by {}
    assert forall|i: int| 0 <= i < b.len() implies !pred(#[trigger] b[i]) by {}
    crate::text::lemma_split_where_none(a, pred);
    crate::text::lemma_split_where_none(b, pred);
    let nonempty = |w: Seq<char>| w.len() > 0;
    let two = seq![a] + seq![b];
    assert(two =~= seq![a, b]);
    assert(seq![a, b] =~= Seq::<Seq<char>>::empty().push(a).push(b));
    Seq::<Seq<char>>::empty().lemma_filter_push(a, nonempty);
    Seq::<Seq<char>>::empty().push(a).lemma_filter_push(b, nonempty);
    reveal_with_fuel(Seq::filter, 1);
    assert(Seq::<Seq<char>>::empty().filter(nonempty) =~= Seq::<Seq<char>>::empty());
}

/// Where the banner's text after `PROBE_IP=` is, and that no further
/// `PROBE_IP=` follows.
#[verifier::spinoff_prover]
#[verifier::rlimit(30)]
proof fn lemma_banner_piece(ip: Seq<char>, label: Seq<char>)
    requires
        !contains(ip, banner_key()),
        !contains(label, banner_key()),
    ensures
        second_piece(crate::fleet::probe_banner_text(ip, label), banner_key()) == Some(
            ip + " NAME="@ + label,
        ),
{
    reveal_strlit("PROBE_IP=");
    reveal_strlit(" NAME=");
    let key = banner_key();
    let b = crate::fleet::probe_banner_text(ip, label);
    let rest = ip + " NAME="@ + label;
    assert(b =~= key + rest);
    assert(b.take(9) =~= key);
    crate::text::lemma_find_at_start(b, key);
    assert(b.skip(9) =~= rest);
    crate::text::lemma_find(rest, key);
    crate::text::lemma_find(ip, key);
    crate::text::lemma_find(label, key);
    let il = ip.len() as int;
    if let Some(j) = crate::text::find(rest, key) {
        let j = j as int;
        assert(crate::text::occurs_at(rest, key, j));
        assert forall|k: int| 0 <= k < 9 implies #[trigger] rest[j + k] == key[k] by {
            assert(rest.subrange(j, j + 9)[k] == rest[j + k]);
        }
        if j < il {
            if j + 9 <= il {
                assert forall|k: int| 0 <= k < 9 implies #[trigger] ip[j + k] == rest[j + k] by {}
                assert(ip.subrange(j, j + 9) =~= key);
                assert(crate::text::occurs_at(ip, key, j));
            } else {
                assert(rest[il] == ' ');
                assert(key[il - j] != ' ');
            }
        } else if j < il + 6 {
            assert(rest[j] == " NAME="@[j - il]);
            assert(key[0] == 'P');
        } else {
            let at = j - il - 6;
            assert forall|k: int| 0 <= k < 9 implies #[trigger] label[at + k] == rest[j + k] by {}
            assert(label.subrange(at, at + 9) =~= key);
            assert(crate::text::occurs_at(label, key, at));
        }
    }
}

/// The banner names the server it announces.
proof fn lemma_banner_server(ip: Seq<char>, label: Seq<char>, before: (Seq<char>, Seq<char>))
    requires
        one_word(ip),
        one_word(label),
        !starts_with(label, name_key()),
    ensures
        banner_server(ip + " NAME="@ + label, before) == (ip, label),
{
    reveal_strlit(" NAME=");
    let named = name_key() + label;
    assert(ip + " NAME="@ + label =~= ip + seq![' '] + named);
    assert forall|i: int| 0 <= i < named.len() implies !crate::text::white_space(#[trigger] named[i]) by {
        if i >= 5 {
            assert(named[i] == label[i - 5]);
        }
    }
    lemma_two_words(ip, named);
    lemma_trim_word(ip);
    assert(named.take(5) =~= name_key());
    assert(named.skip(5) =~= label);
    assert(strip_all_prefix(named, name_key()) == strip_all_prefix(label, name_key()));
    lemma_trim_word(label);
}

/// After the banner, the `probe` output's lines keep its server.
proof fn lemma_output_server(ip: Seq<char>, label: Seq<char>, rows: Seq<ProbeRowView>)
    requires
        one_word(ip),
        one_word(label),
        !contains(ip, banner_key()),
        !contains(label, banner_key()),
        !starts_with(label, name_key()),
        forall|i: int| 0 <= i < rows.len() ==> readable_row(#[trigger] rows[i]),
    ensures
        server_after(probe_output(ip, label, rows)) == (ip, label),
    decreases rows.len(),
{
    let ls = probe_output(ip, label, rows);
    if rows.len() == 0 {
        assert(ls.len() == 1);
        assert(ls.drop_last() =~= Seq::<Seq<char>>::empty());
        assert(ls.last() == crate::fleet::probe_banner_text(ip, label));
        assert(server_after(ls.drop_last()) == (unknown_word(), unknown_word()));
        lemma_banner_piece(ip, label);
        lemma_banner_server(ip, label, (unknown_word(), unknown_word()));
        assert(second_piece(ls.last(), banner_key()) == Some(ip + " NAME="@ + label));
        assert(server_after(ls) == banner_server(ip + " NAME="@ + label, (unknown_word(), unknown_word())));
    } else {
        let rest = rows.drop_last();
        assert forall|i: int| 0 <= i < rest.len() implies readable_row(#[trigger] rest[i]) by {
            assert(rest[i] == rows[i]);
        }
        lemma_output_server(ip, label, rest);
        assert(ls.len() == rows.len() + 1);
        assert(ls.drop_last() =~= probe_output(ip, label, rest));
        assert(readable_row(rows[rows.len() - 1]));
        assert(ls.last() == crate::logfmt::probe_line(rows.last()));
        assert(second_piece(ls.last(), banner_key()) is None);
    }
}

/// Law (the `probe` output, read back): the lines that the `probe`
/// subcommand prints (its banner, then the log line of each row, as
/// `emit_probe_row` writes it) read back, through the log reader behind
/// `parse_probe_log`, as the same measurements in the same order, each of
/// the banner's server, with their partial flags and time stamps. It needs a
/// server address and label that are single words and hold no `PROBE_IP=`,
/// a label that does not start with `NAME=`, and rows whose lines read back
/// (see `readable_row`).
pub proof fn law_probe_output_reads_back(ip: Seq<char>, label: Seq<char>, rows: Seq<ProbeRowView>)
    requires
        one_word(ip),
        one_word(label),
        !contains(ip, banner_key()),
        !contains(label, banner_key()),
        !starts_with(label, name_key()),
        forall|i: int| 0 <= i < rows.len() ==> readable_row(#[trigger] rows[i]),
    ensures
        log_rows(probe_output(ip, label, rows)) == rows.map_values(
            |r: ProbeRowView| read_back(r, ip, label),
        ),
    decreases rows.len(),
{
    let ls = probe_output(ip, label, rows);
    if rows.len() == 0 {
        lemma_banner_piece(ip, label);
        assert(ls.len() == 1);
        assert(ls.drop_last() =~= Seq::<Seq<char>>::empty());
        assert(ls.last() == crate::fleet::probe_banner_text(ip, label));
        assert(log_rows(ls.drop_last()) == Seq::<ProbeRowView>::empty());
        assert(second_piece(ls.last(), banner_key()) is Some);
        assert(log_rows(ls) == Seq::<ProbeRowView>::empty());
        assert(log_rows(ls) =~= rows.map_values(|r: ProbeRowView| read_back(r, ip, label)));
    } else {
        let rest = rows.drop_last();
        assert forall|i: int| 0 <= i < rest.len() implies readable_row(#[trigger] rest[i]) by {
            assert(rest[i] == rows[i]);
        }
        assert(ls.len() == rows.len() + 1);
        law_probe_output_reads_back(ip, label, rest);
        lemma_output_server(ip, label, rest);
        assert(ls.drop_last() =~= probe_output(ip, label, rest));
        let r = rows.last();
        assert(readable_row(rows[rows.len() - 1]));
        let l = crate::logfmt::probe_line(r);
        assert(ls.last() == l);
        assert(second_piece(l, banner_key()) is None);
        let r2 = ProbeRowView { server: ip, label: label, ..r };
        assert(crate::logfmt::probe_line(r2) == l);
        crate::logfmt::law_probe_line_round_trip(r2);
        assert(rows.map_values(|r: ProbeRowView| read_back(r, ip, label)) =~= rest.map_values(
            |r: ProbeRowView| read_back(r, ip, label),
        ).push(read_back(r, ip, label)));
    }
}

} // verus!

verus! {

/// Lines written one after the other, each ended by a newline, read back as
/// those lines, when none holds a newline or ends with a carriage return.
proof fn lemma_lines_of_written(ls: Seq<Seq<char>>)
    requires
        ls.len() >= 1,
        forall|i: int| 0 <= i < ls.len() ==> free_of(#[trigger] ls[i], '\n'),
        forall|i: int| 0 <= i < ls.len() ==> crate::text::strip_cr(#[trigger] ls[i]) == ls[i],
    ensures
        lines(join(ls, seq!['\n']) + seq!['\n']) == ls,
{
    let j = join(ls, seq!['\n']);
    lemma_split_join(ls, '\n');
    lemma_split_where_concat(j, '\n', Seq::<char>::empty(), is_char('\n'));
    assert(j + seq!['\n'] + Seq::<char>::empty() =~= j + seq!['\n']);
    assert(split_on(Seq::<char>::empty(), '\n') =~= seq![Seq::<char>::empty()]);
    let p = split_on(j + seq!['\n'], '\n');
    assert(p == ls + seq![Seq::<char>::empty()]);
    assert(p.last() =~= Seq::<char>::empty());
    assert forall|i: int| 0 <= i < ls.len() implies #[trigger] lines(j + seq!['\n'])[i] == ls[i] by {
        assert(p[i] == ls[i]);
    }
    assert(lines(j + seq!['\n']) =~= ls);
}

/// The last character of joined fields is the last of the last field.
proof fn lemma_join_last(fs: Seq<Seq<char>>, sep: Seq<char>)
    requires
        fs.len() >= 1,
        fs.last().len() > 0,
    ensures
        join(fs, sep).len() > 0,
        join(fs, sep).last() == fs.last().last(),
{
    if fs.len() > 1 {
        assert((join(fs.drop_last(), sep) + sep + fs.last()).last() == fs.last().last());
    }
}

/// Law (the `probe` command's output, read back): what the `probe`
/// subcommand prints, read as a log through `parse_probe_log`, gives back
/// its measurements in order, each of the banner's server, with partial
/// flags and time stamps. Besides what `law_probe_output_reads_back` needs,
/// no row's line may hold a newline.
pub proof fn law_probe_command_reads_back(ip: Seq<char>, label: Seq<char>, rows: Seq<ProbeRowView>)
    requires
        one_word(ip),
        one_word(label),
        !contains(ip, banner_key()),
        !contains(label, banner_key()),
        !starts_with(label, name_key()),
        forall|i: int| 0 <= i < rows.len() ==> readable_row(#[trigger] rows[i]),
        forall|i: int| 0 <= i < rows.len() ==> free_of(crate::logfmt::probe_line(#[trigger] rows[i]), '\n'),
    ensures
        log_rows(lines(crate::fleet::probe_stdout_text(ip, label, rows))) == rows.map_values(
            |r: ProbeRowView| read_back(r, ip, label),
        ),
{
    let ls = probe_output(ip, label, rows);
    reveal_strlit("PROBE_IP=");
    reveal_strlit(" NAME=");
    let b = crate::fleet::probe_banner_text(ip, label);
    assert(b =~= banner_key() + ip + seq![' '] + name_key() + label);
    assert forall|i: int| 0 <= i < ls.len() implies free_of(#[trigger] ls[i], '\n') by {
        if i == 0 {
            assert(ls[0] == b);
            assert forall|q: int| 0 <= q < b.len() implies b[q] != '\n' by {
                if 9 <= q < 9 + ip.len() {
                    assert(b[q] == ip[q - 9]);
                } else if q >= 15 + ip.len() {
                    assert(b[q] == label[q - 15 - ip.len()]);
                }
            }
        } else {
            assert(ls[i] == crate::logfmt::probe_line(rows[i - 1]));
        }
    }
    assert forall|i: int| 0 <= i < ls.len() implies crate::text::strip_cr(#[trigger] ls[i]) == ls[i] by {
        if i == 0 {
            assert(b.last() == label.last());
            assert(label.last() == label[label.len() - 1]);
        } else {
            let r = rows[i - 1];
            assert(ls[i] == crate::logfmt::probe_line(r));
            let fs = crate::logfmt::probe_line_fields(r);
            crate::text::lemma_decimal_digits(r.ts as nat);
            let t = crate::logfmt::ts_text(r.ts);
            assert(fs.last() == t);
            lemma_join_last(fs, seq![',']);
            assert(crate::text::is_digit(t[t.len() - 1]));
        }
    }
    lemma_lines_of_written(ls);
    law_probe_output_reads_back(ip, label, rows);
}

} // verus!
