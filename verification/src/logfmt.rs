//! The probe log line: one writer (`emit_probe_row`) and one reader
//! (`parse_probe_line`), so the two cannot drift apart.

use vstd::prelude::*;

use crate::model::{AuditRow, ProbeRow, ProbeRowView};
use crate::text::{
    alphabetic, chars_equal, chars_of, decimal, decimal_string, find, find_chars, free_of,
    is_alphabetic, join, join_strings, lemma_decimal_digits, lemma_find, lemma_find_at_start,
    lemma_join_starts, lemma_parse_decimal, lemma_split_join, parse_u16, parse_u16_spec, parse_u64,
    parse_u64_spec, push_char, slice_chars, split_chars, split_on, str_views, string_from_chars,
    views,
};

verus! {

/// Prefix of a probe CSV line, e.g. `target,github.com,...`.
pub const PROBE_PREFIX: &'static str = "target,";

/// Prefix of an audit line.
pub const AUDIT_PREFIX: &'static str = "AUDIT:";

/// Prefix of a cross-check line.
pub const CORRO_PREFIX: &'static str = "CORRO:";

/// Prefix of the line that names the vantage point.
pub const PROBE_IP_PREFIX: &'static str = "PROBE_IP=";

/// Number of CSV fields of the oldest probe lines (the literal `target`
/// first), the fewest a probe line may have.
pub const PROBE_FIELDS: usize = 10;

/// `-`, written where a number is absent.
pub open spec fn dash() -> Seq<char> {
    seq!['-']
}

/// Text of an optional number: its decimal digits, or `-`.
pub open spec fn fnum_text(v: Option<u64>) -> Seq<char> {
    match v {
        Some(n) => decimal(n as nat),
        None => dash(),
    }
}

/// Text of an optional HTTP status code: its decimal digits, or `-`.
pub open spec fn code_text(v: Option<u16>) -> Seq<char> {
    match v {
        Some(n) => decimal(n as nat),
        None => dash(),
    }
}

/// `1` for true, `0` for false.
pub open spec fn flag_text(b: bool) -> Seq<char> {
    if b {
        seq!['1']
    } else {
        seq!['0']
    }
}

/// The literal first field of a probe line.
pub open spec fn target_word() -> Seq<char> {
    seq!['t', 'a', 'r', 'g', 'e', 't']
}

/// `target,`: what every probe line holds before its fields.
pub open spec fn probe_prefix() -> Seq<char> {
    target_word().push(',')
}

/// The twelve comma-separated fields of the canonical probe line.
pub open spec fn probe_line_fields(r: ProbeRowView) -> Seq<Seq<char>> {
    seq![
        target_word(),
        r.target,
        r.dns_ip,
        fnum_text(r.dns_ms),
        code_text(r.https_code),
        fnum_text(r.https_ms),
        r.tcp,
        fnum_text(r.tcp_ms),
        r.icmp,
        fnum_text(r.icmp_ms),
        flag_text(r.partial),
        ts_text(r.ts),
    ]
}

/// Decimal text of a timestamp.
pub open spec fn ts_text(ts: u64) -> Seq<char> {
    decimal(ts as nat)
}

/// The canonical probe line of a row.
pub open spec fn probe_line(r: ProbeRowView) -> Seq<char> {
    join(probe_line_fields(r), seq![','])
}

/// The fields of a probe line: everything from the first `target,` on, split
/// at commas; there must be at least ten, and the target name must start
/// with an alphabetic character.
pub open spec fn probe_fields(line: Seq<char>) -> Option<Seq<Seq<char>>> {
    match find(line, probe_prefix()) {
        Some(k) => {
            let f = split_on(line.skip(k as int), ',');
            if f.len() >= 10 && f[1].len() > 0 && alphabetic(f[1][0]) {
                Some(f)
            } else {
                None
            }
        },
        None => None,
    }
}

/// An ASCII letter, `a` to `z` or `A` to `Z`.
pub open spec fn ascii_letter(c: char) -> bool {
    ('a' <= c && c <= 'z') || ('A' <= c && c <= 'Z')
}

/// A probe line whose target starts with an ASCII letter: from its first
/// `target,` on it has at least ten comma-separated fields. Such a line is
/// always read (ASCII letters are alphabetic).
pub open spec fn ascii_probe_line(line: Seq<char>) -> bool {
    match find(line, probe_prefix()) {
        Some(k) => {
            let f = split_on(line.skip(k as int), ',');
            f.len() >= 10 && f[1].len() > 0 && ascii_letter(f[1][0])
        },
        None => false,
    }
}

/// A field that parses to a number of 60000 or more.
pub open spec fn implausible(s: Seq<char>) -> bool {
    match parse_u64_spec(s) {
        Some(n) => n >= 60000,
        None => false,
    }
}

/// The row that the fields of a probe line describe.
pub open spec fn row_of_fields(f: Seq<Seq<char>>, ip: Seq<char>, label: Seq<char>) -> ProbeRowView {
    ProbeRowView {
        server: ip,
        label: label,
        target: f[1],
        dns_ip: f[2],
        dns_ms: parse_u64_spec(f[3]),
        https_code: parse_u16_spec(f[4]),
        https_ms: parse_u64_spec(f[5]),
        tcp: f[6],
        tcp_ms: parse_u64_spec(f[7]),
        icmp: f[8],
        icmp_ms: parse_u64_spec(f[9]),
        sane: !(implausible(f[3]) || implausible(f[5]) || implausible(f[7]) || implausible(f[9])),
        partial: f.len() > 10 && f[10] == seq!['1'],
        ts: if f.len() > 11 {
            match parse_u64_spec(f[11]) {
                Some(t) => t,
                None => 0,
            }
        } else {
            0
        },
    }
}

/// What a line reads as: a row, or nothing if it is not a probe line.
pub open spec fn parse_probe_spec(line: Seq<char>, ip: Seq<char>, label: Seq<char>) -> Option<ProbeRowView> {
    match probe_fields(line) {
        Some(f) => Some(row_of_fields(f, ip, label)),
        None => None,
    }
}

/// Formats `Some(n)` as its decimal digits and `None` as `-`.
pub fn fnum(v: Option<u64>) -> (r: String)
    ensures
        r@ == fnum_text(v),
{
    match v {
        Some(n) => decimal_string(n),
        None => {
            let mut s = String::new();
            push_char(&mut s, '-');
            s
        },
    }
}

/// Formats an optional status code as its decimal digits or `-`.
pub fn code_string(v: Option<u16>) -> (r: String)
    ensures
        r@ == code_text(v),
{
    match v {
        Some(n) => decimal_string(n as u64),
        None => fnum(None),
    }
}

/// A string of one character.
pub fn char_string(c: char) -> (r: String)
    ensures
        r@ == seq![c],
{
    let mut s = String::new();
    push_char(&mut s, c);
    s
}

/// Serializes a probe row to its canonical CSV line.
pub fn emit_probe_row(r: &ProbeRow) -> (s: String)
    ensures
        s@ == probe_line(r@),
{
    let mut fields: Vec<String> = Vec::new();
    let word = String::from_str("target");
    proof {
        reveal_strlit("target");
    }
    assert(word@ =~= target_word());
    fields.push(word);
    fields.push(r.target.clone());
    fields.push(r.dns_ip.clone());
    fields.push(fnum(r.dns_ms));
    fields.push(code_string(r.https_code));
    fields.push(fnum(r.https_ms));
    fields.push(r.tcp.clone());
    fields.push(fnum(r.tcp_ms));
    fields.push(r.icmp.clone());
    fields.push(fnum(r.icmp_ms));
    fields.push(char_string(if r.partial { '1' } else { '0' }));
    fields.push(decimal_string(r.ts));
    let sep = char_string(',');
    assert(str_views(fields@) =~= probe_line_fields(r@));
    join_strings(fields.as_slice(), sep.as_str())
}

/// The comma-separated fields of a probe line, when it is one.
pub fn split_probe_fields(line: &str) -> (r: Option<Vec<Vec<char>>>)
    ensures
        match r {
            Some(f) => probe_fields(line@) == Some(views(f@)),
            None => probe_fields(line@) is None,
        },
        ascii_probe_line(line@) ==> r is Some,
{
    let cs = chars_of(line);
    let prefix = chars_of("target,");
    proof {
        reveal_strlit("target,");
    }
    assert(prefix@ =~= probe_prefix());
    let k = match find_chars(cs.as_slice(), prefix.as_slice()) {
        Some(k) => k,
        None => return None,
    };
    proof {
        lemma_find(cs@, prefix@);
    }
    let csv = slice_chars(cs.as_slice(), k, cs.len());
    assert(csv@ == cs@.skip(k as int));
    let f = split_chars(csv.as_slice(), ',');
    let ghost fv = split_on(csv@, ',');
    assert(views(f@) == fv);
    if f.len() < 10 {
        return None;
    }
    assert(f@[1]@ == fv[1]);
    if f[1].len() == 0 {
        return None;
    }
    if !is_alphabetic(f[1][0]) {
        return None;
    }
    Some(f)
}

/// Parses a probe CSV line (possibly behind a `[N] IP -> ` prefix) into a
/// row of the given server; `None` when the line is not a probe line.
pub fn parse_probe_line(line: &str, server_ip: &str, server_label: &str) -> (r: Option<ProbeRow>)
    ensures
        match r {
            Some(row) => parse_probe_spec(line@, server_ip@, server_label@) == Some(row@),
            None => parse_probe_spec(line@, server_ip@, server_label@) is None,
        },
        ascii_probe_line(line@) ==> r is Some,
{
    let f = match split_probe_fields(line) {
        Some(f) => f,
        None => return None,
    };
    let ghost fv = views(f@);
    assert forall|i: int| 0 <= i < f@.len() implies #[trigger] f@[i]@ == fv[i] by {}
    let dns_ms = parse_u64(f[3].as_slice());
    let https_code = parse_u16(f[4].as_slice());
    let https_ms = parse_u64(f[5].as_slice());
    let tcp_ms = parse_u64(f[7].as_slice());
    let icmp_ms = parse_u64(f[9].as_slice());
    let huge3 = match dns_ms { Some(n) => n >= 60000, None => false };
    let huge5 = match https_ms { Some(n) => n >= 60000, None => false };
    let huge7 = match tcp_ms { Some(n) => n >= 60000, None => false };
    let huge9 = match icmp_ms { Some(n) => n >= 60000, None => false };
    let partial = if f.len() > 10 {
        let one = vec!['1'];
        assert(one@ =~= seq!['1']);
        chars_equal(f[10].as_slice(), one.as_slice())
    } else {
        false
    };
    let ts = if f.len() > 11 {
        match parse_u64(f[11].as_slice()) {
            Some(t) => t,
            None => 0,
        }
    } else {
        0
    };
    let row = ProbeRow {
        server: String::from_str(server_ip),
        label: String::from_str(server_label),
        target: string_from_chars(f[1].as_slice()),
        dns_ip: string_from_chars(f[2].as_slice()),
        dns_ms: dns_ms,
        https_code: https_code,
        https_ms: https_ms,
        tcp: string_from_chars(f[6].as_slice()),
        tcp_ms: tcp_ms,
        icmp: string_from_chars(f[8].as_slice()),
        icmp_ms: icmp_ms,
        sane: !(huge3 || huge5 || huge7 || huge9),
        partial: partial,
        ts: ts,
    };
    assert(row@ == row_of_fields(fv, server_ip@, server_label@));
    Some(row)
}

/// A number of milliseconds small enough for the parser to call the row sane.
pub open spec fn plausible(v: Option<u64>) -> bool {
    match v {
        Some(n) => n < 60000,
        None => true,
    }
}

proof fn lemma_decimal_free(n: nat)
    ensures
        free_of(decimal(n), ','),
{
    lemma_decimal_digits(n);
    let d = decimal(n);
    assert forall|i: int| 0 <= i < d.len() implies d[i] != ',' by {
        assert(crate::text::is_digit(d[i]));
    }
}

proof fn lemma_fnum_text(v: Option<u64>)
    ensures
        free_of(fnum_text(v), ','),
        parse_u64_spec(fnum_text(v)) == v,
        implausible(fnum_text(v)) == !plausible(v),
{
    match v {
        Some(n) => {
            lemma_decimal_free(n as nat);
            lemma_parse_decimal(n as nat, u64::MAX as nat);
        },
        None => {
            assert(!crate::text::all_digits(dash()));
        },
    }
}

proof fn lemma_code_text(v: Option<u16>)
    ensures
        free_of(code_text(v), ','),
        parse_u16_spec(code_text(v)) == v,
{
    match v {
        Some(n) => {
            lemma_decimal_free(n as nat);
            lemma_parse_decimal(n as nat, u16::MAX as nat);
        },
        None => {
            assert(!crate::text::all_digits(dash()));
        },
    }
}

proof fn lemma_ts_text(t: u64)
    ensures
        free_of(ts_text(t), ','),
        parse_u64_spec(ts_text(t)) == Some(t),
{
    lemma_decimal_free(t as nat);
    lemma_parse_decimal(t as nat, u64::MAX as nat);
}

/// Law (write, then read back): the line that `emit_probe_row` writes for a
/// row reads back, through `parse_probe_line`, as the same row of the same
/// server, with `sane` telling whether every latency is under 60000 ms.
/// It needs what the line format cannot carry otherwise: no comma in the
/// target, DNS IP, TCP and ICMP fields, and a target name that starts with
/// an alphabetic character.
pub proof fn law_probe_line_round_trip(r: ProbeRowView)
    requires
        free_of(r.target, ','),
        free_of(r.dns_ip, ','),
        free_of(r.tcp, ','),
        free_of(r.icmp, ','),
        r.target.len() > 0,
        alphabetic(r.target[0]),
    ensures
        parse_probe_spec(probe_line(r), r.server, r.label) == Some(
            (ProbeRowView {
                sane: plausible(r.dns_ms) && plausible(r.https_ms) && plausible(r.tcp_ms)
                    && plausible(r.icmp_ms),
                ..r
            }),
        ),
{
    let fs = probe_line_fields(r);
    let line = probe_line(r);
    lemma_fnum_text(r.dns_ms);
    lemma_fnum_text(r.https_ms);
    lemma_fnum_text(r.tcp_ms);
    lemma_fnum_text(r.icmp_ms);
    lemma_code_text(r.https_code);
    lemma_ts_text(r.ts);
    assert(free_of(target_word(), ','));
    assert(free_of(flag_text(r.partial), ','));
    assert forall|i: int| 0 <= i < fs.len() implies free_of(#[trigger] fs[i], ',') by {}
    lemma_split_join(fs, ',');
    lemma_join_starts(fs, seq![',']);
    assert(fs[0] + seq![','] =~= probe_prefix());
    lemma_find_at_start(line, probe_prefix());
    assert(line.skip(0) == line);
    if !r.partial {
        assert(flag_text(r.partial)[0] != seq!['1'][0]);
    }
    assert(flag_text(r.partial) == seq!['1'] <==> r.partial);
}

/// `AUDIT:`, which starts every audit line.
pub open spec fn audit_prefix() -> Seq<char> {
    seq!['A', 'U', 'D', 'I', 'T', ':']
}

/// The audit line of a row: `AUDIT:` and the eleven fields joined by `|`.
pub open spec fn audit_line(fields: Seq<Seq<char>>) -> Seq<char> {
    audit_prefix() + join(fields, seq!['|'])
}

/// Serializes an audit row to its `AUDIT:` line.
pub fn emit_audit_line(a: &AuditRow) -> (s: String)
    ensures
        s@ == audit_line(a@),
{
    let mut fields: Vec<String> = Vec::new();
    fields.push(a.ip.clone());
    fields.push(a.name.clone());
    fields.push(a.sudo_nopass.clone());
    fields.push(a.os.clone());
    fields.push(a.ssh_port.clone());
    fields.push(a.ssh_pw.clone());
    fields.push(a.ssh_root.clone());
    fields.push(a.ufw.clone());
    fields.push(a.fail2ban.clone());
    fields.push(a.docker.clone());
    fields.push(a.ports.clone());
    assert(str_views(fields@) =~= a@);
    let sep = char_string('|');
    let body = join_strings(fields.as_slice(), sep.as_str());
    let mut s = String::from_str("AUDIT:");
    proof {
        reveal_strlit("AUDIT:");
    }
    assert(s@ =~= audit_prefix());
    crate::text::push_str(&mut s, body.as_str());
    s
}

} // verus!
