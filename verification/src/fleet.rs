//! The command-line agent's own decisions and output lines: who a
//! measurement is labelled as, what the `probe`, `audit`, `corroborate`
//! and `list-servers` subcommands print, and how `run-all` splits the fleet
//! into batches and relays what each server printed.

use vstd::prelude::*;

use crate::corroborate::CorroRow;
use crate::model::{ProbeRow, ProbeRowView, ServerEntry};
use crate::text::{
    chars_of, decimal, join, join_strings, lines, lines_of, push_chars, push_decimal, push_str,
    starts_with, str_views, string_from_chars, trim, trim_chars, views,
};

verus! {

/// The line that `list-servers` prints for a server: address, name, the
/// key path redacted, port and user, separated by `|`.
pub open spec fn server_listing(s: ServerEntry) -> Seq<char> {
    s.ip@ + "|"@ + s.name@ + "|<redacted>|"@ + decimal(s.port as nat) + "|"@ + s.user@
}

/// The line that `list-servers` prints for a server; the private key path
/// never appears in it.
pub fn server_listing_line(s: &ServerEntry) -> (r: String)
    ensures
        r@ == server_listing(*s),
{
    let mut out = String::from_str(s.ip.as_str());
    push_str(&mut out, "|");
    push_str(&mut out, s.name.as_str());
    push_str(&mut out, "|<redacted>|");
    push_decimal(&mut out, s.port as u64);
    push_str(&mut out, "|");
    push_str(&mut out, s.user.as_str());
    out
}

/// The first line of the `probe` output: the vantage point's address and
/// name.
pub open spec fn probe_banner_text(ip: Seq<char>, label: Seq<char>) -> Seq<char> {
    "PROBE_IP="@ + ip + " NAME="@ + label
}

/// The first line of the `probe` output.
pub fn probe_banner(ip: &str, label: &str) -> (r: String)
    ensures
        r@ == probe_banner_text(ip@, label@),
{
    let mut out = String::from_str("PROBE_IP=");
    push_str(&mut out, ip);
    push_str(&mut out, " NAME=");
    push_str(&mut out, label);
    out
}

/// What the `probe` subcommand prints: its banner, then the log line of
/// each row (as `emit_probe_row` writes it), each line ended by a newline.
pub open spec fn probe_stdout_text(ip: Seq<char>, label: Seq<char>, rows: Seq<ProbeRowView>) -> Seq<char> {
    join(crate::aggregate::probe_output(ip, label, rows), seq!['\n']) + seq!['\n']
}

/// The output of the `probe` subcommand for the rows it measured.
pub fn probe_stdout(ip: &str, label: &str, rows: &[ProbeRow]) -> (r: String)
    ensures
        r@ == probe_stdout_text(ip@, label@, crate::aggregate::row_views(rows@)),
{
    let ghost rv = crate::aggregate::row_views(rows@);
    let mut out = probe_banner(ip, label);
    let n = rows.len();
    assert(crate::aggregate::probe_output(ip@, label@, rv.take(0)) =~= seq![probe_banner_text(ip@, label@)]);
    for i in 0..n
        invariant
            n == rows@.len(),
            rv == crate::aggregate::row_views(rows@),
            out@ == join(crate::aggregate::probe_output(ip@, label@, rv.take(i as int)), seq!['\n']),
    {
        let ghost prev = crate::aggregate::probe_output(ip@, label@, rv.take(i as int));
        assert(rv[i as int] == rows@[i as int]@);
        assert(crate::aggregate::probe_output(ip@, label@, rv.take(i + 1)) =~= prev.push(
            crate::logfmt::probe_line(rv[i as int]),
        ));
        proof {
            crate::text::lemma_join_push(prev, seq!['\n'], crate::logfmt::probe_line(rv[i as int]));
        }
        crate::text::push_char(&mut out, '\n');
        let line = crate::logfmt::emit_probe_row(&rows[i]);
        push_str(&mut out, line.as_str());
        assert(out@ =~= join(
            crate::aggregate::probe_output(ip@, label@, rv.take(i + 1)),
            seq!['\n'],
        ));
    }
    assert(rv.take(n as int) =~= rv);
    crate::text::push_char(&mut out, '\n');
    out
}

/// A value taken from the environment counts only when it is not empty.
pub open spec fn given(v: Option<Seq<char>>) -> Option<Seq<char>> {
    match v {
        Some(x) => if x.len() > 0 {
            Some(x)
        } else {
            None
        },
        None => None,
    }
}

/// The character sequence of an optional string slice.
pub open spec fn opt_view(v: Option<&str>) -> Option<Seq<char>> {
    match v {
        Some(x) => Some(x@),
        None => None,
    }
}

/// Whether an optional value is present and not empty.
fn is_given(v: Option<&str>) -> (b: bool)
    ensures
        b == given(opt_view(v)) is Some,
{
    match v {
        Some(x) => x.unicode_len() > 0,
        None => false,
    }
}

/// The address a probe is labelled with: `FIELD_PROBE_IP` when set and not
/// empty, else the resolved public address, else `unknown`.
pub open spec fn probe_ip_text(env_ip: Option<Seq<char>>, resolved: Option<Seq<char>>) -> Seq<char> {
    match given(env_ip) {
        Some(ip) => ip,
        None => match resolved {
            Some(r) => r,
            None => "unknown"@,
        },
    }
}

/// Whether the public address has to be resolved: `FIELD_PROBE_IP` is
/// unset or empty.
pub fn needs_resolved_ip(env_ip: Option<&str>) -> (b: bool)
    ensures
        b == given(opt_view(env_ip)) is None,
{
    !is_given(env_ip)
}

/// The address a probe is labelled with.
pub fn probe_ip(env_ip: Option<&str>, resolved: Option<&str>) -> (r: String)
    ensures
        r@ == probe_ip_text(opt_view(env_ip), opt_view(resolved)),
{
    if is_given(env_ip) {
        match env_ip {
            Some(x) => String::from_str(x),
            None => String::new(),
        }
    } else {
        match resolved {
            Some(x) => String::from_str(x),
            None => String::from_str("unknown"),
        }
    }
}

/// The name a probe is labelled with: `FIELD_PROBE_NAME` when set and not
/// empty, else the host name, else the address.
pub open spec fn probe_label_text(env_name: Option<Seq<char>>, host: Option<Seq<char>>, ip: Seq<char>) -> Seq<char> {
    match given(env_name) {
        Some(n) => n,
        None => match host {
            Some(h) => h,
            None => ip,
        },
    }
}

/// Whether the host name has to be looked up: `FIELD_PROBE_NAME` is unset
/// or empty.
pub fn needs_host_name(env_name: Option<&str>) -> (b: bool)
    ensures
        b == given(opt_view(env_name)) is None,
{
    !is_given(env_name)
}

/// The name a probe is labelled with.
pub fn probe_label(env_name: Option<&str>, host: Option<&str>, ip: &str) -> (r: String)
    ensures
        r@ == probe_label_text(opt_view(env_name), opt_view(host), ip@),
{
    if is_given(env_name) {
        match env_name {
            Some(x) => String::from_str(x),
            None => String::new(),
        }
    } else {
        match host {
            Some(h) => String::from_str(h),
            None => String::from_str(ip),
        }
    }
}

/// The host name that `hostname` printed: its output trimmed, nothing when
/// that is empty.
pub open spec fn host_name_text(stdout: Seq<char>) -> Option<Seq<char>> {
    if trim(stdout).len() > 0 {
        Some(trim(stdout))
    } else {
        None
    }
}

/// Reads the output of `hostname`.
pub fn host_name(stdout: &str) -> (r: Option<String>)
    ensures
        match r {
            Some(h) => host_name_text(stdout@) == Some(h@),
            None => host_name_text(stdout@) is None,
        },
{
    let cs = chars_of(stdout);
    let t = trim_chars(cs.as_slice());
    if t.len() > 0 {
        Some(string_from_chars(t.as_slice()))
    } else {
        None
    }
}

/// Who an audit is labelled as: `FIELD_PROBE_IP` (even when empty) or
/// `unknown`, and `FIELD_PROBE_NAME` (even when empty) or the address.
pub open spec fn audit_identity_text(env_ip: Option<Seq<char>>, env_name: Option<Seq<char>>) -> (Seq<char>, Seq<char>) {
    let ip = match env_ip {
        Some(x) => x,
        None => "unknown"@,
    };
    let label = match env_name {
        Some(x) => x,
        None => ip,
    };
    (ip, label)
}

/// Who an audit is labelled as.
pub fn audit_identity(env_ip: Option<&str>, env_name: Option<&str>) -> (r: (String, String))
    ensures
        (r.0@, r.1@) == audit_identity_text(opt_view(env_ip), opt_view(env_name)),
{
    let ip = match env_ip {
        Some(x) => String::from_str(x),
        None => String::from_str("unknown"),
    };
    let label = match env_name {
        Some(x) => String::from_str(x),
        None => ip.clone(),
    };
    (ip, label)
}

/// The line that `corroborate` prints for a row: `CORRO:` and target,
/// input, reference anomaly, blocking type, last measurement and count,
/// separated by commas.
pub open spec fn corro_line_text(r: CorroRow) -> Seq<char> {
    "CORRO:"@ + r.target@ + ","@ + r.input@ + ","@ + r.ref_anomaly@ + ","@ + r.blocking_type@
        + ","@ + r.last_measurement@ + ","@ + decimal(r.probe_count as nat)
}

/// The line that `corroborate` prints for a row.
pub fn corro_line(r: &CorroRow) -> (s: String)
    ensures
        s@ == corro_line_text(*r),
{
    let mut out = String::from_str("CORRO:");
    push_str(&mut out, r.target.as_str());
    push_str(&mut out, ",");
    push_str(&mut out, r.input.as_str());
    push_str(&mut out, ",");
    push_str(&mut out, r.ref_anomaly.as_str());
    push_str(&mut out, ",");
    push_str(&mut out, r.blocking_type.as_str());
    push_str(&mut out, ",");
    push_str(&mut out, r.last_measurement.as_str());
    push_str(&mut out, ",");
    push_decimal(&mut out, r.probe_count as u64);
    out
}

/// The banner of `run-all`.
pub open spec fn run_all_banner_text(n_servers: nat, min_interval: nat) -> Seq<char> {
    "=== field-monitor run-all: "@ + decimal(n_servers) + " servers (rate-limit "@ + decimal(
        min_interval,
    ) + "s/target, max 4 in parallel) ==="@
}

/// The banner of `run-all`.
pub fn run_all_banner(n_servers: usize, min_interval: u64) -> (r: String)
    ensures
        r@ == run_all_banner_text(n_servers as nat, min_interval as nat),
{
    let mut out = String::from_str("=== field-monitor run-all: ");
    push_decimal(&mut out, n_servers as u64);
    push_str(&mut out, " servers (rate-limit ");
    push_decimal(&mut out, min_interval);
    push_str(&mut out, "s/target, max 4 in parallel) ===");
    out
}

/// How many servers run at once: the configured batch size, or, when it is
/// 0, all of them (at least one).
pub open spec fn batch_width_of(batch_size: nat, n: nat) -> nat {
    if batch_size == 0 {
        if n > 1 {
            n
        } else {
            1
        }
    } else {
        batch_size
    }
}

/// How many servers run at once.
pub fn batch_width(batch_size: usize, n: usize) -> (w: usize)
    ensures
        w == batch_width_of(batch_size as nat, n as nat),
        w > 0,
{
    if batch_size == 0 {
        if n > 1 {
            n
        } else {
            1
        }
    } else {
        batch_size
    }
}

/// Where the batch that starts at `start` ends: `width` servers later, or
/// at the end of the fleet.
pub open spec fn batch_end_of(start: nat, width: nat, n: nat) -> nat {
    if start + width < n {
        start + width
    } else {
        n
    }
}

/// Where the batch that starts at `start` ends.
pub fn batch_end(start: usize, width: usize, n: usize) -> (e: usize)
    requires
        start <= n,
    ensures
        e == batch_end_of(start as nat, width as nat, n as nat),
{
    if width < n - start {
        start + width
    } else {
        n
    }
}

/// The batches of a fleet of `n` servers, as (start, end) ranges from
/// `start` on.
pub open spec fn batches_from(start: nat, width: nat, n: nat) -> Seq<(nat, nat)>
    decreases n - start,
{
    if width == 0 || start >= n {
        Seq::empty()
    } else {
        seq![(start, batch_end_of(start, width, n))] + batches_from(
            batch_end_of(start, width, n),
            width,
            n,
        )
    }
}

/// The batches in which `run-all` visits a fleet of `n` servers.
pub open spec fn batches(width: nat, n: nat) -> Seq<(nat, nat)> {
    batches_from(0, width, n)
}

/// Law: the batches of `run-all` split the fleet into consecutive ranges
/// that are not empty and hold at most `width` servers each, the first
/// starting at the first server and the last ending at the last one, so
/// that every server is visited exactly once, in order.
pub proof fn law_batches_cover_fleet(start: nat, width: nat, n: nat)
    requires
        width > 0,
        start <= n,
    ensures
        ({
            let b = batches_from(start, width, n);
            &&& (b.len() == 0 <==> start == n)
            &&& b.len() > 0 ==> b[0].0 == start && b.last().1 == n
            &&& forall|i: int| 0 <= i < b.len() ==> #[trigger] b[i].0 < b[i].1 && b[i].1 - b[i].0 <= width
            &&& forall|i: int| 0 <= i < b.len() - 1 ==> #[trigger] b[i].1 == b[i + 1].0
        }),
    decreases n - start,
{
    if start < n {
        let e = batch_end_of(start, width, n);
        law_batches_cover_fleet(e, width, n);
        let rest = batches_from(e, width, n);
        let b = batches_from(start, width, n);
        assert(b == seq![(start, e)] + rest);
        assert forall|i: int| 0 <= i < b.len() implies #[trigger] b[i].0 < b[i].1 && b[i].1 - b[i].0
            <= width by {
            if i > 0 {
                assert(b[i] == rest[i - 1]);
            }
        }
        assert forall|i: int| 0 <= i < b.len() - 1 implies #[trigger] b[i].1 == b[i + 1].0 by {
            if i > 0 {
                assert(b[i] == rest[i - 1]);
                assert(b[i + 1] == rest[i]);
            } else {
                assert(b[1] == rest[0]);
            }
        }
        if rest.len() > 0 {
            assert(b.last() == rest.last());
        }
    }
}

/// The batch `k` of the batches from `start` starts `k` widths after it.
proof fn lemma_batch_at(start: nat, width: nat, n: nat, k: int)
    requires
        width > 0,
        0 <= k < batches_from(start, width, n).len(),
    ensures
        batches_from(start, width, n)[k] == (
            (start + k * width) as nat,
            batch_end_of((start + k * width) as nat, width, n),
        ),
    decreases k,
{
    let e = batch_end_of(start, width, n);
    let rest = batches_from(e, width, n);
    assert(batches_from(start, width, n) == seq![(start, e)] + rest);
    if k > 0 {
        assert(batches_from(start, width, n)[k] == rest[k - 1]);
        assert(e < n);
        assert(e == start + width);
        lemma_batch_at(e, width, n, k - 1);
        assert((k - 1) * width + width == k * width) by (nonlinear_arith);
        assert(e + (k - 1) * width == start + k * width);
    } else {
        assert(k * width == 0) by (nonlinear_arith)
            requires
                k == 0,
        ;
    }
}

/// Law: batch `k` of `run-all` is the servers from `k * width` up to
/// `k * width + width`, or to the end of the fleet when fewer are left.
pub proof fn law_batch_is_kth_range(width: nat, n: nat, k: int)
    requires
        width > 0,
        0 <= k < batches(width, n).len(),
    ensures
        batches(width, n)[k] == (
            (k * width) as nat,
            if k * width + width < n {
                (k * width + width) as nat
            } else {
                n
            },
        ),
{
    lemma_batch_at(0, width, n, k);
}

/// Whether a line of a server's output is relayed by `run-all`: remote
/// errors, the probe banner, audit lines and probe lines.
pub open spec fn relayed(line: Seq<char>) -> bool {
    starts_with(line, "# remote-stderr:"@) || starts_with(line, "PROBE_IP="@) || starts_with(
        line,
        "AUDIT:"@,
    ) || crate::text::contains(line, "target,"@)
}

/// How a relayed line is shown: the server's position in the fleet
/// (counted from one), its address, an arrow and the line.
pub open spec fn relay_line_text(pos: nat, ip: Seq<char>, line: Seq<char>) -> Seq<char> {
    "["@ + decimal(pos) + "] "@ + ip + " -> "@ + line
}

/// The relayed lines of a server's output, in order.
pub open spec fn relay_lines_text(pos: nat, ip: Seq<char>, ls: Seq<Seq<char>>) -> Seq<Seq<char>>
    decreases ls.len(),
{
    if ls.len() == 0 {
        Seq::empty()
    } else {
        let r = relay_lines_text(pos, ip, ls.drop_last());
        if relayed(ls.last()) {
            r.push(relay_line_text(pos, ip, ls.last()))
        } else {
            r
        }
    }
}

/// Whether `run-all` relays a line.
pub fn is_relayed(line: &[char]) -> (b: bool)
    ensures
        b == relayed(line@),
{
    let a = chars_of("# remote-stderr:");
    let p = chars_of("PROBE_IP=");
    let u = chars_of("AUDIT:");
    let t = chars_of("target,");
    crate::text::has_prefix(line, a.as_slice()) || crate::text::has_prefix(line, p.as_slice())
        || crate::text::has_prefix(line, u.as_slice()) || crate::text::find_chars(
        line,
        t.as_slice(),
    ).is_some()
}

/// The lines that `run-all` relays from the output of the server at
/// `index` (counted from zero) with address `ip`.
pub fn relay_lines(index: usize, ip: &str, output: &str) -> (r: Vec<String>)
    requires
        index < usize::MAX,
    ensures
        str_views(r@) == relay_lines_text((index + 1) as nat, ip@, lines(output@)),
{
    let cs = chars_of(output);
    let ls = lines_of(cs.as_slice());
    let ghost lv = views(ls@);
    let pos = index + 1;
    let mut out: Vec<String> = Vec::new();
    let n = ls.len();
    assert(lv.take(0) =~= Seq::<Seq<char>>::empty());
    assert(str_views(out@) =~= Seq::<Seq<char>>::empty());
    for i in 0..n
        invariant
            n == ls@.len(),
            lv == views(ls@),
            lv == lines(output@),
            pos == index + 1,
            str_views(out@) == relay_lines_text(pos as nat, ip@, lv.take(i as int)),
    {
        let ghost prev = out@;
        assert(lv.take(i + 1).drop_last() =~= lv.take(i as int));
        assert(lv.take(i + 1).last() == lv[i as int]);
        assert(ls@[i as int]@ == lv[i as int]);
        if is_relayed(ls[i].as_slice()) {
            let mut l = String::from_str("[");
            push_decimal(&mut l, pos as u64);
            push_str(&mut l, "] ");
            push_str(&mut l, ip);
            push_str(&mut l, " -> ");
            push_chars(&mut l, ls[i].as_slice());
            assert(l@ =~= relay_line_text(pos as nat, ip@, lv[i as int]));
            out.push(l);
            assert(str_views(out@) =~= str_views(prev).push(l@));
        }
    }
    assert(lv.take(n as int) =~= lv);
    out
}

/// What `run-all` puts before each relayed line of a server.
pub open spec fn relay_prefix(pos: nat, ip: Seq<char>) -> Seq<char> {
    "["@ + decimal(pos) + "] "@ + ip + " -> "@
}

/// No `target,` starts inside the relay prefix of a server whose address
/// holds none.
proof fn lemma_relay_prefix_inert(pos: nat, ip: Seq<char>, line: Seq<char>, j: int)
    requires
        !crate::text::contains(ip, crate::logfmt::probe_prefix()),
        0 <= j < relay_prefix(pos, ip).len(),
    ensures
        !crate::text::occurs_at(relay_prefix(pos, ip) + line, crate::logfmt::probe_prefix(), j),
{
    let p = relay_prefix(pos, ip);
    let s = p + line;
    let pat = crate::logfmt::probe_prefix();
    let d = decimal(pos);
    reveal_strlit("[");
    reveal_strlit("] ");
    reveal_strlit(" -> ");
    crate::text::lemma_decimal_digits(pos);
    let dl = d.len() as int;
    let il = ip.len() as int;
    assert(p.len() == 7 + dl + il);
    assert(pat =~= seq!['t', 'a', 'r', 'g', 'e', 't', ',']);
    if crate::text::occurs_at(s, pat, j) {
        assert forall|k: int| 0 <= k < 7 implies s[j + k] == pat[k] by {
            assert(s.subrange(j, j + 7)[k] == s[j + k]);
        }
        assert(s[j] == 't');
        if j == 0 {
            assert(s[0] == '[');
        } else if j < 1 + dl {
            assert(s[j] == d[j - 1]);
            assert(crate::text::is_digit(d[j - 1]));
        } else if j == 1 + dl {
            assert(s[j] == ']');
        } else if j == 2 + dl {
            assert(s[j] == ' ');
        } else if j < 3 + dl + il {
            if j + 7 <= 3 + dl + il {
                let at = j - 3 - dl;
                assert forall|k: int| 0 <= k < 7 implies #[trigger] ip[at + k] == s[j + k] by {}
                assert(ip.subrange(at, at + 7) =~= pat);
                assert(crate::text::occurs_at(ip, pat, at));
                crate::text::lemma_find(ip, pat);
            } else {
                let k = 3 + dl + il - j;
                assert(s[j + k] == ' ');
                assert(pat[k] != ' ');
            }
        } else {
            let e = j - 3 - dl - il;
            assert(s[j] == " -> "@[e]);
        }
    }
}

/// Law: a probe line that `run-all` relays, behind the server's position and
/// address, reads as the line itself, whatever the position and for any
/// address without `target,` in it, so the aggregator reads the relayed
/// output of `run-all` as it reads a server's own log.
pub proof fn law_relayed_probe_line_reads_the_same(
    pos: nat,
    ip: Seq<char>,
    line: Seq<char>,
    server: Seq<char>,
    label: Seq<char>,
)
    requires
        !crate::text::contains(ip, crate::logfmt::probe_prefix()),
    ensures
        crate::logfmt::parse_probe_spec(relay_line_text(pos, ip, line), server, label)
            == crate::logfmt::parse_probe_spec(line, server, label),
{
    let p = relay_prefix(pos, ip);
    let s = p + line;
    let pat = crate::logfmt::probe_prefix();
    assert(relay_line_text(pos, ip, line) =~= s);
    crate::text::lemma_find(s, pat);
    crate::text::lemma_find(line, pat);
    let pl = p.len() as int;
    assert forall|j: int| 0 <= j < pl implies !crate::text::occurs_at(s, pat, j) by {
        lemma_relay_prefix_inert(pos, ip, line, j);
    }
    assert forall|j: int| 0 <= j implies crate::text::occurs_at(s, pat, pl + j)
        == crate::text::occurs_at(line, pat, j) by {
        if pl + j + pat.len() <= s.len() {
            assert(s.subrange(pl + j, pl + j + pat.len()) =~= line.subrange(j, j + pat.len()));
        }
    }
    match crate::text::find(line, pat) {
        Some(k) => {
            assert(crate::text::occurs_at(s, pat, pl + k));
            match crate::text::find(s, pat) {
                Some(k2) => {
                    if k2 < pl + k {
                        if k2 >= pl {
                            assert(crate::text::occurs_at(line, pat, k2 - pl));
                        }
                    }
                    assert(k2 == pl + k);
                    assert(s.skip(k2 as int) =~= line.skip(k as int));
                },
                None => {},
            }
        },
        None => {
            match crate::text::find(s, pat) {
                Some(k2) => {
                    if k2 >= pl {
                        assert(crate::text::occurs_at(line, pat, k2 - pl));
                    }
                },
                None => {},
            }
        },
    }
}

/// How `run-all` reports a server that could not be reached.
pub open spec fn error_line_text(pos: nat, ip: Seq<char>, err: Seq<char>) -> Seq<char> {
    "["@ + decimal(pos) + "] "@ + ip + " — error: "@ + err
}

/// The line that reports a failed remote run of the server at `index`.
pub fn error_line(index: usize, ip: &str, err: &str) -> (r: String)
    requires
        index < usize::MAX,
    ensures
        r@ == error_line_text((index + 1) as nat, ip@, err@),
{
    let mut l = String::from_str("[");
    push_decimal(&mut l, (index + 1) as u64);
    push_str(&mut l, "] ");
    push_str(&mut l, ip);
    push_str(&mut l, " — error: ");
    push_str(&mut l, err);
    l
}

/// The cross-compiled binary that aarch64 servers are given.
pub open spec fn aarch64_binary() -> Seq<char> {
    "target/aarch64-unknown-linux-gnu/release/field-monitor"@
}

/// The binary uploaded to a server: the aarch64 build for a server whose
/// architecture is `aarch64` (surrounding whitespace ignored), else the
/// running binary.
pub open spec fn binary_for(arch: Seq<char>, self_bin: Seq<char>) -> Seq<char> {
    if trim(arch) == "aarch64"@ {
        aarch64_binary()
    } else {
        self_bin
    }
}

/// The binary to upload to a server of architecture `arch`.
pub fn bin_for_arch(arch: &str, self_bin: &str) -> (r: String)
    ensures
        r@ == binary_for(arch@, self_bin@),
{
    let cs = chars_of(arch);
    let t = trim_chars(cs.as_slice());
    let want = chars_of("aarch64");
    if crate::text::chars_equal(t.as_slice(), want.as_slice()) {
        String::from_str("target/aarch64-unknown-linux-gnu/release/field-monitor")
    } else {
        String::from_str(self_bin)
    }
}

/// The message of a failed copy of the binary: the exit status and the
/// trimmed error output of `scp`.
pub open spec fn scp_failure_text(status: Seq<char>, stderr: Seq<char>) -> Seq<char> {
    "scp failed ("@ + status + "): "@ + trim(stderr)
}

/// The message of a failed copy of the binary.
pub fn scp_failure(status: &str, stderr: &str) -> (r: String)
    ensures
        r@ == scp_failure_text(status@, stderr@),
{
    let mut m = String::from_str("scp failed (");
    push_str(&mut m, status);
    push_str(&mut m, "): ");
    let cs = chars_of(stderr);
    let t = trim_chars(cs.as_slice());
    push_chars(&mut m, t.as_slice());
    m
}

/// The message of a failed remote run: the subcommand, the exit status and
/// the trimmed error output of `ssh`.
pub open spec fn ssh_failure_text(subcmd: Seq<char>, status: Seq<char>, stderr: Seq<char>) -> Seq<char> {
    "ssh "@ + subcmd + " failed ("@ + status + "): "@ + trim(stderr)
}

/// The message of a failed remote run.
pub fn ssh_failure(subcmd: &str, status: &str, stderr: &str) -> (r: String)
    ensures
        r@ == ssh_failure_text(subcmd@, status@, stderr@),
{
    let mut m = String::from_str("ssh ");
    push_str(&mut m, subcmd);
    push_str(&mut m, " failed (");
    push_str(&mut m, status);
    push_str(&mut m, "): ");
    let cs = chars_of(stderr);
    let t = trim_chars(cs.as_slice());
    push_chars(&mut m, t.as_slice());
    m
}

/// A server's block of relayed lines, printed at once.
pub fn server_block(lines: &[String]) -> (r: String)
    ensures
        r@ == join(str_views(lines@), "\n"@),
{
    join_strings(lines, "\n")
}

} // verus!
