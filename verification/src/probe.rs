//! Probing allowlisted targets: the decisions around the system tools
//! (`dig`, `curl`, TCP connect, `ping`) and the reading of their output.

use vstd::prelude::*;

use crate::model::{ProbeRow, ProbeRowView, Target, safe_target};
use crate::text::{
    chars_of, lines, lines_of, parse_u16, parse_u16_spec, parse_u8, parse_u8_spec, push_str,
    split_chars, split_on, str_views, string_from_chars, trim, trim_chars, views, words, words_of,
};

verus! {

/// What `parse_curl_code` makes of curl's `%{http_code}` output: the
/// trimmed text as a `u16`, or 0.
pub open spec fn curl_code(out: Seq<char>) -> u16 {
    match parse_u16_spec(trim(out)) {
        Some(c) => c,
        None => 0,
    }
}

/// Reads the HTTP status that curl printed; 0 when it is not a number.
pub fn parse_curl_code(output: &str) -> (r: u16)
    ensures
        r == curl_code(output@),
{
    let cs = chars_of(output);
    let t = trim_chars(cs.as_slice());
    match parse_u16(t.as_slice()) {
        Some(c) => c,
        None => 0,
    }
}

/// Four dot-separated parts, each a number that fits a byte.
pub open spec fn dotted_quad(s: Seq<char>) -> bool {
    let p = split_on(s, '.');
    p.len() == 4 && forall|i: int| 0 <= i < 4 ==> parse_u8_spec(#[trigger] p[i]) is Some
}

/// Whether a text is a dotted IPv4 address (four parts, each a byte).
pub fn is_dotted_quad(s: &[char]) -> (r: bool)
    ensures
        r == dotted_quad(s@),
{
    let p = split_chars(s, '.');
    if p.len() != 4 {
        return false;
    }
    let ghost pv = views(p@);
    let mut i: usize = 0;
    while i < 4
        invariant
            p@.len() == 4,
            pv == views(p@),
            pv == split_on(s@, '.'),
            i <= 4,
            forall|j: int| 0 <= j < i ==> parse_u8_spec(#[trigger] pv[j]) is Some,
        decreases 4 - i,
    {
        assert(p@[i as int]@ == pv[i as int]);
        if parse_u8(p[i].as_slice()).is_none() {
            return false;
        }
        i = i + 1;
    }
    true
}

/// The first line of dig's output that is a dotted IPv4 address.
pub open spec fn first_address_line(ls: Seq<Seq<char>>) -> Option<Seq<char>>
    decreases ls.len(),
{
    if ls.len() == 0 {
        None
    } else if dotted_quad(ls[0]) {
        Some(ls[0])
    } else {
        first_address_line(ls.skip(1))
    }
}

/// Reads the address from `dig +short` output: the first line that is a
/// dotted IPv4 address (CNAME lines and the like are passed over).
pub fn parse_dig_output(stdout: &str) -> (r: Option<String>)
    ensures
        match r {
            Some(ip) => first_address_line(lines(stdout@)) == Some(ip@),
            None => first_address_line(lines(stdout@)) is None,
        },
{
    let cs = chars_of(stdout);
    let ls = lines_of(cs.as_slice());
    let ghost lv = views(ls@);
    let n = ls.len();
    let mut i: usize = 0;
    assert(lv.skip(0) =~= lv);
    while i < n
        invariant
            n == ls@.len(),
            lv == views(ls@),
            lv == lines(stdout@),
            i <= n,
            first_address_line(lv) == first_address_line(lv.skip(i as int)),
        decreases n - i,
    {
        assert(ls@[i as int]@ == lv[i as int]);
        assert(lv.skip(i as int)[0] == lv[i as int]);
        assert(lv.skip(i as int).skip(1) =~= lv.skip(i + 1));
        if is_dotted_quad(ls[i].as_slice()) {
            return Some(string_from_chars(ls[i].as_slice()));
        }
        i = i + 1;
    }
    None
}

/// The arguments of the `dig` lookup of `host` with a timeout of `timeout`
/// seconds.
pub fn dig_args(host: &str, timeout: &str) -> (r: Vec<String>)
    ensures
        str_views(r@) == seq!["+short"@, "+time="@ + timeout@, "+tries=1"@, host@],
{
    let mut v: Vec<String> = Vec::new();
    v.push(String::from_str("+short"));
    let mut t = String::from_str("+time=");
    push_str(&mut t, timeout);
    v.push(t);
    v.push(String::from_str("+tries=1"));
    v.push(String::from_str(host));
    assert(str_views(v@) =~= seq!["+short"@, "+time="@ + timeout@, "+tries=1"@, host@]);
    v
}

/// The arguments of the `curl` check of `url`, printing only the status,
/// with a timeout of `timeout` seconds.
pub fn curl_args(url: &str, timeout: &str) -> (r: Vec<String>)
    ensures
        str_views(r@) == seq![
            "-s"@,
            "-o"@,
            "/dev/null"@,
            "-w"@,
            "%{http_code}"@,
            "--max-time"@,
            timeout@,
            url@,
        ],
{
    let mut v: Vec<String> = Vec::new();
    v.push(String::from_str("-s"));
    v.push(String::from_str("-o"));
    v.push(String::from_str("/dev/null"));
    v.push(String::from_str("-w"));
    v.push(String::from_str("%{http_code}"));
    v.push(String::from_str("--max-time"));
    v.push(String::from_str(timeout));
    v.push(String::from_str(url));
    assert(str_views(v@) =~= seq![
        "-s"@,
        "-o"@,
        "/dev/null"@,
        "-w"@,
        "%{http_code}"@,
        "--max-time"@,
        timeout@,
        url@,
    ]);
    v
}

/// The public address to report: the trimmed answer of the operator's
/// lookup service if it is a dotted IPv4 address, else the first word of
/// `hostname -I` if it has four dot-separated parts.
pub open spec fn public_ip_choice(external: Option<Seq<char>>, local: Option<Seq<char>>) -> Option<Seq<char>> {
    let ext_ok = match external {
        Some(e) => dotted_quad(trim(e)),
        None => false,
    };
    if ext_ok {
        Some(trim(external->0))
    } else {
        match local {
            Some(l) => {
                let w = words(trim(l));
                if w.len() > 0 && split_on(w[0], '.').len() == 4 {
                    Some(w[0])
                } else {
                    None
                }
            },
            None => None,
        }
    }
}

/// Picks the server's public address from the output of the optional
/// external lookup and of `hostname -I` (each `None` when not run or
/// failed).
pub fn pick_public_ip(external: Option<&str>, local: Option<&str>) -> (r: Option<String>)
    ensures
        match r {
            Some(ip) => public_ip_choice(
                match external { Some(e) => Some(e@), None => None },
                match local { Some(l) => Some(l@), None => None },
            ) == Some(ip@),
            None => public_ip_choice(
                match external { Some(e) => Some(e@), None => None },
                match local { Some(l) => Some(l@), None => None },
            ) is None,
        },
{
    if let Some(e) = external {
        let cs = chars_of(e);
        let t = trim_chars(cs.as_slice());
        if is_dotted_quad(t.as_slice()) {
            return Some(string_from_chars(t.as_slice()));
        }
    }
    if let Some(l) = local {
        let cs = chars_of(l);
        let t = trim_chars(cs.as_slice());
        let w = words_of(t.as_slice());
        if w.len() > 0 {
            let ghost wv = views(w@);
            assert(w@[0]@ == wv[0]);
            let parts = split_chars(w[0].as_slice(), '.');
            if parts.len() == 4 {
                return Some(string_from_chars(w[0].as_slice()));
            }
        }
    }
    None
}

/// What running the checks of one target gave.
pub struct ProbeOutcomes {
    /// The `dig` lookup (address, ms); `None` when it found nothing. Used
    /// only for targets without a fixed address.
    pub dns: Option<(String, u64)>,
    /// The `curl` check (status, ms); `None` when curl could not be run.
    /// Used only for targets with a URL.
    pub https: Option<(u16, u64)>,
    /// The TCP:443 check (state, ms). Used only for targets whose host is
    /// set and differs from their address.
    pub tcp: (String, Option<u64>),
    /// The ICMP check (state, ms). Used only for targets with an address.
    pub icmp: (String, Option<u64>),
    /// When the target was measured, in seconds since the Unix epoch.
    pub ts: u64,
}

/// Whether the target's address must be looked up with `dig`.
pub open spec fn needs_lookup(t: Target) -> bool {
    t.ip@.len() == 0
}

pub open spec fn needs_https(t: Target) -> bool {
    t.url@.len() > 0
}

pub open spec fn needs_tcp(t: Target) -> bool {
    t.host@.len() > 0 && t.host@ != t.ip@
}

pub open spec fn needs_icmp(t: Target) -> bool {
    t.ip@.len() > 0
}

/// The row that a target's checks give: a fixed address counts as a DNS
/// answer of 0 ms; a failed lookup is `-`; an HTTPS check that could not
/// run is status 0 without latency; unchecked TCP/ICMP are `-`; the row is
/// partial when no check yielded a latency; its time stamp is when the target
/// was measured.
pub open spec fn probe_row_spec(
    label: Seq<char>,
    public_ip: Seq<char>,
    t: Target,
    o: ProbeOutcomes,
) -> ProbeRowView {
    let (dns_ip, dns_ms) = if needs_lookup(t) {
        match o.dns {
            Some(d) => (d.0@, Some(d.1)),
            None => ("-"@, None),
        }
    } else {
        (t.ip@, Some(0u64))
    };
    let (https_code, https_ms) = if needs_https(t) {
        match o.https {
            Some(h) => (Some(h.0), Some(h.1)),
            None => (Some(0u16), None),
        }
    } else {
        (None, None)
    };
    let (tcp, tcp_ms) = if needs_tcp(t) { (o.tcp.0@, o.tcp.1) } else { ("-"@, None) };
    let (icmp, icmp_ms) = if needs_icmp(t) { (o.icmp.0@, o.icmp.1) } else { ("-"@, None) };
    ProbeRowView {
        server: public_ip,
        label: label,
        target: t.name@,
        dns_ip: dns_ip,
        dns_ms: dns_ms,
        https_code: https_code,
        https_ms: https_ms,
        tcp: tcp,
        tcp_ms: tcp_ms,
        icmp: icmp,
        icmp_ms: icmp_ms,
        sane: true,
        partial: dns_ms is None && https_ms is None && tcp_ms is None && icmp_ms is None,
        ts: o.ts,
    }
}

/// A probe row is flagged partial ("could not measure") exactly when none
/// of its four checks gave a latency: a row with a DNS, HTTPS, TCP or ICMP
/// time is never partial. In particular a target with a fixed address is
/// never partial (the address counts as a DNS answer of 0 ms), and neither
/// is one whose lookup, HTTPS check, TCP check or ICMP check it needs gave a
/// time.
pub proof fn law_partial_rows(label: Seq<char>, public_ip: Seq<char>, t: Target, o: ProbeOutcomes)
    ensures
        ({
            let r = probe_row_spec(label, public_ip, t, o);
            &&& r.partial <==> (r.dns_ms is None && r.https_ms is None && r.tcp_ms is None
                && r.icmp_ms is None)
            &&& t.ip@.len() > 0 ==> !r.partial && r.dns_ms == Some(0u64)
            &&& needs_lookup(t) && o.dns is Some ==> !r.partial
            &&& needs_https(t) && o.https is Some ==> !r.partial
            &&& needs_tcp(t) && o.tcp.1 is Some ==> !r.partial
            &&& needs_icmp(t) && o.icmp.1 is Some ==> !r.partial
        }),
{
}

/// Whether the target's address must be looked up with `dig`.
pub fn lookup_needed(t: &Target) -> (b: bool)
    ensures
        b == needs_lookup(*t),
{
    t.ip.as_str().unicode_len() == 0
}

/// Whether the target gets an HTTPS check.
pub fn https_needed(t: &Target) -> (b: bool)
    ensures
        b == needs_https(*t),
{
    t.url.as_str().unicode_len() > 0
}

/// Whether the target gets a TCP:443 check.
pub fn tcp_needed(t: &Target) -> (b: bool)
    ensures
        b == needs_tcp(*t),
{
    let h = chars_of(t.host.as_str());
    let i = chars_of(t.ip.as_str());
    h.len() > 0 && !crate::text::chars_equal(h.as_slice(), i.as_slice())
}

/// Whether the target gets an ICMP check.
pub fn icmp_needed(t: &Target) -> (b: bool)
    ensures
        b == needs_icmp(*t),
{
    t.ip.as_str().unicode_len() > 0
}

/// Assembles the row of one target from what its checks gave.
pub fn probe_row(label: &str, public_ip: &str, t: &Target, o: &ProbeOutcomes) -> (r: ProbeRow)
    ensures
        r@ == probe_row_spec(label@, public_ip@, *t, *o),
{
    let ghost og = *o;
    let dash_s = String::from_str("-");
    let (dns_ip, dns_ms) = if lookup_needed(t) {
        match &o.dns {
            Some(d) => (d.0.clone(), Some(d.1)),
            None => (dash_s.clone(), None),
        }
    } else {
        (t.ip.clone(), Some(0u64))
    };
    let (https_code, https_ms) = if https_needed(t) {
        match o.https {
            Some(h) => (Some(h.0), Some(h.1)),
            None => (Some(0u16), None),
        }
    } else {
        (None, None)
    };
    let (tcp, tcp_ms) = if tcp_needed(t) { (o.tcp.0.clone(), o.tcp.1) } else { (dash_s.clone(), None) };
    let (icmp, icmp_ms) = if icmp_needed(t) { (o.icmp.0.clone(), o.icmp.1) } else { (dash_s.clone(), None) };
    let partial = dns_ms.is_none() && https_ms.is_none() && tcp_ms.is_none() && icmp_ms.is_none();
    let r = ProbeRow {
        server: String::from_str(public_ip),
        label: String::from_str(label),
        target: t.name.clone(),
        dns_ip: dns_ip,
        dns_ms: dns_ms,
        https_code: https_code,
        https_ms: https_ms,
        tcp: tcp,
        tcp_ms: tcp_ms,
        icmp: icmp,
        icmp_ms: icmp_ms,
        sane: true,
        partial: partial,
        ts: o.ts,
    };
    assert(r@ == probe_row_spec(label@, public_ip@, *t, og));
    r
}


/// The rows of a probe run: one per target of the allowlist that passes
/// the safety check (given whether its address parses, `addr_ok`), in order,
/// built from what its checks gave; a refused target gives none.
pub open spec fn probe_rows_spec(
    label: Seq<char>,
    public_ip: Seq<char>,
    targets: Seq<Target>,
    addr_ok: Seq<bool>,
    outcomes: Seq<Option<ProbeOutcomes>>,
) -> Seq<ProbeRowView>
    decreases targets.len(),
{
    if targets.len() == 0 || addr_ok.len() == 0 || outcomes.len() == 0 {
        Seq::empty()
    } else {
        let rest = probe_rows_spec(
            label,
            public_ip,
            targets.drop_last(),
            addr_ok.drop_last(),
            outcomes.drop_last(),
        );
        if safe_target(targets.last(), addr_ok.last()) {
            match outcomes.last() {
                Some(o) => rest.push(probe_row_spec(label, public_ip, targets.last(), o)),
                None => rest,
            }
        } else {
            rest
        }
    }
}

/// How many targets pass the safety check.
pub open spec fn safe_count(targets: Seq<Target>, addr_ok: Seq<bool>) -> nat
    decreases targets.len(),
{
    if targets.len() == 0 || addr_ok.len() == 0 {
        0
    } else {
        safe_count(targets.drop_last(), addr_ok.drop_last()) + if safe_target(
            targets.last(),
            addr_ok.last(),
        ) {
            1nat
        } else {
            0nat
        }
    }
}

/// Every target that passes the safety check was measured.
pub open spec fn safe_ones_measured(
    targets: Seq<Target>,
    addr_ok: Seq<bool>,
    outcomes: Seq<Option<ProbeOutcomes>>,
) -> bool {
    forall|i: int|
        0 <= i < targets.len() && #[trigger] safe_target(targets[i], addr_ok[i]) ==> outcomes[i] is Some
}

/// Law (allowlist only, safe targets only): a probe round gives exactly one
/// row per target of the allowlist that passes the safety check, and every
/// row is a measurement of such a target.
pub proof fn law_probe_rows_are_allowlisted(
    label: Seq<char>,
    public_ip: Seq<char>,
    targets: Seq<Target>,
    addr_ok: Seq<bool>,
    outcomes: Seq<Option<ProbeOutcomes>>,
)
    requires
        addr_ok.len() == targets.len(),
        outcomes.len() == targets.len(),
        safe_ones_measured(targets, addr_ok, outcomes),
    ensures
        probe_rows_spec(label, public_ip, targets, addr_ok, outcomes).len() == safe_count(
            targets,
            addr_ok,
        ),
        forall|k: int|
            0 <= k < probe_rows_spec(label, public_ip, targets, addr_ok, outcomes).len()
                ==> exists|i: int|
                0 <= i < targets.len() && safe_target(targets[i], addr_ok[i]) && (
                #[trigger] probe_rows_spec(label, public_ip, targets, addr_ok, outcomes)[k]).target
                    == targets[i].name@,
    decreases targets.len(),
{
    if targets.len() > 0 {
        let t0 = targets.drop_last();
        let a0 = addr_ok.drop_last();
        let o0 = outcomes.drop_last();
        assert forall|i: int| 0 <= i < t0.len() && #[trigger] safe_target(t0[i], a0[i]) implies o0[i] is Some by {
            assert(t0[i] == targets[i] && a0[i] == addr_ok[i] && o0[i] == outcomes[i]);
        }
        law_probe_rows_are_allowlisted(label, public_ip, t0, a0, o0);
        let rest = probe_rows_spec(label, public_ip, t0, a0, o0);
        let all = probe_rows_spec(label, public_ip, targets, addr_ok, outcomes);
        let last = targets.len() - 1;
        assert(targets[last] == targets.last() && addr_ok[last] == addr_ok.last());
        assert(outcomes[last] == outcomes.last());
        assert forall|k: int| 0 <= k < all.len() implies exists|i: int|
            0 <= i < targets.len() && safe_target(targets[i], addr_ok[i]) && (#[trigger] all[k]).target
                == targets[i].name@ by {
            if k < rest.len() {
                assert(all[k] == rest[k]);
                let i = choose|i: int|
                    0 <= i < t0.len() && safe_target(t0[i], a0[i]) && rest[k].target == t0[i].name@;
                assert(targets[i] == t0[i] && addr_ok[i] == a0[i]);
            } else {
                assert(safe_target(targets[last], addr_ok[last]));
            }
        }
    }
}

/// Runs the assembly of one probe round over the allowlist: for each
/// target that passes the safety check (`addr_ok` telling whether its
/// address parses as an IP address), in order, the row built from what its
/// checks gave; refused targets give no row.
pub fn run(
    label: &str,
    public_ip: &str,
    targets: &[Target],
    addr_ok: &[bool],
    outcomes: &[Option<ProbeOutcomes>],
) -> (rows: Vec<ProbeRow>)
    requires
        addr_ok@.len() == targets@.len(),
        outcomes@.len() == targets@.len(),
        safe_ones_measured(targets@, addr_ok@, outcomes@),
    ensures
        crate::aggregate::row_views(rows@) == probe_rows_spec(
            label@,
            public_ip@,
            targets@,
            addr_ok@,
            outcomes@,
        ),
{
    let mut rows: Vec<ProbeRow> = Vec::new();
    let n = targets.len();
    assert(crate::aggregate::row_views(rows@) =~= Seq::<ProbeRowView>::empty());
    for i in 0..n
        invariant
            n == targets@.len(),
            addr_ok@.len() == n,
            outcomes@.len() == n,
            crate::aggregate::row_views(rows@) == probe_rows_spec(
                label@,
                public_ip@,
                targets@.take(i as int),
                addr_ok@.take(i as int),
                outcomes@.take(i as int),
            ),
    {
        let ghost prev = rows@;
        assert(targets@.take(i + 1).drop_last() =~= targets@.take(i as int));
        assert(addr_ok@.take(i + 1).drop_last() =~= addr_ok@.take(i as int));
        assert(outcomes@.take(i + 1).drop_last() =~= outcomes@.take(i as int));
        assert(targets@.take(i + 1).last() == targets@[i as int]);
        assert(addr_ok@.take(i + 1).last() == addr_ok@[i as int]);
        assert(outcomes@.take(i + 1).last() == outcomes@[i as int]);
        if targets[i].is_safe(addr_ok[i]) {
            match &outcomes[i] {
                Some(o) => {
                    let r = probe_row(label, public_ip, &targets[i], o);
                    rows.push(r);
                    assert(crate::aggregate::row_views(rows@) =~= crate::aggregate::row_views(
                        prev,
                    ).push(r@));
                },
                None => {},
            }
        }
    }
    assert(targets@.take(n as int) =~= targets@);
    assert(addr_ok@.take(n as int) =~= addr_ok@);
    assert(outcomes@.take(n as int) =~= outcomes@);
    rows
}

/// A setting read from the environment: its value when set, else the
/// default.
pub open spec fn setting_text(value: Option<Seq<char>>, default: Seq<char>) -> Seq<char> {
    match value {
        Some(v) => v,
        None => default,
    }
}

/// The character sequence of an optional string slice.
pub open spec fn opt_text(v: Option<&str>) -> Option<Seq<char>> {
    match v {
        Some(x) => Some(x@),
        None => None,
    }
}

/// A setting from the environment (`value`, `None` when unset), or its
/// default.
pub fn timeout_env(value: Option<&str>, default: &str) -> (r: String)
    ensures
        r@ == setting_text(opt_text(value), default@),
{
    match value {
        Some(v) => String::from_str(v),
        None => String::from_str(default),
    }
}

/// The DNS timeout in seconds (`FM_DNS_TIMEOUT`, default 3).
pub fn dns_timeout(value: Option<&str>) -> (r: String)
    ensures
        r@ == setting_text(opt_text(value), "3"@),
{
    timeout_env(value, "3")
}

/// The HTTPS timeout in seconds (`FM_HTTPS_TIMEOUT`, default 8).
pub fn https_timeout(value: Option<&str>) -> (r: String)
    ensures
        r@ == setting_text(opt_text(value), "8"@),
{
    timeout_env(value, "8")
}

/// The TCP timeout in seconds (`FM_TCP_TIMEOUT`, default 8).
pub fn tcp_timeout(value: Option<&str>) -> (r: String)
    ensures
        r@ == setting_text(opt_text(value), "8"@),
{
    timeout_env(value, "8")
}

/// The number of ICMP packets (`FM_PING_COUNT`, default 3).
pub fn ping_count(value: Option<&str>) -> (r: String)
    ensures
        r@ == setting_text(opt_text(value), "3"@),
{
    timeout_env(value, "3")
}

/// The ICMP timeout per packet in seconds (`FM_PING_TIMEOUT`, default 2).
pub fn ping_timeout(value: Option<&str>) -> (r: String)
    ensures
        r@ == setting_text(opt_text(value), "2"@),
{
    timeout_env(value, "2")
}

/// The TCP connect timeout in seconds: the setting read as a number, 8 when
/// it is not one.
pub fn tcp_timeout_secs(setting: &str) -> (r: u64)
    ensures
        r == match crate::text::parse_u64_spec(setting@) {
            Some(n) => n,
            None => 8,
        },
{
    let cs = chars_of(setting);
    match crate::text::parse_u64(cs.as_slice()) {
        Some(n) => n,
        None => 8,
    }
}

/// The milliseconds between two clock readings, 0 if the clock went back.
pub fn elapsed_ms(t0: u64, t1: u64) -> (r: u64)
    ensures
        r == if t1 >= t0 { t1 - t0 } else { 0 },
{
    t1.saturating_sub(t0)
}

/// The state of a TCP:443 check: `open` when the connection was made,
/// else `closed`.
pub fn tcp_state(connected: bool) -> (r: String)
    ensures
        r@ == if connected { "open"@ } else { "closed"@ },
{
    if connected {
        String::from_str("open")
    } else {
        String::from_str("closed")
    }
}

} // verus!
