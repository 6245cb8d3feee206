//! Data types shared by probing, auditing, aggregation and reporting.

use vstd::prelude::*;

use crate::text::{decimal, push_char};

verus! {

/// One measurement of one target from one vantage point.
#[derive(Debug, Clone)]
pub struct ProbeRow {
    pub server: String,
    pub label: String,
    pub target: String,
    pub dns_ip: String,
    pub dns_ms: Option<u64>,
    pub https_code: Option<u16>,
    pub https_ms: Option<u64>,
    pub tcp: String,
    pub tcp_ms: Option<u64>,
    pub icmp: String,
    pub icmp_ms: Option<u64>,
    pub sane: bool,
    pub partial: bool,
    pub ts: u64,
}

/// A `ProbeRow` with its text fields as character sequences.
pub struct ProbeRowView {
    pub server: Seq<char>,
    pub label: Seq<char>,
    pub target: Seq<char>,
    pub dns_ip: Seq<char>,
    pub dns_ms: Option<u64>,
    pub https_code: Option<u16>,
    pub https_ms: Option<u64>,
    pub tcp: Seq<char>,
    pub tcp_ms: Option<u64>,
    pub icmp: Seq<char>,
    pub icmp_ms: Option<u64>,
    pub sane: bool,
    pub partial: bool,
    pub ts: u64,
}

impl View for ProbeRow {
    type V = ProbeRowView;

    open spec fn view(&self) -> ProbeRowView {
        ProbeRowView {
            server: self.server@,
            label: self.label@,
            target: self.target@,
            dns_ip: self.dns_ip@,
            dns_ms: self.dns_ms,
            https_code: self.https_code,
            https_ms: self.https_ms,
            tcp: self.tcp@,
            tcp_ms: self.tcp_ms,
            icmp: self.icmp@,
            icmp_ms: self.icmp_ms,
            sane: self.sane,
            partial: self.partial,
            ts: self.ts,
        }
    }
}

impl ProbeRow {
    /// A field-for-field copy.
    pub fn duplicate(&self) -> (r: ProbeRow)
        ensures
            r@ == self@,
    {
        ProbeRow {
            server: self.server.clone(),
            label: self.label.clone(),
            target: self.target.clone(),
            dns_ip: self.dns_ip.clone(),
            dns_ms: self.dns_ms,
            https_code: self.https_code,
            https_ms: self.https_ms,
            tcp: self.tcp.clone(),
            tcp_ms: self.tcp_ms,
            icmp: self.icmp.clone(),
            icmp_ms: self.icmp_ms,
            sane: self.sane,
            partial: self.partial,
            ts: self.ts,
        }
    }
}

/// The result of the read-only security audit of one server.
#[derive(Debug, Clone)]
pub struct AuditRow {
    pub ip: String,
    pub name: String,
    pub sudo_nopass: String,
    pub os: String,
    pub ssh_port: String,
    pub ssh_pw: String,
    pub ssh_root: String,
    pub ufw: String,
    pub fail2ban: String,
    pub docker: String,
    pub ports: String,
}

impl View for AuditRow {
    /// The eleven fields in log order: ip, name, sudo, os, ssh port, ssh
    /// password auth, ssh root login, ufw, fail2ban, docker, ports.
    type V = Seq<Seq<char>>;

    open spec fn view(&self) -> Seq<Seq<char>> {
        seq![
            self.ip@,
            self.name@,
            self.sudo_nopass@,
            self.os@,
            self.ssh_port@,
            self.ssh_pw@,
            self.ssh_root@,
            self.ufw@,
            self.fail2ban@,
            self.docker@,
            self.ports@,
        ]
    }
}

/// A row flagged by the anomaly rules.
#[derive(Debug, Clone)]
pub struct Anomaly {
    pub ip: String,
    pub label: String,
    pub target: String,
    pub https_code: Option<u16>,
    pub https_ms: Option<u64>,
    pub tcp: String,
}

/// An `Anomaly` with its text fields as character sequences.
pub struct AnomalyView {
    pub ip: Seq<char>,
    pub label: Seq<char>,
    pub target: Seq<char>,
    pub https_code: Option<u16>,
    pub https_ms: Option<u64>,
    pub tcp: Seq<char>,
}

impl View for Anomaly {
    type V = AnomalyView;

    open spec fn view(&self) -> AnomalyView {
        AnomalyView {
            ip: self.ip@,
            label: self.label@,
            target: self.target@,
            https_code: self.https_code,
            https_ms: self.https_ms,
            tcp: self.tcp@,
        }
    }
}

/// A vantage point seen in the logs.
#[derive(Debug, Clone)]
pub struct ServerInfo {
    pub ip: String,
    pub label: String,
}

impl View for ServerInfo {
    /// The server's address and label.
    type V = (Seq<char>, Seq<char>);

    open spec fn view(&self) -> (Seq<char>, Seq<char>) {
        (self.ip@, self.label@)
    }
}

/// Aggregated view over all probe rows.
#[derive(Debug, Clone)]
pub struct Summary {
    pub n_points: usize,
    pub servers: Vec<ServerInfo>,
    pub rows: Vec<ProbeRow>,
    pub anomalies: Vec<Anomaly>,
}

/// One allowlisted endpoint.
#[derive(Debug, Clone)]
pub struct Target {
    pub name: String,
    pub host: String,
    pub url: String,
    pub ip: String,
}

/// One server of the operator's fleet.
#[derive(Debug, Clone)]
pub struct ServerEntry {
    pub ip: String,
    pub name: String,
    pub key: String,
    pub user: String,
    pub port: u16,
    pub arch: String,
}

/// The operator's configuration.
#[derive(Debug, Clone)]
pub struct Config {
    pub servers: Vec<ServerEntry>,
    pub targets: Vec<Target>,
    pub min_interval_sec: u64,
    pub batch_size: usize,
}


/// Whether `y` is a leap year of the Gregorian calendar.
pub open spec fn is_leap(y: int) -> bool {
    (y % 4 == 0 && y % 100 != 0) || y % 400 == 0
}

/// The number of days of year `y`.
pub open spec fn year_days(y: int) -> nat {
    if is_leap(y) {
        366
    } else {
        365
    }
}

/// The number of days of month `m` (1 to 12) of year `y`.
pub open spec fn month_days(y: int, m: int) -> nat {
    if m == 2 {
        if is_leap(y) {
            29
        } else {
            28
        }
    } else if m == 4 || m == 6 || m == 9 || m == 11 {
        30
    } else {
        31
    }
}

/// The Gregorian month lengths: every month but February alternates between
/// 31 and 30 days, starting with 31 in January and again with 31 in August
/// (so April, June, September and November have 30), which is
/// `30 + (m + m / 8) % 2`; February has 29 days in a leap year and 28 in
/// another; and the twelve months make up the year.
pub proof fn law_month_lengths(y: int, m: int)
    requires
        1 <= m <= 12,
    ensures
        m != 2 ==> month_days(y, m) == 30 + (m + m / 8) % 2,
        month_days(y, 2) == year_days(y) - 337,
        month_days(y, 1) + month_days(y, 2) + month_days(y, 3) + month_days(y, 4) + month_days(y, 5)
            + month_days(y, 6) + month_days(y, 7) + month_days(y, 8) + month_days(y, 9)
            + month_days(y, 10) + month_days(y, 11) + month_days(y, 12) == year_days(y),
{
    assert(m == 1 || m == 2 || m == 3 || m == 4 || m == 5 || m == 6 || m == 7 || m == 8 || m == 9
        || m == 10 || m == 11 || m == 12);
}

/// The year and the day within it (from 0) of the day `d` days after the
/// first of January of year `y`.
pub open spec fn civil_year(y: int, d: nat) -> (int, nat)
    decreases d,
{
    if d < year_days(y) {
        (y, d)
    } else {
        civil_year(y + 1, (d - year_days(y)) as nat)
    }
}

/// The month and the day within it (from 0) of the day `d` days after the
/// first of month `m` of year `y`.
pub open spec fn civil_month(y: int, m: int, d: nat) -> (int, nat)
    decreases 12 - m,
{
    if m >= 12 || d < month_days(y, m) {
        (m, d)
    } else {
        civil_month(y, m + 1, (d - month_days(y, m)) as nat)
    }
}

/// The day of the year (from 0) on which month `m` starts: the months before
/// it alternate 31 and 30 days as the calendar has them, February short by
/// two days, or by one in a leap year.
pub open spec fn month_start(y: int, m: int) -> int {
    30 * (m - 1) + (m + m / 8) / 2 - if m > 2 {
        if is_leap(y) {
            1int
        } else {
            2int
        }
    } else {
        0int
    }
}

/// The length of month `m` in the calendar: 28 days for February (29 in a
/// leap year), else 31 or 30 by `30 + (m + m / 8) % 2`.
pub open spec fn calendar_month_len(y: int, m: int) -> int {
    if m == 2 {
        if is_leap(y) {
            29int
        } else {
            28int
        }
    } else {
        30 + (m + m / 8) % 2
    }
}

proof fn lemma_month_start_step(y: int, j: int)
    requires
        1 <= j < 12,
    ensures
        month_start(y, j + 1) - month_start(y, j) == month_days(y, j),
        month_days(y, j) == calendar_month_len(y, j),
{
    assert(j == 1 || j == 2 || j == 3 || j == 4 || j == 5 || j == 6 || j == 7 || j == 8 || j == 9
        || j == 10 || j == 11);
}

proof fn lemma_month_start_grows(y: int, a: int, b: int)
    requires
        1 <= a <= b <= 12,
    ensures
        month_start(y, a) <= month_start(y, b),
    decreases b - a,
{
    if a < b {
        lemma_month_start_step(y, a);
        lemma_month_start_grows(y, a + 1, b);
    }
}

proof fn lemma_civil_month_from(y: int, j: int, m: int, k: int)
    requires
        1 <= j <= m <= 12,
        0 <= k < calendar_month_len(y, m),
    ensures
        civil_month(y, j, (month_start(y, m) - month_start(y, j) + k) as nat) == (m, k as nat),
    decreases m - j,
{
    if j == m {
        law_month_lengths(y, m);
    } else {
        lemma_month_start_step(y, j);
        lemma_month_start_grows(y, j + 1, m);
        lemma_civil_month_from(y, j + 1, m, k);
        assert((month_start(y, m) - month_start(y, j) + k) - month_days(y, j) == month_start(y, m)
            - month_start(y, j + 1) + k);
    }
}

/// Which month a day of the year falls in, and on which day of it, follows
/// the calendar: the `k`-th day (from 0) of month `m` is day
/// `month_start(y, m) + k` of year `y`, for every month of every year, so
/// that, for example, day 273 of a common year is the first of October and
/// day 59 of a leap year the 29th of February.
pub proof fn law_calendar_dates(y: int, m: int, k: int)
    requires
        1 <= m <= 12,
        0 <= k < calendar_month_len(y, m),
    ensures
        civil_month(y, 1, (month_start(y, m) + k) as nat) == (m, k as nat),
{
    assert(month_start(y, 1) == 0);
    lemma_civil_month_from(y, 1, m, k);
}

/// A number with at least `w` digits, zero-padded on the left.
pub open spec fn padded(n: nat, w: nat) -> Seq<char> {
    if decimal(n).len() < w {
        Seq::new((w - decimal(n).len()) as nat, |i: int| '0') + decimal(n)
    } else {
        decimal(n)
    }
}

/// The UTC time `secs` seconds after the Unix epoch in ISO 8601:
/// `YYYY-MM-DDTHH:MM:SSZ`.
pub open spec fn iso8601_text(secs: nat) -> Seq<char> {
    let days = secs / 86400;
    let rem = secs % 86400;
    let (y, doy) = civil_year(1970, days);
    let (m, d) = civil_month(y, 1, doy);
    padded(y as nat, 4) + "-"@ + padded(m as nat, 2) + "-"@ + padded(d + 1, 2) + "T"@ + padded(
        rem / 3600,
        2,
    ) + ":"@ + padded((rem % 3600) / 60, 2) + ":"@ + padded(rem % 60, 2) + "Z"@
}

/// Whether `y` is a leap year.
fn leap_year(y: u64) -> (b: bool)
    ensures
        b == is_leap(y as int),
{
    (y % 4 == 0 && y % 100 != 0) || y % 400 == 0
}

/// The number of days of year `y`.
fn days_of_year(y: u64) -> (n: u64)
    ensures
        n == year_days(y as int),
{
    if leap_year(y) {
        366
    } else {
        365
    }
}

/// The number of days of month `m` of year `y`.
fn days_of_month(y: u64, m: u64) -> (n: u64)
    ensures
        n == month_days(y as int, m as int),
{
    if m == 2 {
        if leap_year(y) {
            29
        } else {
            28
        }
    } else if m == 4 || m == 6 || m == 9 || m == 11 {
        30
    } else {
        31
    }
}

/// Appends `n` with at least `w` digits, zero-padded on the left.
fn push_padded(out: &mut String, n: u64, w: usize)
    ensures
        final(out)@ == old(out)@ + padded(n as nat, w as nat),
{
    let digits = crate::text::decimal_string(n);
    let len = digits.as_str().unicode_len();
    let ghost start = out@;
    if len < w {
        let k = w - len;
        for i in 0..k
            invariant
                out@ == start + Seq::new(i as nat, |j: int| '0'),
        {
            push_char(out, '0');
            assert(Seq::new((i + 1) as nat, |j: int| '0') =~= Seq::new(i as nat, |j: int| '0').push('0'));
        }
    }
    crate::text::push_str(out, digits.as_str());
    assert(out@ =~= start + padded(n as nat, w as nat));
}

/// Formats a Unix time in seconds as an ISO 8601 UTC timestamp,
/// `YYYY-MM-DDTHH:MM:SSZ`.
pub fn timestamp_iso8601(secs: u64) -> (r: String)
    ensures
        r@ == iso8601_text(secs as nat),
{
    let days = secs / 86400;
    let rem = secs % 86400;
    let mut y: u64 = 1970;
    let mut d: u64 = days;
    while d >= days_of_year(y)
        invariant
            y + d <= 1970 + days,
            days <= u64::MAX / 86400,
            civil_year(1970, days as nat) == civil_year(y as int, d as nat),
        decreases d,
    {
        d = d - days_of_year(y);
        y = y + 1;
    }
    let mut m: u64 = 1;
    let ghost doy = d;
    while m < 12 && d >= days_of_month(y, m)
        invariant
            1 <= m <= 12,
            d <= doy,
            civil_month(y as int, 1, doy as nat) == civil_month(y as int, m as int, d as nat),
        decreases 12 - m,
    {
        d = d - days_of_month(y, m);
        m = m + 1;
    }
    let mut out = String::new();
    push_padded(&mut out, y, 4);
    crate::text::push_str(&mut out, "-");
    push_padded(&mut out, m, 2);
    crate::text::push_str(&mut out, "-");
    push_padded(&mut out, d + 1, 2);
    crate::text::push_str(&mut out, "T");
    push_padded(&mut out, rem / 3600, 2);
    crate::text::push_str(&mut out, ":");
    push_padded(&mut out, (rem % 3600) / 60, 2);
    crate::text::push_str(&mut out, ":");
    push_padded(&mut out, rem % 60, 2);
    crate::text::push_str(&mut out, "Z");
    out
}


/// A control character (Unicode category Cc): U+0000 to U+001F and U+007F
/// to U+009F, which is what `char::is_control` reports.
pub open spec fn control(c: char) -> bool {
    (c as u32) <= 0x1F || (0x7F <= (c as u32) && (c as u32) <= 0x9F)
}

/// A character that could change the meaning of a shell command:
/// whitespace, control characters, quotes, `$`, `;`, `|`, `&` and the
/// backquote.
pub open spec fn shell_meta(c: char) -> bool {
    crate::text::white_space(c) || control(c) || c == '\'' || c == '"' || c == '$' || c == ';'
        || c == '|' || c == '&' || c == '`'
}

/// Whether an allowlist entry may be measured: a name without `,`, `|` or
/// control characters (which would corrupt the log lines); a host without a
/// port, a path or shell metacharacters; a URL without shell
/// metacharacters; an address that is a valid IPv4 or IPv6 address
/// (`ip_is_address`) or empty; and at least one of host, URL or address.
pub open spec fn safe_target(t: Target, ip_is_address: bool) -> bool {
    &&& forall|i: int|
        0 <= i < t.name@.len() ==> !(#[trigger] t.name@[i] == ',' || t.name@[i] == '|' || control(
            t.name@[i],
        ))
    &&& forall|i: int|
        0 <= i < t.host@.len() ==> !(shell_meta(#[trigger] t.host@[i]) || t.host@[i] == ':'
            || t.host@[i] == '/')
    &&& forall|i: int| 0 <= i < t.url@.len() ==> !shell_meta(#[trigger] t.url@[i])
    &&& (t.ip@.len() == 0 || ip_is_address)
    &&& (t.host@.len() > 0 || t.url@.len() > 0 || t.ip@.len() > 0)
}

/// Whether `c` is a control character.
fn is_control(c: char) -> (b: bool)
    ensures
        b == control(c),
{
    let v = c as u32;
    v <= 0x1F || (0x7F <= v && v <= 0x9F)
}

/// Whether `c` could change the meaning of a shell command.
fn is_shell_meta(c: char) -> (b: bool)
    ensures
        b == shell_meta(c),
{
    crate::text::is_whitespace(c) || is_control(c) || c == '\'' || c == '"' || c == '$' || c
        == ';' || c == '|' || c == '&' || c == '`'
}

impl Target {
    /// Whether this allowlist entry may be measured (see `safe_target`);
    /// `ip_is_address` tells whether its address parses as an IPv4 or IPv6
    /// address.
    pub fn is_safe(&self, ip_is_address: bool) -> (b: bool)
        ensures
            b == safe_target(*self, ip_is_address),
    {
        let name = crate::text::chars_of(self.name.as_str());
        let n = name.len();
        for i in 0..n
            invariant
                n == name@.len(),
                name@ == self.name@,
                forall|k: int|
                    0 <= k < i ==> !(#[trigger] name@[k] == ',' || name@[k] == '|' || control(
                        name@[k],
                    )),
        {
            if name[i] == ',' || name[i] == '|' || is_control(name[i]) {
                return false;
            }
        }
        let host = crate::text::chars_of(self.host.as_str());
        let h = host.len();
        for i in 0..h
            invariant
                h == host@.len(),
                host@ == self.host@,
                forall|k: int|
                    0 <= k < i ==> !(shell_meta(#[trigger] host@[k]) || host@[k] == ':' || host@[k]
                        == '/'),
        {
            if is_shell_meta(host[i]) || host[i] == ':' || host[i] == '/' {
                return false;
            }
        }
        let url = crate::text::chars_of(self.url.as_str());
        let u = url.len();
        for i in 0..u
            invariant
                u == url@.len(),
                url@ == self.url@,
                forall|k: int| 0 <= k < i ==> !shell_meta(#[trigger] url@[k]),
        {
            if is_shell_meta(url[i]) {
                return false;
            }
        }
        let ip_len = self.ip.as_str().unicode_len();
        (ip_len == 0 || ip_is_address) && (h > 0 || u > 0 || ip_len > 0)
    }
}

} // verus!
