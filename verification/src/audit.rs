//! The read-only security audit: what the gathered host facts say about a
//! server's SSH hygiene, firewall, fail2ban, docker and listening ports.

use vstd::prelude::*;

use crate::model::AuditRow;
use crate::text::{
    ascii_lowercase, is_ascii_text,
    byte_prefix, byte_prefix_len, chars_of, decimal, has_prefix, join, join_strings, lines,
    lines_of, lowercase, parse_u16, parse_u16_spec, push_chars, push_decimal, split_chars, split_on,
    starts_with, str_views, string_from_chars, to_lowercase, trim_char, trim_char_chars, trim_start,
    trim_start_chars, views, words, words_of,
};

verus! {

/// What running one system tool gave.
pub enum ToolRun {
    /// The tool is not installed.
    Missing,
    /// The tool could not be run.
    Failed,
    /// The tool ran: whether it exited with success, and its output.
    Ran { success: bool, stdout: String },
}

/// The facts the audit reads from the host.
pub struct HostFacts {
    /// `sudo -n true` succeeded.
    pub sudo_nopass: bool,
    /// The text of `/etc/os-release`, if readable.
    pub os_release: Option<String>,
    /// The text of `/etc/ssh/sshd_config`, if readable.
    pub sshd_config: Option<String>,
    /// `ufw status`.
    pub ufw: ToolRun,
    /// `fail2ban-client status`.
    pub fail2ban: ToolRun,
    /// `docker ps -q`.
    pub docker: ToolRun,
    /// `ss -tuln`.
    pub ss: ToolRun,
}

/// Whether line `l` sets `key` in an sshd_config: after leading whitespace,
/// it starts, ignoring case, with the key and a space.
pub open spec fn sets_key(l: Seq<char>, key: Seq<char>) -> bool {
    starts_with(lowercase(trim_start(l)), lowercase(key) + seq![' '])
}

/// The first line that sets `key`.
pub open spec fn first_setting(ls: Seq<Seq<char>>, key: Seq<char>) -> Option<Seq<char>>
    decreases ls.len(),
{
    if ls.len() == 0 {
        None
    } else if sets_key(ls[0], key) {
        Some(ls[0])
    } else {
        first_setting(ls.skip(1), key)
    }
}

/// The value of `key` in an sshd_config-style text: the second word of the
/// first line that sets it.
pub open spec fn sshd_setting(config: Seq<char>, key: Seq<char>) -> Option<Seq<char>> {
    match first_setting(lines(config), key) {
        Some(l) => if words(l).len() > 1 {
            Some(words(l)[1])
        } else {
            None
        },
        None => None,
    }
}

/// Whether line `l` sets `key`, for ASCII text: as `sets_key`, with the
/// letters `A` to `Z` folded to `a` to `z`.
pub open spec fn sets_key_ascii(l: Seq<char>, key: Seq<char>) -> bool {
    starts_with(ascii_lowercase(trim_start(l)), ascii_lowercase(key) + seq![' '])
}

/// The first line that sets `key`, for ASCII text.
pub open spec fn first_setting_ascii(ls: Seq<Seq<char>>, key: Seq<char>) -> Option<Seq<char>>
    decreases ls.len(),
{
    if ls.len() == 0 {
        None
    } else if sets_key_ascii(ls[0], key) {
        Some(ls[0])
    } else {
        first_setting_ascii(ls.skip(1), key)
    }
}

/// The value of `key` in an ASCII sshd_config-style text: the second word of
/// the first line that sets it, letters compared without case.
pub open spec fn sshd_setting_ascii(config: Seq<char>, key: Seq<char>) -> Option<Seq<char>> {
    match first_setting_ascii(lines(config), key) {
        Some(l) => if words(l).len() > 1 {
            Some(words(l)[1])
        } else {
            None
        },
        None => None,
    }
}

/// Every line of the text is ASCII.
pub open spec fn ascii_lines(config: Seq<char>) -> bool {
    forall|i: int| 0 <= i < lines(config).len() ==> is_ascii_text(#[trigger] lines(config)[i])
}

/// What is left of an ASCII text after leading whitespace is ASCII.
proof fn lemma_trim_start_ascii(s: Seq<char>)
    requires
        is_ascii_text(s),
    ensures
        is_ascii_text(trim_start(s)),
    decreases s.len(),
{
    if s.len() > 0 && crate::text::white_space(s[0]) {
        assert forall|i: int| 0 <= i < s.skip(1).len() implies (#[trigger] s.skip(1)[i] as u32) < 0x80 by {
            assert(s.skip(1)[i] == s[i + 1]);
        }
        lemma_trim_start_ascii(s.skip(1));
    }
}

/// Extracts the value of `key` (the second word of the first line that
/// sets it, ignoring case) from an sshd_config-style text. For ASCII lines
/// and key, case is ignored by folding `A` to `Z` to `a` to `z`.
pub fn sshd_value(config: &str, key: &str) -> (r: Option<String>)
    ensures
        match r {
            Some(v) => sshd_setting(config@, key@) == Some(v@),
            None => sshd_setting(config@, key@) is None,
        },
        ascii_lines(config@) && is_ascii_text(key@) ==> match r {
            Some(v) => sshd_setting_ascii(config@, key@) == Some(v@),
            None => sshd_setting_ascii(config@, key@) is None,
        },
{
    let cs = chars_of(config);
    let ls = lines_of(cs.as_slice());
    let ghost lv = views(ls@);
    let ghost ascii = ascii_lines(config@) && is_ascii_text(key@);
    let lk = to_lowercase(key);
    let mut want = chars_of(lk.as_str());
    want.push(' ');
    assert(want@ =~= lowercase(key@) + seq![' ']);
    let n = ls.len();
    let mut i: usize = 0;
    assert(lv.skip(0) =~= lv);
    while i < n
        invariant
            n == ls@.len(),
            lv == views(ls@),
            lv == lines(config@),
            want@ == lowercase(key@) + seq![' '],
            ascii == (ascii_lines(config@) && is_ascii_text(key@)),
            ascii ==> lowercase(key@) == ascii_lowercase(key@),
            i <= n,
            first_setting(lv, key@) == first_setting(lv.skip(i as int), key@),
            ascii ==> first_setting_ascii(lv, key@) == first_setting_ascii(lv.skip(i as int), key@),
        decreases n - i,
    {
        let l = &ls[i];
        assert(l@ == lv[i as int]);
        assert(lv.skip(i as int)[0] == lv[i as int]);
        assert(lv.skip(i as int).skip(1) =~= lv.skip(i + 1));
        let ts = trim_start_chars(l.as_slice());
        let ts_str = string_from_chars(ts.as_slice());
        proof {
            if ascii {
                assert(is_ascii_text(lines(config@)[i as int]));
                lemma_trim_start_ascii(l@);
            }
        }
        let low = to_lowercase(ts_str.as_str());
        let lowc = chars_of(low.as_str());
        if has_prefix(lowc.as_slice(), want.as_slice()) {
            let w = words_of(l.as_slice());
            if w.len() > 1 {
                let ghost wv = views(w@);
                assert(w@[1]@ == wv[1]);
                return Some(string_from_chars(w[1].as_slice()));
            } else {
                return None;
            }
        }
        i = i + 1;
    }
    None
}

/// The operating system's name from an os-release text: the value after
/// `=` on the first line that starts with `PRETTY_NAME`, without quotes.
pub open spec fn pretty_name(os_release: Seq<char>) -> Option<Seq<char>> {
    match first_prefixed(lines(os_release), "PRETTY_NAME"@) {
        Some(l) => {
            let p = split_on(l, '=');
            Some(trim_char(if p.len() > 1 { p[1] } else { Seq::empty() }, '"'))
        },
        None => None,
    }
}

/// The first line that starts with `p`.
pub open spec fn first_prefixed(ls: Seq<Seq<char>>, p: Seq<char>) -> Option<Seq<char>>
    decreases ls.len(),
{
    if ls.len() == 0 {
        None
    } else if starts_with(ls[0], p) {
        Some(ls[0])
    } else {
        first_prefixed(ls.skip(1), p)
    }
}

/// Reads the operating system's name out of an os-release text.
pub fn os_pretty_name(os_release: &str) -> (r: Option<String>)
    ensures
        match r {
            Some(v) => pretty_name(os_release@) == Some(v@),
            None => pretty_name(os_release@) is None,
        },
{
    let cs = chars_of(os_release);
    let ls = lines_of(cs.as_slice());
    let ghost lv = views(ls@);
    let key = chars_of("PRETTY_NAME");
    let n = ls.len();
    let mut i: usize = 0;
    assert(lv.skip(0) =~= lv);
    while i < n
        invariant
            n == ls@.len(),
            lv == views(ls@),
            lv == lines(os_release@),
            key@ == "PRETTY_NAME"@,
            i <= n,
            first_prefixed(lv, "PRETTY_NAME"@) == first_prefixed(lv.skip(i as int), "PRETTY_NAME"@),
        decreases n - i,
    {
        let l = &ls[i];
        assert(l@ == lv[i as int]);
        assert(lv.skip(i as int)[0] == lv[i as int]);
        assert(lv.skip(i as int).skip(1) =~= lv.skip(i + 1));
        if has_prefix(l.as_slice(), key.as_slice()) {
            let p = split_chars(l.as_slice(), '=');
            let ghost pv = views(p@);
            let v = if p.len() > 1 {
                assert(p@[1]@ == pv[1]);
                trim_char_chars(p[1].as_slice(), '"')
            } else {
                let e: Vec<char> = Vec::new();
                trim_char_chars(e.as_slice(), '"')
            };
            return Some(string_from_chars(v.as_slice()));
        }
        i = i + 1;
    }
    None
}


/// The firewall status: the first line of `ufw status`, `unknown` when ufw
/// could not be run or printed nothing, `none` when it is not installed.
pub open spec fn ufw_text(run: ToolRun) -> Seq<char> {
    match run {
        ToolRun::Missing => "none"@,
        ToolRun::Failed => "unknown"@,
        ToolRun::Ran { stdout, .. } => if lines(stdout@).len() > 0 {
            lines(stdout@)[0]
        } else {
            "unknown"@
        },
    }
}

/// The fail2ban status: `yes` when `fail2ban-client status` succeeded,
/// `needroot` when it did not, `none` when it is not installed.
pub open spec fn fail2ban_text(run: ToolRun) -> Seq<char> {
    match run {
        ToolRun::Missing => "none"@,
        ToolRun::Ran { success: true, .. } => "yes"@,
        _ => "needroot"@,
    }
}

/// The docker status: `yes` when `docker ps -q` succeeded, `no` when it did
/// not, `none` when docker is not installed.
pub open spec fn docker_text(run: ToolRun) -> Seq<char> {
    match run {
        ToolRun::Missing => "none"@,
        ToolRun::Ran { success: true, .. } => "yes"@,
        _ => "no"@,
    }
}

/// The entry that one line of `ss -tuln` gives: for a `tcp`/`udp` line with
/// a fifth column, the first three bytes of the protocol column (or nothing
/// when they do not end on a character boundary), a space and the port, which
/// is what follows the last `:` of the local address, read as a `u16`.
pub open spec fn listener_entry(l: Seq<char>) -> Option<Seq<char>> {
    if starts_with(l, "tcp"@) || starts_with(l, "udp"@) {
        let parts = words(l);
        if parts.len() > 4 {
            match parse_u16_spec(split_on(parts[4], ':').last()) {
                Some(port) => Some(
                    match byte_prefix(parts[0], 3) {
                        Some(x) => x,
                        None => Seq::<char>::empty(),
                    } + seq![' '] + decimal(port as nat),
                ),
                None => None,
            }
        } else {
            None
        }
    } else {
        None
    }
}

/// The listener entries of a sequence of `ss` lines, in order.
pub open spec fn listener_entries(ls: Seq<Seq<char>>) -> Seq<Seq<char>>
    decreases ls.len(),
{
    if ls.len() == 0 {
        Seq::empty()
    } else {
        let rest = listener_entries(ls.drop_last());
        match listener_entry(ls.last()) {
            Some(e) => rest.push(e),
            None => rest,
        }
    }
}

/// The listening ports that `ss -tuln` reported; none when `ss` is not
/// installed or could not be run.
pub open spec fn listener_list(run: ToolRun) -> Seq<Seq<char>> {
    match run {
        ToolRun::Ran { stdout, .. } => listener_entries(lines(stdout@)),
        _ => Seq::empty(),
    }
}

/// The firewall status for the audit row.
pub fn ufw_status(run: &ToolRun) -> (r: String)
    ensures
        r@ == ufw_text(*run),
{
    match run {
        ToolRun::Missing => String::from_str("none"),
        ToolRun::Failed => String::from_str("unknown"),
        ToolRun::Ran { stdout, .. } => {
            let cs = chars_of(stdout.as_str());
            let ls = lines_of(cs.as_slice());
            let ghost lv = views(ls@);
            if ls.len() > 0 {
                assert(ls@[0]@ == lv[0]);
                string_from_chars(ls[0].as_slice())
            } else {
                String::from_str("unknown")
            }
        },
    }
}

/// The fail2ban status for the audit row.
pub fn fail2ban_status(run: &ToolRun) -> (r: String)
    ensures
        r@ == fail2ban_text(*run),
{
    match run {
        ToolRun::Missing => String::from_str("none"),
        ToolRun::Ran { success: true, .. } => String::from_str("yes"),
        _ => String::from_str("needroot"),
    }
}

/// The docker status for the audit row.
pub fn docker_status(run: &ToolRun) -> (r: String)
    ensures
        r@ == docker_text(*run),
{
    match run {
        ToolRun::Missing => String::from_str("none"),
        ToolRun::Ran { success: true, .. } => String::from_str("yes"),
        _ => String::from_str("no"),
    }
}

/// The entry of one `ss` line, if it lists a listening port.
pub fn listener_of_line(l: &[char]) -> (r: Option<String>)
    ensures
        match r {
            Some(e) => listener_entry(l@) == Some(e@),
            None => listener_entry(l@) is None,
        },
{
    let tcp = chars_of("tcp");
    let udp = chars_of("udp");
    if !(has_prefix(l, tcp.as_slice()) || has_prefix(l, udp.as_slice())) {
        return None;
    }
    let parts = words_of(l);
    if parts.len() <= 4 {
        return None;
    }
    let ghost pv = views(parts@);
    assert(parts@[4]@ == pv[4]);
    assert(parts@[0]@ == pv[0]);
    let seg = split_chars(parts[4].as_slice(), ':');
    let ghost sv = views(seg@);
    proof { crate::text::lemma_split_where_len(pv[4], crate::text::is_char(':')); }
    let last = &seg[seg.len() - 1];
    assert(last@ == sv.last());
    match parse_u16(last.as_slice()) {
        Some(port) => {
            let mut out = String::new();
            match byte_prefix_len(parts[0].as_slice(), 3) {
                Some(k) => {
                    let pre = crate::text::slice_chars(parts[0].as_slice(), 0, k);
                    assert(pv[0].subrange(0, k as int) == pv[0].take(k as int));
                    push_chars(&mut out, pre.as_slice());
                },
                None => {},
            }
            crate::text::push_char(&mut out, ' ');
            push_decimal(&mut out, port as u64);
            Some(out)
        },
        None => None,
    }
}

/// The listening ports for the audit row.
pub fn listeners(run: &ToolRun) -> (r: Vec<String>)
    ensures
        str_views(r@) == listener_list(*run),
{
    let mut out: Vec<String> = Vec::new();
    match run {
        ToolRun::Ran { stdout, .. } => {
            let cs = chars_of(stdout.as_str());
            let ls = lines_of(cs.as_slice());
            let ghost lv = views(ls@);
            let n = ls.len();
            assert(lv.take(0) =~= Seq::<Seq<char>>::empty());
            assert(str_views(out@) =~= Seq::<Seq<char>>::empty());
            for i in 0..n
                invariant
                    n == ls@.len(),
                    lv == views(ls@),
                    str_views(out@) == listener_entries(lv.take(i as int)),
            {
                let ghost prev = out@;
                assert(ls@[i as int]@ == lv[i as int]);
                assert(lv.take(i + 1).drop_last() =~= lv.take(i as int));
                assert(lv.take(i + 1).last() == lv[i as int]);
                match listener_of_line(ls[i].as_slice()) {
                    Some(e) => {
                        out.push(e);
                        assert(str_views(out@) =~= str_views(prev).push(out@.last()@));
                    },
                    None => {},
                }
            }
            assert(lv.take(n as int) =~= lv);
        },
        _ => {},
    }
    out
}

/// Runs the audit of one server over the facts gathered from its host:
/// sudo without password, the OS name (`unknown` when os-release is
/// missing or names none), the SSH port (`22` by default), password and
/// root login (`default` when not set), ufw, fail2ban, docker, and the
/// listening ports joined with `,`.
pub fn run(label: &str, public_ip: &str, facts: &HostFacts) -> (r: AuditRow)
    ensures
        r@ == seq![
            public_ip@,
            label@,
            if facts.sudo_nopass { "yes"@ } else { "no"@ },
            match facts.os_release {
                Some(t) => match pretty_name(t@) {
                    Some(n) => n,
                    None => "unknown"@,
                },
                None => "unknown"@,
            },
            setting_or(facts.sshd_config, "Port"@, "22"@),
            setting_or(facts.sshd_config, "PasswordAuthentication"@, "default"@),
            setting_or(facts.sshd_config, "PermitRootLogin"@, "default"@),
            ufw_text(facts.ufw),
            fail2ban_text(facts.fail2ban),
            docker_text(facts.docker),
            join(listener_list(facts.ss), ","@),
        ],
{
    let sudo = if facts.sudo_nopass { String::from_str("yes") } else { String::from_str("no") };
    let os = match &facts.os_release {
        Some(t) => match os_pretty_name(t.as_str()) {
            Some(n) => n,
            None => String::from_str("unknown"),
        },
        None => String::from_str("unknown"),
    };
    let sshd = match &facts.sshd_config {
        Some(c) => c.clone(),
        None => String::new(),
    };
    let ssh_port = match sshd_value(sshd.as_str(), "Port") {
        Some(v) => v,
        None => String::from_str("22"),
    };
    let ssh_pw = match sshd_value(sshd.as_str(), "PasswordAuthentication") {
        Some(v) => v,
        None => String::from_str("default"),
    };
    let ssh_root = match sshd_value(sshd.as_str(), "PermitRootLogin") {
        Some(v) => v,
        None => String::from_str("default"),
    };
    let ports_list = listeners(&facts.ss);
    let ports = join_strings(ports_list.as_slice(), ",");
    AuditRow {
        ip: String::from_str(public_ip),
        name: String::from_str(label),
        sudo_nopass: sudo,
        os: os,
        ssh_port: ssh_port,
        ssh_pw: ssh_pw,
        ssh_root: ssh_root,
        ufw: ufw_status(&facts.ufw),
        fail2ban: fail2ban_status(&facts.fail2ban),
        docker: docker_status(&facts.docker),
        ports: ports,
    }
}

/// The value of `key` in the sshd configuration (read as empty when
/// missing), or `default` when it is not set.
pub open spec fn setting_or(config: Option<String>, key: Seq<char>, default: Seq<char>) -> Seq<char> {
    let text = match config {
        Some(c) => c@,
        None => Seq::<char>::empty(),
    };
    match sshd_setting(text, key) {
        Some(v) => v,
        None => default,
    }
}

} // verus!
