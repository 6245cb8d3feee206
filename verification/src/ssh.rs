//! Orchestration over SSH: the shell quoting and the command lines that run
//! the agent on the operator's own servers.

use vstd::prelude::*;

use crate::model::ServerEntry;
use crate::text::{chars_of, decimal, push_char, push_str, trim, trim_chars};

verus! {

/// The escape of one character inside single quotes: `'` becomes `'\''`.
pub open spec fn quote_piece(c: char) -> Seq<char> {
    if c == '\'' {
        seq!['\'', '\\', '\'', '\'']
    } else {
        seq![c]
    }
}

/// Every character of `s`, escaped for use inside single quotes.
pub open spec fn quote_escape(s: Seq<char>) -> Seq<char>
    decreases s.len(),
{
    if s.len() == 0 {
        Seq::empty()
    } else {
        quote_escape(s.drop_last()) + quote_piece(s.last())
    }
}

/// `s` as one single-quoted shell word.
pub open spec fn sh_quote_text(s: Seq<char>) -> Seq<char> {
    seq!['\''] + quote_escape(s) + seq!['\'']
}

/// Escapes a value for use as one single-quoted shell word: the value is
/// wrapped in `'...'` and each `'` in it becomes `'\''`.
pub fn sh_quote(s: &str) -> (r: String)
    ensures
        r@ == sh_quote_text(s@),
{
    let cs = chars_of(s);
    let mut out = String::new();
    push_char(&mut out, '\'');
    let n = cs.len();
    assert(cs@.take(0) =~= Seq::<char>::empty());
    for i in 0..n
        invariant
            n == cs@.len(),
            out@ == seq!['\''] + quote_escape(cs@.take(i as int)),
    {
        let c = cs[i];
        if c == '\'' {
            push_str(&mut out, "'\\''");
            proof {
                reveal_strlit("'\\''");
            }
        } else {
            push_char(&mut out, c);
        }
        assert(cs@.take(i + 1).drop_last() =~= cs@.take(i as int));
        assert(out@ =~= seq!['\''] + quote_escape(cs@.take(i + 1)));
    }
    assert(cs@.take(n as int) =~= cs@);
    push_char(&mut out, '\'');
    out
}

/// `x` with `s` put in front, if there is one.
pub open spec fn prepend(s: Seq<char>, x: Option<Seq<char>>) -> Option<Seq<char>> {
    match x {
        Some(r) => Some(s + r),
        None => None,
    }
}

/// What a POSIX shell reads a word made of single-quoted parts and
/// backslash-escaped characters as (`None` when the word holds anything
/// else, or a quote is left open). `quoted` tells whether a quote is open.
pub open spec fn sh_word(w: Seq<char>, quoted: bool) -> Option<Seq<char>>
    decreases w.len(),
{
    if w.len() == 0 {
        if quoted {
            None
        } else {
            Some(Seq::empty())
        }
    } else if quoted {
        if w[0] == '\'' {
            sh_word(w.skip(1), false)
        } else {
            prepend(seq![w[0]], sh_word(w.skip(1), true))
        }
    } else if w[0] == '\'' {
        sh_word(w.skip(1), true)
    } else if w[0] == '\\' && w.len() >= 2 {
        prepend(seq![w[1]], sh_word(w.skip(2), false))
    } else {
        None
    }
}

proof fn lemma_quote_piece_read(c: char, t: Seq<char>)
    ensures
        sh_word(quote_piece(c) + t, true) == prepend(seq![c], sh_word(t, true)),
{
    let w = quote_piece(c) + t;
    if c == '\'' {
        let w1 = w.skip(1);
        let w2 = w1.skip(2);
        assert(w[0] == '\'');
        assert(w1 =~= seq!['\\', '\'', '\''] + t);
        assert(w1[0] == '\\' && w1[1] == '\'');
        assert(w2 =~= seq!['\''] + t);
        assert(w2[0] == '\'');
        assert(w2.skip(1) =~= t);
        assert(sh_word(w2, false) == sh_word(t, true));
        assert(sh_word(w1, false) == prepend(seq!['\''], sh_word(w2, false)));
        assert(sh_word(w, true) == sh_word(w1, false));
    } else {
        assert(w[0] == c);
        assert(w.skip(1) =~= t);
    }
}

proof fn lemma_quote_escape_read(s: Seq<char>, t: Seq<char>)
    ensures
        sh_word(quote_escape(s) + t, true) == prepend(s, sh_word(t, true)),
    decreases s.len(),
{
    if s.len() == 0 {
        assert(quote_escape(s) + t =~= t);
        match sh_word(t, true) {
            Some(r) => assert(s + r =~= r),
            None => {},
        }
    } else {
        let s0 = s.drop_last();
        let c = s.last();
        lemma_quote_escape_read(s0, quote_piece(c) + t);
        assert(quote_escape(s) + t =~= quote_escape(s0) + (quote_piece(c) + t));
        lemma_quote_piece_read(c, t);
        match sh_word(t, true) {
            Some(r) => assert(s0 + (seq![c] + r) =~= s + r),
            None => {},
        }
    }
}

/// Law (no breaking out): a shell reads the word that `sh_quote` makes as
/// exactly the value it was made from, whatever the value holds.
pub proof fn law_sh_quote_reads_back(s: Seq<char>)
    ensures
        sh_word(sh_quote_text(s), false) == Some(s),
{
    let w = sh_quote_text(s);
    assert(w[0] == '\'');
    assert(w.skip(1) =~= quote_escape(s) + seq!['\'']);
    assert(sh_word(w, false) == sh_word(w.skip(1), true));
    let q = seq!['\''];
    assert(q[0] == '\'');
    assert(sh_word(q, true) == sh_word(q.skip(1), false));
    lemma_quote_escape_read(s, seq!['\'']);
    assert(seq!['\''].skip(1) =~= Seq::<char>::empty());
    assert(s + Seq::<char>::empty() =~= s);
}

/// The command run on the server: its address and name in the agent's
/// environment, the subcommand, then removal of the uploaded binary.
pub open spec fn remote_command_text(ip: Seq<char>, name: Seq<char>, subcmd: Seq<char>) -> Seq<char> {
    "FIELD_PROBE_IP="@ + sh_quote_text(ip) + " FIELD_PROBE_NAME="@ + sh_quote_text(name)
        + " /tmp/field-monitor "@ + subcmd + "; rm -f /tmp/field-monitor"@
}

/// The shell command that runs `subcmd` of the uploaded agent on `server`
/// (handed to `ssh` with `ssh_options` and `remote_login`).
pub fn remote_command(server: &ServerEntry, subcmd: &str) -> (r: String)
    ensures
        r@ == remote_command_text(server.ip@, server.name@, subcmd@),
{
    let mut out = String::new();
    push_str(&mut out, "FIELD_PROBE_IP=");
    let ip = sh_quote(server.ip.as_str());
    push_str(&mut out, ip.as_str());
    push_str(&mut out, " FIELD_PROBE_NAME=");
    let name = sh_quote(server.name.as_str());
    push_str(&mut out, name.as_str());
    push_str(&mut out, " /tmp/field-monitor ");
    push_str(&mut out, subcmd);
    push_str(&mut out, "; rm -f /tmp/field-monitor");
    assert(out@ =~= remote_command_text(server.ip@, server.name@, subcmd@));
    out
}

/// `user@ip`: where `ssh`, given `ssh_options`, runs `remote_command`.
pub fn remote_login(server: &ServerEntry) -> (r: String)
    ensures
        r@ == server.user@ + "@"@ + server.ip@,
{
    let mut out = String::new();
    push_str(&mut out, server.user.as_str());
    push_str(&mut out, "@");
    push_str(&mut out, server.ip.as_str());
    out
}

/// `user@ip:/tmp/field-monitor`, where `scp`, given `scp_options`, uploads
/// the binary.
pub fn upload_destination(server: &ServerEntry) -> (r: String)
    ensures
        r@ == server.user@ + "@"@ + server.ip@ + ":/tmp/field-monitor"@,
{
    let mut out = remote_login(server);
    push_str(&mut out, ":/tmp/field-monitor");
    out
}

/// The connection options of `scp` and `ssh`: the key, the port (given
/// with `port_flag`, which is `-P` for scp and `-p` for ssh), host-key
/// acceptance and the timeouts.
pub open spec fn connect_options_text(key: Seq<char>, port_flag: Seq<char>, port: u16) -> Seq<Seq<char>> {
    seq![
        "-i"@,
        key,
        port_flag,
        decimal(port as nat),
        "-o"@,
        "StrictHostKeyChecking=accept-new"@,
        "-o"@,
        "ConnectTimeout=15"@,
        "-o"@,
        "ServerAliveInterval=15"@,
        "-o"@,
        "ServerAliveCountMax=3"@,
    ]
}

/// The connection options with the port given by `port_flag`.
fn connect_options(server: &ServerEntry, port_flag: &str) -> (r: Vec<String>)
    ensures
        r@.map_values(|x: String| x@) == connect_options_text(server.key@, port_flag@, server.port),
{
    let mut v: Vec<String> = Vec::new();
    v.push(String::from_str("-i"));
    v.push(server.key.clone());
    v.push(String::from_str(port_flag));
    v.push(crate::text::decimal_string(server.port as u64));
    v.push(String::from_str("-o"));
    v.push(String::from_str("StrictHostKeyChecking=accept-new"));
    v.push(String::from_str("-o"));
    v.push(String::from_str("ConnectTimeout=15"));
    v.push(String::from_str("-o"));
    v.push(String::from_str("ServerAliveInterval=15"));
    v.push(String::from_str("-o"));
    v.push(String::from_str("ServerAliveCountMax=3"));
    assert(v@.map_values(|x: String| x@) =~= connect_options_text(server.key@, port_flag@, server.port));
    v
}

/// The options given to `scp` when the binary is uploaded to `server`: its
/// port goes with `-P`.
pub fn scp_options(server: &ServerEntry) -> (r: Vec<String>)
    ensures
        r@.map_values(|x: String| x@) == connect_options_text(server.key@, "-P"@, server.port),
{
    connect_options(server, "-P")
}

/// The options given to `ssh` when the agent is run on `server` (before
/// `remote_login` and `remote_command`): its port goes with `-p`.
pub fn ssh_options(server: &ServerEntry) -> (r: Vec<String>)
    ensures
        r@.map_values(|x: String| x@) == connect_options_text(server.key@, "-p"@, server.port),
{
    connect_options(server, "-p")
}

/// What `run_remote` hands back: the remote standard output, and, when the
/// remote standard error is not blank, a `# remote-stderr:` line with it
/// trimmed (so a server that fails does not vanish from the log silently).
pub open spec fn remote_output_text(stdout: Seq<char>, stderr: Seq<char>) -> Seq<char> {
    if trim(stderr).len() == 0 {
        stdout
    } else {
        stdout + "\n# remote-stderr: "@ + trim(stderr)
    }
}

/// Combines the remote output streams as `run_remote` reports them.
pub fn remote_output(stdout: &str, stderr: &str) -> (r: String)
    ensures
        r@ == remote_output_text(stdout@, stderr@),
{
    let mut out = String::from_str(stdout);
    let e = chars_of(stderr);
    let t = trim_chars(e.as_slice());
    if t.len() > 0 {
        push_str(&mut out, "\n# remote-stderr: ");
        crate::text::push_chars(&mut out, t.as_slice());
    }
    out
}

} // verus!
