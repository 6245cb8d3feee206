//! Cross-checking our measurements against a public reference measurement
//! API (read-only, GET): the query that is sent for a target, what the
//! reply says, and the row that is reported for it.

use vstd::prelude::*;

use crate::model::{Target, safe_target};
use crate::text::{chars_equal, chars_of, push_char, push_str};

verus! {

/// One target as the reference API sees it.
#[derive(Debug, Clone)]
pub struct CorroRow {
    pub target: String,
    pub input: String,
    /// The reference anomaly (`True` = suspected blocking).
    pub ref_anomaly: String,
    pub blocking_type: String,
    pub last_measurement: String,
    /// How many records were found in the window.
    pub probe_count: usize,
    /// Our local HTTPS code (from the last measurement, if any).
    pub local_https: String,
}

/// A `CorroRow` with its text fields as character sequences.
pub struct CorroRowView {
    pub target: Seq<char>,
    pub input: Seq<char>,
    pub ref_anomaly: Seq<char>,
    pub blocking_type: Seq<char>,
    pub last_measurement: Seq<char>,
    pub probe_count: usize,
    pub local_https: Seq<char>,
}

impl View for CorroRow {
    type V = CorroRowView;

    open spec fn view(&self) -> CorroRowView {
        CorroRowView {
            target: self.target@,
            input: self.input@,
            ref_anomaly: self.ref_anomaly@,
            blocking_type: self.blocking_type@,
            last_measurement: self.last_measurement@,
            probe_count: self.probe_count,
            local_https: self.local_https@,
        }
    }
}

/// A JSON document; numbers are kept as their text.
#[derive(Debug)]
pub enum JsonValue {
    Null,
    Bool(bool),
    Number(String),
    Str(String),
    Array(Vec<JsonValue>),
    Object(Vec<(String, JsonValue)>),
}

/// The value stored under `key` among an object's entries (the first
/// entry with that key).
pub open spec fn field_in(entries: Seq<(String, JsonValue)>, key: Seq<char>) -> Option<JsonValue>
    decreases entries.len(),
{
    if entries.len() == 0 {
        None
    } else if entries[0].0@ == key {
        Some(entries[0].1)
    } else {
        field_in(entries.skip(1), key)
    }
}

/// `value.get(key)`: the member `key` of an object, nothing for any other
/// value or a missing one.
pub open spec fn json_get(v: Option<JsonValue>, key: Seq<char>) -> Option<JsonValue> {
    match v {
        Some(JsonValue::Object(entries)) => field_in(entries@, key),
        _ => None,
    }
}

/// A boolean member, `false` when missing or of another kind.
pub open spec fn bool_or_false(v: Option<JsonValue>) -> bool {
    match v {
        Some(JsonValue::Bool(b)) => b,
        _ => false,
    }
}

/// A string member, empty when missing or of another kind.
pub open spec fn str_or_empty(v: Option<JsonValue>) -> Seq<char> {
    match v {
        Some(JsonValue::Str(s)) => s@,
        _ => Seq::empty(),
    }
}

/// The member `key` of an object value.
pub fn get_field<'a>(v: &'a JsonValue, key: &str) -> (r: Option<&'a JsonValue>)
    ensures
        match r {
            Some(x) => json_get(Some(*v), key@) == Some(*x),
            None => json_get(Some(*v), key@) is None,
        },
{
    match v {
        JsonValue::Object(entries) => {
            let k = chars_of(key);
            let n = entries.len();
            let mut i: usize = 0;
            assert(entries@.skip(0) =~= entries@);
            while i < n
                invariant
                    n == entries@.len(),
                    k@ == key@,
                    i <= n,
                    json_get(Some(*v), key@) == field_in(entries@, key@),
                    field_in(entries@, key@) == field_in(entries@.skip(i as int), key@),
                decreases n - i,
            {
                assert(entries@.skip(i as int)[0] == entries@[i as int]);
                assert(entries@.skip(i as int).skip(1) =~= entries@.skip(i + 1));
                let ek = chars_of(entries[i].0.as_str());
                if chars_equal(ek.as_slice(), k.as_slice()) {
                    assert(entries@[i as int].0@ == key@);
                    assert(field_in(entries@.skip(i as int), key@) == Some(entries@[i as int].1));
                    return Some(&entries[i].1);
                }
                i = i + 1;
            }
            None
        },
        _ => None,
    }
}

/// A boolean member, `false` when missing or of another kind.
fn member_bool(v: Option<&JsonValue>) -> (b: bool)
    ensures
        b == bool_or_false(match v { Some(x) => Some(*x), None => None }),
{
    match v {
        Some(JsonValue::Bool(b)) => *b,
        _ => false,
    }
}

/// A string member, empty when missing or of another kind.
fn member_str(v: Option<&JsonValue>) -> (s: String)
    ensures
        s@ == str_or_empty(match v { Some(x) => Some(*x), None => None }),
{
    match v {
        Some(JsonValue::Str(s)) => s.clone(),
        _ => String::new(),
    }
}

/// What the reference API says of one input: whether its last measurement
/// is an anomaly, the blocking type, when it was measured, and how many
/// measurements were found.
pub struct Reference {
    pub anomaly: bool,
    pub blocking_type: String,
    pub last_measurement: String,
    pub count: usize,
}

/// A `Reference` with its text fields as character sequences.
pub struct ReferenceView {
    pub anomaly: bool,
    pub blocking_type: Seq<char>,
    pub last_measurement: Seq<char>,
    pub count: nat,
}

impl View for Reference {
    type V = ReferenceView;

    open spec fn view(&self) -> ReferenceView {
        ReferenceView {
            anomaly: self.anomaly,
            blocking_type: self.blocking_type@,
            last_measurement: self.last_measurement@,
            count: self.count as nat,
        }
    }
}

/// What a reply of the reference API says: nothing unless it has a
/// `results` array; for an empty one, no anomaly and no record; else the
/// last result's `anomaly` (false when missing),
/// `scores.analysis.blocking_type` and `measurement_start_time` (empty when
/// missing), and the number of results.
pub open spec fn reference_of(doc: JsonValue) -> Option<ReferenceView> {
    match json_get(Some(doc), "results"@) {
        Some(JsonValue::Array(results)) => if results@.len() == 0 {
            Some(
                ReferenceView {
                    anomaly: false,
                    blocking_type: Seq::empty(),
                    last_measurement: Seq::empty(),
                    count: 0,
                },
            )
        } else {
            let x = Some(results@.last());
            Some(
                ReferenceView {
                    anomaly: bool_or_false(json_get(x, "anomaly"@)),
                    blocking_type: str_or_empty(
                        json_get(json_get(json_get(x, "scores"@), "analysis"@), "blocking_type"@),
                    ),
                    last_measurement: str_or_empty(json_get(x, "measurement_start_time"@)),
                    count: results@.len(),
                },
            )
        },
        _ => None,
    }
}

/// Reads the reference API's reply.
pub fn reference_from_reply(doc: &JsonValue) -> (r: Option<Reference>)
    ensures
        match r {
            Some(x) => reference_of(*doc) == Some(x@),
            None => reference_of(*doc) is None,
        },
{
    match get_field(doc, "results") {
        Some(JsonValue::Array(results)) => {
            let n = results.len();
            if n == 0 {
                let r = Reference {
                    anomaly: false,
                    blocking_type: String::new(),
                    last_measurement: String::new(),
                    count: 0,
                };
                assert(r@.blocking_type =~= Seq::<char>::empty());
                Some(r)
            } else {
                let x = &results[n - 1];
                assert(*x == results@.last());
                let anomaly = member_bool(get_field(x, "anomaly"));
                let scores = get_field(x, "scores");
                let analysis = match scores {
                    Some(s) => get_field(s, "analysis"),
                    None => None,
                };
                let bt = match analysis {
                    Some(a) => get_field(a, "blocking_type"),
                    None => None,
                };
                let blocking_type = member_str(bt);
                let last_measurement = member_str(get_field(x, "measurement_start_time"));
                Some(Reference { anomaly, blocking_type, last_measurement, count: n })
            }
        },
        _ => None,
    }
}

/// What is reported when no reference API is configured: no anomaly, the
/// blocking type `no-api-url`, nothing measured.
pub fn no_api_reference() -> (r: Reference)
    ensures
        r@ == (ReferenceView {
            anomaly: false,
            blocking_type: "no-api-url"@,
            last_measurement: Seq::empty(),
            count: 0,
        }),
{
    let r = Reference {
        anomaly: false,
        blocking_type: String::from_str("no-api-url"),
        last_measurement: String::new(),
        count: 0,
    };
    assert(r@.last_measurement =~= Seq::<char>::empty());
    r
}

/// The parsed JSON document of serde_json, `serde_json::Value`.
#[verifier::external_type_specification]
#[verifier::external_body]
pub struct ExJsonDocument(serde_json::Value);

/// What `serde_json::from_slice::<serde_json::Value>` makes of the bytes, in
/// the library's JSON model (numbers as their text, object members in the
/// order serde_json's map keeps them): `None` when the bytes are not a JSON
/// document.
pub uninterp spec fn json_document(bytes: Seq<u8>) -> Option<JsonValue>;

/// Converts serde_json's value into the library's JSON model, variant for
/// variant (a number by its text). Nothing is stated of it; `parse_json`
/// states what the parse and this conversion give together.
#[verifier::external_body]
fn json_model(v: serde_json::Value) -> JsonValue {
    match v {
        serde_json::Value::Null => JsonValue::Null,
        serde_json::Value::Bool(b) => JsonValue::Bool(b),
        serde_json::Value::Number(n) => JsonValue::Number(n.to_string()),
        serde_json::Value::String(s) => JsonValue::Str(s),
        serde_json::Value::Array(a) => JsonValue::Array(a.into_iter().map(json_model).collect()),
        serde_json::Value::Object(o) => JsonValue::Object(
            o.into_iter().map(|(k, x)| (k, json_model(x))).collect(),
        ),
    }
}

/// Wraps `serde_json::from_slice::<serde_json::Value>`: the document that the
/// bytes hold, in the library's JSON model, named `json_document`; `None`
/// when serde_json refuses the bytes.
#[verifier::external_body]
pub fn parse_json(bytes: &[u8]) -> (r: Option<JsonValue>)
    ensures
        r == json_document(bytes@),
{
    match serde_json::from_slice::<serde_json::Value>(bytes) {
        Ok(v) => Some(json_model(v)),
        Err(_) => None,
    }
}

/// Reads the reference API's raw reply: nothing when it is not JSON, else
/// what the document says (see `reference_of`).
pub fn reference_from_bytes(bytes: &[u8]) -> (r: Option<Reference>)
    ensures
        match json_document(bytes@) {
            Some(d) => match r {
                Some(x) => reference_of(d) == Some(x@),
                None => reference_of(d) is None,
            },
            None => r is None,
        },
{
    match parse_json(bytes) {
        Some(doc) => reference_from_reply(&doc),
        None => None,
    }
}

/// Only targets with a URL are cross-checked: an address-only target says
/// nothing about web connectivity.
pub open spec fn cross_checked(t: Target) -> bool {
    t.url@.len() > 0
}

/// Whether the target is cross-checked.
pub fn is_cross_checked(t: &Target) -> (b: bool)
    ensures
        b == cross_checked(*t),
{
    t.url.as_str().unicode_len() > 0
}

/// The row of a target: `True`/`False` from the reference's anomaly, or
/// `no-data` with nothing found when the API could not be read; our local
/// HTTPS code is not filled in (`-`).
pub open spec fn corro_row_spec(t: Target, r: Option<ReferenceView>) -> CorroRowView {
    match r {
        Some(x) => CorroRowView {
            target: t.name@,
            input: t.url@,
            ref_anomaly: if x.anomaly { "True"@ } else { "False"@ },
            blocking_type: x.blocking_type,
            last_measurement: x.last_measurement,
            probe_count: x.count as usize,
            local_https: "-"@,
        },
        None => CorroRowView {
            target: t.name@,
            input: t.url@,
            ref_anomaly: "no-data"@,
            blocking_type: Seq::empty(),
            last_measurement: Seq::empty(),
            probe_count: 0,
            local_https: "-"@,
        },
    }
}

/// Assembles the row of one target from what the reference API said
/// (`None` when it could not be queried or its reply not read).
pub fn corro_row(t: &Target, r: Option<&Reference>) -> (row: CorroRow)
    ensures
        row@ == corro_row_spec(*t, match r { Some(x) => Some(x@), None => None }),
{
    match r {
        Some(x) => CorroRow {
            target: t.name.clone(),
            input: t.url.clone(),
            ref_anomaly: if x.anomaly { String::from_str("True") } else { String::from_str("False") },
            blocking_type: x.blocking_type.clone(),
            last_measurement: x.last_measurement.clone(),
            probe_count: x.count,
            local_https: String::from_str("-"),
        },
        None => {
            let row = CorroRow {
                target: t.name.clone(),
                input: t.url.clone(),
                ref_anomaly: String::from_str("no-data"),
                blocking_type: String::new(),
                last_measurement: String::new(),
                probe_count: 0,
                local_https: String::from_str("-"),
            };
            assert(row@.blocking_type =~= Seq::<char>::empty());
            assert(row@.last_measurement =~= Seq::<char>::empty());
            row
        },
    }
}

/// How far back the reference API is asked: thirty days, in seconds.
pub const REFERENCE_WINDOW_SECS: u64 = 2592000;

/// The start of the queried window: thirty days before `now` (the epoch at
/// the earliest).
pub fn window_start(now_secs: u64) -> (r: u64)
    ensures
        r == if now_secs >= REFERENCE_WINDOW_SECS { now_secs - REFERENCE_WINDOW_SECS } else { 0 },
{
    now_secs.saturating_sub(REFERENCE_WINDOW_SECS)
}

/// Characters that percent-encoding leaves as they are (RFC 3986's
/// unreserved set).
pub open spec fn unreserved(c: char) -> bool {
    ('A' <= c && c <= 'Z') || ('a' <= c && c <= 'z') || ('0' <= c && c <= '9') || c == '-' || c
        == '_' || c == '.' || c == '~'
}

/// The UTF-8 bytes of `c`.
pub open spec fn utf8_bytes(c: char) -> Seq<u8> {
    let v = c as u32;
    if v < 0x80 {
        seq![v as u8]
    } else if v < 0x800 {
        seq![(0xC0 + v / 64) as u8, (0x80 + v % 64) as u8]
    } else if v < 0x10000 {
        seq![(0xE0 + v / 4096) as u8, (0x80 + (v / 64) % 64) as u8, (0x80 + v % 64) as u8]
    } else {
        seq![
            (0xF0 + v / 262144) as u8,
            (0x80 + (v / 4096) % 64) as u8,
            (0x80 + (v / 64) % 64) as u8,
            (0x80 + v % 64) as u8,
        ]
    }
}

/// The upper-case hexadecimal digit of `d` (below 16).
pub open spec fn hex_digit(d: int) -> char {
    if d < 10 {
        (('0' as int) + d) as char
    } else {
        (('A' as int) + d - 10) as char
    }
}

/// `%XX` for each byte.
pub open spec fn percent_bytes(bs: Seq<u8>) -> Seq<char>
    decreases bs.len(),
{
    if bs.len() == 0 {
        Seq::empty()
    } else {
        percent_bytes(bs.drop_last()) + seq!['%', hex_digit((bs.last() / 16) as int), hex_digit((bs.last() % 16) as int)]
    }
}

/// Percent-encoding of a text: unreserved characters stay, every other
/// character becomes `%XX` for each of its UTF-8 bytes.
pub open spec fn url_encoded(s: Seq<char>) -> Seq<char>
    decreases s.len(),
{
    if s.len() == 0 {
        Seq::empty()
    } else {
        url_encoded(s.drop_last()) + if unreserved(s.last()) {
            seq![s.last()]
        } else {
            percent_bytes(utf8_bytes(s.last()))
        }
    }
}

/// Every character of `%XX` encodings is `%` or an upper-case hex digit.
proof fn lemma_percent_bytes_chars(bs: Seq<u8>)
    ensures
        forall|i: int|
            0 <= i < percent_bytes(bs).len() ==> unreserved(#[trigger] percent_bytes(bs)[i])
                || percent_bytes(bs)[i] == '%',
    decreases bs.len(),
{
    if bs.len() > 0 {
        lemma_percent_bytes_chars(bs.drop_last());
        let hi = (bs.last() / 16) as int;
        let lo = (bs.last() % 16) as int;
        lemma_hex_digit_unreserved(hi);
        lemma_hex_digit_unreserved(lo);
        let prev = percent_bytes(bs.drop_last());
        let tail = seq!['%', hex_digit(hi), hex_digit(lo)];
        assert forall|i: int| 0 <= i < percent_bytes(bs).len() implies unreserved(
            #[trigger] percent_bytes(bs)[i],
        ) || percent_bytes(bs)[i] == '%' by {
            if i < prev.len() {
                assert(percent_bytes(bs)[i] == prev[i]);
            } else {
                assert(percent_bytes(bs)[i] == tail[i - prev.len()]);
            }
        }
    }
}

/// A hexadecimal digit is unreserved.
proof fn lemma_hex_digit_unreserved(d: int)
    requires
        0 <= d < 16,
    ensures
        unreserved(hex_digit(d)),
{
    if d < 10 {
        assert(('0' as int) + d <= ('9' as int));
    } else {
        assert(('A' as int) + d - 10 <= ('F' as int));
    }
}

/// Law: percent-encoding leaves nothing but unreserved characters and `%`,
/// so an input with `&`, `#`, `?` or `=` in it cannot change the query it
/// is put into.
pub proof fn law_url_encoded_is_inert(s: Seq<char>)
    ensures
        forall|i: int|
            0 <= i < url_encoded(s).len() ==> unreserved(#[trigger] url_encoded(s)[i])
                || url_encoded(s)[i] == '%',
    decreases s.len(),
{
    if s.len() > 0 {
        law_url_encoded_is_inert(s.drop_last());
        let prev = url_encoded(s.drop_last());
        let c = s.last();
        let tail = if unreserved(c) {
            seq![c]
        } else {
            percent_bytes(utf8_bytes(c))
        };
        lemma_percent_bytes_chars(utf8_bytes(c));
        assert(url_encoded(s) == prev + tail);
        assert forall|i: int| 0 <= i < url_encoded(s).len() implies unreserved(
            #[trigger] url_encoded(s)[i],
        ) || url_encoded(s)[i] == '%' by {
            if i < prev.len() {
                assert(url_encoded(s)[i] == prev[i]);
            } else {
                assert(url_encoded(s)[i] == tail[i - prev.len()]);
            }
        }
    }
}

/// The hexadecimal digit of `d`.
fn hex_char(d: u8) -> (c: char)
    requires
        d < 16,
    ensures
        c == hex_digit(d as int),
{
    match d {
        0 => '0',
        1 => '1',
        2 => '2',
        3 => '3',
        4 => '4',
        5 => '5',
        6 => '6',
        7 => '7',
        8 => '8',
        9 => '9',
        10 => 'A',
        11 => 'B',
        12 => 'C',
        13 => 'D',
        14 => 'E',
        _ => 'F',
    }
}

/// The UTF-8 bytes of `c`.
fn utf8_of(c: char) -> (r: Vec<u8>)
    ensures
        r@ == utf8_bytes(c),
{
    let v = c as u32;
    let mut r: Vec<u8> = Vec::new();
    if v < 0x80 {
        r.push(v as u8);
    } else if v < 0x800 {
        r.push((0xC0 + v / 64) as u8);
        r.push((0x80 + v % 64) as u8);
    } else if v < 0x10000 {
        r.push((0xE0 + v / 4096) as u8);
        r.push((0x80 + (v / 64) % 64) as u8);
        r.push((0x80 + v % 64) as u8);
    } else {
        r.push((0xF0 + v / 262144) as u8);
        r.push((0x80 + (v / 4096) % 64) as u8);
        r.push((0x80 + (v / 64) % 64) as u8);
        r.push((0x80 + v % 64) as u8);
    }
    assert(r@ =~= utf8_bytes(c));
    r
}

/// Whether `c` is left as it is by percent-encoding.
fn is_unreserved(c: char) -> (b: bool)
    ensures
        b == unreserved(c),
{
    ('A' <= c && c <= 'Z') || ('a' <= c && c <= 'z') || ('0' <= c && c <= '9') || c == '-' || c
        == '_' || c == '.' || c == '~'
}

/// Appends the percent-encoding of `s`.
pub fn push_url_encoded(out: &mut String, s: &str)
    ensures
        final(out)@ == old(out)@ + url_encoded(s@),
{
    let cs = chars_of(s);
    let n = cs.len();
    let ghost start = out@;
    assert(cs@.take(0) =~= Seq::<char>::empty());
    assert(start + Seq::<char>::empty() =~= start);
    for i in 0..n
        invariant
            n == cs@.len(),
            cs@ == s@,
            out@ == start + url_encoded(cs@.take(i as int)),
    {
        let c = cs[i];
        assert(cs@.take(i + 1).drop_last() =~= cs@.take(i as int));
        assert(cs@.take(i + 1).last() == c);
        if is_unreserved(c) {
            push_char(out, c);
            assert(out@ =~= start + url_encoded(cs@.take(i + 1)));
        } else {
            let bytes = utf8_of(c);
            let m = bytes.len();
            let ghost mid = out@;
            assert(bytes@.take(0) =~= Seq::<u8>::empty());
            assert(mid + percent_bytes(Seq::<u8>::empty()) =~= mid);
            for j in 0..m
                invariant
                    m == bytes@.len(),
                    out@ == mid + percent_bytes(bytes@.take(j as int)),
            {
                let b = bytes[j];
                assert(bytes@.take(j + 1).drop_last() =~= bytes@.take(j as int));
                assert(bytes@.take(j + 1).last() == b);
                push_char(out, '%');
                push_char(out, hex_char(b / 16));
                push_char(out, hex_char(b % 16));
                assert(out@ =~= mid + percent_bytes(bytes@.take(j + 1)));
            }
            assert(bytes@.take(m as int) =~= bytes@);
            assert(out@ =~= start + url_encoded(cs@.take(i + 1)));
        }
    }
    assert(cs@.take(n as int) =~= cs@);
}

/// The query of the reference API for `input`: the measurements of the
/// web-connectivity test in the country `cc` since `since`, the ten latest
/// by start time; the country and the input are percent-encoded.
pub open spec fn query_url_text(api: Seq<char>, cc: Seq<char>, input: Seq<char>, since: Seq<char>) -> Seq<char> {
    api + "?country_code="@ + url_encoded(cc) + "&test_name=web_connectivity&input="@
        + url_encoded(input) + "&limit=10&order_by=measurement_start_time&since="@ + since
}

/// Builds the query of the reference API for `input`.
pub fn query_url(api: &str, cc: &str, input: &str, since: &str) -> (r: String)
    ensures
        r@ == query_url_text(api@, cc@, input@, since@),
{
    let mut u = String::from_str(api);
    push_str(&mut u, "?country_code=");
    push_url_encoded(&mut u, cc);
    push_str(&mut u, "&test_name=web_connectivity&input=");
    push_url_encoded(&mut u, input);
    push_str(&mut u, "&limit=10&order_by=measurement_start_time&since=");
    push_str(&mut u, since);
    assert(u@ =~= query_url_text(api@, cc@, input@, since@));
    u
}


/// The view of an optional reference.
pub open spec fn ref_view(r: Option<Reference>) -> Option<ReferenceView> {
    match r {
        Some(x) => Some(x@),
        None => None,
    }
}

/// Whether a target is queried: it has a URL and passes the safety check
/// (`addr_ok` telling whether its address parses as an IP address).
pub open spec fn queried(t: Target, addr_ok: bool) -> bool {
    cross_checked(t) && safe_target(t, addr_ok)
}

/// The rows of a cross-check: one per queried target, in order, holding
/// what the API said (`None` when it could not be read); targets without a
/// URL and targets refused by the safety check give none.
pub open spec fn corro_rows_spec(
    targets: Seq<Target>,
    addr_ok: Seq<bool>,
    replies: Seq<Option<Option<Reference>>>,
) -> Seq<CorroRowView>
    decreases targets.len(),
{
    if targets.len() == 0 || addr_ok.len() == 0 || replies.len() == 0 {
        Seq::empty()
    } else {
        let rest = corro_rows_spec(targets.drop_last(), addr_ok.drop_last(), replies.drop_last());
        if queried(targets.last(), addr_ok.last()) {
            match replies.last() {
                Some(r) => rest.push(corro_row_spec(targets.last(), ref_view(r))),
                None => rest,
            }
        } else {
            rest
        }
    }
}

/// How many targets are queried.
pub open spec fn queried_count(targets: Seq<Target>, addr_ok: Seq<bool>) -> nat
    decreases targets.len(),
{
    if targets.len() == 0 || addr_ok.len() == 0 {
        0
    } else {
        queried_count(targets.drop_last(), addr_ok.drop_last()) + if queried(
            targets.last(),
            addr_ok.last(),
        ) {
            1nat
        } else {
            0nat
        }
    }
}

/// Every queried target has a reply entry.
pub open spec fn queried_ones_answered(
    targets: Seq<Target>,
    addr_ok: Seq<bool>,
    replies: Seq<Option<Option<Reference>>>,
) -> bool {
    forall|i: int| 0 <= i < targets.len() && #[trigger] queried(targets[i], addr_ok[i]) ==> replies[i] is Some
}

/// The views of the rows.
pub open spec fn corro_views(rows: Seq<CorroRow>) -> Seq<CorroRowView> {
    rows.map_values(|r: CorroRow| r@)
}

/// Law (allowlist only, safe targets only): a cross-check gives exactly one
/// row per target of the allowlist that has a URL and passes the safety
/// check, and every row carries the name and URL of such a target.
pub proof fn law_corro_rows_are_allowlisted(
    targets: Seq<Target>,
    addr_ok: Seq<bool>,
    replies: Seq<Option<Option<Reference>>>,
)
    requires
        addr_ok.len() == targets.len(),
        replies.len() == targets.len(),
        queried_ones_answered(targets, addr_ok, replies),
    ensures
        corro_rows_spec(targets, addr_ok, replies).len() == queried_count(targets, addr_ok),
        forall|k: int|
            0 <= k < corro_rows_spec(targets, addr_ok, replies).len() ==> from_queried(
                targets,
                addr_ok,
                #[trigger] corro_rows_spec(targets, addr_ok, replies)[k],
            ),
{
    lemma_corro_rows_count(targets, addr_ok, replies);
    assert forall|k: int| 0 <= k < corro_rows_spec(targets, addr_ok, replies).len() implies from_queried(
        targets,
        addr_ok,
        #[trigger] corro_rows_spec(targets, addr_ok, replies)[k],
    ) by {
        let i = lemma_corro_row_origin(targets, addr_ok, replies, k);
        assert(targets[i].name@ == targets[i].name@);
    }
}

/// The row is about a queried target: it carries that target's name and
/// URL.
pub open spec fn from_queried(targets: Seq<Target>, addr_ok: Seq<bool>, row: CorroRowView) -> bool {
    exists|i: int|
        0 <= i < targets.len() && #[trigger] queried(targets[i], addr_ok[i]) && row.target
            == targets[i].name@ && row.input == targets[i].url@
}

/// The queried targets of the first ones that were answered.
proof fn lemma_prefix_answered(
    targets: Seq<Target>,
    addr_ok: Seq<bool>,
    replies: Seq<Option<Option<Reference>>>,
)
    requires
        targets.len() > 0,
        addr_ok.len() == targets.len(),
        replies.len() == targets.len(),
        queried_ones_answered(targets, addr_ok, replies),
    ensures
        queried_ones_answered(targets.drop_last(), addr_ok.drop_last(), replies.drop_last()),
        queried(targets.last(), addr_ok.last()) ==> replies.last() is Some,
{
    let t0 = targets.drop_last();
    let a0 = addr_ok.drop_last();
    let r0 = replies.drop_last();
    assert forall|i: int| 0 <= i < t0.len() && #[trigger] queried(t0[i], a0[i]) implies r0[i] is Some by {
        assert(t0[i] == targets[i] && a0[i] == addr_ok[i] && r0[i] == replies[i]);
    }
    let last = targets.len() - 1;
    assert(targets[last] == targets.last() && addr_ok[last] == addr_ok.last());
    assert(replies[last] == replies.last());
}

/// The cross-check gives one row per queried target.
proof fn lemma_corro_rows_count(
    targets: Seq<Target>,
    addr_ok: Seq<bool>,
    replies: Seq<Option<Option<Reference>>>,
)
    requires
        addr_ok.len() == targets.len(),
        replies.len() == targets.len(),
        queried_ones_answered(targets, addr_ok, replies),
    ensures
        corro_rows_spec(targets, addr_ok, replies).len() == queried_count(targets, addr_ok),
    decreases targets.len(),
{
    if targets.len() > 0 {
        lemma_prefix_answered(targets, addr_ok, replies);
        lemma_corro_rows_count(targets.drop_last(), addr_ok.drop_last(), replies.drop_last());
    }
}

/// The target that row `k` of a cross-check is about.
proof fn lemma_corro_row_origin(
    targets: Seq<Target>,
    addr_ok: Seq<bool>,
    replies: Seq<Option<Option<Reference>>>,
    k: int,
) -> (i: int)
    requires
        addr_ok.len() == targets.len(),
        replies.len() == targets.len(),
        queried_ones_answered(targets, addr_ok, replies),
        0 <= k < corro_rows_spec(targets, addr_ok, replies).len(),
    ensures
        0 <= i < targets.len(),
        queried(targets[i], addr_ok[i]),
        corro_rows_spec(targets, addr_ok, replies)[k].target == targets[i].name@,
        corro_rows_spec(targets, addr_ok, replies)[k].input == targets[i].url@,
    decreases targets.len(),
{
    lemma_prefix_answered(targets, addr_ok, replies);
    let t0 = targets.drop_last();
    let a0 = addr_ok.drop_last();
    let r0 = replies.drop_last();
    let rest = corro_rows_spec(t0, a0, r0);
    let all = corro_rows_spec(targets, addr_ok, replies);
    let last = targets.len() - 1;
    assert(targets[last] == targets.last() && addr_ok[last] == addr_ok.last());
    if k < rest.len() {
        assert(all[k] == rest[k]);
        let i = lemma_corro_row_origin(t0, a0, r0, k);
        assert(targets[i] == t0[i] && addr_ok[i] == a0[i]);
        i
    } else {
        assert(queried(targets.last(), addr_ok.last()));
        assert(all[k] == corro_row_spec(targets.last(), ref_view(replies.last()->0)));
        last
    }
}

/// Runs the assembly of a cross-check over the allowlist: for each target
/// with a URL that passes the safety check (`addr_ok` telling whether its
/// address parses as an IP address), in order, its row; the others give
/// none.
pub fn run(
    targets: &[Target],
    addr_ok: &[bool],
    replies: &[Option<Option<Reference>>],
) -> (rows: Vec<CorroRow>)
    requires
        addr_ok@.len() == targets@.len(),
        replies@.len() == targets@.len(),
        queried_ones_answered(targets@, addr_ok@, replies@),
    ensures
        corro_views(rows@) == corro_rows_spec(targets@, addr_ok@, replies@),
{
    let mut rows: Vec<CorroRow> = Vec::new();
    let n = targets.len();
    assert(corro_views(rows@) =~= Seq::<CorroRowView>::empty());
    for i in 0..n
        invariant
            n == targets@.len(),
            addr_ok@.len() == n,
            replies@.len() == n,
            corro_views(rows@) == corro_rows_spec(
                targets@.take(i as int),
                addr_ok@.take(i as int),
                replies@.take(i as int),
            ),
    {
        let ghost prev = rows@;
        assert(targets@.take(i + 1).drop_last() =~= targets@.take(i as int));
        assert(addr_ok@.take(i + 1).drop_last() =~= addr_ok@.take(i as int));
        assert(replies@.take(i + 1).drop_last() =~= replies@.take(i as int));
        assert(targets@.take(i + 1).last() == targets@[i as int]);
        assert(addr_ok@.take(i + 1).last() == addr_ok@[i as int]);
        assert(replies@.take(i + 1).last() == replies@[i as int]);
        if is_cross_checked(&targets[i]) && targets[i].is_safe(addr_ok[i]) {
            match &replies[i] {
                Some(r) => {
                    let row = match r {
                        Some(x) => corro_row(&targets[i], Some(x)),
                        None => corro_row(&targets[i], None),
                    };
                    rows.push(row);
                    assert(corro_views(rows@) =~= corro_views(prev).push(row@));
                },
                None => {},
            }
        }
    }
    assert(targets@.take(n as int) =~= targets@);
    assert(addr_ok@.take(n as int) =~= addr_ok@);
    assert(replies@.take(n as int) =~= replies@);
    rows
}

} // verus!
