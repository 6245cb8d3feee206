//! Character-sequence primitives shared by the parsers and formatters.

use vstd::prelude::*;

verus! {

/// Appends one character to a `String` (wraps `String::push`).
#[verifier::external_body]
pub(crate) fn push_char(s: &mut String, c: char)
    ensures
        final(s)@ == old(s)@.push(c),
{
    s.push(c);
}

/// The characters of a string slice, in order.
pub fn chars_of(s: &str) -> (r: Vec<char>)
    ensures
        r@ == s@,
{
    let mut v: Vec<char> = Vec::new();
    for c in it: s.chars()
        invariant
            v@ == it.seq().take(it.index() as int),
            it.seq() == s@,
    {
        v.push(c);
    }
    v
}

/// Builds a `String` from a character sequence.
pub fn string_from_chars(cs: &[char]) -> (r: String)
    ensures
        r@ == cs@,
{
    let mut s = String::new();
    let n = cs.len();
    for i in 0..n
        invariant
            n == cs@.len(),
            s@ == cs@.take(i as int),
    {
        push_char(&mut s, cs[i]);
        assert(cs@.take(i + 1) == cs@.take(i as int).push(cs@[i as int]));
    }
    assert(cs@.take(n as int) == cs@);
    s
}

} // verus!

verus! {

// ---------------------------------------------------------------------------
// Decimal numbers
// ---------------------------------------------------------------------------

/// The ASCII digit for `d` (0..=9).
pub open spec fn digit_char(d: int) -> char {
    if d == 0 { '0' } else if d == 1 { '1' } else if d == 2 { '2' } else if d == 3 { '3' }
    else if d == 4 { '4' } else if d == 5 { '5' } else if d == 6 { '6' } else if d == 7 { '7' }
    else if d == 8 { '8' } else { '9' }
}

pub open spec fn is_digit(c: char) -> bool {
    '0' <= c && c <= '9'
}

pub open spec fn digit_value(c: char) -> int {
    (c as int) - 48
}

/// Decimal representation of `n`, without leading zeros (`"0"` for zero).
pub open spec fn decimal(n: nat) -> Seq<char>
    decreases n,
{
    if n < 10 {
        seq![digit_char(n as int)]
    } else {
        decimal(n / 10).push(digit_char((n % 10) as int))
    }
}

pub open spec fn all_digits(s: Seq<char>) -> bool {
    forall|i: int| 0 <= i < s.len() ==> is_digit(#[trigger] s[i])
}

/// Value of a string of decimal digits.
pub open spec fn digits_value(s: Seq<char>) -> nat
    decreases s.len(),
{
    if s.len() == 0 {
        0
    } else {
        (digits_value(s.drop_last()) * 10 + digit_value(s.last())) as nat
    }
}

/// What `str::parse` gives for an unsigned integer type whose largest value
/// is `max`: an optional `+` followed by at least one digit, and a value that
/// fits.
pub open spec fn parse_unsigned(s: Seq<char>, max: nat) -> Option<nat> {
    let ds = if s.len() > 0 && s[0] == '+' {
        s.skip(1)
    } else {
        s
    };
    if ds.len() > 0 && all_digits(ds) && digits_value(ds) <= max {
        Some(digits_value(ds))
    } else {
        None
    }
}

pub open spec fn parse_u64_spec(s: Seq<char>) -> Option<u64> {
    match parse_unsigned(s, u64::MAX as nat) {
        Some(v) => Some(v as u64),
        None => None,
    }
}

pub open spec fn parse_u16_spec(s: Seq<char>) -> Option<u16> {
    match parse_unsigned(s, u16::MAX as nat) {
        Some(v) => Some(v as u16),
        None => None,
    }
}

pub open spec fn parse_u8_spec(s: Seq<char>) -> Option<u8> {
    match parse_unsigned(s, u8::MAX as nat) {
        Some(v) => Some(v as u8),
        None => None,
    }
}

pub proof fn lemma_digits_value_prefix(s: Seq<char>, k: int)
    requires
        0 <= k <= s.len(),
        all_digits(s),
    ensures
        digits_value(s.take(k)) <= digits_value(s),
    decreases s.len(),
{
    if k < s.len() {
        lemma_digits_value_prefix(s.drop_last(), k);
        assert(s.drop_last().take(k) == s.take(k));
        assert(is_digit(s[s.len() - 1]));
    } else {
        assert(s.take(k) == s);
    }
}

pub proof fn lemma_decimal_digits(n: nat)
    ensures
        decimal(n).len() > 0,
        all_digits(decimal(n)),
        digits_value(decimal(n)) == n,
        decimal(n)[0] != '+',
    decreases n,
{
    if n >= 10 {
        lemma_decimal_digits(n / 10);
        let d = decimal(n / 10);
        assert(decimal(n).drop_last() == d);
        let r = (n % 10) as int;
        assert(digit_value(digit_char(r)) == r);
        assert(decimal(n).last() == digit_char(r));
        assert(digits_value(decimal(n)) == digits_value(d) * 10 + digit_value(digit_char(r)));
        assert((n / 10) * 10 + n % 10 == n);
    } else {
        assert(decimal(n).drop_last() =~= Seq::<char>::empty());
        assert(digit_value(digit_char(n as int)) == n);
        assert(decimal(n).last() == digit_char(n as int));
        assert(digits_value(decimal(n).drop_last()) == 0);
    }
}

/// Decimal text parses back to the number it was made from.
pub proof fn lemma_parse_decimal(n: nat, max: nat)
    requires
        n <= max,
    ensures
        parse_unsigned(decimal(n), max) == Some(n),
{
    lemma_decimal_digits(n);
}

/// Appends the decimal text of `n`.
pub fn push_decimal(s: &mut String, n: u64)
    ensures
        final(s)@ == old(s)@ + decimal(n as nat),
    decreases n,
{
    if n >= 10 {
        push_decimal(s, n / 10);
    }
    let d = (n % 10) as u32;
    let c = char_from_digit(d);
    push_char(s, c);
    if n >= 10 {
        assert(decimal(n as nat) == decimal((n / 10) as nat).push(digit_char((n % 10) as int)));
    }
}

/// The ASCII digit for `d`.
pub fn char_from_digit(d: u32) -> (c: char)
    requires
        d < 10,
    ensures
        c == digit_char(d as int),
{
    match d {
        0 => '0',
        1 => '1',
        2 => '2',
        3 => '3',
        4 => '4',
        5 => '5',
        6 => '6',
        7 => '7',
        8 => '8',
        _ => '9',
    }
}

/// Decimal text of `n` (what `n.to_string()` gives).
pub fn decimal_string(n: u64) -> (r: String)
    ensures
        r@ == decimal(n as nat),
{
    let mut s = String::new();
    push_decimal(&mut s, n);
    s
}

/// Parses an unsigned decimal number as `str::parse::<u64>` does.
pub fn parse_u64(s: &[char]) -> (r: Option<u64>)
    ensures
        r == parse_u64_spec(s@),
{
    let n = s.len();
    let start: usize = if n > 0 && s[0] == '+' { 1 } else { 0 };
    let ghost ds = if s@.len() > 0 && s@[0] == '+' { s@.skip(1) } else { s@ };
    assert(ds == s@.skip(start as int));
    if start == n {
        return None;
    }
    let mut acc: u64 = 0;
    let mut i = start;
    while i < n
        invariant
            start <= i <= n,
            n == s@.len(),
            ds == s@.skip(start as int),
            ds == (if s@.len() > 0 && s@[0] == '+' { s@.skip(1) } else { s@ }),
            ds.len() > 0,
            all_digits(ds.take(i - start)),
            acc as nat == digits_value(ds.take(i - start)),
        decreases n - i,
    {
        let c = s[i];
        assert(ds[i - start] == c);
        if !('0' <= c && c <= '9') {
            assert(!all_digits(ds));
            return None;
        }
        let d = (c as u32 - 48) as u64;
        assert(ds.take(i + 1 - start).drop_last() == ds.take(i - start));
        if acc > (u64::MAX - d) / 10 {
            proof {
                assert(digits_value(ds.take(i + 1 - start)) > u64::MAX) by (nonlinear_arith)
                    requires
                        digits_value(ds.take(i + 1 - start)) == acc * 10 + d,
                        acc > (u64::MAX - d) / 10,
                        d < 10,
                ;
                assert forall|j: int| 0 <= j < ds.take(i + 1 - start).len() implies is_digit(
                    #[trigger] ds.take(i + 1 - start)[j],
                ) by {
                    if j < i - start {
                        assert(ds.take(i - start)[j] == ds.take(i + 1 - start)[j]);
                    }
                }
                if all_digits(ds) {
                    lemma_digits_value_prefix(ds, i + 1 - start);
                }
            }
            return None;
        }
        acc = acc * 10 + d;
        assert forall|j: int| 0 <= j < ds.take(i + 1 - start).len() implies is_digit(
            #[trigger] ds.take(i + 1 - start)[j],
        ) by {
            if j < i - start {
                assert(ds.take(i - start)[j] == ds.take(i + 1 - start)[j]);
            }
        }
        i = i + 1;
    }
    assert(ds.take(n - start) == ds);
    Some(acc)
}

/// Parses a number as `str::parse::<u16>` does.
pub fn parse_u16(s: &[char]) -> (r: Option<u16>)
    ensures
        r == parse_u16_spec(s@),
{
    match parse_u64(s) {
        Some(v) => if v <= 65535 { Some(v as u16) } else { None },
        None => None,
    }
}

/// Parses a number as `str::parse::<u8>` does.
pub fn parse_u8(s: &[char]) -> (r: Option<u8>)
    ensures
        r == parse_u8_spec(s@),
{
    match parse_u64(s) {
        Some(v) => if v <= 255 { Some(v as u8) } else { None },
        None => None,
    }
}

} // verus!

verus! {

// ---------------------------------------------------------------------------
// Splitting, searching, trimming
// ---------------------------------------------------------------------------

/// The character sequences held by a vector of character vectors.
pub open spec fn views(v: Seq<Vec<char>>) -> Seq<Seq<char>> {
    v.map_values(|x: Vec<char>| x@)
}

/// The pieces between the characters on which `pred` holds (as `str::split`
/// with a predicate gives them; there is always at least one piece).
pub open spec fn split_where(s: Seq<char>, pred: spec_fn(char) -> bool) -> Seq<Seq<char>>
    decreases s.len(),
{
    if s.len() == 0 {
        seq![Seq::<char>::empty()]
    } else {
        let p = split_where(s.drop_last(), pred);
        if pred(s.last()) {
            p.push(Seq::<char>::empty())
        } else {
            p.update(p.len() - 1, p.last().push(s.last()))
        }
    }
}

/// `s.split(sep)`.
pub open spec fn split_on(s: Seq<char>, sep: char) -> Seq<Seq<char>> {
    split_where(s, is_char(sep))
}

/// The predicate "is the character `sep`".
pub open spec fn is_char(sep: char) -> spec_fn(char) -> bool {
    |c: char| c == sep
}

pub proof fn lemma_split_where_len(s: Seq<char>, pred: spec_fn(char) -> bool)
    ensures
        split_where(s, pred).len() >= 1,
    decreases s.len(),
{
    if s.len() > 0 {
        lemma_split_where_len(s.drop_last(), pred);
    }
}

/// Splitting `x + [c] + y` where `y` holds no separator.
pub proof fn lemma_split_where_append(x: Seq<char>, c: char, y: Seq<char>, pred: spec_fn(char) -> bool)
    requires
        pred(c),
        forall|i: int| 0 <= i < y.len() ==> !pred(#[trigger] y[i]),
    ensures
        split_where(x + seq![c] + y, pred) == split_where(x, pred).push(y),
    decreases y.len(),
{
    if y.len() == 0 {
        assert(y =~= Seq::<char>::empty());
        assert(x + seq![c] + y =~= x.push(c));
        assert((x + seq![c] + y).drop_last() =~= x);
    } else {
        let y0 = y.drop_last();
        lemma_split_where_append(x, c, y0, pred);
        assert((x + seq![c] + y).drop_last() == x + seq![c] + y0);
        assert((x + seq![c] + y).last() == y.last());
        lemma_split_where_len(x, pred);
        assert(y0.push(y.last()) =~= y);
        assert(!pred(y[y.len() - 1]));
        assert(split_where(x + seq![c] + y, pred) =~= split_where(x, pred).push(y));
    }
}

/// Splitting a sequence that holds no separator gives the sequence itself.
pub proof fn lemma_split_where_none(y: Seq<char>, pred: spec_fn(char) -> bool)
    requires
        forall|i: int| 0 <= i < y.len() ==> !pred(#[trigger] y[i]),
    ensures
        split_where(y, pred) == seq![y],
    decreases y.len(),
{
    if y.len() > 0 {
        let y0 = y.drop_last();
        lemma_split_where_none(y0, pred);
        assert(y0.push(y.last()) == y);
    } else {
        assert(y == Seq::<char>::empty());
    }
}

/// Splits on a separator character, as `str::split(char)` does.
pub fn split_chars(s: &[char], sep: char) -> (r: Vec<Vec<char>>)
    ensures
        views(r@) == split_on(s@, sep),
{
    let mut pieces: Vec<Vec<char>> = Vec::new();
    let mut cur: Vec<char> = Vec::new();
    let n = s.len();
    let ghost pred = is_char(sep);
    assert(views(pieces@).push(cur@) =~= seq![Seq::<char>::empty()]);
    for i in 0..n
        invariant
            n == s@.len(),
            pred == is_char(sep),
            views(pieces@).push(cur@) == split_where(s@.take(i as int), pred),
    {
        let ghost t = s@.take(i + 1);
        let ghost old_pieces = pieces@;
        let ghost old_cur = cur@;
        assert(t.drop_last() == s@.take(i as int));
        assert(t.last() == s@[i as int]);
        proof { lemma_split_where_len(s@.take(i as int), pred); }
        if s[i] == sep {
            pieces.push(cur);
            cur = Vec::new();
            assert(views(pieces@) =~= views(old_pieces).push(old_cur));
            assert(views(pieces@).push(cur@) =~= split_where(t, pred));
        } else {
            cur.push(s[i]);
            assert(views(pieces@).push(cur@) =~= views(old_pieces).push(old_cur).update(
                old_pieces.len() as int,
                old_cur.push(s@[i as int]),
            ));
        }
    }
    let ghost old_pieces = pieces@;
    let ghost old_cur = cur@;
    pieces.push(cur);
    assert(views(pieces@) =~= views(old_pieces).push(old_cur));
    assert(s@.take(n as int) == s@);
    pieces
}

} // verus!

verus! {

/// `pat` occurs in `s` at position `i`.
pub open spec fn occurs_at(s: Seq<char>, pat: Seq<char>, i: int) -> bool {
    0 <= i && i + pat.len() <= s.len() && s.subrange(i, i + pat.len()) == pat
}

/// The first position at or after `i` where `pat` occurs.
pub open spec fn find_from(s: Seq<char>, pat: Seq<char>, i: nat) -> Option<nat>
    decreases s.len() + 1 - i,
{
    if i + pat.len() > s.len() {
        None
    } else if s.subrange(i as int, (i + pat.len()) as int) == pat {
        Some(i)
    } else {
        find_from(s, pat, i + 1)
    }
}

/// The first position where `pat` occurs (`str::find`, counted in characters).
pub open spec fn find(s: Seq<char>, pat: Seq<char>) -> Option<nat> {
    find_from(s, pat, 0)
}

pub open spec fn contains(s: Seq<char>, pat: Seq<char>) -> bool {
    find(s, pat) is Some
}

pub open spec fn starts_with(s: Seq<char>, pat: Seq<char>) -> bool {
    pat.len() <= s.len() && s.take(pat.len() as int) == pat
}

/// What `find_from` returns is the first occurrence at or after `i`.
pub proof fn lemma_find_from(s: Seq<char>, pat: Seq<char>, i: nat)
    ensures
        match find_from(s, pat, i) {
            Some(k) => i <= k && occurs_at(s, pat, k as int) && forall|j: int|
                i <= j < k ==> !occurs_at(s, pat, j),
            None => forall|j: int| i <= j ==> !occurs_at(s, pat, j),
        },
    decreases s.len() + 1 - i,
{
    if i + pat.len() > s.len() {
    } else if s.subrange(i as int, (i + pat.len()) as int) == pat {
    } else {
        lemma_find_from(s, pat, i + 1);
    }
}

/// `find` gives the first occurrence of `pat`.
pub proof fn lemma_find(s: Seq<char>, pat: Seq<char>)
    ensures
        match find(s, pat) {
            Some(k) => occurs_at(s, pat, k as int) && forall|j: int|
                0 <= j < k ==> !occurs_at(s, pat, j),
            None => forall|j: int| !occurs_at(s, pat, j),
        },
{
    lemma_find_from(s, pat, 0);
}

/// A pattern that starts the sequence is found at position zero.
pub proof fn lemma_find_at_start(s: Seq<char>, pat: Seq<char>)
    requires
        starts_with(s, pat),
    ensures
        find(s, pat) == Some(0nat),
{
    assert(s.subrange(0, pat.len() as int) == s.take(pat.len() as int));
}

/// Whether `pat` occurs in `s` at position `i`.
pub fn matches_at(s: &[char], pat: &[char], i: usize) -> (r: bool)
    requires
        i <= s@.len(),
    ensures
        r == occurs_at(s@, pat@, i as int),
{
    let n = s.len();
    let m = pat.len();
    if m > n - i {
        return false;
    }
    for j in 0..m
        invariant
            n == s@.len(),
            m == pat@.len(),
            i + m <= n,
            forall|k: int| 0 <= k < j ==> s@[i + k] == pat@[k],
    {
        if s[i + j] != pat[j] {
            assert(s@.subrange(i as int, i + m)[j as int] != pat@[j as int]);
            return false;
        }
    }
    assert(s@.subrange(i as int, i + m) =~= pat@);
    true
}

/// First position of `pat` in `s`.
pub fn find_chars(s: &[char], pat: &[char]) -> (r: Option<usize>)
    ensures
        r matches Some(k) ==> find(s@, pat@) == Some(k as nat),
        r is None ==> find(s@, pat@) is None,
{
    let n = s.len();
    let m = pat.len();
    if m > n {
        return None;
    }
    if m == 0 {
        assert(s@.subrange(0, 0) =~= pat@);
        return Some(0);
    }
    let mut i: usize = 0;
    while i <= n - m
        invariant
            n == s@.len(),
            m == pat@.len(),
            0 < m <= n,
            i <= n - m + 1,
            find(s@, pat@) == find_from(s@, pat@, i as nat),
        decreases n - m + 1 - i,
    {
        if matches_at(s, pat, i) {
            return Some(i);
        }
        i = i + 1;
    }
    None
}

/// Whether `s` starts with `pat`.
pub fn has_prefix(s: &[char], pat: &[char]) -> (r: bool)
    ensures
        r == starts_with(s@, pat@),
{
    let b = matches_at(s, pat, 0);
    assert(s@.subrange(0, pat@.len() as int) == s@.take(pat@.len() as int));
    b
}

/// Whether two character sequences are equal.
pub fn chars_equal(a: &[char], b: &[char]) -> (r: bool)
    ensures
        r == (a@ == b@),
{
    if a.len() != b.len() {
        return false;
    }
    let r = has_prefix(a, b);
    assert(a@.take(b@.len() as int) =~= a@);
    r
}

/// Copies the characters `s[from..to]`.
pub fn slice_chars(s: &[char], from: usize, to: usize) -> (r: Vec<char>)
    requires
        from <= to <= s@.len(),
    ensures
        r@ == s@.subrange(from as int, to as int),
{
    let mut v: Vec<char> = Vec::new();
    for i in from..to
        invariant
            to <= s@.len(),
            v@ == s@.subrange(from as int, i as int),
    {
        v.push(s[i]);
        assert(s@.subrange(from as int, i + 1) == s@.subrange(from as int, i as int).push(
            s@[i as int],
        ));
    }
    v
}

/// Appends a character sequence to a `String`.
pub fn push_chars(s: &mut String, cs: &[char])
    ensures
        final(s)@ == old(s)@ + cs@,
{
    let n = cs.len();
    for i in 0..n
        invariant
            n == cs@.len(),
            s@ == old(s)@ + cs@.take(i as int),
    {
        push_char(s, cs[i]);
        assert(cs@.take(i + 1) == cs@.take(i as int).push(cs@[i as int]));
    }
    assert(cs@.take(n as int) == cs@);
}

/// Appends a string slice to a `String`.
pub fn push_str(s: &mut String, t: &str)
    ensures
        final(s)@ == old(s)@ + t@,
{
    let cs = chars_of(t);
    push_chars(s, cs.as_slice());
}

} // verus!

verus! {

// ---------------------------------------------------------------------------
// Whitespace, trimming, words, lines, joining
// ---------------------------------------------------------------------------

/// Whether `c` has Unicode's White_Space property (PropList.txt): tab, line
/// feed, vertical tab, form feed, carriage return, space, next line,
/// no-break space, ogham space mark, the spaces U+2000 to U+200A, line and
/// paragraph separators, narrow no-break space, medium mathematical space and
/// ideographic space.
pub open spec fn white_space(c: char) -> bool {
    let v = c as u32;
    (0x9 <= v && v <= 0xD) || v == 0x20 || v == 0x85 || v == 0xA0 || v == 0x1680 || (0x2000 <= v
        && v <= 0x200A) || v == 0x2028 || v == 0x2029 || v == 0x202F || v == 0x205F || v == 0x3000
}

/// Whether `c` has Unicode's White_Space property (what `char::is_whitespace`
/// reports).
pub(crate) fn is_whitespace(c: char) -> (r: bool)
    ensures
        r == white_space(c),
{
    let v = c as u32;
    (0x9 <= v && v <= 0xD) || v == 0x20 || v == 0x85 || v == 0xA0 || v == 0x1680 || (0x2000 <= v
        && v <= 0x200A) || v == 0x2028 || v == 0x2029 || v == 0x202F || v == 0x205F || v == 0x3000
}

pub open spec fn ws_pred() -> spec_fn(char) -> bool {
    |c: char| white_space(c)
}

/// `s.trim_start()`.
pub open spec fn trim_start(s: Seq<char>) -> Seq<char>
    decreases s.len(),
{
    if s.len() > 0 && white_space(s[0]) {
        trim_start(s.skip(1))
    } else {
        s
    }
}

/// `s.trim_end()`.
pub open spec fn trim_end(s: Seq<char>) -> Seq<char>
    decreases s.len(),
{
    if s.len() > 0 && white_space(s.last()) {
        trim_end(s.drop_last())
    } else {
        s
    }
}

/// `s.trim()`.
pub open spec fn trim(s: Seq<char>) -> Seq<char> {
    trim_end(trim_start(s))
}

/// `s.split_whitespace()`: the non-empty runs between whitespace.
pub open spec fn words(s: Seq<char>) -> Seq<Seq<char>> {
    split_where(s, ws_pred()).filter(|w: Seq<char>| w.len() > 0)
}

/// A line with one trailing carriage return removed.
pub open spec fn strip_cr(l: Seq<char>) -> Seq<char> {
    if l.len() > 0 && l.last() == '\r' {
        l.drop_last()
    } else {
        l
    }
}

/// `s.lines()`: split at `\n` (a `\r` just before it is dropped); a final
/// line ending does not start another line.
pub open spec fn lines(s: Seq<char>) -> Seq<Seq<char>> {
    let p = split_on(s, '\n');
    let n = if p.last().len() == 0 { p.len() - 1 } else { p.len() as int };
    Seq::new(n as nat, |i: int| if i < p.len() - 1 { strip_cr(p[i]) } else { p[i] })
}

/// The fields joined with `sep` between them.
pub open spec fn join(fs: Seq<Seq<char>>, sep: Seq<char>) -> Seq<char>
    decreases fs.len(),
{
    if fs.len() == 0 {
        Seq::<char>::empty()
    } else if fs.len() == 1 {
        fs[0]
    } else {
        join(fs.drop_last(), sep) + sep + fs.last()
    }
}

/// The character sequences held by a vector of strings.
pub open spec fn str_views(v: Seq<String>) -> Seq<Seq<char>> {
    v.map_values(|x: String| x@)
}

pub proof fn lemma_trim_start_skip(s: Seq<char>, i: int)
    requires
        0 <= i <= s.len(),
        forall|j: int| 0 <= j < i ==> white_space(#[trigger] s[j]),
    ensures
        trim_start(s) == trim_start(s.skip(i)),
    decreases i,
{
    if i > 0 {
        lemma_trim_start_skip(s.skip(1), i - 1);
        assert forall|j: int| 0 <= j < i - 1 implies white_space(#[trigger] s.skip(1)[j]) by {
            assert(s.skip(1)[j] == s[j + 1]);
        }
        assert(s.skip(1).skip(i - 1) == s.skip(i));
    } else {
        assert(s.skip(0) == s);
    }
}

pub proof fn lemma_trim_end_take(s: Seq<char>, i: int)
    requires
        0 <= i <= s.len(),
        forall|j: int| i <= j < s.len() ==> white_space(#[trigger] s[j]),
    ensures
        trim_end(s) == trim_end(s.take(i)),
    decreases s.len() - i,
{
    if i < s.len() {
        lemma_trim_end_take(s.drop_last(), i);
        assert(s.drop_last().take(i) == s.take(i));
    } else {
        assert(s.take(i) == s);
    }
}

/// `s.trim_start()` on characters.
pub fn trim_start_chars(s: &[char]) -> (r: Vec<char>)
    ensures
        r@ == trim_start(s@),
{
    let n = s.len();
    let mut i: usize = 0;
    while i < n && is_whitespace(s[i])
        invariant
            n == s@.len(),
            i <= n,
            forall|j: int| 0 <= j < i ==> white_space(#[trigger] s@[j]),
        decreases n - i,
    {
        i = i + 1;
    }
    proof {
        lemma_trim_start_skip(s@, i as int);
        let t = s@.skip(i as int);
        if t.len() > 0 {
            assert(t[0] == s@[i as int]);
        }
    }
    slice_chars(s, i, n)
}

/// `s.trim_end()` on characters.
pub fn trim_end_chars(s: &[char]) -> (r: Vec<char>)
    ensures
        r@ == trim_end(s@),
{
    let n = s.len();
    let mut i: usize = n;
    while i > 0 && is_whitespace(s[i - 1])
        invariant
            n == s@.len(),
            i <= n,
            forall|j: int| i <= j < n ==> white_space(#[trigger] s@[j]),
        decreases i,
    {
        i = i - 1;
    }
    proof {
        lemma_trim_end_take(s@, i as int);
        let t = s@.take(i as int);
        if t.len() > 0 {
            assert(t.last() == s@[i - 1]);
        }
    }
    assert(s@.subrange(0, i as int) == s@.take(i as int));
    slice_chars(s, 0, i)
}

/// `s.trim()` on characters.
pub fn trim_chars(s: &[char]) -> (r: Vec<char>)
    ensures
        r@ == trim(s@),
{
    let a = trim_start_chars(s);
    trim_end_chars(a.as_slice())
}

/// `s.split_whitespace()` on characters.
pub fn words_of(s: &[char]) -> (r: Vec<Vec<char>>)
    ensures
        views(r@) == words(s@),
{
    let ghost nonempty = |w: Seq<char>| w.len() > 0;
    let mut done: Vec<Vec<char>> = Vec::new();
    let mut cur: Vec<char> = Vec::new();
    let n = s.len();
    proof {
        reveal_with_fuel(Seq::filter, 2);
        assert(split_where(s@.take(0), ws_pred()) =~= seq![Seq::<char>::empty()]);
        assert(split_where(s@.take(0), ws_pred()).drop_last() =~= Seq::<Seq<char>>::empty());
    }
    for i in 0..n
        invariant
            n == s@.len(),
            nonempty == (|w: Seq<char>| w.len() > 0),
            split_where(s@.take(i as int), ws_pred()).len() >= 1,
            views(done@) == split_where(s@.take(i as int), ws_pred()).drop_last().filter(nonempty),
            cur@ == split_where(s@.take(i as int), ws_pred()).last(),
    {
        let ghost p = split_where(s@.take(i as int), ws_pred());
        let ghost t = s@.take(i + 1);
        let ghost old_done = done@;
        let ghost old_cur = cur@;
        assert(t.drop_last() == s@.take(i as int));
        assert(t.last() == s@[i as int]);
        assert(p.drop_last().push(p.last()) == p);
        if is_whitespace(s[i]) {
            if cur.len() > 0 {
                done.push(cur);
                assert(views(done@) =~= views(old_done).push(old_cur));
            }
            cur = Vec::new();
            proof {
                assert(split_where(t, ws_pred()) == p.push(Seq::<char>::empty()));
                assert(p.push(Seq::<char>::empty()).drop_last() == p);
                p.drop_last().lemma_filter_push(p.last(), nonempty);
            }
        } else {
            cur.push(s[i]);
            proof {
                assert(split_where(t, ws_pred()) == p.update(p.len() - 1, p.last().push(s@[i as int])));
                assert(p.update(p.len() - 1, p.last().push(s@[i as int])).drop_last() =~= p.drop_last());
            }
        }
    }
    let ghost p = split_where(s@.take(n as int), ws_pred());
    let ghost old_done = done@;
    let ghost old_cur = cur@;
    if cur.len() > 0 {
        done.push(cur);
        assert(views(done@) =~= views(old_done).push(old_cur));
    }
    proof {
        assert(s@.take(n as int) == s@);
        assert(p.drop_last().push(p.last()) == p);
        p.drop_last().lemma_filter_push(p.last(), nonempty);
    }
    done
}

} // verus!

verus! {

/// `s.lines()` on characters.
pub fn lines_of(s: &[char]) -> (r: Vec<Vec<char>>)
    ensures
        views(r@) == lines(s@),
{
    let parts = split_chars(s, '\n');
    let ghost p = split_on(s@, '\n');
    proof { lemma_split_where_len(s@, is_char('\n')); }
    let np = parts.len();
    let count = if parts[np - 1].len() == 0 { np - 1 } else { np };
    assert(parts@[np - 1]@ == p[np - 1]);
    let mut out: Vec<Vec<char>> = Vec::new();
    for i in 0..count
        invariant
            np == parts@.len(),
            np == p.len(),
            p == split_on(s@, '\n'),
            views(parts@) == p,
            count <= np,
            count == lines(s@).len(),
            views(out@) == lines(s@).take(i as int),
    {
        assert(parts@[i as int]@ == p[i as int]);
        let ghost old_out = out@;
        let piece = &parts[i];
        let k = piece.len();
        let l = if i + 1 < np && k > 0 && piece[k - 1] == '\r' {
            slice_chars(piece.as_slice(), 0, k - 1)
        } else {
            slice_chars(piece.as_slice(), 0, k)
        };
        assert(piece@.subrange(0, k as int) == piece@);
        if k > 0 {
            assert(piece@.subrange(0, k - 1) == piece@.drop_last());
        }
        assert(lines(s@)[i as int] == (if i < p.len() - 1 { strip_cr(p[i as int]) } else { p[i as int] }));
        assert(p[i as int] == piece@);
        if k > 0 {
            assert(piece@.last() == piece@[k - 1]);
        }
        assert(l@ == lines(s@)[i as int]);
        out.push(l);
        assert(views(out@) =~= views(old_out).push(l@));
        assert(lines(s@).take(i + 1) =~= lines(s@).take(i as int).push(lines(s@)[i as int]));
    }
    assert(lines(s@).take(count as int) =~= lines(s@));
    out
}

pub proof fn lemma_join_push(fs: Seq<Seq<char>>, sep: Seq<char>, f: Seq<char>)
    ensures
        join(fs.push(f), sep) == if fs.len() == 0 { f } else { join(fs, sep) + sep + f },
{
    assert(fs.push(f).drop_last() == fs);
}

/// Joins strings with a separator (`slice::join`).
pub fn join_strings(items: &[String], sep: &str) -> (r: String)
    ensures
        r@ == join(str_views(items@), sep@),
{
    let mut out = String::new();
    let n = items.len();
    for i in 0..n
        invariant
            n == items@.len(),
            out@ == join(str_views(items@).take(i as int), sep@),
    {
        let ghost prev = str_views(items@).take(i as int);
        assert(str_views(items@).take(i + 1) =~= prev.push(items@[i as int]@));
        proof { lemma_join_push(prev, sep@, items@[i as int]@); }
        if i > 0 {
            push_str(&mut out, sep);
        } else {
            assert(out@ =~= Seq::<char>::empty());
        }
        push_str(&mut out, items[i].as_str());
        assert(out@ =~= join(str_views(items@).take(i + 1), sep@));
    }
    assert(str_views(items@).take(n as int) =~= str_views(items@));
    out
}

} // verus!

verus! {

/// Whether `c` has Unicode's Alphabetic property, which is what
/// `char::is_alphabetic` reports.
pub uninterp spec fn alphabetic(c: char) -> bool;

/// Wraps `char::is_alphabetic`; its result is named `alphabetic`. The ASCII
/// letters `a` to `z` and `A` to `Z` are alphabetic, which is all that is
/// stated of it.
#[verifier::external_body]
pub(crate) fn is_alphabetic(c: char) -> (r: bool)
    ensures
        r == alphabetic(c),
        ('a' <= c && c <= 'z') || ('A' <= c && c <= 'Z') ==> r,
{
    c.is_alphabetic()
}

} // verus!

verus! {

/// No character of `s` is `c`.
pub open spec fn free_of(s: Seq<char>, c: char) -> bool {
    forall|i: int| 0 <= i < s.len() ==> s[i] != c
}

/// Splitting joined fields at the separator gives the fields back, when no
/// field holds the separator.
pub proof fn lemma_split_join(fs: Seq<Seq<char>>, c: char)
    requires
        fs.len() >= 1,
        forall|i: int| 0 <= i < fs.len() ==> free_of(#[trigger] fs[i], c),
    ensures
        split_on(join(fs, seq![c]), c) == fs,
    decreases fs.len(),
{
    if fs.len() == 1 {
        assert(free_of(fs[0], c));
        lemma_split_where_none(fs[0], is_char(c));
        assert(seq![fs[0]] =~= fs);
    } else {
        let init = fs.drop_last();
        assert forall|i: int| 0 <= i < init.len() implies free_of(#[trigger] init[i], c) by {
            assert(init[i] == fs[i]);
        }
        lemma_split_join(init, c);
        assert(free_of(fs[fs.len() - 1], c));
        lemma_split_where_append(join(init, seq![c]), c, fs.last(), is_char(c));
        assert(init.push(fs.last()) =~= fs);
    }
}

/// Joined fields begin with the first field and a separator.
pub proof fn lemma_join_starts(fs: Seq<Seq<char>>, sep: Seq<char>)
    requires
        fs.len() >= 2,
    ensures
        starts_with(join(fs, sep), fs[0] + sep),
    decreases fs.len(),
{
    let init = fs.drop_last();
    if fs.len() == 2 {
        assert(join(init, sep) == fs[0]);
    } else {
        lemma_join_starts(init, sep);
        assert(init[0] == fs[0]);
    }
    let j = join(init, sep) + sep + fs.last();
    let p = fs[0] + sep;
    if fs.len() == 2 {
        assert(j.take(p.len() as int) =~= p);
    } else {
        let h = join(init, sep);
        assert(h.take(p.len() as int) == p);
        assert(j.take(p.len() as int) =~= h.take(p.len() as int));
    }
}

} // verus!

verus! {

/// Splitting `x + [c] + y` at separators gives the pieces of `x`, then those
/// of `y`.
pub proof fn lemma_split_where_concat(x: Seq<char>, c: char, y: Seq<char>, pred: spec_fn(char) -> bool)
    requires
        pred(c),
    ensures
        split_where(x + seq![c] + y, pred) == split_where(x, pred) + split_where(y, pred),
    decreases y.len(),
{
    lemma_split_where_len(x, pred);
    if y.len() == 0 {
        assert(x + seq![c] + y =~= x.push(c));
        assert(x.push(c).drop_last() =~= x);
        assert(x.push(c).last() == c);
        assert(split_where(x.push(c), pred) == split_where(x, pred).push(Seq::<char>::empty()));
        assert(split_where(y, pred) =~= seq![Seq::<char>::empty()]);
        assert(split_where(x, pred).push(Seq::<char>::empty()) =~= split_where(x, pred) + split_where(y, pred));
    } else {
        let y0 = y.drop_last();
        let d = y.last();
        lemma_split_where_concat(x, c, y0, pred);
        lemma_split_where_len(y0, pred);
        assert((x + seq![c] + y).drop_last() =~= x + seq![c] + y0);
        assert((x + seq![c] + y).last() == d);
        let a = split_where(x, pred);
        let b = split_where(y0, pred);
        assert(y.drop_last() == y0);
        if pred(d) {
            assert((a + b).push(Seq::<char>::empty()) =~= a + b.push(Seq::<char>::empty()));
        } else {
            assert((a + b).update((a + b).len() - 1, (a + b).last().push(d)) =~= a + b.update(
                b.len() - 1,
                b.last().push(d),
            ));
        }
    }
}

/// Joining the pieces of a split with the separator restores the text.
pub proof fn lemma_join_split(y: Seq<char>, c: char)
    ensures
        join(split_on(y, c), seq![c]) == y,
    decreases y.len(),
{
    let pred = is_char(c);
    if y.len() > 0 {
        let y0 = y.drop_last();
        let d = y.last();
        lemma_join_split(y0, c);
        lemma_split_where_len(y0, pred);
        let b = split_where(y0, pred);
        if d == c {
            lemma_join_push(b, seq![c], Seq::<char>::empty());
            assert(y0 + seq![c] + Seq::<char>::empty() =~= y);
        } else {
            let bu = b.update(b.len() - 1, b.last().push(d));
            assert(bu =~= b.drop_last().push(b.last().push(d)));
            assert(b =~= b.drop_last().push(b.last()));
            lemma_join_push(b.drop_last(), seq![c], b.last().push(d));
            lemma_join_push(b.drop_last(), seq![c], b.last());
            if b.len() == 1 {
                assert(b.last().push(d) =~= y);
            } else {
                assert(join(bu, seq![c]) =~= join(b, seq![c]).push(d));
            }
            assert(y0.push(d) =~= y);
        }
    } else {
        assert(split_on(y, c) =~= seq![Seq::<char>::empty()]);
    }
}

/// Joins `pieces[from..]` with a separator character.
pub fn join_pieces(pieces: &[Vec<char>], from: usize, sep: char) -> (r: Vec<char>)
    requires
        from <= pieces@.len(),
    ensures
        r@ == join(views(pieces@).skip(from as int), seq![sep]),
{
    let mut out: Vec<char> = Vec::new();
    let n = pieces.len();
    let ghost all = views(pieces@).skip(from as int);
    assert(all.take(0) =~= Seq::<Seq<char>>::empty());
    for i in from..n
        invariant
            n == pieces@.len(),
            from <= n,
            all == views(pieces@).skip(from as int),
            out@ == join(all.take(i - from), seq![sep]),
    {
        let ghost prev = all.take(i - from);
        assert(all.take(i + 1 - from) =~= prev.push(pieces@[i as int]@));
        proof { lemma_join_push(prev, seq![sep], pieces@[i as int]@); }
        if i > from {
            out.push(sep);
        }
        let p = &pieces[i];
        let m = p.len();
        let ghost before = out@;
        for j in 0..m
            invariant
                m == p@.len(),
                out@ == before + p@.take(j as int),
        {
            out.push(p[j]);
            assert(p@.take(j + 1) =~= p@.take(j as int).push(p@[j as int]));
        }
        assert(p@.take(m as int) =~= p@);
        assert(out@ =~= join(all.take(i + 1 - from), seq![sep]));
    }
    assert(all.take(n - from) =~= all);
    out
}

} // verus!

verus! {

// ---------------------------------------------------------------------------
// Ordering of strings
// ---------------------------------------------------------------------------

/// `a` sorts strictly before `b`: the order of `String`s, which compares
/// code points one by one (UTF-8 keeps that order) and puts a proper prefix
/// first.
pub open spec fn seq_lt(a: Seq<char>, b: Seq<char>) -> bool
    decreases a.len(),
{
    if a.len() == 0 {
        b.len() > 0
    } else if b.len() == 0 {
        false
    } else if a[0] != b[0] {
        (a[0] as int) < (b[0] as int)
    } else {
        seq_lt(a.skip(1), b.skip(1))
    }
}

pub proof fn lemma_seq_lt_irreflexive(a: Seq<char>)
    ensures
        !seq_lt(a, a),
    decreases a.len(),
{
    if a.len() > 0 {
        lemma_seq_lt_irreflexive(a.skip(1));
    }
}

pub proof fn lemma_seq_lt_transitive(a: Seq<char>, b: Seq<char>, c: Seq<char>)
    requires
        seq_lt(a, b),
        seq_lt(b, c),
    ensures
        seq_lt(a, c),
    decreases a.len(),
{
    if a.len() > 0 && b.len() > 0 && c.len() > 0 {
        if a[0] == b[0] && b[0] == c[0] {
            lemma_seq_lt_transitive(a.skip(1), b.skip(1), c.skip(1));
        }
    }
}

pub proof fn lemma_seq_lt_total(a: Seq<char>, b: Seq<char>)
    requires
        a != b,
    ensures
        seq_lt(a, b) || seq_lt(b, a),
    decreases a.len(),
{
    if a.len() > 0 && b.len() > 0 {
        if a[0] == b[0] {
            if a.skip(1) == b.skip(1) {
                assert(a =~= seq![a[0]] + a.skip(1));
                assert(b =~= seq![b[0]] + b.skip(1));
            }
            lemma_seq_lt_total(a.skip(1), b.skip(1));
        } else {
            assert((a[0] as int) != (b[0] as int));
        }
    } else if a.len() == 0 && b.len() == 0 {
        assert(a =~= b);
    }
}

pub proof fn lemma_seq_lt_asymmetric(a: Seq<char>, b: Seq<char>)
    requires
        seq_lt(a, b),
    ensures
        !seq_lt(b, a),
{
    if seq_lt(b, a) {
        lemma_seq_lt_transitive(a, b, a);
        lemma_seq_lt_irreflexive(a);
    }
}

/// Whether `a` sorts strictly before `b`.
pub fn chars_less(a: &[char], b: &[char]) -> (r: bool)
    ensures
        r == seq_lt(a@, b@),
{
    let n = a.len();
    let m = b.len();
    let mut i: usize = 0;
    assert(a@.skip(0) == a@ && b@.skip(0) == b@);
    while i < n && i < m && a[i] == b[i]
        invariant
            n == a@.len(),
            m == b@.len(),
            i <= n,
            i <= m,
            seq_lt(a@, b@) == seq_lt(a@.skip(i as int), b@.skip(i as int)),
        decreases n - i,
    {
        let ghost x = a@.skip(i as int);
        let ghost y = b@.skip(i as int);
        assert(x[0] == y[0]);
        assert(x.skip(1) =~= a@.skip(i + 1));
        assert(y.skip(1) =~= b@.skip(i + 1));
        i = i + 1;
    }
    let ghost x = a@.skip(i as int);
    let ghost y = b@.skip(i as int);
    if i == n {
        i < m
    } else if i == m {
        false
    } else {
        assert(x[0] == a@[i as int] && y[0] == b@[i as int]);
        a[i] < b[i]
    }
}

/// Keys in table order: `idx` holds, sorted by key and without repeats,
/// the first position of every distinct key.
pub open spec fn first_index_table(keys: Seq<Seq<char>>, idx: Seq<usize>) -> bool {
    &&& table_in_bounds(keys, idx)
    &&& table_sorted(keys, idx)
    &&& table_firsts(keys, idx)
    &&& table_covers(keys, idx)
}

pub open spec fn table_in_bounds(keys: Seq<Seq<char>>, idx: Seq<usize>) -> bool {
    forall|i: int| 0 <= i < idx.len() ==> #[trigger] idx[i] < keys.len()
}

pub open spec fn table_sorted(keys: Seq<Seq<char>>, idx: Seq<usize>) -> bool {
    forall|i: int, j: int|
        0 <= i < j < idx.len() ==> seq_lt(keys[#[trigger] idx[i] as int], keys[#[trigger] idx[j] as int])
}

pub open spec fn table_firsts(keys: Seq<Seq<char>>, idx: Seq<usize>) -> bool {
    forall|i: int, k: int|
        #![trigger keys[k], idx[i]]
        0 <= i < idx.len() && 0 <= k < idx[i] ==> keys[k] != keys[idx[i] as int]
}

pub open spec fn table_covers(keys: Seq<Seq<char>>, idx: Seq<usize>) -> bool {
    forall|k: int|
        0 <= k < keys.len() ==> exists|i: int|
            0 <= i < idx.len() && keys[#[trigger] idx[i] as int] == #[trigger] keys[k]
}

} // verus!

verus! {

/// A key already in the table leaves the table as it is.
proof fn lemma_table_seen(kv: Seq<Seq<char>>, k: int, idx: Seq<usize>, pos: int)
    requires
        0 <= k < kv.len(),
        first_index_table(kv.take(k), idx),
        0 <= pos < idx.len(),
        kv[idx[pos] as int] == kv[k],
    ensures
        first_index_table(kv.take(k + 1), idx),
{
    let pre = kv.take(k);
    let post = kv.take(k + 1);
    assert(idx[pos] < k);
    assert forall|i: int| 0 <= i < idx.len() implies #[trigger] idx[i] < post.len() by {}
    assert forall|i: int, j: int| 0 <= i < j < idx.len() implies seq_lt(
        post[#[trigger] idx[i] as int],
        post[#[trigger] idx[j] as int],
    ) by {
        assert(pre[idx[i] as int] == post[idx[i] as int]);
        assert(pre[idx[j] as int] == post[idx[j] as int]);
    }
    assert forall|i: int, q: int|
        #![trigger post[q], idx[i]]
        0 <= i < idx.len() && 0 <= q < idx[i] implies post[q] != post[idx[i] as int] by {
        assert(pre[q] == post[q]);
        assert(pre[idx[i] as int] == post[idx[i] as int]);
    }
    assert forall|q: int| 0 <= q < post.len() implies exists|i: int|
        0 <= i < idx.len() && post[#[trigger] idx[i] as int] == #[trigger] post[q] by {
        if q < k {
            assert(pre[q] == post[q]);
            let i = choose|i: int| 0 <= i < idx.len() && pre[#[trigger] idx[i] as int] == #[trigger] pre[q];
            assert(pre[idx[i] as int] == post[idx[i] as int]);
        } else {
            assert(post[idx[pos] as int] == kv[idx[pos] as int]);
        }
    }
}

/// Where a new key goes: every entry before `pos` sorts before it, the
/// entry at `pos` (if any) after it.
spec fn new_key_place(kv: Seq<Seq<char>>, k: int, idx: Seq<usize>, pos: int) -> bool {
    &&& 0 <= k < kv.len()
    &&& k <= usize::MAX
    &&& first_index_table(kv.take(k), idx)
    &&& 0 <= pos <= idx.len()
    &&& forall|i: int| 0 <= i < pos ==> seq_lt(kv[#[trigger] idx[i] as int], kv[k])
    &&& pos < idx.len() ==> seq_lt(kv[k], kv[idx[pos] as int])
}

proof fn lemma_new_key_distinct(kv: Seq<Seq<char>>, k: int, idx: Seq<usize>, pos: int)
    requires
        new_key_place(kv, k, idx, pos),
    ensures
        forall|i: int| 0 <= i < idx.len() ==> kv[#[trigger] idx[i] as int] != kv[k],
{
    let pre = kv.take(k);
    let kk = kv[k];
    assert forall|i: int| 0 <= i < idx.len() implies kv[#[trigger] idx[i] as int] != kk by {
        lemma_seq_lt_irreflexive(kk);
        assert(pre[idx[i] as int] == kv[idx[i] as int]);
        if i > pos {
            assert(pre[idx[pos] as int] == kv[idx[pos] as int]);
            assert(seq_lt(pre[idx[pos] as int], pre[idx[i] as int]));
            lemma_seq_lt_transitive(kk, kv[idx[pos] as int], kv[idx[i] as int]);
        }
    }
}

/// One pair of entries of the table after a new key enters it keeps the
/// sorted order.
#[verifier::spinoff_prover]
proof fn lemma_new_key_pair(kv: Seq<Seq<char>>, k: int, idx: Seq<usize>, pos: int, i: int, j: int)
    requires
        0 <= k < kv.len(),
        k <= usize::MAX,
        table_in_bounds(kv.take(k), idx),
        table_sorted(kv.take(k), idx),
        0 <= pos <= idx.len(),
        forall|q: int| 0 <= q < pos ==> seq_lt(kv[#[trigger] idx[q] as int], kv[k]),
        pos < idx.len() ==> seq_lt(kv[k], kv[idx[pos] as int]),
        0 <= i < j < idx.len() + 1,
    ensures
        seq_lt(
            kv.take(k + 1)[idx.insert(pos, k as usize)[i] as int],
            kv.take(k + 1)[idx.insert(pos, k as usize)[j] as int],
        ),
{
    let pre = kv.take(k);
    let post = kv.take(k + 1);
    let kk = kv[k];
    let ni = idx.insert(pos, k as usize);
    let a = if i < pos { i } else { i - 1 };
    let b = if j < pos { j } else { j - 1 };
    if i != pos {
        assert(ni[i] == idx[a]);
        assert(idx[a] < k);
        assert(post[idx[a] as int] == kv[idx[a] as int]);
        assert(pre[idx[a] as int] == kv[idx[a] as int]);
    } else {
        assert(ni[i] == k);
        assert(post[k] == kk);
    }
    if j != pos {
        assert(ni[j] == idx[b]);
        assert(idx[b] < k);
        assert(post[idx[b] as int] == kv[idx[b] as int]);
        assert(pre[idx[b] as int] == kv[idx[b] as int]);
    } else {
        assert(ni[j] == k);
        assert(post[k] == kk);
    }
    if pos < idx.len() {
        assert(idx[pos] < k);
        assert(pre[idx[pos] as int] == kv[idx[pos] as int]);
    }
    if i < pos && j < pos {
        assert(seq_lt(pre[idx[i] as int], pre[idx[j] as int]));
    } else if i < pos && j == pos {
        assert(seq_lt(kv[idx[i] as int], kk));
    } else if i < pos && j > pos {
        if b > pos {
            assert(seq_lt(pre[idx[pos] as int], pre[idx[b] as int]));
            lemma_seq_lt_transitive(kk, kv[idx[pos] as int], kv[idx[b] as int]);
        }
        assert(seq_lt(kv[idx[i] as int], kk));
        lemma_seq_lt_transitive(kv[idx[i] as int], kk, kv[idx[b] as int]);
    } else if i == pos {
        if b > pos {
            assert(seq_lt(pre[idx[pos] as int], pre[idx[b] as int]));
            lemma_seq_lt_transitive(kk, kv[idx[pos] as int], kv[idx[b] as int]);
        }
    } else {
        assert(seq_lt(pre[idx[a] as int], pre[idx[b] as int]));
    }
}

/// A new key entering the table at its sorted place keeps the table
/// sorted.
#[verifier::spinoff_prover]
proof fn lemma_new_key_sorted(kv: Seq<Seq<char>>, k: int, idx: Seq<usize>, pos: int)
    requires
        new_key_place(kv, k, idx, pos),
    ensures
        table_sorted(kv.take(k + 1), idx.insert(pos, k as usize)),
{
    let post = kv.take(k + 1);
    let ni = idx.insert(pos, k as usize);
    assert forall|i: int, j: int| 0 <= i < j < ni.len() implies seq_lt(
        post[#[trigger] ni[i] as int],
        post[#[trigger] ni[j] as int],
    ) by {
        lemma_new_key_pair(kv, k, idx, pos, i, j);
    }
}

#[verifier::rlimit(50)]
proof fn lemma_new_key_first(kv: Seq<Seq<char>>, k: int, idx: Seq<usize>, pos: int)
    requires
        new_key_place(kv, k, idx, pos),
    ensures
        table_firsts(kv.take(k + 1), idx.insert(pos, k as usize)),
{
    let pre = kv.take(k);
    let post = kv.take(k + 1);
    let kk = kv[k];
    let ni = idx.insert(pos, k as usize);
    lemma_new_key_distinct(kv, k, idx, pos);
    assert forall|i: int, q: int|
        #![trigger post[q], ni[i]]
        0 <= i < ni.len() && 0 <= q < ni[i] implies post[q] != post[ni[i] as int] by {
        assert(pre[q] == post[q]);
        if i == pos {
            let j = choose|j: int| 0 <= j < idx.len() && pre[#[trigger] idx[j] as int] == #[trigger] pre[q];
            assert(pre[idx[j] as int] == kv[idx[j] as int]);
            assert(kv[idx[j] as int] != kk);
        } else {
            let a = if i < pos { i } else { i - 1 };
            assert(ni[i] == idx[a]);
            assert(pre[q] != pre[idx[a] as int]);
            assert(pre[idx[a] as int] == post[idx[a] as int]);
        }
    }
}

#[verifier::rlimit(50)]
proof fn lemma_new_key_cover(kv: Seq<Seq<char>>, k: int, idx: Seq<usize>, pos: int)
    requires
        new_key_place(kv, k, idx, pos),
    ensures
        table_in_bounds(kv.take(k + 1), idx.insert(pos, k as usize)),
        table_covers(kv.take(k + 1), idx.insert(pos, k as usize)),
{
    let pre = kv.take(k);
    let post = kv.take(k + 1);
    let ni = idx.insert(pos, k as usize);
    assert forall|i: int| 0 <= i < ni.len() implies #[trigger] ni[i] < post.len() by {
        if i < pos {
            assert(ni[i] == idx[i]);
        } else if i > pos {
            assert(ni[i] == idx[i - 1]);
        }
    }
    assert forall|q: int| 0 <= q < post.len() implies exists|i: int|
        0 <= i < ni.len() && post[#[trigger] ni[i] as int] == #[trigger] post[q] by {
        if q < k {
            assert(pre[q] == post[q]);
            let j = choose|j: int| 0 <= j < idx.len() && pre[#[trigger] idx[j] as int] == #[trigger] pre[q];
            let i = if j < pos { j } else { j + 1 };
            assert(ni[i] == idx[j]);
            assert(pre[idx[j] as int] == post[idx[j] as int]);
        } else {
            assert(ni[pos] == k);
        }
    }
}

/// A new key enters the table at its sorted place.
proof fn lemma_table_new(kv: Seq<Seq<char>>, k: int, idx: Seq<usize>, pos: int)
    requires
        new_key_place(kv, k, idx, pos),
    ensures
        first_index_table(kv.take(k + 1), idx.insert(pos, k as usize)),
{
    lemma_new_key_sorted(kv, k, idx, pos);
    lemma_new_key_first(kv, k, idx, pos);
    lemma_new_key_cover(kv, k, idx, pos);
}

/// The table of first positions of the distinct keys, sorted by key (what
/// filling a `BTreeMap` with `entry(key).or_insert(..)` keeps).
pub fn first_indices(keys: &[Vec<char>]) -> (idx: Vec<usize>)
    ensures
        first_index_table(views(keys@), idx@),
        idx@ == table_of(views(keys@)),
{
    let ghost kv = views(keys@);
    let mut idx: Vec<usize> = Vec::new();
    let n = keys.len();
    for k in 0..n
        invariant
            n == keys@.len(),
            kv == views(keys@),
            first_index_table(kv.take(k as int), idx@),
    {
        assert(kv[k as int] == keys@[k as int]@);
        let mut pos: usize = 0;
        let len = idx.len();
        while pos < len && chars_less(keys[idx[pos]].as_slice(), keys[k].as_slice())
            invariant
                len == idx@.len(),
                pos <= len,
                n == keys@.len(),
                k < n,
                kv == views(keys@),
                first_index_table(kv.take(k as int), idx@),
                forall|i: int| 0 <= i < pos ==> seq_lt(kv[#[trigger] idx@[i] as int], kv[k as int]),
            decreases len - pos,
        {
            assert(idx@[pos as int] < k);
            assert(keys@[idx@[pos as int] as int]@ == kv[idx@[pos as int] as int]);
            pos = pos + 1;
        }
        if pos < len {
            assert(idx@[pos as int] < k);
            assert(keys@[idx@[pos as int] as int]@ == kv[idx@[pos as int] as int]);
        }
        if pos < len && chars_equal(keys[idx[pos]].as_slice(), keys[k].as_slice()) {
            proof {
                lemma_table_seen(kv, k as int, idx@, pos as int);
            }
        } else {
            proof {
                if pos < len {
                    lemma_seq_lt_total(kv[idx@[pos as int] as int], kv[k as int]);
                }
                lemma_table_new(kv, k as int, idx@, pos as int);
            }
            idx.insert(pos, k);
        }
    }
    assert(kv.take(n as int) =~= kv);
    proof {
        lemma_table_of(kv, idx@);
    }
    idx
}

} // verus!

verus! {

/// `s.trim_start_matches(p)`: `p` removed from the front as often as it is there.
pub open spec fn strip_all_prefix(s: Seq<char>, p: Seq<char>) -> Seq<char>
    decreases s.len(),
{
    if p.len() > 0 && starts_with(s, p) {
        strip_all_prefix(s.skip(p.len() as int), p)
    } else {
        s
    }
}

/// `s.split(p).nth(1)`: the text between the first and the second
/// occurrence of `p` (or to the end), if `p` occurs.
pub open spec fn second_piece(s: Seq<char>, p: Seq<char>) -> Option<Seq<char>> {
    match find(s, p) {
        Some(k) => {
            let rest = s.skip((k + p.len()) as int);
            match find(rest, p) {
                Some(j) => Some(rest.take(j as int)),
                None => Some(rest),
            }
        },
        None => None,
    }
}

/// `s.trim_start_matches(p)` on characters.
pub fn strip_all_prefix_chars(s: &[char], p: &[char]) -> (r: Vec<char>)
    ensures
        r@ == strip_all_prefix(s@, p@),
{
    let n = s.len();
    let m = p.len();
    if m == 0 {
        return slice_chars(s, 0, n);
    }
    let mut i: usize = 0;
    assert(s@.skip(0) == s@);
    while m <= n - i && matches_at(s, p, i)
        invariant
            n == s@.len(),
            m == p@.len(),
            m > 0,
            i <= n,
            strip_all_prefix(s@, p@) == strip_all_prefix(s@.skip(i as int), p@),
        decreases n - i,
    {
        let ghost t = s@.skip(i as int);
        assert(t.take(m as int) =~= s@.subrange(i as int, i + m));
        assert(t.skip(m as int) =~= s@.skip(i + m));
        i = i + m;
    }
    proof {
        let t = s@.skip(i as int);
        if m <= n - i {
            assert(t.take(m as int) =~= s@.subrange(i as int, i + m));
        }
    }
    slice_chars(s, i, n)
}

/// `s.split(p).nth(1)` on characters.
pub fn second_piece_chars(s: &[char], p: &[char]) -> (r: Option<Vec<char>>)
    ensures
        match r {
            Some(v) => second_piece(s@, p@) == Some(v@),
            None => second_piece(s@, p@) is None,
        },
{
    match find_chars(s, p) {
        None => None,
        Some(k) => {
            proof { lemma_find(s@, p@); }
            assert(occurs_at(s@, p@, k as int));
            let pl = p.len();
            let sl = s.len();
            assert(k + pl <= sl);
            let rest = slice_chars(s, k + pl, sl);
            assert(rest@ =~= s@.skip(k + p@.len()));
            match find_chars(rest.as_slice(), p) {
                Some(j) => {
                    proof { lemma_find(rest@, p@); }
                    let v = slice_chars(rest.as_slice(), 0, j);
                    assert(v@ =~= rest@.take(j as int));
                    Some(v)
                },
                None => Some(rest),
            }
        },
    }
}

} // verus!

verus! {

/// Two table entries with the same key are the same entry.
proof fn lemma_table_same_key(keys: Seq<Seq<char>>, a: Seq<usize>, b: Seq<usize>, i: int, j: int)
    requires
        first_index_table(keys, a),
        first_index_table(keys, b),
        0 <= i < a.len(),
        0 <= j < b.len(),
        keys[a[i] as int] == keys[b[j] as int],
    ensures
        a[i] == b[j],
{
    if a[i] < b[j] {
        assert(keys[a[i] as int] != keys[b[j] as int]);
    } else if b[j] < a[i] {
        assert(keys[b[j] as int] != keys[a[i] as int]);
    }
}

/// Entries at different places of a table differ.
proof fn lemma_table_distinct(keys: Seq<Seq<char>>, a: Seq<usize>, i: int, j: int)
    requires
        first_index_table(keys, a),
        0 <= i < a.len(),
        0 <= j < a.len(),
        i != j,
    ensures
        a[i] != a[j],
        keys[a[i] as int] != keys[a[j] as int],
{
    if i < j {
        assert(seq_lt(keys[a[i] as int], keys[a[j] as int]));
        lemma_seq_lt_irreflexive(keys[a[i] as int]);
    } else {
        assert(seq_lt(keys[a[j] as int], keys[a[i] as int]));
        lemma_seq_lt_irreflexive(keys[a[j] as int]);
    }
}

/// Where an entry of one table stands in another.
proof fn lemma_table_position(keys: Seq<Seq<char>>, a: Seq<usize>, b: Seq<usize>, i: int) -> (j: int)
    requires
        first_index_table(keys, a),
        first_index_table(keys, b),
        0 <= i < a.len(),
    ensures
        0 <= j < b.len(),
        b[j] == a[i],
{
    let q = a[i] as int;
    assert(0 <= q < keys.len());
    assert(keys[q] == keys[q]);
    let j = choose|j: int| 0 <= j < b.len() && keys[#[trigger] b[j] as int] == #[trigger] keys[q];
    lemma_table_same_key(keys, a, b, i, j);
    j
}

/// The table of first positions is unique.
pub proof fn lemma_table_unique(keys: Seq<Seq<char>>, a: Seq<usize>, b: Seq<usize>)
    requires
        first_index_table(keys, a),
        first_index_table(keys, b),
    ensures
        a == b,
{
    let n = if a.len() < b.len() { a.len() } else { b.len() };
    assert forall|i: int| 0 <= i < n implies a[i] == b[i] by {
        lemma_table_agree_at(keys, a, b, i);
    }
    if a.len() > b.len() {
        let i = b.len() as int;
        let j = lemma_table_position(keys, a, b, i);
        assert(a[j] == b[j]);
        lemma_table_distinct(keys, a, i, j);
    } else if b.len() > a.len() {
        let i = a.len() as int;
        let j = lemma_table_position(keys, b, a, i);
        assert(a[j] == b[j]);
        lemma_table_distinct(keys, b, i, j);
    }
    assert(a =~= b);
}

/// Two tables agree at every place both have.
proof fn lemma_table_agree_at(keys: Seq<Seq<char>>, a: Seq<usize>, b: Seq<usize>, i: int)
    requires
        first_index_table(keys, a),
        first_index_table(keys, b),
        0 <= i < a.len(),
        i < b.len(),
    ensures
        a[i] == b[i],
    decreases i,
{
    assert forall|l: int| 0 <= l < i implies a[l] == b[l] by {
        lemma_table_agree_at(keys, a, b, l);
    }
    let j = lemma_table_position(keys, a, b, i);
    if j < i {
        assert(a[j] == b[j]);
        lemma_table_distinct(keys, a, i, j);
    } else if j > i {
        let l = lemma_table_position(keys, b, a, i);
        if l < i {
            assert(a[l] == b[l]);
            lemma_table_distinct(keys, b, i, l);
        } else if l == i {
            lemma_table_distinct(keys, b, i, j);
        } else {
            // a[i] sorts before a[l] == b[i], and b[i] sorts before b[j] == a[i].
            assert(seq_lt(keys[a[i] as int], keys[a[l] as int]));
            assert(seq_lt(keys[b[i] as int], keys[b[j] as int]));
            lemma_seq_lt_asymmetric(keys[a[i] as int], keys[a[l] as int]);
        }
    }
}

/// The table of first positions of the distinct keys.
pub open spec fn table_of(keys: Seq<Seq<char>>) -> Seq<usize> {
    choose|idx: Seq<usize>| first_index_table(keys, idx)
}

/// A table is the table.
pub proof fn lemma_table_of(keys: Seq<Seq<char>>, idx: Seq<usize>)
    requires
        first_index_table(keys, idx),
    ensures
        table_of(keys) == idx,
{
    let t = table_of(keys);
    assert(first_index_table(keys, t));
    lemma_table_unique(keys, t, idx);
}

} // verus!

verus! {

/// The lowercase form of a text by Unicode's rules, which is what
/// `str::to_lowercase` gives.
pub uninterp spec fn lowercase(s: Seq<char>) -> Seq<char>;

/// An ASCII text with `A` to `Z` turned into `a` to `z`, one character at
/// a time.
pub open spec fn ascii_lowercase(s: Seq<char>) -> Seq<char> {
    s.map_values(|c: char| if 'A' <= c && c <= 'Z' { ((c as u32) + 32) as char } else { c })
}

/// Whether every character of `s` is ASCII.
pub open spec fn is_ascii_text(s: Seq<char>) -> bool {
    forall|i: int| 0 <= i < s.len() ==> (s[i] as u32) < 0x80
}

/// Wraps `str::to_lowercase`; its result is named `lowercase`. Of an ASCII
/// text it is stated that `A` to `Z` become `a` to `z` and the rest stays,
/// as the std documentation gives; nothing more.
#[verifier::external_body]
pub(crate) fn to_lowercase(s: &str) -> (r: String)
    ensures
        r@ == lowercase(s@),
        is_ascii_text(s@) ==> r@ == ascii_lowercase(s@),
{
    s.to_lowercase()
}

/// `s.trim_end_matches(p)`: `p` removed from the end as often as it is there.
pub open spec fn strip_all_suffix(s: Seq<char>, c: char) -> Seq<char>
    decreases s.len(),
{
    if s.len() > 0 && s.last() == c {
        strip_all_suffix(s.drop_last(), c)
    } else {
        s
    }
}

/// `s.trim_matches(c)` for a single character.
pub open spec fn trim_char(s: Seq<char>, c: char) -> Seq<char> {
    strip_all_suffix(strip_all_prefix(s, seq![c]), c)
}

/// `s.trim_matches(c)` on characters.
pub fn trim_char_chars(s: &[char], c: char) -> (r: Vec<char>)
    ensures
        r@ == trim_char(s@, c),
{
    let p = vec![c];
    assert(p@ =~= seq![c]);
    let a = strip_all_prefix_chars(s, p.as_slice());
    let n = a.len();
    let mut i: usize = n;
    assert(a@.take(n as int) =~= a@);
    while i > 0 && a[i - 1] == c
        invariant
            n == a@.len(),
            i <= n,
            strip_all_suffix(a@, c) == strip_all_suffix(a@.take(i as int), c),
        decreases i,
    {
        assert(a@.take(i as int).drop_last() =~= a@.take(i - 1));
        i = i - 1;
    }
    proof {
        let t = a@.take(i as int);
        if i > 0 {
            assert(t.last() == a@[i - 1]);
        }
    }
    assert(a@.take(n as int) =~= a@);
    slice_chars(a.as_slice(), 0, i)
}

/// Bytes that UTF-8 takes for `c`.
pub open spec fn utf8_width(c: char) -> nat {
    if (c as u32) < 0x80 {
        1
    } else if (c as u32) < 0x800 {
        2
    } else if (c as u32) < 0x10000 {
        3
    } else {
        4
    }
}

/// The characters that make up the first `n` bytes of the UTF-8 text of
/// `s`, when `n` falls on a character boundary (`str::get(..n)`).
pub open spec fn byte_prefix(s: Seq<char>, n: nat) -> Option<Seq<char>>
    decreases s.len(),
{
    if n == 0 {
        Some(Seq::empty())
    } else if s.len() == 0 {
        None
    } else if utf8_width(s[0]) > n {
        None
    } else {
        match byte_prefix(s.skip(1), (n - utf8_width(s[0])) as nat) {
            Some(p) => Some(seq![s[0]] + p),
            None => None,
        }
    }
}

/// Bytes that UTF-8 takes for `c`.
pub fn char_width(c: char) -> (w: usize)
    ensures
        w == utf8_width(c),
{
    let v = c as u32;
    if v < 0x80 {
        1
    } else if v < 0x800 {
        2
    } else if v < 0x10000 {
        3
    } else {
        4
    }
}

/// How many characters make up the first `n` bytes of `s`, when `n` falls
/// on a character boundary.
pub fn byte_prefix_len(s: &[char], n: usize) -> (r: Option<usize>)
    ensures
        match r {
            Some(k) => k <= s@.len() && byte_prefix(s@, n as nat) == Some(s@.take(k as int)),
            None => byte_prefix(s@, n as nat) is None,
        },
{
    let len = s.len();
    let mut i: usize = 0;
    let mut rem: usize = n;
    assert(s@.skip(0) =~= s@);
    while rem > 0 && i < len && char_width(s[i]) <= rem
        invariant
            len == s@.len(),
            i <= len,
            rem <= n,
            byte_prefix(s@, n as nat) == match byte_prefix(s@.skip(i as int), rem as nat) {
                Some(p) => Some(s@.take(i as int) + p),
                None => None,
            },
        decreases len - i,
    {
        let w = char_width(s[i]);
        let ghost t = s@.skip(i as int);
        assert(t[0] == s@[i as int]);
        assert(t.skip(1) =~= s@.skip(i + 1));
        assert(s@.take(i + 1) =~= s@.take(i as int) + seq![s@[i as int]]);
        proof {
            match byte_prefix(s@.skip(i + 1), (rem - w) as nat) {
                Some(p) => {
                    assert(s@.take(i as int) + (seq![s@[i as int]] + p) =~= s@.take(i + 1) + p);
                },
                None => {},
            }
        }
        rem = rem - w;
        i = i + 1;
    }
    if rem == 0 {
        assert(s@.take(i as int) + Seq::<char>::empty() =~= s@.take(i as int));
        Some(i)
    } else {
        if i < len {
            assert(s@.skip(i as int)[0] == s@[i as int]);
        }
        None
    }
}

} // verus!
