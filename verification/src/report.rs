//! The availability report: the tables built from the CSV dumps of the
//! field monitor (the hourly timeline, the per-server failure counts, the
//! server map), the command line of the report generator, and the filling
//! of the report template.

use vstd::prelude::*;

use crate::text::{
    byte_prefix, byte_prefix_len, chars_equal, chars_of, decimal, first_indices, push_chars,
    push_decimal, push_str, slice_chars, str_views, table_of, views,
};

verus! {

/// The fields of each CSV row.
pub open spec fn csv_views(rows: Seq<Vec<String>>) -> Seq<Seq<Seq<char>>> {
    rows.map_values(|r: Vec<String>| str_views(r@))
}

/// The fields of each row, as character vectors.
pub open spec fn grid(g: Seq<Vec<Vec<char>>>) -> Seq<Seq<Seq<char>>> {
    g.map_values(|r: Vec<Vec<char>>| views(r@))
}

/// The rows with at least four fields (day, hour, server, target), in
/// order; shorter rows are passed over.
pub open spec fn usable_rows(rows: Seq<Seq<Seq<char>>>) -> Seq<Seq<Seq<char>>>
    decreases rows.len(),
{
    if rows.len() == 0 {
        Seq::empty()
    } else {
        let u = usable_rows(rows.drop_last());
        if rows.last().len() >= 4 {
            u.push(rows.last())
        } else {
            u
        }
    }
}

/// The fifth field (the status or anomaly), empty when the row has none.
pub open spec fn field4(r: Seq<Seq<char>>) -> Seq<char> {
    if r.len() > 4 {
        r[4]
    } else {
        Seq::empty()
    }
}

/// Every usable row is one of the rows and has four fields.
pub proof fn lemma_usable_rows(rows: Seq<Seq<Seq<char>>>)
    ensures
        usable_rows(rows).len() <= rows.len(),
        forall|k: int|
            0 <= k < usable_rows(rows).len() ==> (#[trigger] usable_rows(rows)[k]).len() >= 4
                && exists|i: int| 0 <= i < rows.len() && rows[i] == usable_rows(rows)[k],
    decreases rows.len(),
{
    if rows.len() > 0 {
        lemma_usable_rows(rows.drop_last());
        let u = usable_rows(rows.drop_last());
        assert forall|k: int| 0 <= k < usable_rows(rows).len() implies (#[trigger] usable_rows(
            rows,
        )[k]).len() >= 4 && exists|i: int| 0 <= i < rows.len() && rows[i] == usable_rows(rows)[k] by {
            if k < u.len() {
                assert(usable_rows(rows)[k] == u[k]);
                let i = choose|i: int| 0 <= i < rows.drop_last().len() && rows.drop_last()[i] == u[k];
                assert(rows[i] == rows.drop_last()[i]);
            } else {
                assert(usable_rows(rows)[k] == rows.last());
                assert(rows[rows.len() - 1] == rows.last());
            }
        }
    }
}

/// The fields of a row, as character vectors.
fn row_chars(r: &Vec<String>) -> (v: Vec<Vec<char>>)
    ensures
        views(v@) == str_views(r@),
{
    let mut v: Vec<Vec<char>> = Vec::new();
    let n = r.len();
    for i in 0..n
        invariant
            n == r@.len(),
            views(v@) == str_views(r@).take(i as int),
    {
        let ghost prev = v@;
        v.push(chars_of(r[i].as_str()));
        assert(views(v@) =~= views(prev).push(r@[i as int]@));
        assert(str_views(r@).take(i + 1) =~= str_views(r@).take(i as int).push(r@[i as int]@));
    }
    assert(str_views(r@).take(n as int) =~= str_views(r@));
    v
}

/// The usable rows, as character vectors.
fn usable_grid(rows: &[Vec<String>]) -> (g: Vec<Vec<Vec<char>>>)
    ensures
        grid(g@) == usable_rows(csv_views(rows@)),
{
    let ghost cv = csv_views(rows@);
    let mut g: Vec<Vec<Vec<char>>> = Vec::new();
    let n = rows.len();
    assert(cv.take(0) =~= Seq::<Seq<Seq<char>>>::empty());
    assert(grid(g@) =~= Seq::<Seq<Seq<char>>>::empty());
    for i in 0..n
        invariant
            n == rows@.len(),
            cv == csv_views(rows@),
            grid(g@) == usable_rows(cv.take(i as int)),
    {
        let ghost prev = g@;
        assert(cv.take(i + 1).drop_last() =~= cv.take(i as int));
        assert(cv.take(i + 1).last() == cv[i as int]);
        assert(cv[i as int] == str_views(rows@[i as int]@));
        if rows[i].len() >= 4 {
            let r = row_chars(&rows[i]);
            g.push(r);
            assert(grid(g@) =~= grid(prev).push(views(r@)));
        }
    }
    assert(cv.take(n as int) =~= cv);
    g
}

/// A text made safe to join with a separator that sorts first: every
/// character is preceded by U+0001.
pub open spec fn escaped(s: Seq<char>) -> Seq<char>
    decreases s.len(),
{
    if s.len() == 0 {
        Seq::empty()
    } else {
        escaped(s.drop_last()) + seq!['\u{1}', s.last()]
    }
}

/// The key of an hour slot: the escaped day, U+0000, then the hour. Keys
/// sort as the (day, hour) pairs do, first by day, then by hour.
pub open spec fn slot_key(day: Seq<char>, hour: Seq<char>) -> Seq<char> {
    escaped(day) + seq!['\u{0}'] + hour
}

/// The slot keys of the usable rows.
pub open spec fn slot_keys(us: Seq<Seq<Seq<char>>>) -> Seq<Seq<char>> {
    us.map_values(|r: Seq<Seq<char>>| slot_key(r[0], r[1]))
}

/// `s` with U+0001 before each character.
fn escape_chars(s: &[char]) -> (r: Vec<char>)
    ensures
        r@ == escaped(s@),
{
    let mut r: Vec<char> = Vec::new();
    let n = s.len();
    assert(s@.take(0) =~= Seq::<char>::empty());
    for i in 0..n
        invariant
            n == s@.len(),
            r@ == escaped(s@.take(i as int)),
    {
        assert(s@.take(i + 1).drop_last() =~= s@.take(i as int));
        assert(s@.take(i + 1).last() == s@[i as int]);
        r.push('\u{1}');
        r.push(s[i]);
        assert(r@ =~= escaped(s@.take(i + 1)));
    }
    assert(s@.take(n as int) =~= s@);
    r
}

/// The slot keys of the usable rows.
fn slot_keys_of(g: &Vec<Vec<Vec<char>>>) -> (k: Vec<Vec<char>>)
    requires
        forall|i: int| 0 <= i < g@.len() ==> (#[trigger] g@[i])@.len() >= 4,
    ensures
        views(k@) == slot_keys(grid(g@)),
{
    let mut k: Vec<Vec<char>> = Vec::new();
    let n = g.len();
    for i in 0..n
        invariant
            n == g@.len(),
            forall|i: int| 0 <= i < g@.len() ==> (#[trigger] g@[i])@.len() >= 4,
            views(k@) == slot_keys(grid(g@)).take(i as int),
    {
        let ghost prev = k@;
        let row = &g[i];
        assert(row@.len() >= 4);
        assert(grid(g@)[i as int] == views(row@));
        assert(views(row@)[0] == row@[0]@);
        assert(views(row@)[1] == row@[1]@);
        let mut key = escape_chars(row[0].as_slice());
        key.push('\u{0}');
        let hour = &row[1];
        let m = hour.len();
        let ghost base = key@;
        for j in 0..m
            invariant
                m == hour@.len(),
                key@ == base + hour@.take(j as int),
        {
            key.push(hour[j]);
            assert(hour@.take(j + 1) =~= hour@.take(j as int).push(hour@[j as int]));
        }
        assert(hour@.take(m as int) =~= hour@);
        assert(key@ =~= slot_key(row@[0]@, row@[1]@));
        k.push(key);
        assert(views(k@) =~= views(prev).push(slot_key(row@[0]@, row@[1]@)));
        assert(slot_keys(grid(g@)).take(i + 1) =~= slot_keys(grid(g@)).take(i as int).push(
            slot_keys(grid(g@))[i as int],
        ));
    }
    assert(slot_keys(grid(g@)).take(n as int) =~= slot_keys(grid(g@)));
    k
}

/// Whether a row belongs to the hour slot.
pub open spec fn in_slot(r: Seq<Seq<char>>, day: Seq<char>, hour: Seq<char>) -> bool {
    r[0] == day && r[1] == hour
}

/// The servers of the rows of an hour slot, in order, repeats kept.
pub open spec fn slot_servers(us: Seq<Seq<Seq<char>>>, day: Seq<char>, hour: Seq<char>) -> Seq<Seq<char>>
    decreases us.len(),
{
    if us.len() == 0 {
        Seq::empty()
    } else {
        let s = slot_servers(us.drop_last(), day, hour);
        if in_slot(us.last(), day, hour) {
            s.push(us.last()[2])
        } else {
            s
        }
    }
}

/// How many rows of an hour slot report `target` with status `OK`.
pub open spec fn slot_ok(us: Seq<Seq<Seq<char>>>, day: Seq<char>, hour: Seq<char>, target: Seq<char>) -> nat
    decreases us.len(),
{
    if us.len() == 0 {
        0
    } else {
        slot_ok(us.drop_last(), day, hour, target) + if in_slot(us.last(), day, hour)
            && us.last()[3] == target && field4(us.last()) == "OK"@ {
            1nat
        } else {
            0nat
        }
    }
}

/// The servers of an hour slot and its `OK` counts for apple and icloud.
fn slot_stats(g: &Vec<Vec<Vec<char>>>, day: &[char], hour: &[char]) -> (r: (Vec<Vec<char>>, usize, usize))
    requires
        forall|i: int| 0 <= i < g@.len() ==> (#[trigger] g@[i])@.len() >= 4,
    ensures
        views(r.0@) == slot_servers(grid(g@), day@, hour@),
        r.1 == slot_ok(grid(g@), day@, hour@, "apple"@),
        r.2 == slot_ok(grid(g@), day@, hour@, "icloud"@),
{
    let ghost gv = grid(g@);
    let apple = chars_of("apple");
    let icloud = chars_of("icloud");
    let ok = chars_of("OK");
    let mut servers: Vec<Vec<char>> = Vec::new();
    let mut a: usize = 0;
    let mut c: usize = 0;
    let n = g.len();
    assert(gv.take(0) =~= Seq::<Seq<Seq<char>>>::empty());
    for i in 0..n
        invariant
            n == g@.len(),
            gv == grid(g@),
            forall|i: int| 0 <= i < g@.len() ==> (#[trigger] g@[i])@.len() >= 4,
            apple@ == "apple"@,
            icloud@ == "icloud"@,
            ok@ == "OK"@,
            a <= i,
            c <= i,
            views(servers@) == slot_servers(gv.take(i as int), day@, hour@),
            a == slot_ok(gv.take(i as int), day@, hour@, "apple"@),
            c == slot_ok(gv.take(i as int), day@, hour@, "icloud"@),
    {
        let ghost prev = servers@;
        let ghost t = gv.take(i + 1);
        assert(t.drop_last() =~= gv.take(i as int));
        assert(t.last() == gv[i as int]);
        let row = &g[i];
        assert(gv[i as int] == views(row@));
        assert(row@.len() >= 4);
        let ghost rv = views(row@);
        assert(rv[0] == row@[0]@ && rv[1] == row@[1]@ && rv[2] == row@[2]@ && rv[3] == row@[3]@);
        if chars_equal(row[0].as_slice(), day) && chars_equal(row[1].as_slice(), hour) {
            servers.push(row[2].clone());
            assert(views(servers@) =~= views(prev).push(rv[2]));
            let st = if row.len() > 4 {
                assert(rv[4] == row@[4]@);
                chars_equal(row[4].as_slice(), ok.as_slice())
            } else {
                proof {
                    assert(field4(rv) =~= Seq::<char>::empty());
                    reveal_strlit("OK");
                }
                false
            };
            assert(st == (field4(rv) == "OK"@));
            if st && chars_equal(row[3].as_slice(), apple.as_slice()) {
                a = a + 1;
            }
            if st && chars_equal(row[3].as_slice(), icloud.as_slice()) {
                c = c + 1;
            }
        }
    }
    assert(gv.take(n as int) =~= gv);
    (servers, a, c)
}

/// `&s[n..]`: what follows the first `n` bytes, when `n` falls on a
/// character boundary.
pub open spec fn byte_suffix(s: Seq<char>, n: nat) -> Option<Seq<char>> {
    match byte_prefix(s, n) {
        Some(p) => Some(s.skip(p.len() as int)),
        None => None,
    }
}

/// The timeline's header.
pub open spec fn timeline_head() -> Seq<char> {
    "| Generated (UTC) | vps | apple OK | icloud OK | Статус / интерпретация |\n"@
        + "|-----------------|----:|---------:|----------:|------------------------|\n"@
}

/// The line of one hour slot: the day without its first five bytes (the
/// year), the hour, how many distinct servers reported, how many apple and
/// icloud rows were `OK`, and `CLEAR` when any was, else `SLOW/FAIL`.
pub open spec fn timeline_line(us: Seq<Seq<Seq<char>>>, day: Seq<char>, hour: Seq<char>) -> Seq<char> {
    let vps = table_of(slot_servers(us, day, hour)).len();
    let apple = slot_ok(us, day, hour, "apple"@);
    let icloud = slot_ok(us, day, hour, "icloud"@);
    let short_day = match byte_suffix(day, 5) {
        Some(d) => d,
        None => Seq::empty(),
    };
    "| "@ + short_day + " "@ + hour + ":00 | "@ + decimal(vps) + " | "@ + decimal(apple) + " | "@
        + decimal(icloud) + " | "@ + (if apple > 0 || icloud > 0 {
        "CLEAR"@
    } else {
        "SLOW/FAIL"@
    }) + " |\n"@
}

/// Some row of the hour slot reports `target` with status `OK`.
pub open spec fn slot_has_ok(us: Seq<Seq<Seq<char>>>, day: Seq<char>, hour: Seq<char>, target: Seq<char>) -> bool {
    exists|i: int|
        0 <= i < us.len() && in_slot(#[trigger] us[i], day, hour) && us[i][3] == target && field4(us[i])
            == "OK"@
}

/// A slot's `OK` count for a target is positive exactly when some row of the
/// slot reports that target `OK`.
proof fn lemma_slot_ok_positive(us: Seq<Seq<Seq<char>>>, day: Seq<char>, hour: Seq<char>, target: Seq<char>)
    ensures
        slot_ok(us, day, hour, target) > 0 <==> slot_has_ok(us, day, hour, target),
    decreases us.len(),
{
    if us.len() > 0 {
        let init = us.drop_last();
        lemma_slot_ok_positive(init, day, hour, target);
        if slot_has_ok(init, day, hour, target) {
            let i = choose|i: int|
                0 <= i < init.len() && in_slot(#[trigger] init[i], day, hour) && init[i][3] == target
                    && field4(init[i]) == "OK"@;
            assert(us[i] == init[i]);
        }
        if slot_has_ok(us, day, hour, target) {
            let i = choose|i: int|
                0 <= i < us.len() && in_slot(#[trigger] us[i], day, hour) && us[i][3] == target
                    && field4(us[i]) == "OK"@;
            if i < us.len() - 1 {
                assert(init[i] == us[i]);
            }
        }
    }
}

/// An hour of the timeline is noted CLEAR exactly when at least one row of
/// that hour reached apple or icloud (status `OK`), either one of the two
/// being enough; an hour where neither was reached is noted SLOW/FAIL.
pub proof fn law_timeline_note(us: Seq<Seq<Seq<char>>>, day: Seq<char>, hour: Seq<char>)
    ensures
        slot_has_ok(us, day, hour, "apple"@) || slot_has_ok(us, day, hour, "icloud"@) ==> exists|
            pre: Seq<char>,
        | timeline_line(us, day, hour) == pre + "CLEAR"@ + " |\n"@,
        !slot_has_ok(us, day, hour, "apple"@) && !slot_has_ok(us, day, hour, "icloud"@) ==> exists|
            pre: Seq<char>,
        | timeline_line(us, day, hour) == pre + "SLOW/FAIL"@ + " |\n"@,
{
    lemma_slot_ok_positive(us, day, hour, "apple"@);
    lemma_slot_ok_positive(us, day, hour, "icloud"@);
    let vps = table_of(slot_servers(us, day, hour)).len();
    let apple = slot_ok(us, day, hour, "apple"@);
    let icloud = slot_ok(us, day, hour, "icloud"@);
    let short_day = match byte_suffix(day, 5) {
        Some(d) => d,
        None => Seq::empty(),
    };
    let pre = "| "@ + short_day + " "@ + hour + ":00 | "@ + decimal(vps) + " | "@ + decimal(apple)
        + " | "@ + decimal(icloud) + " | "@;
    if apple > 0 || icloud > 0 {
        assert(timeline_line(us, day, hour) == pre + "CLEAR"@ + " |\n"@);
    } else {
        assert(timeline_line(us, day, hour) == pre + "SLOW/FAIL"@ + " |\n"@);
    }
}

/// The lines of the slots whose first rows are at `firsts`.
pub open spec fn timeline_lines(us: Seq<Seq<Seq<char>>>, firsts: Seq<usize>) -> Seq<char>
    decreases firsts.len(),
{
    if firsts.len() == 0 {
        Seq::empty()
    } else {
        timeline_lines(us, firsts.drop_last()) + timeline_line(
            us,
            us[firsts.last() as int][0],
            us[firsts.last() as int][1],
        )
    }
}

/// The hourly timeline of the snapshots: the header, then one line per
/// (day, hour) slot of the usable rows, slots in order.
pub open spec fn timeline_text(rows: Seq<Seq<Seq<char>>>) -> Seq<char> {
    let us = usable_rows(rows);
    timeline_head() + timeline_lines(us, table_of(slot_keys(us)))
}

/// The day of every usable row has at least five bytes and a character
/// boundary after them, so that its year can be cut off.
pub open spec fn days_cuttable(rows: Seq<Seq<Seq<char>>>) -> bool {
    forall|i: int| 0 <= i < rows.len() && (#[trigger] rows[i]).len() >= 4 ==> byte_prefix(rows[i][0], 5) is Some
}


/// The usable rows' own facts: four fields each, and a day whose year can
/// be cut off.
proof fn lemma_grid_rows(rows: Seq<Seq<Seq<char>>>, g: Seq<Vec<Vec<char>>>)
    requires
        grid(g) == usable_rows(rows),
        days_cuttable(rows),
    ensures
        forall|i: int| 0 <= i < g.len() ==> (#[trigger] g[i])@.len() >= 4,
        forall|i: int| 0 <= i < g.len() ==> byte_prefix(#[trigger] grid(g)[i][0], 5) is Some,
{
    lemma_usable_rows(rows);
    let us = usable_rows(rows);
    assert forall|i: int| 0 <= i < g.len() implies (#[trigger] g[i])@.len() >= 4 by {
        assert(us[i] == grid(g)[i]);
        assert(grid(g)[i] == views(g[i]@));
    }
    assert forall|i: int| 0 <= i < g.len() implies byte_prefix(#[trigger] grid(g)[i][0], 5) is Some by {
        assert(us[i] == grid(g)[i]);
        let j = choose|j: int| 0 <= j < rows.len() && rows[j] == us[i];
        assert(rows[j].len() >= 4);
    }
}

/// Appends the line of one hour slot.
fn push_timeline_line(out: &mut String, g: &Vec<Vec<Vec<char>>>, day: &[char], hour: &[char])
    requires
        forall|i: int| 0 <= i < g@.len() ==> (#[trigger] g@[i])@.len() >= 4,
        byte_prefix(day@, 5) is Some,
    ensures
        final(out)@ == old(out)@ + timeline_line(grid(g@), day@, hour@),
{
    let (servers, a, c) = slot_stats(g, day, hour);
    let distinct = first_indices(servers.as_slice());
    let vps = distinct.len();
    let ghost start = out@;
    push_str(out, "| ");
    let ghost short_day = byte_suffix(day@, 5)->0;
    match byte_prefix_len(day, 5) {
        Some(k) => {
            let rest = slice_chars(day, k, day.len());
            assert(rest@ =~= short_day);
            push_chars(out, rest.as_slice());
        },
        None => {},
    }
    push_str(out, " ");
    push_chars(out, hour);
    push_str(out, ":00 | ");
    push_decimal(out, vps as u64);
    push_str(out, " | ");
    push_decimal(out, a as u64);
    push_str(out, " | ");
    push_decimal(out, c as u64);
    push_str(out, " | ");
    if a > 0 || c > 0 {
        push_str(out, "CLEAR");
    } else {
        push_str(out, "SLOW/FAIL");
    }
    push_str(out, " |\n");
    assert(out@ =~= start + timeline_line(grid(g@), day@, hour@));
}

/// Groups the snapshot rows (day, hour, server, target, status) by hour
/// slot and writes the timeline table: per slot, the number of distinct
/// servers and of apple and icloud rows with status `OK`. Rows with fewer
/// than four fields are passed over.
#[verifier::spinoff_prover]
#[verifier::rlimit(30)]
pub fn build_timeline(snap_rows: &[Vec<String>]) -> (t: String)
    requires
        days_cuttable(csv_views(snap_rows@)),
    ensures
        t@ == timeline_text(csv_views(snap_rows@)),
{
    let g = usable_grid(snap_rows);
    let ghost us = grid(g@);
    proof {
        lemma_grid_rows(csv_views(snap_rows@), g@);
    }
    let keys = slot_keys_of(&g);
    let idx = first_indices(keys.as_slice());
    let mut out = String::from_str(
        "| Generated (UTC) | vps | apple OK | icloud OK | Статус / интерпретация |\n",
    );
    push_str(&mut out, "|-----------------|----:|---------:|----------:|------------------------|\n");
    let n = idx.len();
    assert(idx@.take(0) =~= Seq::<usize>::empty());
    for j in 0..n
        invariant
            n == idx@.len(),
            us == grid(g@),
            views(keys@) == slot_keys(us),
            idx@ == table_of(slot_keys(us)),
            crate::text::first_index_table(views(keys@), idx@),
            forall|i: int| 0 <= i < g@.len() ==> (#[trigger] g@[i])@.len() >= 4,
            forall|i: int| 0 <= i < g@.len() ==> byte_prefix(#[trigger] grid(g@)[i][0], 5) is Some,
            out@ == timeline_head() + timeline_lines(us, idx@.take(j as int)),
    {
        let u = idx[j];
        assert(idx@[j as int] < views(keys@).len());
        let row = &g[u];
        assert(us[u as int] == views(row@));
        assert(views(row@)[0] == row@[0]@ && views(row@)[1] == row@[1]@);
        assert(byte_prefix(us[u as int][0], 5) is Some);
        push_timeline_line(&mut out, &g, row[0].as_slice(), row[1].as_slice());
        assert(idx@.take(j + 1).drop_last() =~= idx@.take(j as int));
        assert(idx@.take(j + 1).last() == u);
        assert(out@ =~= timeline_head() + timeline_lines(us, idx@.take(j + 1)));
    }
    assert(idx@.take(n as int) =~= idx@);
    out
}


/// Escaping a text with a first character starts with that character.
proof fn lemma_escaped_front(s: Seq<char>)
    requires
        s.len() > 0,
    ensures
        escaped(s) == seq!['\u{1}', s[0]] + escaped(s.skip(1)),
    decreases s.len(),
{
    if s.len() == 1 {
        assert(s.drop_last() =~= Seq::<char>::empty());
        assert(s.skip(1) =~= Seq::<char>::empty());
        assert(escaped(s) =~= seq!['\u{1}', s[0]] + escaped(s.skip(1)));
    } else {
        lemma_escaped_front(s.drop_last());
        assert(s.drop_last().skip(1) =~= s.skip(1).drop_last());
        assert(s.skip(1).last() == s.last());
        assert(escaped(s) =~= seq!['\u{1}', s[0]] + escaped(s.skip(1)));
    }
}

/// The slot keys sort as their (day, hour) pairs do: by day first, then by
/// hour, which is how the timeline orders its slots.
pub proof fn law_slot_key_order(d1: Seq<char>, h1: Seq<char>, d2: Seq<char>, h2: Seq<char>)
    ensures
        crate::text::seq_lt(slot_key(d1, h1), slot_key(d2, h2)) == (crate::text::seq_lt(d1, d2) || (d1
            == d2 && crate::text::seq_lt(h1, h2))),
    decreases d1.len(),
{
    let k1 = slot_key(d1, h1);
    let k2 = slot_key(d2, h2);
    if d1.len() == 0 && d2.len() == 0 {
        assert(k1 =~= seq!['\u{0}'] + h1);
        assert(k2 =~= seq!['\u{0}'] + h2);
        assert(k1.skip(1) =~= h1);
        assert(k2.skip(1) =~= h2);
        assert(d1 =~= d2);
        assert(crate::text::seq_lt(k1, k2) == crate::text::seq_lt(h1, h2));
    } else if d1.len() == 0 {
        lemma_escaped_front(d2);
        assert(k1[0] == '\u{0}');
        assert(k2[0] == '\u{1}');
        assert(crate::text::seq_lt(k1, k2));
        assert(crate::text::seq_lt(d1, d2));
    } else if d2.len() == 0 {
        lemma_escaped_front(d1);
        assert(k1[0] == '\u{1}');
        assert(k2[0] == '\u{0}');
        assert(!crate::text::seq_lt(k1, k2));
        assert(!crate::text::seq_lt(d1, d2));
    } else {
        lemma_escaped_front(d1);
        lemma_escaped_front(d2);
        assert(k1[0] == '\u{1}' && k2[0] == '\u{1}');
        assert(k1.skip(1)[0] == d1[0] && k2.skip(1)[0] == d2[0]);
        assert(crate::text::seq_lt(k1, k2) == crate::text::seq_lt(k1.skip(1), k2.skip(1)));
        if d1[0] == d2[0] {
            assert(crate::text::seq_lt(k1.skip(1), k2.skip(1)) == crate::text::seq_lt(
                k1.skip(1).skip(1),
                k2.skip(1).skip(1),
            ));
            assert(crate::text::seq_lt(d1, d2) == crate::text::seq_lt(d1.skip(1), d2.skip(1)));
            law_slot_key_order(d1.skip(1), h1, d2.skip(1), h2);
            assert(k1.skip(1).skip(1) =~= slot_key(d1.skip(1), h1));
            assert(k2.skip(1).skip(1) =~= slot_key(d2.skip(1), h2));
            if d1.skip(1) == d2.skip(1) {
                assert(d1 =~= seq![d1[0]] + d1.skip(1));
                assert(d2 =~= seq![d2[0]] + d2.skip(1));
            }
            if d1 == d2 {
                assert(d1.skip(1) =~= d2.skip(1));
            }
        } else {
            assert(d1 != d2);
        }
    }
}


/// The usable rows that are about `target`, in order.
pub open spec fn target_rows(us: Seq<Seq<Seq<char>>>, target: Seq<char>) -> Seq<Seq<Seq<char>>>
    decreases us.len(),
{
    if us.len() == 0 {
        Seq::empty()
    } else {
        let t = target_rows(us.drop_last(), target);
        if us.last()[3] == target {
            t.push(us.last())
        } else {
            t
        }
    }
}

/// The servers of the rows, in order.
pub open spec fn row_servers(rows: Seq<Seq<Seq<char>>>) -> Seq<Seq<char>> {
    rows.map_values(|r: Seq<Seq<char>>| r[2])
}

/// How many rows of `server` have `word` in their anomaly field.
pub open spec fn server_count(rows: Seq<Seq<Seq<char>>>, server: Seq<char>, word: Seq<char>) -> nat
    decreases rows.len(),
{
    if rows.len() == 0 {
        0
    } else {
        server_count(rows.drop_last(), server, word) + if rows.last()[2] == server
            && crate::text::contains(field4(rows.last()), word) {
            1nat
        } else {
            0nat
        }
    }
}

/// The line of one server: its failure and latency counts.
pub open spec fn fail_line(sel: Seq<Seq<Seq<char>>>, server: Seq<char>) -> Seq<char> {
    "| "@ + server + " | "@ + decimal(server_count(sel, server, "FAIL"@)) + " | "@ + decimal(
        server_count(sel, server, "LATENCY"@),
    ) + " |\n"@
}

/// The lines of the servers whose first rows are at `firsts`.
pub open spec fn fail_lines(sel: Seq<Seq<Seq<char>>>, firsts: Seq<usize>) -> Seq<char>
    decreases firsts.len(),
{
    if firsts.len() == 0 {
        Seq::empty()
    } else {
        fail_lines(sel, firsts.drop_last()) + fail_line(sel, sel[firsts.last() as int][2])
    }
}

/// The cumulative failure table of one target: for each server with
/// anomaly rows about it, in order of server, how many of its rows
/// mention `FAIL` and how many `LATENCY`.
pub open spec fn fail_table_text(rows: Seq<Seq<Seq<char>>>, target: Seq<char>) -> Seq<char> {
    let sel = target_rows(usable_rows(rows), target);
    fail_lines(sel, table_of(row_servers(sel)))
}

/// A copy of a row.
fn copy_row(r: &Vec<Vec<char>>) -> (c: Vec<Vec<char>>)
    ensures
        views(c@) == views(r@),
        c@.len() == r@.len(),
{
    let mut c: Vec<Vec<char>> = Vec::new();
    let n = r.len();
    for i in 0..n
        invariant
            n == r@.len(),
            views(c@) == views(r@).take(i as int),
            c@.len() == i,
    {
        let ghost prev = c@;
        c.push(r[i].clone());
        assert(views(c@) =~= views(prev).push(r@[i as int]@));
        assert(views(r@).take(i + 1) =~= views(r@).take(i as int).push(r@[i as int]@));
    }
    assert(views(r@).take(n as int) =~= views(r@));
    c
}

/// The rows of the grid that are about `target`.
fn select_target(g: &Vec<Vec<Vec<char>>>, target: &[char]) -> (r: Vec<Vec<Vec<char>>>)
    requires
        forall|i: int| 0 <= i < g@.len() ==> (#[trigger] g@[i])@.len() >= 4,
    ensures
        grid(r@) == target_rows(grid(g@), target@),
        forall|i: int| 0 <= i < r@.len() ==> (#[trigger] r@[i])@.len() >= 4,
{
    let ghost gv = grid(g@);
    let mut r: Vec<Vec<Vec<char>>> = Vec::new();
    let n = g.len();
    assert(gv.take(0) =~= Seq::<Seq<Seq<char>>>::empty());
    assert(grid(r@) =~= Seq::<Seq<Seq<char>>>::empty());
    for i in 0..n
        invariant
            n == g@.len(),
            gv == grid(g@),
            forall|k: int| 0 <= k < g@.len() ==> (#[trigger] g@[k])@.len() >= 4,
            forall|k: int| 0 <= k < r@.len() ==> (#[trigger] r@[k])@.len() >= 4,
            grid(r@) == target_rows(gv.take(i as int), target@),
    {
        let ghost prev = r@;
        assert(gv.take(i + 1).drop_last() =~= gv.take(i as int));
        assert(gv.take(i + 1).last() == gv[i as int]);
        let row = &g[i];
        assert(gv[i as int] == views(row@));
        assert(views(row@)[3] == row@[3]@);
        if chars_equal(row[3].as_slice(), target) {
            let c = copy_row(row);
            r.push(c);
            assert(grid(r@) =~= grid(prev).push(gv[i as int]));
        }
    }
    assert(gv.take(n as int) =~= gv);
    r
}

/// The servers of the rows.
fn servers_of_grid(g: &Vec<Vec<Vec<char>>>) -> (s: Vec<Vec<char>>)
    requires
        forall|i: int| 0 <= i < g@.len() ==> (#[trigger] g@[i])@.len() >= 4,
    ensures
        views(s@) == row_servers(grid(g@)),
{
    let mut s: Vec<Vec<char>> = Vec::new();
    let n = g.len();
    for i in 0..n
        invariant
            n == g@.len(),
            forall|i: int| 0 <= i < g@.len() ==> (#[trigger] g@[i])@.len() >= 4,
            views(s@) == row_servers(grid(g@)).take(i as int),
    {
        let ghost prev = s@;
        let row = &g[i];
        assert(grid(g@)[i as int] == views(row@));
        assert(views(row@)[2] == row@[2]@);
        s.push(row[2].clone());
        assert(views(s@) =~= views(prev).push(row@[2]@));
        assert(row_servers(grid(g@)).take(i + 1) =~= row_servers(grid(g@)).take(i as int).push(
            row_servers(grid(g@))[i as int],
        ));
    }
    assert(row_servers(grid(g@)).take(n as int) =~= row_servers(grid(g@)));
    s
}

/// How many rows of `server` mention `FAIL` and how many `LATENCY`.
fn server_counts(g: &Vec<Vec<Vec<char>>>, server: &[char]) -> (r: (usize, usize))
    requires
        forall|i: int| 0 <= i < g@.len() ==> (#[trigger] g@[i])@.len() >= 4,
    ensures
        r.0 == server_count(grid(g@), server@, "FAIL"@),
        r.1 == server_count(grid(g@), server@, "LATENCY"@),
{
    let ghost gv = grid(g@);
    let fail = chars_of("FAIL");
    let lat = chars_of("LATENCY");
    let mut f: usize = 0;
    let mut l: usize = 0;
    let n = g.len();
    assert(gv.take(0) =~= Seq::<Seq<Seq<char>>>::empty());
    for i in 0..n
        invariant
            n == g@.len(),
            gv == grid(g@),
            forall|i: int| 0 <= i < g@.len() ==> (#[trigger] g@[i])@.len() >= 4,
            fail@ == "FAIL"@,
            lat@ == "LATENCY"@,
            f <= i,
            l <= i,
            f == server_count(gv.take(i as int), server@, "FAIL"@),
            l == server_count(gv.take(i as int), server@, "LATENCY"@),
    {
        assert(gv.take(i + 1).drop_last() =~= gv.take(i as int));
        assert(gv.take(i + 1).last() == gv[i as int]);
        let row = &g[i];
        assert(gv[i as int] == views(row@));
        let ghost rv = views(row@);
        assert(rv[2] == row@[2]@);
        if chars_equal(row[2].as_slice(), server) {
            let an: Vec<char> = if row.len() > 4 {
                assert(rv[4] == row@[4]@);
                row[4].clone()
            } else {
                Vec::new()
            };
            assert(an@ =~= field4(rv));
            if crate::text::find_chars(an.as_slice(), fail.as_slice()).is_some() {
                f = f + 1;
            }
            if crate::text::find_chars(an.as_slice(), lat.as_slice()).is_some() {
                l = l + 1;
            }
        }
    }
    assert(gv.take(n as int) =~= gv);
    (f, l)
}

/// Appends the line of one server.
fn push_fail_line(out: &mut String, sel: &Vec<Vec<Vec<char>>>, server: &[char])
    requires
        forall|i: int| 0 <= i < sel@.len() ==> (#[trigger] sel@[i])@.len() >= 4,
    ensures
        final(out)@ == old(out)@ + fail_line(grid(sel@), server@),
{
    let (f, l) = server_counts(sel, server);
    let ghost start = out@;
    push_str(out, "| ");
    push_chars(out, server);
    push_str(out, " | ");
    push_decimal(out, f as u64);
    push_str(out, " | ");
    push_decimal(out, l as u64);
    push_str(out, " |\n");
    assert(out@ =~= start + fail_line(grid(sel@), server@));
}

/// Counts, per server, the anomaly rows about `target_name` that mention
/// `FAIL` and those that mention `LATENCY`, and writes one table line per
/// server, servers in order. Rows with fewer than four fields are passed
/// over.
#[verifier::spinoff_prover]
#[verifier::rlimit(30)]
pub fn build_fail_table(anom_rows: &[Vec<String>], target_name: &str) -> (t: String)
    ensures
        t@ == fail_table_text(csv_views(anom_rows@), target_name@),
{
    let g = usable_grid(anom_rows);
    proof {
        lemma_usable_rows(csv_views(anom_rows@));
        assert forall|i: int| 0 <= i < g@.len() implies (#[trigger] g@[i])@.len() >= 4 by {
            assert(grid(g@)[i] == views(g@[i]@));
        }
    }
    let target = chars_of(target_name);
    let sel = select_target(&g, target.as_slice());
    let ghost sv = grid(sel@);
    let servers = servers_of_grid(&sel);
    let idx = first_indices(servers.as_slice());
    let mut out = String::new();
    let n = idx.len();
    assert(idx@.take(0) =~= Seq::<usize>::empty());
    for j in 0..n
        invariant
            n == idx@.len(),
            sv == grid(sel@),
            sv == target_rows(usable_rows(csv_views(anom_rows@)), target_name@),
            views(servers@) == row_servers(sv),
            idx@ == table_of(row_servers(sv)),
            crate::text::first_index_table(views(servers@), idx@),
            forall|i: int| 0 <= i < sel@.len() ==> (#[trigger] sel@[i])@.len() >= 4,
            out@ == fail_lines(sv, idx@.take(j as int)),
    {
        let u = idx[j];
        assert(idx@[j as int] < views(servers@).len());
        let server = &servers[u];
        assert(server@ == sv[u as int][2]);
        push_fail_line(&mut out, &sel, server.as_slice());
        assert(idx@.take(j + 1).drop_last() =~= idx@.take(j as int));
        assert(idx@.take(j + 1).last() == u);
        assert(out@ =~= fail_lines(sv, idx@.take(j + 1)));
    }
    assert(idx@.take(n as int) =~= idx@);
    out
}


/// One line of the server map; the address is never shown.
pub open spec fn server_line(label: Seq<char>, region: Seq<char>, dc: Seq<char>) -> Seq<char> {
    "| "@ + label + " | "@ + region + " | "@ + dc + " | [REDACTED] |\n"@
}

/// The server map: label, region and data center of each vantage point.
pub open spec fn server_table_text() -> Seq<char> {
    server_line("ruvds-x7yuy"@, "Владивосток"@, "RUVDS"@)
        + server_line("EKB"@, "Екатеринбург"@, "отдельный ДЦ"@)
        + server_line("ruvds-8vi23"@, "Екатеринбург"@, "RUVDS"@)
        + server_line("ruvds-klh99"@, "Казань"@, "RUVDS"@)
        + server_line("MOW-vladimir"@, "Москва"@, "отдельный ДЦ"@)
        + server_line("bm-server-1779046186914"@, "Москва"@, "отдельный ДЦ"@)
        + server_line("ruvds-8drd7"@, "Санкт-Петербург"@, "RUVDS"@)
        + server_line("omsk.org"@, "Омск"@, "отдельный ДЦ"@)
        + server_line("PERM-home"@, "Пермь"@, "отдельный ДЦ"@)
        + server_line("SPB"@, "Санкт-Петербург"@, "отдельный ДЦ"@)
        + server_line("VPN-DvaPuka-SPB2"@, "Санкт-Петербург"@, "тот же ДЦ, что SPB (relay)"@)
        + server_line("ruvds-ow0uq"@, "Новосибирск"@, "RUVDS"@)
}

/// Appends one line of the server map.
fn push_server_line(out: &mut String, label: &str, region: &str, dc: &str)
    ensures
        final(out)@ == old(out)@ + server_line(label@, region@, dc@),
{
    let ghost start = out@;
    push_str(out, "| ");
    push_str(out, label);
    push_str(out, " | ");
    push_str(out, region);
    push_str(out, " | ");
    push_str(out, dc);
    push_str(out, " | [REDACTED] |\n");
    assert(out@ =~= start + server_line(label@, region@, dc@));
}

/// The server map (label, region, data center); addresses are redacted.
pub fn server_table() -> (t: String)
    ensures
        t@ == server_table_text(),
{
    let mut out = String::new();
    let ghost e = out@;
    push_server_line(&mut out, "ruvds-x7yuy", "Владивосток", "RUVDS");
    push_server_line(&mut out, "EKB", "Екатеринбург", "отдельный ДЦ");
    push_server_line(&mut out, "ruvds-8vi23", "Екатеринбург", "RUVDS");
    push_server_line(&mut out, "ruvds-klh99", "Казань", "RUVDS");
    push_server_line(&mut out, "MOW-vladimir", "Москва", "отдельный ДЦ");
    push_server_line(&mut out, "bm-server-1779046186914", "Москва", "отдельный ДЦ");
    push_server_line(&mut out, "ruvds-8drd7", "Санкт-Петербург", "RUVDS");
    push_server_line(&mut out, "omsk.org", "Омск", "отдельный ДЦ");
    push_server_line(&mut out, "PERM-home", "Пермь", "отдельный ДЦ");
    push_server_line(&mut out, "SPB", "Санкт-Петербург", "отдельный ДЦ");
    push_server_line(&mut out, "VPN-DvaPuka-SPB2", "Санкт-Петербург", "тот же ДЦ, что SPB (relay)");
    push_server_line(&mut out, "ruvds-ow0uq", "Новосибирск", "RUVDS");
    assert(out@ =~= e + server_table_text());
    assert(e =~= Seq::<char>::empty());
    out
}


/// The `--key value` pairs of a command line, in order: an argument that
/// starts with `--` names a key, and the next argument is its value unless
/// it names a key itself (then the value is empty); other arguments are
/// passed over.
pub open spec fn cli_pairs_from(args: Seq<Seq<char>>, i: int) -> Seq<(Seq<char>, Seq<char>)>
    decreases args.len() - i,
{
    if i < 0 || i >= args.len() {
        Seq::empty()
    } else if crate::text::starts_with(args[i], "--"@) {
        if i + 1 < args.len() && !crate::text::starts_with(args[i + 1], "--"@) {
            seq![(args[i].skip(2), args[i + 1])] + cli_pairs_from(args, i + 2)
        } else {
            seq![(args[i].skip(2), Seq::<char>::empty())] + cli_pairs_from(args, i + 1)
        }
    } else {
        cli_pairs_from(args, i + 1)
    }
}

/// The pairs of strings as character sequences.
pub open spec fn pair_views(v: Seq<(String, String)>) -> Seq<(Seq<char>, Seq<char>)> {
    v.map_values(|p: (String, String)| (p.0@, p.1@))
}

/// Reads the `--key value` pairs of the report generator's command line.
pub fn parse_cli_args(args: &[String]) -> (r: Vec<(String, String)>)
    ensures
        pair_views(r@) == cli_pairs_from(str_views(args@), 0),
{
    let ghost a = str_views(args@);
    let dashes = chars_of("--");
    let mut out: Vec<(String, String)> = Vec::new();
    let n = args.len();
    let mut i: usize = 0;
    assert(pair_views(out@) + cli_pairs_from(a, 0) =~= cli_pairs_from(a, 0));
    while i < n
        invariant
            n == args@.len(),
            a == str_views(args@),
            dashes@ == "--"@,
            i <= n,
            pair_views(out@) + cli_pairs_from(a, i as int) == cli_pairs_from(a, 0),
        decreases n - i,
    {
        let ghost prev = out@;
        let arg = chars_of(args[i].as_str());
        assert(arg@ == a[i as int]);
        if crate::text::has_prefix(arg.as_slice(), dashes.as_slice()) {
            proof {
                reveal_strlit("--");
            }
            let key = slice_chars(arg.as_slice(), 2, arg.len());
            assert(key@ =~= a[i as int].skip(2));
            let mut val = String::new();
            let mut step: usize = 1;
            if i + 1 < n {
                let next = chars_of(args[i + 1].as_str());
                assert(next@ == a[i + 1]);
                if !crate::text::has_prefix(next.as_slice(), dashes.as_slice()) {
                    val = args[i + 1].clone();
                    step = 2;
                }
            }
            out.push((crate::text::string_from_chars(key.as_slice()), val));
            assert(pair_views(out@) =~= pair_views(prev).push((key@, val@)));
            assert(pair_views(out@) + cli_pairs_from(a, i + step) =~= pair_views(prev) + cli_pairs_from(
                a,
                i as int,
            ));
            i = i + step;
        } else {
            i = i + 1;
        }
    }
    assert(cli_pairs_from(a, i as int) =~= Seq::<(Seq<char>, Seq<char>)>::empty());
    out
}

/// The command line that passes `pairs`: `--key`, then the value, for each
/// pair in order.
pub open spec fn cli_args(pairs: Seq<(Seq<char>, Seq<char>)>) -> Seq<Seq<char>> {
    Seq::new(
        (2 * pairs.len()) as nat,
        |j: int| if j % 2 == 0 { "--"@ + pairs[j / 2].0 } else { pairs[j / 2].1 },
    )
}

proof fn lemma_cli_pairs_from(pairs: Seq<(Seq<char>, Seq<char>)>, i: int)
    requires
        0 <= i <= pairs.len(),
        forall|k: int| 0 <= k < pairs.len() ==> !crate::text::starts_with(#[trigger] pairs[k].1, "--"@),
    ensures
        cli_pairs_from(cli_args(pairs), 2 * i) == pairs.skip(i),
    decreases pairs.len() - i,
{
    reveal_strlit("--");
    let args = cli_args(pairs);
    if i == pairs.len() {
        assert(pairs.skip(i) =~= Seq::<(Seq<char>, Seq<char>)>::empty());
    } else {
        lemma_cli_pairs_from(pairs, i + 1);
        let a = args[2 * i];
        assert(a == "--"@ + pairs[i].0);
        assert(a.take(2) =~= "--"@);
        assert(crate::text::starts_with(a, "--"@));
        assert(args[2 * i + 1] == pairs[i].1);
        assert(!crate::text::starts_with(args[2 * i + 1], "--"@));
        assert(a.skip(2) =~= pairs[i].0);
        assert(2 * i + 2 == 2 * (i + 1));
        assert(pairs.skip(i) =~= seq![(pairs[i].0, pairs[i].1)] + pairs.skip(i + 1));
    }
}

/// Law (a command line reads back): a command line that gives each option
/// as `--key value` reads as those pairs, in order, for values that do not
/// themselves start with `--`.
pub proof fn law_cli_pairs_read_back(pairs: Seq<(Seq<char>, Seq<char>)>)
    requires
        forall|k: int| 0 <= k < pairs.len() ==> !crate::text::starts_with(#[trigger] pairs[k].1, "--"@),
    ensures
        cli_pairs_from(cli_args(pairs), 0) == pairs,
{
    lemma_cli_pairs_from(pairs, 0);
    assert(pairs.skip(0) =~= pairs);
}

/// The value of `key`: the last pair that sets it wins.
pub open spec fn arg_lookup(pairs: Seq<(Seq<char>, Seq<char>)>, key: Seq<char>) -> Option<Seq<char>>
    decreases pairs.len(),
{
    if pairs.len() == 0 {
        None
    } else if pairs.last().0 == key {
        Some(pairs.last().1)
    } else {
        arg_lookup(pairs.drop_last(), key)
    }
}

/// The value of `key` on the command line.
pub fn arg_value(pairs: &[(String, String)], key: &str) -> (r: Option<String>)
    ensures
        match r {
            Some(v) => arg_lookup(pair_views(pairs@), key@) == Some(v@),
            None => arg_lookup(pair_views(pairs@), key@) is None,
        },
{
    let ghost pv = pair_views(pairs@);
    let k = chars_of(key);
    let mut i: usize = pairs.len();
    assert(pv.take(i as int) =~= pv);
    while i > 0
        invariant
            i <= pairs@.len(),
            pv == pair_views(pairs@),
            k@ == key@,
            arg_lookup(pv, key@) == arg_lookup(pv.take(i as int), key@),
        decreases i,
    {
        let ghost t = pv.take(i as int);
        assert(t.last() == pv[i - 1]);
        assert(t.drop_last() =~= pv.take(i - 1));
        let pk = chars_of(pairs[i - 1].0.as_str());
        if chars_equal(pk.as_slice(), k.as_slice()) {
            return Some(pairs[i - 1].1.clone());
        }
        i = i - 1;
    }
    None
}

/// A required value: set and not empty.
pub open spec fn required(pairs: Seq<(Seq<char>, Seq<char>)>, key: Seq<char>) -> Option<Seq<char>> {
    match arg_lookup(pairs, key) {
        Some(v) => if v.len() > 0 {
            Some(v)
        } else {
            None
        },
        None => None,
    }
}

/// The value of a required option; `None` when it is missing or empty.
pub fn required_arg(pairs: &[(String, String)], key: &str) -> (r: Option<String>)
    ensures
        match r {
            Some(v) => required(pair_views(pairs@), key@) == Some(v@),
            None => required(pair_views(pairs@), key@) is None,
        },
{
    match arg_value(pairs, key) {
        Some(v) => if v.as_str().unicode_len() > 0 {
            Some(v)
        } else {
            None
        },
        None => None,
    }
}

/// The lines of a text with trailing whitespace removed, empty ones left
/// out.
pub open spec fn kept_lines(ls: Seq<Seq<char>>) -> Seq<Seq<char>>
    decreases ls.len(),
{
    if ls.len() == 0 {
        Seq::empty()
    } else {
        let k = kept_lines(ls.drop_last());
        let t = crate::text::trim_end(ls.last());
        if t.len() > 0 {
            k.push(t)
        } else {
            k
        }
    }
}

/// One trimmed, non-empty line per entry.
pub fn nonempty_lines(text: &str) -> (r: Vec<String>)
    ensures
        str_views(r@) == kept_lines(crate::text::lines(text@)),
{
    let cs = chars_of(text);
    let ls = crate::text::lines_of(cs.as_slice());
    let ghost lv = views(ls@);
    let mut out: Vec<String> = Vec::new();
    let n = ls.len();
    assert(lv.take(0) =~= Seq::<Seq<char>>::empty());
    assert(str_views(out@) =~= Seq::<Seq<char>>::empty());
    for i in 0..n
        invariant
            n == ls@.len(),
            lv == views(ls@),
            str_views(out@) == kept_lines(lv.take(i as int)),
    {
        let ghost prev = out@;
        assert(lv.take(i + 1).drop_last() =~= lv.take(i as int));
        assert(lv.take(i + 1).last() == lv[i as int]);
        assert(ls@[i as int]@ == lv[i as int]);
        let t = crate::text::trim_end_chars(ls[i].as_slice());
        if t.len() > 0 {
            out.push(crate::text::string_from_chars(t.as_slice()));
            assert(str_views(out@) =~= str_views(prev).push(t@));
        }
    }
    assert(lv.take(n as int) =~= lv);
    out
}

/// Each line split at `,` into fields.
pub fn csv_rows(lines: &[String]) -> (r: Vec<Vec<String>>)
    ensures
        csv_views(r@) == str_views(lines@).map_values(|l: Seq<char>| crate::text::split_on(l, ',')),
{
    let ghost want = str_views(lines@).map_values(|l: Seq<char>| crate::text::split_on(l, ','));
    let mut out: Vec<Vec<String>> = Vec::new();
    let n = lines.len();
    for i in 0..n
        invariant
            n == lines@.len(),
            want == str_views(lines@).map_values(|l: Seq<char>| crate::text::split_on(l, ',')),
            csv_views(out@) == want.take(i as int),
    {
        let ghost prev = out@;
        let cs = chars_of(lines[i].as_str());
        let parts = crate::text::split_chars(cs.as_slice(), ',');
        let mut row: Vec<String> = Vec::new();
        let m = parts.len();
        for j in 0..m
            invariant
                m == parts@.len(),
                str_views(row@) == views(parts@).take(j as int),
        {
            let ghost rp = row@;
            row.push(crate::text::string_from_chars(parts[j].as_slice()));
            assert(str_views(row@) =~= str_views(rp).push(parts@[j as int]@));
            assert(views(parts@).take(j + 1) =~= views(parts@).take(j as int).push(parts@[j as int]@));
        }
        assert(views(parts@).take(m as int) =~= views(parts@));
        out.push(row);
        assert(csv_views(out@) =~= csv_views(prev).push(str_views(row@)));
        assert(want.take(i + 1) =~= want.take(i as int).push(want[i as int]));
    }
    assert(want.take(n as int) =~= want);
    out
}

/// The facts as a numbered list, one per line: `1. first`, `2. second`...
pub open spec fn numbered(ls: Seq<Seq<char>>) -> Seq<Seq<char>> {
    Seq::new(ls.len(), |i: int| decimal((i + 1) as nat) + ". "@ + ls[i])
}

/// The open questions as a checklist, one per line: `- [ ] question`.
pub open spec fn checklist(ls: Seq<Seq<char>>) -> Seq<Seq<char>> {
    ls.map_values(|l: Seq<char>| "- [ ] "@ + l)
}

/// The facts, numbered from one, one per line.
pub fn numbered_list(items: &[String]) -> (t: String)
    ensures
        t@ == crate::text::join(numbered(str_views(items@)), "\n"@),
{
    let mut v: Vec<String> = Vec::new();
    let n = items.len();
    for i in 0..n
        invariant
            n == items@.len(),
            n <= usize::MAX,
            str_views(v@) == numbered(str_views(items@)).take(i as int),
    {
        let ghost prev = v@;
        let mut line = String::new();
        push_decimal(&mut line, (i as u64) + 1);
        push_str(&mut line, ". ");
        push_str(&mut line, items[i].as_str());
        assert(line@ =~= numbered(str_views(items@))[i as int]);
        v.push(line);
        assert(str_views(v@) =~= str_views(prev).push(numbered(str_views(items@))[i as int]));
        assert(numbered(str_views(items@)).take(i + 1) =~= numbered(str_views(items@)).take(i as int).push(
            numbered(str_views(items@))[i as int],
        ));
    }
    assert(numbered(str_views(items@)).take(n as int) =~= numbered(str_views(items@)));
    crate::text::join_strings(v.as_slice(), "\n")
}

/// The open questions as a checklist, one per line.
pub fn checklist_text(items: &[String]) -> (t: String)
    ensures
        t@ == crate::text::join(checklist(str_views(items@)), "\n"@),
{
    let mut v: Vec<String> = Vec::new();
    let n = items.len();
    for i in 0..n
        invariant
            n == items@.len(),
            str_views(v@) == checklist(str_views(items@)).take(i as int),
    {
        let ghost prev = v@;
        let mut line = String::from_str("- [ ] ");
        push_str(&mut line, items[i].as_str());
        v.push(line);
        assert(str_views(v@) =~= str_views(prev).push(checklist(str_views(items@))[i as int]));
        assert(checklist(str_views(items@)).take(i + 1) =~= checklist(str_views(items@)).take(i as int).push(
            checklist(str_views(items@))[i as int],
        ));
    }
    assert(checklist(str_views(items@)).take(n as int) =~= checklist(str_views(items@)));
    crate::text::join_strings(v.as_slice(), "\n")
}


/// `s` from position `i` on, with every occurrence of `pat` replaced by
/// `val`, occurrences taken from left to right without overlap
/// (`str::replace`, for a pattern that is not empty).
pub open spec fn replaced_from(s: Seq<char>, pat: Seq<char>, val: Seq<char>, i: nat) -> Seq<char>
    decreases s.len() - i,
{
    if pat.len() == 0 || i > s.len() {
        s.skip(i as int)
    } else {
        match crate::text::find_from(s, pat, i) {
            Some(j) => if i <= j && j + pat.len() <= s.len() {
                s.subrange(i as int, j as int) + val + replaced_from(s, pat, val, j + pat.len())
            } else {
                s.skip(i as int)
            },
            None => s.skip(i as int),
        }
    }
}

/// `s.replace(pat, val)` for a pattern that is not empty.
pub open spec fn replaced(s: Seq<char>, pat: Seq<char>, val: Seq<char>) -> Seq<char> {
    replaced_from(s, pat, val, 0)
}

/// The first position at or after `i` where `pat` occurs.
fn find_from_chars(s: &[char], pat: &[char], i: usize) -> (r: Option<usize>)
    requires
        pat@.len() > 0,
        i <= s@.len(),
    ensures
        match r {
            Some(k) => crate::text::find_from(s@, pat@, i as nat) == Some(k as nat),
            None => crate::text::find_from(s@, pat@, i as nat) is None,
        },
{
    let n = s.len();
    let m = pat.len();
    if m > n {
        return None;
    }
    let mut k: usize = i;
    while k <= n - m
        invariant
            n == s@.len(),
            m == pat@.len(),
            0 < m <= n,
            i <= k,
            k <= n,
            crate::text::find_from(s@, pat@, i as nat) == crate::text::find_from(s@, pat@, k as nat),
        decreases n + 1 - k,
    {
        if crate::text::matches_at(s, pat, k) {
            return Some(k);
        }
        k = k + 1;
    }
    None
}

/// Replaces every occurrence of `pat` (not empty) in `s` by `val`.
pub fn replace_all(s: &[char], pat: &[char], val: &[char]) -> (r: Vec<char>)
    requires
        pat@.len() > 0,
    ensures
        r@ == replaced(s@, pat@, val@),
{
    let n = s.len();
    let m = pat.len();
    let mut out: Vec<char> = Vec::new();
    let mut i: usize = 0;
    assert(out@ + replaced_from(s@, pat@, val@, 0) =~= replaced_from(s@, pat@, val@, 0));
    loop
        invariant
            n == s@.len(),
            m == pat@.len(),
            m > 0,
            i <= n,
            out@ + replaced_from(s@, pat@, val@, i as nat) == replaced(s@, pat@, val@),
        decreases n - i,
    {
        proof {
            crate::text::lemma_find_from(s@, pat@, i as nat);
        }
        match find_from_chars(s, pat, i) {
            Some(j) => {
                let ghost prev = out@;
                let mid = slice_chars(s, i, j);
                let vl = val.len();
                let ghost base = out@;
                for q in 0..mid.len()
                    invariant
                        out@ == base + mid@.take(q as int),
                {
                    out.push(mid[q]);
                    assert(mid@.take(q + 1) =~= mid@.take(q as int).push(mid@[q as int]));
                }
                assert(mid@.take(mid@.len() as int) =~= mid@);
                let ghost base2 = out@;
                for q in 0..vl
                    invariant
                        vl == val@.len(),
                        out@ == base2 + val@.take(q as int),
                {
                    out.push(val[q]);
                    assert(val@.take(q + 1) =~= val@.take(q as int).push(val@[q as int]));
                }
                assert(val@.take(vl as int) =~= val@);
                assert(out@ + replaced_from(s@, pat@, val@, (j + m) as nat) =~= prev + replaced_from(
                    s@,
                    pat@,
                    val@,
                    i as nat,
                ));
                i = j + m;
            },
            None => {
                let rest = slice_chars(s, i, n);
                let ghost base = out@;
                for q in 0..rest.len()
                    invariant
                        out@ == base + rest@.take(q as int),
                {
                    out.push(rest[q]);
                    assert(rest@.take(q + 1) =~= rest@.take(q as int).push(rest@[q as int]));
                }
                assert(rest@.take(rest@.len() as int) =~= rest@);
                assert(rest@ =~= s@.skip(i as int));
                return out;
            },
        }
    }
}

/// The template with each placeholder replaced by its value, one after the
/// other, in the order given.
pub open spec fn filled(template: Seq<char>, reps: Seq<(Seq<char>, Seq<char>)>) -> Seq<char>
    decreases reps.len(),
{
    if reps.len() == 0 {
        template
    } else {
        replaced(filled(template, reps.drop_last()), reps.last().0, reps.last().1)
    }
}

/// Replaces each placeholder by its value, one after the other.
pub fn fill_template(template: &str, reps: &[(String, String)]) -> (r: String)
    requires
        forall|i: int| 0 <= i < reps@.len() ==> (#[trigger] reps@[i]).0@.len() > 0,
    ensures
        r@ == filled(template@, pair_views(reps@)),
{
    let ghost pv = pair_views(reps@);
    let mut cur = chars_of(template);
    let n = reps.len();
    assert(pv.take(0) =~= Seq::<(Seq<char>, Seq<char>)>::empty());
    for i in 0..n
        invariant
            n == reps@.len(),
            pv == pair_views(reps@),
            forall|i: int| 0 <= i < reps@.len() ==> (#[trigger] reps@[i]).0@.len() > 0,
            cur@ == filled(template@, pv.take(i as int)),
    {
        assert(pv.take(i + 1).drop_last() =~= pv.take(i as int));
        assert(pv.take(i + 1).last() == pv[i as int]);
        assert(reps@[i as int].0@.len() > 0);
        let pat = chars_of(reps[i].0.as_str());
        let val = chars_of(reps[i].1.as_str());
        cur = replace_all(cur.as_slice(), pat.as_slice(), val.as_slice());
    }
    assert(pv.take(n as int) =~= pv);
    crate::text::string_from_chars(cur.as_slice())
}


/// The first required option that is missing or empty, in the order in
/// which the report asks for them.
pub open spec fn first_missing(pairs: Seq<(Seq<char>, Seq<char>)>) -> Option<Seq<char>> {
    if required(pairs, "title"@) is None {
        Some("title"@)
    } else if required(pairs, "created"@) is None {
        Some("created"@)
    } else if required(pairs, "heading"@) is None {
        Some("heading"@)
    } else if required(pairs, "empty-reason"@) is None {
        Some("empty-reason"@)
    } else if required(pairs, "geo-notes"@) is None {
        Some("geo-notes"@)
    } else if required(pairs, "current-state"@) is None {
        Some("current-state"@)
    } else if required(pairs, "current-ts"@) is None {
        Some("current-ts"@)
    } else if required(pairs, "raw-blocked"@) is None {
        Some("raw-blocked"@)
    } else if required(pairs, "raw-ok"@) is None {
        Some("raw-ok"@)
    } else if required(pairs, "raw-tail"@) is None {
        Some("raw-tail"@)
    } else {
        None
    }
}

/// The value given for `key`, empty when none is.
pub open spec fn value_of(pairs: Seq<(Seq<char>, Seq<char>)>, key: Seq<char>) -> Seq<char> {
    match arg_lookup(pairs, key) {
        Some(v) => v,
        None => Seq::empty(),
    }
}

/// The CSV rows of the lines.
pub open spec fn csv_of(lines: Seq<Seq<char>>) -> Seq<Seq<Seq<char>>> {
    lines.map_values(|l: Seq<char>| crate::text::split_on(l, ','))
}

/// The placeholders of the template and what replaces them, in the order
/// in which they are replaced.
pub open spec fn report_replacements(
    pairs: Seq<(Seq<char>, Seq<char>)>,
    snapshots: Seq<Seq<char>>,
    anomalies: Seq<Seq<char>>,
    facts: Seq<Seq<char>>,
    questions: Seq<Seq<char>>,
) -> Seq<(Seq<char>, Seq<char>)> {
    seq![
        ("{{TITLE}}"@, value_of(pairs, "title"@)),
        ("{{CREATED}}"@, value_of(pairs, "created"@)),
        ("{{HEADING}}"@, value_of(pairs, "heading"@)),
        ("{{TIMELINE_TABLE}}"@, timeline_text(csv_of(snapshots))),
        ("{{EMPTY_HOURS}}"@, value_of(pairs, "empty-hours"@)),
        ("{{EMPTY_REASON}}"@, value_of(pairs, "empty-reason"@)),
        ("{{SERVER_TABLE}}"@, server_table_text()),
        ("{{APPLE_FAIL_TABLE}}"@, fail_table_text(csv_of(anomalies), "apple"@)),
        ("{{ICLOUD_FAIL_TABLE}}"@, fail_table_text(csv_of(anomalies), "icloud"@)),
        ("{{GEO_NOTES}}"@, value_of(pairs, "geo-notes"@)),
        ("{{FACTS}}"@, crate::text::join(numbered(facts), "\n"@)),
        ("{{OPEN_QUESTIONS}}"@, crate::text::join(checklist(questions), "\n"@)),
        ("{{CURRENT_STATE}}"@, value_of(pairs, "current-state"@)),
        ("{{CURRENT_TS}}"@, value_of(pairs, "current-ts"@)),
        ("{{RAW_BLOCKED_EXAMPLE}}"@, value_of(pairs, "raw-blocked"@)),
        ("{{RAW_OK_EXAMPLE}}"@, value_of(pairs, "raw-ok"@)),
        ("{{RAW_TAIL_EXAMPLE}}"@, value_of(pairs, "raw-tail"@)),
    ]
}

/// Fills the report template from the command line's options and the
/// lines of the snapshot, anomaly, fact and open-question files. Fails
/// with the name of the first required option that is missing or empty.
#[verifier::rlimit(40)]
pub fn render_report(
    pairs: &[(String, String)],
    template: &str,
    snapshots: &[String],
    anomalies: &[String],
    facts: &[String],
    questions: &[String],
) -> (r: Result<String, String>)
    requires
        days_cuttable(csv_of(str_views(snapshots@))),
    ensures
        match r {
            Ok(t) => first_missing(pair_views(pairs@)) is None && t@ == filled(
                template@,
                report_replacements(
                    pair_views(pairs@),
                    str_views(snapshots@),
                    str_views(anomalies@),
                    str_views(facts@),
                    str_views(questions@),
                ),
            ),
            Err(k) => first_missing(pair_views(pairs@)) == Some(k@),
        },
{
    let snap_rows = csv_rows(snapshots);
    let anom_rows = csv_rows(anomalies);
    let timeline = build_timeline(snap_rows.as_slice());
    let empty_hours = match arg_value(pairs, "empty-hours") {
        Some(v) => v,
        None => String::new(),
    };
    let apple_fail = build_fail_table(anom_rows.as_slice(), "apple");
    let icloud_fail = build_fail_table(anom_rows.as_slice(), "icloud");
    let servers = server_table();
    let facts_text = numbered_list(facts);
    let questions_text = checklist_text(questions);
    let title = match required_arg(pairs, "title") {
        Some(v) => v,
        None => return Err(String::from_str("title")),
    };
    let created = match required_arg(pairs, "created") {
        Some(v) => v,
        None => return Err(String::from_str("created")),
    };
    let heading = match required_arg(pairs, "heading") {
        Some(v) => v,
        None => return Err(String::from_str("heading")),
    };
    let empty_reason = match required_arg(pairs, "empty-reason") {
        Some(v) => v,
        None => return Err(String::from_str("empty-reason")),
    };
    let geo_notes = match required_arg(pairs, "geo-notes") {
        Some(v) => v,
        None => return Err(String::from_str("geo-notes")),
    };
    let current_state = match required_arg(pairs, "current-state") {
        Some(v) => v,
        None => return Err(String::from_str("current-state")),
    };
    let current_ts = match required_arg(pairs, "current-ts") {
        Some(v) => v,
        None => return Err(String::from_str("current-ts")),
    };
    let raw_blocked = match required_arg(pairs, "raw-blocked") {
        Some(v) => v,
        None => return Err(String::from_str("raw-blocked")),
    };
    let raw_ok = match required_arg(pairs, "raw-ok") {
        Some(v) => v,
        None => return Err(String::from_str("raw-ok")),
    };
    let raw_tail = match required_arg(pairs, "raw-tail") {
        Some(v) => v,
        None => return Err(String::from_str("raw-tail")),
    };
    let mut reps: Vec<(String, String)> = Vec::new();
    reps.push((String::from_str("{{TITLE}}"), title));
    reps.push((String::from_str("{{CREATED}}"), created));
    reps.push((String::from_str("{{HEADING}}"), heading));
    reps.push((String::from_str("{{TIMELINE_TABLE}}"), timeline));
    reps.push((String::from_str("{{EMPTY_HOURS}}"), empty_hours));
    reps.push((String::from_str("{{EMPTY_REASON}}"), empty_reason));
    reps.push((String::from_str("{{SERVER_TABLE}}"), servers));
    reps.push((String::from_str("{{APPLE_FAIL_TABLE}}"), apple_fail));
    reps.push((String::from_str("{{ICLOUD_FAIL_TABLE}}"), icloud_fail));
    reps.push((String::from_str("{{GEO_NOTES}}"), geo_notes));
    reps.push((String::from_str("{{FACTS}}"), facts_text));
    reps.push((String::from_str("{{OPEN_QUESTIONS}}"), questions_text));
    reps.push((String::from_str("{{CURRENT_STATE}}"), current_state));
    reps.push((String::from_str("{{CURRENT_TS}}"), current_ts));
    reps.push((String::from_str("{{RAW_BLOCKED_EXAMPLE}}"), raw_blocked));
    reps.push((String::from_str("{{RAW_OK_EXAMPLE}}"), raw_ok));
    reps.push((String::from_str("{{RAW_TAIL_EXAMPLE}}"), raw_tail));
    proof {
        reveal_strlit("{{TITLE}}");
        reveal_strlit("{{CREATED}}");
        reveal_strlit("{{HEADING}}");
        reveal_strlit("{{TIMELINE_TABLE}}");
        reveal_strlit("{{EMPTY_HOURS}}");
        reveal_strlit("{{EMPTY_REASON}}");
        reveal_strlit("{{SERVER_TABLE}}");
        reveal_strlit("{{APPLE_FAIL_TABLE}}");
        reveal_strlit("{{ICLOUD_FAIL_TABLE}}");
        reveal_strlit("{{GEO_NOTES}}");
        reveal_strlit("{{FACTS}}");
        reveal_strlit("{{OPEN_QUESTIONS}}");
        reveal_strlit("{{CURRENT_STATE}}");
        reveal_strlit("{{CURRENT_TS}}");
        reveal_strlit("{{RAW_BLOCKED_EXAMPLE}}");
        reveal_strlit("{{RAW_OK_EXAMPLE}}");
        reveal_strlit("{{RAW_TAIL_EXAMPLE}}");
    }
    assert(pair_views(reps@) =~= report_replacements(
        pair_views(pairs@),
        str_views(snapshots@),
        str_views(anomalies@),
        str_views(facts@),
        str_views(questions@),
    ));
    assert forall|i: int| 0 <= i < reps@.len() implies (#[trigger] reps@[i]).0@.len() > 0 by {
        assert(pair_views(reps@)[i].0 == reps@[i].0@);
    }
    Ok(fill_template(template, reps.as_slice()))
}

} // verus!
