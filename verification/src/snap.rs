//! Snap as a package source.
//!
//! nog delegates to the `snap` CLI: it asks what refreshes are pending,
//! dates each pending revision from its tracked channel so the tier hold
//! windows apply, places snapd holds where nog holds a snap (snapd refreshes
//! on its own timer otherwise), and refreshes exactly the cleared snaps.
//! Running the CLI is left to the caller.
use crate::flatpak::{apply_list_spec, shown, shown_version};
use crate::pacman::PendingUpdate;
use crate::table::NameTable;
use crate::text::{
    chars_of, cviews, decimal, decimal_chars, is_ascii_digit, is_digit, lemma_seq_lt_asymmetric,
    lemma_seq_lt_irreflexive, lemma_seq_lt_total, lemma_seq_lt_transitive, lines, lines_of, lt_strings,
    push_all, push_str, same_str, seq_lt, starts_with, starts_with_chars, string_of, trim,
    trim_chars, views, words, words_of,
};
use vstd::prelude::*;

verus! {

/// One pending snap refresh, with the channel it tracks.
#[derive(Debug, Clone, PartialEq)]
pub struct SnapUpdate {
    pub name: String,
    pub new_version: String,
    /// The tracked channel, e.g. `latest/stable`.
    pub channel: String,
}

pub open spec fn snap_view(u: SnapUpdate) -> (Seq<char>, Seq<char>, Seq<char>) {
    (u.name@, u.new_version@, u.channel@)
}

pub open spec fn snap_views(s: Seq<SnapUpdate>) -> Seq<(Seq<char>, Seq<char>, Seq<char>)> {
    s.map_values(|u: SnapUpdate| snap_view(u))
}

/// The channel a snap tracks: from `snap list`, else `latest/stable`.
pub open spec fn channel_for(n: Seq<char>, channels: Map<Seq<char>, String>) -> Seq<char> {
    if channels.contains_key(n) {
        channels[n]@
    } else {
        "latest/stable"@
    }
}

/// One row of the `snap refresh --list` table (Name Version Rev Size
/// Publisher Notes); the header row, the "All snaps up to date" sentence
/// and blank lines are no update.
pub open spec fn refresh_row(l: Seq<char>, channels: Map<Seq<char>, String>) -> Option<
    (Seq<char>, Seq<char>, Seq<char>),
> {
    let t = trim(l);
    let w = words(t);
    if t.len() == 0 || starts_with(t, "All snaps up to date"@) || w.len() == 0 || w[0] == "Name"@ {
        None
    } else {
        Some(
            (
                w[0],
                if w.len() > 1 {
                    w[1]
                } else {
                    Seq::<char>::empty()
                },
                channel_for(w[0], channels),
            ),
        )
    }
}

pub open spec fn refresh_rows(ls: Seq<Seq<char>>, channels: Map<Seq<char>, String>) -> Seq<
    (Seq<char>, Seq<char>, Seq<char>),
>
    decreases ls.len(),
{
    if ls.len() == 0 {
        seq![]
    } else {
        match refresh_row(ls.last(), channels) {
            Some(u) => refresh_rows(ls.drop_last(), channels).push(u),
            None => refresh_rows(ls.drop_last(), channels),
        }
    }
}

/// Parse the `snap refresh --list` table; `channels` gives the tracked
/// channel of each installed snap.
pub fn parse_refresh_list(stdout: &str, channels: &NameTable<String>) -> (r: Vec<SnapUpdate>)
    ensures
        snap_views(r@) == refresh_rows(lines(stdout@), channels@),
        forall|i: int|
            0 <= i < r.len() ==> {
                let u = #[trigger] r@[i];
                &&& channels@.contains_key(u.name@) ==> u.channel@ == channels@[u.name@]@
                &&& !channels@.contains_key(u.name@) ==> u.channel@ == "latest/stable"@
            },
{
    let text = chars_of(stdout);
    let ls = lines_of(&text);
    let ghost lv = cviews(ls@);
    let mut out: Vec<SnapUpdate> = Vec::new();
    let mut i: usize = 0;
    while i < ls.len()
        invariant
            i <= ls.len(),
            lv == cviews(ls@),
            lv == lines(stdout@),
            snap_views(out@) == refresh_rows(lv.take(i as int), channels@),
            forall|j: int|
                0 <= j < out.len() ==> {
                    let u = #[trigger] out@[j];
                    &&& channels@.contains_key(u.name@) ==> u.channel@ == channels@[u.name@]@
                    &&& !channels@.contains_key(u.name@) ==> u.channel@ == "latest/stable"@
                },
        decreases ls.len() - i,
    {
        assert(lv.take(i + 1).drop_last() =~= lv.take(i as int));
        assert(lv.take(i + 1).last() == ls@[i as int]@);
        let t = trim_chars(&ls[i]);
        let w = words_of(&t);
        let skip = t.len() == 0 || crate::text::starts_with_str(&t, "All snaps up to date")
            || w.len() == 0 || same_str(&w[0], "Name");
        if !skip {
            let ghost before = snap_views(out@);
            let name = string_of(&w[0]);
            let new_version = if w.len() > 1 {
                string_of(&w[1])
            } else {
                String::new()
            };
            let channel = match channels.get(name.as_str()) {
                Some(c) => c.clone(),
                None => "latest/stable".to_string(),
            };
            let u = SnapUpdate { name, new_version, channel };
            out.push(u);
            assert(snap_views(out@) =~= before.push(snap_view(u)));
        }
        i += 1;
    }
    assert(lv.take(i as int) =~= lv);
    out
}

/// One row of `snap list` (Name Version Rev Tracking Publisher Notes): the
/// name, version and tracking columns; the header and short rows are none.
pub open spec fn list_row(l: Seq<char>) -> Option<(Seq<char>, Seq<char>, Seq<char>)> {
    let cols = words(trim(l));
    if trim(l).len() == 0 || cols.len() < 4 || cols[0] == "Name"@ {
        None
    } else {
        Some((cols[0], cols[1], cols[3]))
    }
}

pub open spec fn list_rows(ls: Seq<Seq<char>>) -> Seq<(Seq<char>, Seq<char>, Seq<char>)>
    decreases ls.len(),
{
    if ls.len() == 0 {
        seq![]
    } else {
        match list_row(ls.last()) {
            Some(r) => list_rows(ls.drop_last()).push(r),
            None => list_rows(ls.drop_last()),
        }
    }
}

pub open spec fn triple_views(s: Seq<(String, String, String)>) -> Seq<(Seq<char>, Seq<char>, Seq<char>)> {
    s.map_values(|t: (String, String, String)| (t.0@, t.1@, t.2@))
}

/// Parse `snap list` into (name, version, tracking) rows.
pub fn parse_snap_list(stdout: &str) -> (r: Vec<(String, String, String)>)
    ensures
        triple_views(r@) == list_rows(lines(stdout@)),
{
    let text = chars_of(stdout);
    let ls = lines_of(&text);
    let ghost lv = cviews(ls@);
    let mut out: Vec<(String, String, String)> = Vec::new();
    let mut i: usize = 0;
    while i < ls.len()
        invariant
            i <= ls.len(),
            lv == cviews(ls@),
            lv == lines(stdout@),
            triple_views(out@) == list_rows(lv.take(i as int)),
        decreases ls.len() - i,
    {
        assert(lv.take(i + 1).drop_last() =~= lv.take(i as int));
        assert(lv.take(i + 1).last() == ls@[i as int]@);
        let t = trim_chars(&ls[i]);
        let cols = words_of(&t);
        if t.len() > 0 && cols.len() >= 4 && !same_str(&cols[0], "Name") {
            let ghost before = triple_views(out@);
            let row = (string_of(&cols[0]), string_of(&cols[1]), string_of(&cols[3]));
            out.push(row);
            assert(triple_views(out@) =~= before.push((row.0@, row.1@, row.2@)));
        }
        i += 1;
    }
    assert(lv.take(i as int) =~= lv);
    out
}

pub open spec fn column_map(rows: Seq<(Seq<char>, Seq<char>, Seq<char>)>, tracking: bool) -> Map<
    Seq<char>,
    Seq<char>,
>
    decreases rows.len(),
{
    if rows.len() == 0 {
        Map::empty()
    } else {
        column_map(rows.drop_last(), tracking).insert(
            rows.last().0,
            if tracking {
                rows.last().2
            } else {
                rows.last().1
            },
        )
    }
}

fn column_table(rows: &Vec<(String, String, String)>, tracking: bool) -> (t: NameTable<String>)
    ensures
        forall|k: Seq<char>| #[trigger]
            t@.contains_key(k) <==> column_map(triple_views(rows@), tracking).contains_key(k),
        forall|k: Seq<char>| #[trigger]
            t@.contains_key(k) ==> t@[k]@ == column_map(triple_views(rows@), tracking)[k],
{
    let ghost rv = triple_views(rows@);
    let mut t: NameTable<String> = NameTable::new();
    let mut i: usize = 0;
    while i < rows.len()
        invariant
            i <= rows.len(),
            rv == triple_views(rows@),
            forall|k: Seq<char>| #[trigger]
                t@.contains_key(k) <==> column_map(rv.take(i as int), tracking).contains_key(k),
            forall|k: Seq<char>| #[trigger]
                t@.contains_key(k) ==> t@[k]@ == column_map(rv.take(i as int), tracking)[k],
        decreases rows.len() - i,
    {
        assert(rv.take(i + 1).drop_last() =~= rv.take(i as int));
        let v = if tracking {
            rows[i].2.clone()
        } else {
            rows[i].1.clone()
        };
        t.insert(rows[i].0.clone(), v);
        i += 1;
    }
    assert(rv.take(i as int) =~= rv);
    t
}

/// The tracked channel of each installed snap, from `snap list` rows; a
/// later row of the same name wins.
pub fn tracked_channels(rows: &Vec<(String, String, String)>) -> (t: NameTable<String>)
    ensures
        forall|k: Seq<char>| #[trigger]
            t@.contains_key(k) <==> column_map(triple_views(rows@), true).contains_key(k),
        forall|k: Seq<char>| #[trigger]
            t@.contains_key(k) ==> t@[k]@ == column_map(triple_views(rows@), true)[k],
{
    column_table(rows, true)
}

/// The installed version of each snap, from `snap list` rows, for the Old
/// column of the update table.
pub fn installed_versions(rows: &Vec<(String, String, String)>) -> (t: NameTable<String>)
    ensures
        forall|k: Seq<char>| #[trigger]
            t@.contains_key(k) <==> column_map(triple_views(rows@), false).contains_key(k),
        forall|k: Seq<char>| #[trigger]
            t@.contains_key(k) ==> t@[k]@ == column_map(triple_views(rows@), false)[k],
{
    column_table(rows, false)
}

// ---------------------------------------------------------------------------
// Publish dates
// ---------------------------------------------------------------------------

/// `YYYY-MM-DD`: ten characters, dashes at 4 and 7, digits elsewhere.
pub open spec fn is_iso_date_spec(s: Seq<char>) -> bool {
    s.len() == 10 && forall|i: int|
        0 <= i < 10 ==> if i == 4 || i == 7 {
            #[trigger] s[i] == '-'
        } else {
            is_digit(s[i])
        }
}

/// Is the text an ISO `YYYY-MM-DD` date?
pub fn is_iso_date(s: &str) -> (b: bool)
    ensures
        b == is_iso_date_spec(s@),
{
    let v = chars_of(s);
    if v.len() != 10 {
        return false;
    }
    let mut i: usize = 0;
    while i < 10
        invariant
            i <= 10,
            v@ == s@,
            v@.len() == 10,
            forall|j: int|
                0 <= j < i ==> if j == 4 || j == 7 {
                    #[trigger] v@[j] == '-'
                } else {
                    is_digit(v@[j])
                },
        decreases 10 - i,
    {
        let ok = if i == 4 || i == 7 {
            v[i] == '-'
        } else {
            is_ascii_digit(v[i])
        };
        if !ok {
            return false;
        }
        i += 1;
    }
    true
}

pub open spec fn first_date(ws: Seq<Seq<char>>) -> Option<Seq<char>>
    decreases ws.len(),
{
    if ws.len() == 0 {
        None
    } else {
        match first_date(ws.drop_last()) {
            Some(d) => Some(d),
            None => if is_iso_date_spec(ws.last()) {
                Some(ws.last())
            } else {
                None
            },
        }
    }
}

/// The first line of `snap info` output that (trimmed) starts with
/// `<channel>:`, as its rest after that prefix.
pub open spec fn channel_rest(ls: Seq<Seq<char>>, want: Seq<char>) -> Option<Seq<char>>
    decreases ls.len(),
{
    if ls.len() == 0 {
        None
    } else {
        match channel_rest(ls.drop_last(), want) {
            Some(r) => Some(r),
            None => if starts_with(trim(ls.last()), want) {
                Some(trim(trim(ls.last()).skip(want.len() as int)))
            } else {
                None
            },
        }
    }
}

pub open spec fn channel_date_spec(stdout: Seq<char>, channel: Seq<char>) -> Option<Seq<char>> {
    match channel_rest(lines(stdout), channel + ":"@) {
        Some(rest) => first_date(words(rest)),
        None => None,
    }
}

proof fn lemma_rest_prefix(ls: Seq<Seq<char>>, want: Seq<char>, k: int)
    requires
        0 <= k <= ls.len(),
        channel_rest(ls.take(k), want) is Some,
    ensures
        channel_rest(ls, want) == channel_rest(ls.take(k), want),
    decreases ls.len() - k,
{
    if k < ls.len() {
        assert(ls.take(k + 1).drop_last() =~= ls.take(k));
        lemma_rest_prefix(ls, want, k + 1);
    } else {
        assert(ls.take(k) =~= ls);
    }
}

proof fn lemma_date_prefix(ws: Seq<Seq<char>>, k: int)
    requires
        0 <= k <= ws.len(),
        first_date(ws.take(k)) is Some,
    ensures
        first_date(ws) == first_date(ws.take(k)),
    decreases ws.len() - k,
{
    if k < ws.len() {
        assert(ws.take(k + 1).drop_last() =~= ws.take(k));
        lemma_date_prefix(ws, k + 1);
    } else {
        assert(ws.take(k) =~= ws);
    }
}

/// The `YYYY-MM-DD` publish date of `channel` in `snap info` output: the
/// first date on the first line for that channel. A channel line without a
/// date (`↑`, "same as above") is unresolved, never guessed.
pub fn channel_date(stdout: &str, channel: &str) -> (r: Option<String>)
    ensures
        match r {
            Some(d) => channel_date_spec(stdout@, channel@) == Some(d@),
            None => channel_date_spec(stdout@, channel@) is None,
        },
{
    let mut want = chars_of(channel);
    push_str(&mut want, ":");
    let text = chars_of(stdout);
    let ls = lines_of(&text);
    let ghost lv = cviews(ls@);
    let mut i: usize = 0;
    while i < ls.len()
        invariant
            i <= ls.len(),
            lv == cviews(ls@),
            lv == lines(stdout@),
            want@ == channel@ + ":"@,
            channel_rest(lv.take(i as int), want@) is None,
        decreases ls.len() - i,
    {
        assert(lv.take(i + 1).drop_last() =~= lv.take(i as int));
        assert(lv.take(i + 1).last() == ls@[i as int]@);
        let t = trim_chars(&ls[i]);
        if starts_with_chars(&t, &want) {
            let tail = crate::text::slice(&t, want.len(), t.len());
            assert(tail@ =~= t@.skip(want@.len() as int));
            let rest = trim_chars(&tail);
            proof {
                lemma_rest_prefix(lv, want@, i + 1);
            }
            let ws = words_of(&rest);
            let ghost wv = cviews(ws@);
            let mut j: usize = 0;
            while j < ws.len()
                invariant
                    j <= ws.len(),
                    wv == cviews(ws@),
                    channel_date_spec(stdout@, channel@) == first_date(wv),
                    first_date(wv.take(j as int)) is None,
                decreases ws.len() - j,
            {
                assert(wv.take(j + 1).drop_last() =~= wv.take(j as int));
                let tok = string_of(&ws[j]);
                if is_iso_date(tok.as_str()) {
                    proof {
                        lemma_date_prefix(wv, j + 1);
                    }
                    return Some(tok);
                }
                j += 1;
            }
            assert(wv.take(j as int) =~= wv);
            return None;
        }
        i += 1;
    }
    assert(lv.take(i as int) =~= lv);
    None
}

// ---------------------------------------------------------------------------
// What may be refreshed, and what must be held
// ---------------------------------------------------------------------------

/// Which snaps may be refreshed this run: the Ready ones, then the Unknown
/// ones the user did not skip. `snap refresh <names>` touches exactly what
/// it is told, so a held snap, never named, is never refreshed by nog.
pub fn apply_list(snap_names: &[String], ready: &[String], unknown: &[String], ignore: &[String]) -> (r:
    Vec<String>)
    ensures
        views(r@) == apply_list_spec(views(snap_names@), views(ready@), views(unknown@), views(ignore@)),
{
    crate::flatpak::apply_list(snap_names, ready, unknown, ignore)
}

/// snapd refuses a named hold longer than 90 days.
pub const SNAP_HOLD_MAX_HOURS: u64 = 2160;

/// The hold, in hours, for a package held `days` more days: a 0-day window
/// (Tier 1 awaiting manual sign-off) gets the ceiling, anything else
/// `days * 24` clamped to `[1, 2160]`.
pub open spec fn hold_hours(days: u64) -> u64 {
    if days == 0 || days * 24 >= SNAP_HOLD_MAX_HOURS {
        SNAP_HOLD_MAX_HOURS
    } else {
        (days * 24) as u64
    }
}

pub open spec fn held_views(s: Seq<(String, u64)>) -> Seq<(Seq<char>, u64)> {
    s.map_values(|p: (String, u64)| (p.0@, p.1))
}

pub open spec fn group_views(s: Seq<(u64, Vec<String>)>) -> Seq<(u64, Seq<Seq<char>>)> {
    s.map_values(|g: (u64, Vec<String>)| (g.0, views(g.1@)))
}

/// Names in strictly increasing string order: sorted, no repeats.
pub open spec fn strictly_sorted(names: Seq<Seq<char>>) -> bool {
    forall|i: int, j: int| 0 <= i < j < names.len() ==> seq_lt(#[trigger] names[i], #[trigger] names[j])
}

/// Groups in strictly increasing hours, each non-empty and strictly sorted.
pub open spec fn well_grouped(gs: Seq<(u64, Seq<Seq<char>>)>) -> bool {
    &&& forall|i: int, j: int| 0 <= i < j < gs.len() ==> (#[trigger] gs[i]).0 < (#[trigger] gs[j]).0
    &&& forall|i: int| 0 <= i < gs.len() ==> (#[trigger] gs[i]).1.len() > 0 && strictly_sorted(gs[i].1)
}

pub open spec fn in_groups(gs: Seq<(u64, Seq<Seq<char>>)>, h: u64, n: Seq<char>) -> bool {
    exists|j: int| 0 <= j < gs.len() && (#[trigger] gs[j]).0 == h && gs[j].1.contains(n)
}

pub open spec fn in_held(held: Seq<(Seq<char>, u64)>, h: u64, n: Seq<char>) -> bool {
    exists|k: int| 0 <= k < held.len() && (#[trigger] held[k]).0 == n && hold_hours(held[k].1) == h
}

fn hours_for(days: u64) -> (h: u64)
    ensures
        h == hold_hours(days),
{
    if days == 0 || days >= 90 {
        SNAP_HOLD_MAX_HOURS
    } else {
        days * 24
    }
}

/// Insert a name into a strictly sorted list, unless it is there already.
fn insert_sorted(v: &mut Vec<String>, n: String)
    requires
        strictly_sorted(views(old(v)@)),
    ensures
        strictly_sorted(views(final(v)@)),
        forall|x: Seq<char>| views(final(v)@).contains(x) <==> (views(old(v)@).contains(x) || x == n@),
        final(v)@.len() > 0,
{
    let ghost ov = views(v@);
    let mut i: usize = 0;
    while i < v.len() && lt_strings(&v[i], &n)
        invariant
            i <= v.len(),
            ov == views(v@),
            forall|j: int| 0 <= j < i ==> seq_lt(ov[j], n@),
        decreases v.len() - i,
    {
        i += 1;
    }
    if i < v.len() && v[i] == n {
        assert(ov[i as int] == n@);
        assert forall|x: Seq<char>| views(v@).contains(x) <==> (ov.contains(x) || x == n@) by {
            if x == n@ {
                assert(ov[i as int] == x);
            }
        }
        return;
    }
    proof {
        if i < v.len() {
            assert(!seq_lt(ov[i as int], n@));
            assert(ov[i as int] != n@);
            lemma_seq_lt_total(ov[i as int], n@);
        }
    }
    v.insert(i, n);
    let ghost nv = views(v@);
    assert(nv =~= ov.insert(i as int, n@));
    assert forall|a: int, b: int| 0 <= a < b < nv.len() implies seq_lt(#[trigger] nv[a], #[trigger] nv[b]) by {
        if b < i {
            assert(nv[a] == ov[a] && nv[b] == ov[b]);
        } else if b == i {
            assert(nv[a] == ov[a]);
        } else if a == i {
            assert(nv[b] == ov[b - 1]);
            if b - 1 > i {
                lemma_seq_lt_transitive(n@, ov[i as int], ov[b - 1]);
            }
        } else if a < i {
            assert(nv[a] == ov[a] && nv[b] == ov[b - 1]);
            lemma_seq_lt_transitive(ov[a], n@, ov[i as int]);
            if b - 1 > i {
                lemma_seq_lt_transitive(ov[a], ov[i as int], ov[b - 1]);
            }
        } else {
            assert(nv[a] == ov[a - 1] && nv[b] == ov[b - 1]);
        }
    }
    assert forall|x: Seq<char>| nv.contains(x) <==> (ov.contains(x) || x == n@) by {
        if nv.contains(x) {
            let k = choose|k: int| 0 <= k < nv.len() && nv[k] == x;
            if k < i {
                assert(ov[k] == x);
            } else if k > i {
                assert(ov[k - 1] == x);
            }
        }
        if ov.contains(x) {
            let k = choose|k: int| 0 <= k < ov.len() && ov[k] == x;
            if k < i {
                assert(nv[k] == x);
            } else {
                assert(nv[k + 1] == x);
            }
        }
        if x == n@ {
            assert(nv[i as int] == x);
        }
    }
}

/// The `snap refresh --hold` calls for the held snaps, as `(hours, names)`
/// groups: one group per hold length, in increasing hours, each with its
/// names sorted and without repeats. A snap held 0 days (manual sign-off)
/// gets the 90-day ceiling, never a zero-length hold.
pub fn hold_args(held: &[(String, u64)]) -> (r: Vec<(u64, Vec<String>)>)
    ensures
        well_grouped(group_views(r@)),
        forall|h: u64, n: Seq<char>|
            in_groups(group_views(r@), h, n) <==> in_held(held_views(held@), h, n),
{
    let ghost hv = held_views(held@);
    let mut out: Vec<(u64, Vec<String>)> = Vec::new();
    let mut i: usize = 0;
    while i < held.len()
        invariant
            i <= held.len(),
            hv == held_views(held@),
            well_grouped(group_views(out@)),
            forall|h: u64, n: Seq<char>|
                in_groups(group_views(out@), h, n) <==> in_held(hv.take(i as int), h, n),
        decreases held.len() - i,
    {
        let h = hours_for(held[i].1);
        let name = held[i].0.clone();
        let ghost nv = name@;
        let ghost og = group_views(out@);
        let mut p: usize = 0;
        while p < out.len() && out[p].0 < h
            invariant
                p <= out.len(),
                og == group_views(out@),
                forall|j: int| 0 <= j < p ==> og[j].0 < h,
            decreases out.len() - p,
        {
            p += 1;
        }
        if p < out.len() && out[p].0 == h {
            let (hh, mut names) = out.remove(p);
            let ghost old_names = views(names@);
            assert(old_names == og[p as int].1);
            insert_sorted(&mut names, name);
            out.insert(p, (hh, names));
            let ghost ng = group_views(out@);
            assert(ng =~= og.update(p as int, (h, views(names@))));
            assert forall|hx: u64, x: Seq<char>| in_groups(ng, hx, x) <==> (in_groups(og, hx, x) || (hx == h && x == nv)) by {
                if in_groups(ng, hx, x) {
                    let j = choose|j: int| 0 <= j < ng.len() && (#[trigger] ng[j]).0 == hx && ng[j].1.contains(x);
                    if j != p {
                        assert(og[j] == ng[j]);
                    } else if x != nv {
                        assert(old_names.contains(x));
                    }
                }
                if in_groups(og, hx, x) {
                    let j = choose|j: int| 0 <= j < og.len() && (#[trigger] og[j]).0 == hx && og[j].1.contains(x);
                    if j != p {
                        assert(og[j] == ng[j]);
                    } else {
                        assert(views(names@).contains(x));
                        assert(ng[j].1.contains(x));
                    }
                }
                if hx == h && x == nv {
                    assert(ng[p as int].1.contains(x));
                }
            }
        } else {
            let mut names: Vec<String> = Vec::new();
            names.push(name);
            let ghost one = views(names@);
            assert(one =~= seq![nv]);
            out.insert(p, (h, names));
            let ghost ng = group_views(out@);
            assert(ng =~= og.insert(p as int, (h, one)));
            assert forall|a: int, b: int| 0 <= a < b < ng.len() implies (#[trigger] ng[a]).0 < (#[trigger] ng[b]).0 by {
                if b < p {
                    assert(ng[a] == og[a] && ng[b] == og[b]);
                } else if b == p {
                    assert(ng[a] == og[a]);
                } else if a == p {
                    assert(ng[b] == og[b - 1]);
                    assert(og[p as int].0 >= h);
                    assert(og[p as int].0 != h);
                } else if a < p {
                    assert(ng[a] == og[a] && ng[b] == og[b - 1]);
                    assert(og[p as int].0 > h);
                } else {
                    assert(ng[a] == og[a - 1] && ng[b] == og[b - 1]);
                }
            }
            assert forall|k: int| 0 <= k < ng.len() implies (#[trigger] ng[k]).1.len() > 0 && strictly_sorted(ng[k].1) by {
                if k < p {
                    assert(ng[k] == og[k]);
                } else if k > p {
                    assert(ng[k] == og[k - 1]);
                }
            }
            assert forall|hx: u64, x: Seq<char>| in_groups(ng, hx, x) <==> (in_groups(og, hx, x) || (hx == h && x == nv)) by {
                if in_groups(ng, hx, x) {
                    let j = choose|j: int| 0 <= j < ng.len() && (#[trigger] ng[j]).0 == hx && ng[j].1.contains(x);
                    if j < p {
                        assert(og[j] == ng[j]);
                    } else if j > p {
                        assert(og[j - 1] == ng[j]);
                    } else {
                        assert(one.contains(x));
                        assert(x == nv);
                    }
                }
                if in_groups(og, hx, x) {
                    let j = choose|j: int| 0 <= j < og.len() && (#[trigger] og[j]).0 == hx && og[j].1.contains(x);
                    if j < p {
                        assert(og[j] == ng[j]);
                    } else {
                        assert(og[j] == ng[j + 1]);
                    }
                }
                if hx == h && x == nv {
                    assert(ng[p as int].1[0] == x);
                    assert(ng[p as int].1.contains(x));
                }
            }
        }
        proof {
            let pre = hv.take(i as int);
            let post = hv.take(i + 1);
            assert(post =~= pre.push((nv, held@[i as int].1)));
            assert forall|hx: u64, x: Seq<char>| in_held(post, hx, x) <==> (in_held(pre, hx, x) || (hx == h && x == nv)) by {
                if in_held(post, hx, x) {
                    let k = choose|k: int| 0 <= k < post.len() && (#[trigger] post[k]).0 == x && hold_hours(post[k].1) == hx;
                    if k < pre.len() {
                        assert(pre[k] == post[k]);
                    }
                }
                if in_held(pre, hx, x) {
                    let k = choose|k: int| 0 <= k < pre.len() && (#[trigger] pre[k]).0 == x && hold_hours(pre[k].1) == hx;
                    assert(post[k] == pre[k]);
                }
                if hx == h && x == nv {
                    assert(post[i as int].0 == x);
                }
            }
        }
        i += 1;
    }
    assert(hv.take(i as int) =~= hv);
    out
}

pub open spec fn held_snaps(all: Seq<(Seq<char>, u64)>, snaps: Seq<Seq<char>>) -> Seq<(Seq<char>, u64)>
    decreases all.len(),
{
    if all.len() == 0 {
        seq![]
    } else if snaps.contains(all.last().0) {
        held_snaps(all.drop_last(), snaps).push(all.last())
    } else {
        held_snaps(all.drop_last(), snaps)
    }
}

/// Which held packages are snaps, with the days each still has to run.
/// Sources are matched by name: a package that is both an Arch package and
/// a snap is selected, which errs toward holding.
pub fn held_snap_windows(all_held: &[(String, u64)], snap_names: &[String]) -> (r: Vec<(String, u64)>)
    ensures
        held_views(r@) == held_snaps(held_views(all_held@), views(snap_names@)),
{
    let ghost hv = held_views(all_held@);
    let mut out: Vec<(String, u64)> = Vec::new();
    let mut i: usize = 0;
    while i < all_held.len()
        invariant
            i <= all_held.len(),
            hv == held_views(all_held@),
            held_views(out@) == held_snaps(hv.take(i as int), views(snap_names@)),
        decreases all_held.len() - i,
    {
        assert(hv.take(i + 1).drop_last() =~= hv.take(i as int));
        if crate::tiers::contains_string(snap_names, &all_held[i].0) {
            let ghost before = held_views(out@);
            out.push((all_held[i].0.clone(), all_held[i].1));
            assert(held_views(out@) =~= before.push(hv[i as int]));
        }
        i += 1;
    }
    assert(hv.take(i as int) =~= hv);
    out
}

/// `sudo snap refresh --hold=<hours>h <names>`: the arguments after `sudo`.
pub fn hold_command_args(hours: u64, names: &[String]) -> (r: Vec<String>)
    ensures
        views(r@) == seq!["snap"@, "refresh"@, "--hold="@ + decimal(hours as nat) + "h"@] + views(
            names@,
        ),
{
    let mut dur: Vec<char> = Vec::new();
    push_str(&mut dur, "--hold=");
    let d = decimal_chars(hours);
    push_all(&mut dur, &d);
    push_str(&mut dur, "h");
    let mut head: Vec<String> = Vec::new();
    head.push("snap".to_string());
    head.push("refresh".to_string());
    head.push(string_of(&dur));
    let ghost h = views(head@);
    assert(h =~= seq!["snap"@, "refresh"@, dur@]);
    let mut j: usize = 0;
    while j < names.len()
        invariant
            j <= names.len(),
            views(head@) == h + views(names@).take(j as int),
        decreases names.len() - j,
    {
        let ghost before = views(head@);
        let item = names[j].clone();
        head.push(item);
        assert(views(head@) =~= before.push(item@));
        assert(views(names@).take(j + 1) =~= views(names@).take(j as int).push(names@[j as int]@));
        j += 1;
    }
    assert(views(names@).take(j as int) =~= views(names@));
    head
}

/// `sudo snap refresh <names>`: the arguments after `sudo`.
pub fn refresh_args(names: &[String]) -> (r: Vec<String>)
    ensures
        views(r@) == seq!["snap"@, "refresh"@] + views(names@),
{
    let head = ["snap", "refresh"];
    let r = crate::pacman::command_args(&head, names);
    assert(head@.map_values(|s: &str| s@) =~= seq!["snap"@, "refresh"@]);
    r
}

/// A snap update in the shared pending-update shape; empty versions show
/// as `?`.
pub fn to_pending(u: &SnapUpdate, installed: &NameTable<String>) -> (p: PendingUpdate)
    ensures
        p.name@ == u.name@,
        p.old_version@ == shown_version(
            if installed@.contains_key(u.name@) {
                installed@[u.name@]@
            } else {
                Seq::<char>::empty()
            },
        ),
        p.new_version@ == shown_version(u.new_version@),
        u.new_version@.len() > 0 ==> p.new_version@ == u.new_version@,
        u.new_version@.len() == 0 ==> p.new_version@ == "?"@,
        installed@.contains_key(u.name@) && installed@[u.name@]@.len() > 0 ==> p.old_version@
            == installed@[u.name@]@,
        !(installed@.contains_key(u.name@) && installed@[u.name@]@.len() > 0) ==> p.old_version@
            == "?"@,
{
    let old = match installed.get(u.name.as_str()) {
        Some(s) => shown(s.as_str()),
        None => "?".to_string(),
    };
    PendingUpdate { name: u.name.clone(), old_version: old, new_version: shown(u.new_version.as_str()) }
}

// ---------------------------------------------------------------------------
// Laws of the snapd holds
// ---------------------------------------------------------------------------

/// A `snap list` row gives the snap's name, its installed version and its
/// tracking channel: the first, second and fourth columns.
pub proof fn lemma_list_row_columns(l: Seq<char>, cols: Seq<Seq<char>>)
    requires
        words(trim(l)) == cols,
        cols.len() >= 4,
        cols[0] != "Name"@,
    ensures
        list_row(l) == Some((cols[0], cols[1], cols[3])),
{
    if trim(l).len() == 0 {
        assert(words(Seq::<char>::empty()).len() == 0) by {
            assert(crate::text::ws_scan(Seq::<char>::empty()) == (Seq::<Seq<char>>::empty(), Seq::<char>::empty()));
        }
    }
}

/// Each parsed refresh is dated from the channel the snap tracks: the one
/// given for it in `channels`, and `latest/stable` only for a snap that has
/// none there.
pub proof fn lemma_refresh_rows_channel(ls: Seq<Seq<char>>, channels: Map<Seq<char>, String>)
    ensures
        forall|i: int|
            0 <= i < refresh_rows(ls, channels).len() ==> {
                let u = #[trigger] refresh_rows(ls, channels)[i];
                &&& channels.contains_key(u.0) ==> u.2 == channels[u.0]@
                &&& !channels.contains_key(u.0) ==> u.2 == "latest/stable"@
            },
    decreases ls.len(),
{
    if ls.len() > 0 {
        lemma_refresh_rows_channel(ls.drop_last(), channels);
        let prev = refresh_rows(ls.drop_last(), channels);
        let all = refresh_rows(ls, channels);
        assert forall|i: int| 0 <= i < all.len() implies {
            let u = #[trigger] all[i];
            &&& channels.contains_key(u.0) ==> u.2 == channels[u.0]@
            &&& !channels.contains_key(u.0) ==> u.2 == "latest/stable"@
        } by {
            if i < prev.len() {
                assert(all[i] == prev[i]);
            }
        }
    }
}

/// Every hold nog places lasts at least a day's worth of hours and at most
/// snapd's 90-day ceiling; a 0-day window gets the ceiling.
pub proof fn lemma_hold_hours_bounds(days: u64)
    ensures
        24 <= hold_hours(days) <= SNAP_HOLD_MAX_HOURS,
        days == 0 ==> hold_hours(days) == SNAP_HOLD_MAX_HOURS,
{
}

proof fn lemma_sorted_names_unique(x: Seq<Seq<char>>, y: Seq<Seq<char>>)
    requires
        strictly_sorted(x),
        strictly_sorted(y),
        forall|n: Seq<char>| x.contains(n) <==> y.contains(n),
    ensures
        x == y,
    decreases x.len(),
{
    if x.len() == 0 {
        if y.len() > 0 {
            assert(y.contains(y[0]));
        }
        assert(x =~= y);
    } else {
        assert(x.contains(x[0]));
        assert(y.len() > 0);
        assert(y.contains(y[0]));
        let m = choose|m: int| 0 <= m < x.len() && x[m] == y[0];
        let k = choose|k: int| 0 <= k < y.len() && y[k] == x[0];
        if m > 0 && k > 0 {
            assert(seq_lt(x[0], x[m]));
            assert(seq_lt(y[0], y[k]));
            lemma_seq_lt_asymmetric(x[0], y[0]);
        }
        assert(x[0] == y[0]);
        let xs = x.drop_first();
        let ys = y.drop_first();
        assert forall|n: Seq<char>| xs.contains(n) <==> ys.contains(n) by {
            if xs.contains(n) {
                let i = choose|i: int| 0 <= i < xs.len() && xs[i] == n;
                assert(x[i + 1] == n);
                assert(seq_lt(x[0], n));
                lemma_seq_lt_irreflexive(n);
                assert(y.contains(n));
                let j = choose|j: int| 0 <= j < y.len() && y[j] == n;
                assert(j != 0);
                assert(ys[j - 1] == n);
            }
            if ys.contains(n) {
                let i = choose|i: int| 0 <= i < ys.len() && ys[i] == n;
                assert(y[i + 1] == n);
                assert(seq_lt(y[0], n));
                lemma_seq_lt_irreflexive(n);
                assert(x.contains(n));
                let j = choose|j: int| 0 <= j < x.len() && x[j] == n;
                assert(j != 0);
                assert(xs[j - 1] == n);
            }
        }
        lemma_sorted_names_unique(xs, ys);
        assert(x =~= seq![x[0]] + xs);
        assert(y =~= seq![y[0]] + ys);
    }
}

/// The hold groups are determined by which snaps are held for how long: two
/// well-formed group lists with the same members are the same list, so
/// `hold_args` gives the same calls whatever the order of its input.
pub proof fn lemma_hold_groups_unique(a: Seq<(u64, Seq<Seq<char>>)>, b: Seq<(u64, Seq<Seq<char>>)>)
    requires
        well_grouped(a),
        well_grouped(b),
        forall|h: u64, n: Seq<char>| in_groups(a, h, n) <==> in_groups(b, h, n),
    ensures
        a == b,
    decreases a.len(),
{
    if a.len() == 0 {
        if b.len() > 0 {
            assert(b[0].1.len() > 0);
            assert(in_groups(b, b[0].0, b[0].1[0]));
        }
        assert(a =~= b);
    } else {
        assert(a[0].1.len() > 0);
        assert(in_groups(a, a[0].0, a[0].1[0]));
        assert(b.len() > 0);
        assert(b[0].1.len() > 0);
        assert(in_groups(b, b[0].0, b[0].1[0]));
        let ja = choose|j: int| 0 <= j < a.len() && (#[trigger] a[j]).0 == b[0].0 && a[j].1.contains(b[0].1[0]);
        let jb = choose|j: int| 0 <= j < b.len() && (#[trigger] b[j]).0 == a[0].0 && b[j].1.contains(a[0].1[0]);
        if ja > 0 && jb > 0 {
            assert(a[0].0 < a[ja].0);
            assert(b[0].0 < b[jb].0);
        }
        assert(a[0].0 == b[0].0);
        let h0 = a[0].0;
        assert forall|n: Seq<char>| a[0].1.contains(n) <==> b[0].1.contains(n) by {
            if a[0].1.contains(n) {
                assert(in_groups(a, h0, n));
                let j = choose|j: int| 0 <= j < b.len() && (#[trigger] b[j]).0 == h0 && b[j].1.contains(n);
                if j > 0 {
                    assert(b[0].0 < b[j].0);
                }
            }
            if b[0].1.contains(n) {
                assert(in_groups(b, h0, n));
                let j = choose|j: int| 0 <= j < a.len() && (#[trigger] a[j]).0 == h0 && a[j].1.contains(n);
                if j > 0 {
                    assert(a[0].0 < a[j].0);
                }
            }
        }
        lemma_sorted_names_unique(a[0].1, b[0].1);
        let at = a.drop_first();
        let bt = b.drop_first();
        assert forall|i: int, j: int| 0 <= i < j < at.len() implies (#[trigger] at[i]).0 < (#[trigger] at[j]).0 by {
            assert(at[i] == a[i + 1] && at[j] == a[j + 1]);
        }
        assert forall|i: int| 0 <= i < at.len() implies (#[trigger] at[i]).1.len() > 0 && strictly_sorted(at[i].1) by {
            assert(at[i] == a[i + 1]);
        }
        assert forall|i: int, j: int| 0 <= i < j < bt.len() implies (#[trigger] bt[i]).0 < (#[trigger] bt[j]).0 by {
            assert(bt[i] == b[i + 1] && bt[j] == b[j + 1]);
        }
        assert forall|i: int| 0 <= i < bt.len() implies (#[trigger] bt[i]).1.len() > 0 && strictly_sorted(bt[i].1) by {
            assert(bt[i] == b[i + 1]);
        }
        assert forall|h: u64, n: Seq<char>| in_groups(at, h, n) <==> in_groups(bt, h, n) by {
            if in_groups(at, h, n) {
                let j = choose|j: int| 0 <= j < at.len() && (#[trigger] at[j]).0 == h && at[j].1.contains(n);
                assert(a[j + 1] == at[j]);
                assert(h0 < h);
                assert(in_groups(a, h, n));
                let k = choose|k: int| 0 <= k < b.len() && (#[trigger] b[k]).0 == h && b[k].1.contains(n);
                assert(k != 0);
                assert(bt[k - 1] == b[k]);
            }
            if in_groups(bt, h, n) {
                let j = choose|j: int| 0 <= j < bt.len() && (#[trigger] bt[j]).0 == h && bt[j].1.contains(n);
                assert(b[j + 1] == bt[j]);
                assert(h0 < h);
                assert(in_groups(b, h, n));
                let k = choose|k: int| 0 <= k < a.len() && (#[trigger] a[k]).0 == h && a[k].1.contains(n);
                assert(k != 0);
                assert(at[k - 1] == a[k]);
            }
        }
        lemma_hold_groups_unique(at, bt);
        assert(a =~= seq![a[0]] + at);
        assert(b =~= seq![b[0]] + bt);
    }
}

/// `hold_args` does not depend on the order of its input: for two inputs
/// holding the same `(snap, days)` pairs, as many times each, any results
/// its contract admits are the same groups.
pub proof fn lemma_hold_args_order_free(
    held1: Seq<(Seq<char>, u64)>,
    held2: Seq<(Seq<char>, u64)>,
    a: Seq<(u64, Seq<Seq<char>>)>,
    b: Seq<(u64, Seq<Seq<char>>)>,
)
    requires
        held1.to_multiset() == held2.to_multiset(),
        well_grouped(a),
        well_grouped(b),
        forall|h: u64, n: Seq<char>| in_groups(a, h, n) <==> in_held(held1, h, n),
        forall|h: u64, n: Seq<char>| in_groups(b, h, n) <==> in_held(held2, h, n),
    ensures
        a == b,
{
    broadcast use vstd::seq_lib::group_to_multiset_ensures;

    assert forall|h: u64, n: Seq<char>| in_held(held1, h, n) <==> in_held(held2, h, n) by {
        if in_held(held1, h, n) {
            let k = choose|k: int| 0 <= k < held1.len() && (#[trigger] held1[k]).0 == n && hold_hours(held1[k].1) == h;
            assert(held1.contains(held1[k]));
            held1.to_multiset_ensures();
            held2.to_multiset_ensures();
            assert(held1.to_multiset().count(held1[k]) > 0);
            assert(held2.to_multiset().count(held1[k]) > 0);
            assert(held2.contains(held1[k]));
            let j = choose|j: int| 0 <= j < held2.len() && held2[j] == held1[k];
            assert(held2[j].0 == n && hold_hours(held2[j].1) == h);
        }
        if in_held(held2, h, n) {
            let k = choose|k: int| 0 <= k < held2.len() && (#[trigger] held2[k]).0 == n && hold_hours(held2[k].1) == h;
            assert(held2.contains(held2[k]));
            held1.to_multiset_ensures();
            held2.to_multiset_ensures();
            assert(held2.to_multiset().count(held2[k]) > 0);
            assert(held1.to_multiset().count(held2[k]) > 0);
            assert(held1.contains(held2[k]));
            let j = choose|j: int| 0 <= j < held1.len() && held1[j] == held2[k];
            assert(held1[j].0 == n && hold_hours(held1[j].1) == h);
        }
    }
    lemma_hold_groups_unique(a, b);
}

} // verus!
