//! What nog shows: the update tables, their notes, the run-log rows, the
//! tier tags of `nog search`, and the messages of `install`, `unlock`,
//! `activate` and `deactivate`.
use crate::config::HoldsConfig;
use crate::pacman::PendingUpdate;
use crate::plan::{
    held_view, held_views, held_why, ready_view, ready_views, unknown_view, unknown_views,
    HeldEntry, HeldReason, HeldView, HeldWhy, ReadyEntry, ReadyReason, ReadyView, UnknownEntry,
    UnknownView,
};
use crate::runlog::RunRow;
use crate::sources::Source;
use crate::text::{
    chars_of, decimal, decimal_chars, digit_char, starts_with, lines, lines_of, push_all, push_str, same_str, split,
    split_char, string_of, cviews, views, words, words_of,
};
use crate::tiers::{classify_spec, Tier, TierManager};
use vstd::prelude::*;
use vstd::utf8::encode_utf8;

verus! {

pub const C_RED: &'static str = "\x1b[38;2;243;139;168m";

pub const C_YELLOW: &'static str = "\x1b[38;2;249;226;175m";

pub const C_GREEN: &'static str = "\x1b[38;2;166;227;161m";

pub const C_RESET: &'static str = "\x1b[0m";

// ---------------------------------------------------------------------------
// Notes
// ---------------------------------------------------------------------------

pub open spec fn ready_note_spec(r: ReadyReason) -> Seq<char> {
    match r {
        ReadyReason::Expired { days_past_window } => if days_past_window == 0 {
            "hold just expired"@
        } else if days_past_window == 1 {
            "1 day past window"@
        } else {
            decimal(days_past_window as nat) + " days past window"@
        },
        ReadyReason::Realigned => "realigned to match installed headers"@,
    }
}

/// The Note of a Ready row.
pub fn ready_note(reason: &ReadyReason) -> (r: String)
    ensures
        r@ == ready_note_spec(*reason),
{
    match reason {
        ReadyReason::Expired { days_past_window } => {
            if *days_past_window == 0 {
                "hold just expired".to_string()
            } else if *days_past_window == 1 {
                "1 day past window".to_string()
            } else {
                let mut out = decimal_chars(*days_past_window);
                push_str(&mut out, " days past window");
                string_of(&out)
            }
        },
        ReadyReason::Realigned => "realigned to match installed headers".to_string(),
    }
}

pub open spec fn held_note_spec(remaining: u64, r: HeldWhy) -> Seq<char> {
    match r {
        HeldWhy::ManualSignoff => "manual sign-off required — run `nog unlock` to release"@,
        HeldWhy::CoupledTo(p) => if remaining == 1 {
            "coupled to "@ + p + " · 1 day"@
        } else {
            "coupled to "@ + p + " · "@ + decimal(remaining as nat) + " days"@
        },
        HeldWhy::Window => if remaining == 1 {
            "1 day remaining"@
        } else {
            decimal(remaining as nat) + " days remaining"@
        },
    }
}

/// The Note of a Held row.
pub fn held_note(remaining: u64, reason: &HeldReason) -> (r: String)
    ensures
        r@ == held_note_spec(remaining, held_why(*reason)),
{
    match reason {
        HeldReason::ManualSignoff => "manual sign-off required — run `nog unlock` to release".to_string(),
        HeldReason::CoupledTo(partner) => {
            let mut out: Vec<char> = Vec::new();
            push_str(&mut out, "coupled to ");
            push_str(&mut out, partner.as_str());
            if remaining == 1 {
                push_str(&mut out, " · 1 day");
            } else {
                push_str(&mut out, " · ");
                let d = decimal_chars(remaining);
                push_all(&mut out, &d);
                push_str(&mut out, " days");
            }
            string_of(&out)
        },
        HeldReason::Window => {
            if remaining == 1 {
                "1 day remaining".to_string()
            } else {
                let mut out = decimal_chars(remaining);
                push_str(&mut out, " days remaining");
                string_of(&out)
            }
        },
    }
}

/// The Note of an Unknown row.
pub open spec fn unknown_note() -> Seq<char> {
    "no build date in sync DB"@
}

/// A note with the row's source appended, for flatpak and snap rows: every
/// row says where the package comes from.
pub open spec fn tagged_spec(name: Seq<char>, note: Seq<char>, flatpaks: Seq<Seq<char>>, snaps: Seq<Seq<char>>) -> Seq<char> {
    let src = if flatpaks.contains(name) {
        Some("flatpak"@)
    } else if snaps.contains(name) {
        Some("snap"@)
    } else {
        None::<Seq<char>>
    };
    match src {
        None => note,
        Some(s) => if note.len() == 0 {
            s
        } else {
            note + " · "@ + s
        },
    }
}

/// Append the source of a flatpak or snap row to its note.
pub fn tagged(name: &String, note: String, flatpak_names: &[String], snap_names: &[String]) -> (r: String)
    ensures
        r@ == tagged_spec(name@, note@, views(flatpak_names@), views(snap_names@)),
{
    let src = if crate::tiers::contains_string(flatpak_names, name) {
        Some("flatpak")
    } else if crate::tiers::contains_string(snap_names, name) {
        Some("snap")
    } else {
        None
    };
    match src {
        None => note,
        Some(s) => {
            let n = chars_of(note.as_str());
            if n.len() == 0 {
                s.to_string()
            } else {
                let mut out = n;
                push_str(&mut out, " · ");
                push_str(&mut out, s);
                string_of(&out)
            }
        },
    }
}

// ---------------------------------------------------------------------------
// Tables
// ---------------------------------------------------------------------------

/// One row of an update table.
#[derive(Debug, Clone)]
pub struct TableRow {
    pub pkg: String,
    pub old: String,
    pub new: String,
    pub tier: u8,
    pub note: String,
}

pub open spec fn tier_num(t: Tier) -> u8 {
    match t {
        Tier::One => 1,
        Tier::Two => 2,
        Tier::Three => 3,
    }
}

pub type RowView = (Seq<char>, Seq<char>, Seq<char>, u8, Seq<char>);

pub open spec fn row_view(r: TableRow) -> RowView {
    (r.pkg@, r.old@, r.new@, r.tier, r.note@)
}

pub open spec fn row_views(s: Seq<TableRow>) -> Seq<RowView> {
    s.map_values(|r: TableRow| row_view(r))
}

impl TableRow {
    /// A row for an update of the given tier.
    pub fn from_update(upd: &PendingUpdate, tier: &Tier, note: String) -> (r: TableRow)
        ensures
            row_view(r) == (upd.name@, upd.old_version@, upd.new_version@, tier_num(*tier), note@),
    {
        let t: u8 = match tier {
            Tier::One => 1,
            Tier::Two => 2,
            Tier::Three => 3,
        };
        TableRow {
            pkg: upd.name.clone(),
            old: upd.old_version.clone(),
            new: upd.new_version.clone(),
            tier: t,
            note,
        }
    }
}

/// The width `str::len` reports: bytes of UTF-8.
pub open spec fn width(s: Seq<char>) -> int {
    (encode_utf8(s).len() as usize) as int
}

pub open spec fn spaces(n: int) -> Seq<char> {
    Seq::new(if n > 0 { n as nat } else { 0 }, |i: int| ' ')
}

/// `{:<w$}`: padded with spaces to `w` characters.
pub open spec fn pad(s: Seq<char>, w: int) -> Seq<char> {
    s + spaces(w - s.len())
}

pub open spec fn max_width(rows: Seq<RowView>, col: int, start: int) -> int
    decreases rows.len(),
{
    if rows.len() == 0 {
        start
    } else {
        let m = max_width(rows.drop_last(), col, start);
        let r = rows.last();
        let w = width(if col == 0 {
            r.0
        } else if col == 1 {
            r.1
        } else {
            r.2
        });
        if w > m {
            w
        } else {
            m
        }
    }
}

pub open spec fn tier_color(n: u8) -> Seq<char> {
    if n == 1 {
        C_RED@
    } else if n == 2 {
        C_YELLOW@
    } else {
        C_GREEN@
    }
}

pub open spec fn gap() -> Seq<char> {
    "  "@
}

pub open spec fn row_line(r: RowView, wp: int, wo: int, wn: int, colorize: bool) -> Seq<char> {
    let cell = if colorize {
        tier_color(r.3) + decimal(r.3 as nat) + C_RESET@ + spaces(3)
    } else {
        pad(decimal(r.3 as nat), 4)
    };
    pad(r.0, wp) + gap() + pad(r.1, wo) + gap() + pad(r.2, wn) + gap() + cell + gap() + r.4 + "\n"@
}

pub open spec fn rows_text(rows: Seq<RowView>, wp: int, wo: int, wn: int, colorize: bool) -> Seq<char>
    decreases rows.len(),
{
    if rows.len() == 0 {
        seq![]
    } else {
        rows_text(rows.drop_last(), wp, wo, wn, colorize) + row_line(rows.last(), wp, wo, wn, colorize)
    }
}

/// A rendered update table: the title and its underline; `(none)` for an
/// empty section; otherwise a header row and one row per update, every
/// column padded to its widest entry (byte widths, as `str::len` gives
/// them), the tier digit colored when asked, with the padding outside the
/// color codes.
pub open spec fn format_table_spec(title: Seq<char>, rows: Seq<RowView>, colorize: bool) -> Seq<char> {
    let title_line = title + ":"@;
    let head = title_line + "\n"@ + Seq::new(width(title_line) as nat, |i: int| '-') + "\n"@ + "\n"@;
    if rows.len() == 0 {
        head + "(none)\n"@
    } else {
        let pkg_hdr = "Package ("@ + decimal(rows.len()) + ")"@;
        let wp = max_width(rows, 0, width(pkg_hdr));
        let wo = max_width(rows, 1, width("Old Version"@));
        let wn = max_width(rows, 2, width("New Version"@));
        head + pad(pkg_hdr, wp) + gap() + pad("Old Version"@, wo) + gap() + pad("New Version"@, wn)
            + gap() + pad("Tier"@, 4) + gap() + "Note"@ + "\n"@ + "\n"@ + rows_text(
            rows,
            wp,
            wo,
            wn,
            colorize,
        )
    }
}

fn push_padded(out: &mut Vec<char>, s: &str, w: usize)
    ensures
        final(out)@ == old(out)@ + pad(s@, w as int),
{
    let c = chars_of(s);
    push_all(out, &c);
    let mut k = c.len();
    while k < w
        invariant
            c@ == s@,
            c.len() <= k <= w || (k == c.len() && k >= w),
            out@ == old(out)@ + s@ + spaces(k - c.len()),
        decreases w - k,
    {
        let ghost before = out@;
        out.push(' ');
        assert(spaces(k + 1 - c.len()) =~= spaces(k - c.len()).push(' '));
        assert(out@ =~= old(out)@ + s@ + spaces(k + 1 - c.len()));
        k += 1;
    }
    assert(spaces(k - c.len()) =~= spaces(w - s@.len()));
}

fn push_spaces(out: &mut Vec<char>, n: usize)
    ensures
        final(out)@ == old(out)@ + spaces(n as int),
{
    let mut k: usize = 0;
    while k < n
        invariant
            k <= n,
            out@ == old(out)@ + spaces(k as int),
        decreases n - k,
    {
        out.push(' ');
        assert(spaces(k + 1) =~= spaces(k as int).push(' '));
        k += 1;
    }
}

fn tier_color_str(n: u8) -> (r: &'static str)
    ensures
        r@ == tier_color(n),
{
    if n == 1 {
        C_RED
    } else if n == 2 {
        C_YELLOW
    } else {
        C_GREEN
    }
}

fn column_width(rows: &[TableRow], col: u8, start: usize) -> (w: usize)
    requires
        col <= 2,
    ensures
        w as int == max_width(row_views(rows@), col as int, start as int),
{
    let ghost rv = row_views(rows@);
    let mut m = start;
    let mut i: usize = 0;
    while i < rows.len()
        invariant
            i <= rows.len(),
            col <= 2,
            rv == row_views(rows@),
            m as int == max_width(rv.take(i as int), col as int, start as int),
        decreases rows.len() - i,
    {
        assert(rv.take(i + 1).drop_last() =~= rv.take(i as int));
        assert(rv.take(i + 1).last() == row_view(rows@[i as int]));
        let w = if col == 0 {
            rows[i].pkg.as_str().len()
        } else if col == 1 {
            rows[i].old.as_str().len()
        } else {
            rows[i].new.as_str().len()
        };
        if w > m {
            m = w;
        }
        i += 1;
    }
    assert(rv.take(i as int) =~= rv);
    m
}

fn push_row(out: &mut Vec<char>, r: &TableRow, wp: usize, wo: usize, wn: usize, colorize: bool)
    ensures
        final(out)@ == old(out)@ + row_line(row_view(*r), wp as int, wo as int, wn as int, colorize),
{
    let ghost o0 = out@;
    push_padded(out, r.pkg.as_str(), wp);
    push_str(out, "  ");
    push_padded(out, r.old.as_str(), wo);
    push_str(out, "  ");
    push_padded(out, r.new.as_str(), wn);
    push_str(out, "  ");
    let ghost o1 = out@;
    let digit = decimal_chars(r.tier as u64);
    if colorize {
        push_str(out, tier_color_str(r.tier));
        push_all(out, &digit);
        push_str(out, C_RESET);
        push_spaces(out, 3);
    } else {
        let ds = string_of(&digit);
        push_padded(out, ds.as_str(), 4);
    }
    let ghost o2 = out@;
    push_str(out, "  ");
    push_str(out, r.note.as_str());
    push_str(out, "\n");
    assert(out@ =~= o0 + row_line(row_view(*r), wp as int, wo as int, wn as int, colorize));
}

/// Render one update section as an aligned table.
pub fn format_table(title: &str, rows: &[TableRow], colorize: bool) -> (r: String)
    ensures
        r@ == format_table_spec(title@, row_views(rows@), colorize),
{
    let mut tl = chars_of(title);
    push_str(&mut tl, ":");
    let title_line = string_of(&tl);
    let mut out: Vec<char> = Vec::new();
    push_all(&mut out, &tl);
    push_str(&mut out, "\n");
    let n = title_line.as_str().len();
    let mut k: usize = 0;
    let ghost base = out@;
    while k < n
        invariant
            k <= n,
            out@ == base + Seq::new(k as nat, |i: int| '-'),
        decreases n - k,
    {
        out.push('-');
        assert(out@ =~= base + Seq::new((k + 1) as nat, |i: int| '-'));
        k += 1;
    }
    push_str(&mut out, "\n");
    push_str(&mut out, "\n");
    if rows.len() == 0 {
        push_str(&mut out, "(none)\n");
        return string_of(&out);
    }
    let mut hdr: Vec<char> = Vec::new();
    push_str(&mut hdr, "Package (");
    let count = decimal_chars(rows.len() as u64);
    push_all(&mut hdr, &count);
    push_str(&mut hdr, ")");
    let pkg_hdr = string_of(&hdr);
    let wp = column_width(rows, 0, pkg_hdr.as_str().len());
    let wo = column_width(rows, 1, "Old Version".len());
    let wn = column_width(rows, 2, "New Version".len());
    push_padded(&mut out, pkg_hdr.as_str(), wp);
    push_str(&mut out, "  ");
    push_padded(&mut out, "Old Version", wo);
    push_str(&mut out, "  ");
    push_padded(&mut out, "New Version", wn);
    push_str(&mut out, "  ");
    push_padded(&mut out, "Tier", 4);
    push_str(&mut out, "  ");
    push_str(&mut out, "Note");
    push_str(&mut out, "\n");
    push_str(&mut out, "\n");
    let ghost rv = row_views(rows@);
    let ghost before_rows = out@;
    let mut i: usize = 0;
    while i < rows.len()
        invariant
            i <= rows.len(),
            rv == row_views(rows@),
            out@ == before_rows + rows_text(rv.take(i as int), wp as int, wo as int, wn as int, colorize),
        decreases rows.len() - i,
    {
        assert(rv.take(i + 1).drop_last() =~= rv.take(i as int));
        assert(rv.take(i + 1).last() == row_view(rows@[i as int]));
        push_row(&mut out, &rows[i], wp, wo, wn, colorize);
        i += 1;
    }
    assert(rv.take(i as int) =~= rv);
    string_of(&out)
}

// ---------------------------------------------------------------------------
// The rows of the three buckets
// ---------------------------------------------------------------------------

pub open spec fn ready_rows_spec(s: Seq<ReadyView>, fl: Seq<Seq<char>>, sn: Seq<Seq<char>>) -> Seq<RowView>
    decreases s.len(),
{
    if s.len() == 0 {
        seq![]
    } else {
        let e = s.last();
        ready_rows_spec(s.drop_last(), fl, sn).push(
            (e.0.0, e.0.1, e.0.2, tier_num(e.1), tagged_spec(e.0.0, ready_note_spec(e.2), fl, sn)),
        )
    }
}

pub open spec fn held_rows_spec(s: Seq<HeldView>, fl: Seq<Seq<char>>, sn: Seq<Seq<char>>) -> Seq<RowView>
    decreases s.len(),
{
    if s.len() == 0 {
        seq![]
    } else {
        let e = s.last();
        held_rows_spec(s.drop_last(), fl, sn).push(
            (e.0.0, e.0.1, e.0.2, tier_num(e.1), tagged_spec(e.0.0, held_note_spec(e.2, e.3), fl, sn)),
        )
    }
}

pub open spec fn unknown_rows_spec(s: Seq<UnknownView>, fl: Seq<Seq<char>>, sn: Seq<Seq<char>>) -> Seq<RowView>
    decreases s.len(),
{
    if s.len() == 0 {
        seq![]
    } else {
        let e = s.last();
        unknown_rows_spec(s.drop_last(), fl, sn).push(
            (e.0.0, e.0.1, e.0.2, tier_num(e.1), tagged_spec(e.0.0, unknown_note(), fl, sn)),
        )
    }
}

/// The Ready table rows, notes tagged with their source.
pub fn ready_rows(ready: &Vec<ReadyEntry>, flatpak_names: &[String], snap_names: &[String]) -> (r: Vec<TableRow>)
    ensures
        row_views(r@) == ready_rows_spec(ready_views(ready@), views(flatpak_names@), views(snap_names@)),
        r.len() == ready.len(),
        forall|i: int|
            0 <= i < r.len() ==> {
                let row = #[trigger] r@[i];
                &&& row.pkg@ == ready@[i].update.name@
                &&& row.old@ == ready@[i].update.old_version@
                &&& row.new@ == ready@[i].update.new_version@
                &&& row.tier == tier_num(ready@[i].tier)
            },
{
    let ghost rv = ready_views(ready@);
    let mut out: Vec<TableRow> = Vec::new();
    let mut i: usize = 0;
    while i < ready.len()
        invariant
            i <= ready.len(),
            rv == ready_views(ready@),
            row_views(out@) == ready_rows_spec(rv.take(i as int), views(flatpak_names@), views(snap_names@)),
            out.len() == i,
            forall|j: int|
                0 <= j < out.len() ==> {
                    let row = #[trigger] out@[j];
                    &&& row.pkg@ == ready@[j].update.name@
                    &&& row.old@ == ready@[j].update.old_version@
                    &&& row.new@ == ready@[j].update.new_version@
                    &&& row.tier == tier_num(ready@[j].tier)
                },
        decreases ready.len() - i,
    {
        assert(rv.take(i + 1).drop_last() =~= rv.take(i as int));
        assert(rv.take(i + 1).last() == ready_view(ready@[i as int]));
        let e = &ready[i];
        let note = tagged(&e.update.name, ready_note(&e.reason), flatpak_names, snap_names);
        let row = TableRow::from_update(&e.update, &e.tier, note);
        let ghost before = row_views(out@);
        out.push(row);
        assert(row_views(out@) =~= before.push(row_view(row)));
        i += 1;
    }
    assert(rv.take(i as int) =~= rv);
    out
}

/// The Held table rows, notes tagged with their source.
pub fn held_rows(held: &Vec<HeldEntry>, flatpak_names: &[String], snap_names: &[String]) -> (r: Vec<TableRow>)
    ensures
        row_views(r@) == held_rows_spec(held_views(held@), views(flatpak_names@), views(snap_names@)),
        r.len() == held.len(),
        forall|i: int|
            0 <= i < r.len() ==> {
                let row = #[trigger] r@[i];
                &&& row.pkg@ == held@[i].update.name@
                &&& row.old@ == held@[i].update.old_version@
                &&& row.new@ == held@[i].update.new_version@
                &&& row.tier == tier_num(held@[i].tier)
            },
{
    let ghost hv = held_views(held@);
    let mut out: Vec<TableRow> = Vec::new();
    let mut i: usize = 0;
    while i < held.len()
        invariant
            i <= held.len(),
            hv == held_views(held@),
            row_views(out@) == held_rows_spec(hv.take(i as int), views(flatpak_names@), views(snap_names@)),
            out.len() == i,
            forall|j: int|
                0 <= j < out.len() ==> {
                    let row = #[trigger] out@[j];
                    &&& row.pkg@ == held@[j].update.name@
                    &&& row.old@ == held@[j].update.old_version@
                    &&& row.new@ == held@[j].update.new_version@
                    &&& row.tier == tier_num(held@[j].tier)
                },
        decreases held.len() - i,
    {
        assert(hv.take(i + 1).drop_last() =~= hv.take(i as int));
        assert(hv.take(i + 1).last() == held_view(held@[i as int]));
        let e = &held[i];
        let note = tagged(&e.update.name, held_note(e.remaining, &e.reason), flatpak_names, snap_names);
        let row = TableRow::from_update(&e.update, &e.tier, note);
        let ghost before = row_views(out@);
        out.push(row);
        assert(row_views(out@) =~= before.push(row_view(row)));
        i += 1;
    }
    assert(hv.take(i as int) =~= hv);
    out
}

/// The Unknown table rows, notes tagged with their source.
pub fn unknown_rows(unknown: &Vec<UnknownEntry>, flatpak_names: &[String], snap_names: &[String]) -> (r:
    Vec<TableRow>)
    ensures
        row_views(r@) == unknown_rows_spec(unknown_views(unknown@), views(flatpak_names@), views(snap_names@)),
        r.len() == unknown.len(),
        forall|i: int|
            0 <= i < r.len() ==> {
                let row = #[trigger] r@[i];
                &&& row.pkg@ == unknown@[i].update.name@
                &&& row.old@ == unknown@[i].update.old_version@
                &&& row.new@ == unknown@[i].update.new_version@
                &&& row.tier == tier_num(unknown@[i].tier)
            },
{
    let ghost uv = unknown_views(unknown@);
    let mut out: Vec<TableRow> = Vec::new();
    let mut i: usize = 0;
    while i < unknown.len()
        invariant
            i <= unknown.len(),
            uv == unknown_views(unknown@),
            row_views(out@) == unknown_rows_spec(uv.take(i as int), views(flatpak_names@), views(snap_names@)),
            out.len() == i,
            forall|j: int|
                0 <= j < out.len() ==> {
                    let row = #[trigger] out@[j];
                    &&& row.pkg@ == unknown@[j].update.name@
                    &&& row.old@ == unknown@[j].update.old_version@
                    &&& row.new@ == unknown@[j].update.new_version@
                    &&& row.tier == tier_num(unknown@[j].tier)
                },
        decreases unknown.len() - i,
    {
        assert(uv.take(i + 1).drop_last() =~= uv.take(i as int));
        assert(uv.take(i + 1).last() == unknown_view(unknown@[i as int]));
        let e = &unknown[i];
        let note = tagged(&e.update.name, "no build date in sync DB".to_string(), flatpak_names, snap_names);
        let row = TableRow::from_update(&e.update, &e.tier, note);
        let ghost before = row_views(out@);
        out.push(row);
        assert(row_views(out@) =~= before.push(row_view(row)));
        i += 1;
    }
    assert(uv.take(i as int) =~= uv);
    out
}

// ---------------------------------------------------------------------------
// Run-log rows
// ---------------------------------------------------------------------------

pub type LogRowView = (Seq<char>, Seq<char>, Seq<char>, Seq<char>, Seq<char>, Seq<char>);

pub open spec fn log_row_view(r: RunRow) -> LogRowView {
    (r.bucket@, r.package@, r.old_version@, r.new_version@, r.tier@, r.note@)
}

pub open spec fn log_row_views(s: Seq<RunRow>) -> Seq<LogRowView> {
    s.map_values(|r: RunRow| log_row_view(r))
}

pub open spec fn ready_log(e: ReadyView) -> LogRowView {
    ("ready"@, e.0.0, e.0.1, e.0.2, decimal(tier_num(e.1) as nat), ready_note_spec(e.2))
}

pub open spec fn held_log(e: HeldView) -> LogRowView {
    ("held"@, e.0.0, e.0.1, e.0.2, decimal(tier_num(e.1) as nat), held_note_spec(e.2, e.3))
}

pub open spec fn unknown_log(e: UnknownView) -> LogRowView {
    ("unknown"@, e.0.0, e.0.1, e.0.2, decimal(tier_num(e.1) as nat), unknown_note())
}

pub open spec fn log_rows_of(
    ready: Seq<ReadyView>,
    held: Seq<HeldView>,
    unknown: Seq<UnknownView>,
) -> Seq<LogRowView> {
    ready.map_values(|e: ReadyView| ready_log(e)) + held.map_values(|e: HeldView| held_log(e))
        + unknown.map_values(|e: UnknownView| unknown_log(e))
}

fn log_row(bucket: &str, upd: &PendingUpdate, tier: &Tier, note: String) -> (r: RunRow)
    ensures
        log_row_view(r) == (bucket@, upd.name@, upd.old_version@, upd.new_version@, decimal(
            tier_num(*tier) as nat,
        ), note@),
{
    let t: u64 = match tier {
        Tier::One => 1,
        Tier::Two => 2,
        Tier::Three => 3,
    };
    RunRow {
        bucket: bucket.to_string(),
        package: upd.name.clone(),
        old_version: upd.old_version.clone(),
        new_version: upd.new_version.clone(),
        tier: string_of(&decimal_chars(t)),
        note,
    }
}

/// The run-log rows of the final buckets: Ready, then Held, then Unknown,
/// with the same notes as the printed tables (untagged).
pub fn runlog_rows(ready: &Vec<ReadyEntry>, held: &Vec<HeldEntry>, unknown: &Vec<UnknownEntry>) -> (r: Vec<
    RunRow,
>)
    ensures
        log_row_views(r@) == log_rows_of(ready_views(ready@), held_views(held@), unknown_views(unknown@)),
{
    let ghost rv = ready_views(ready@);
    let ghost hv = held_views(held@);
    let ghost uv = unknown_views(unknown@);
    let mut out: Vec<RunRow> = Vec::new();
    let mut i: usize = 0;
    while i < ready.len()
        invariant
            i <= ready.len(),
            rv == ready_views(ready@),
            log_row_views(out@) == rv.take(i as int).map_values(|e: ReadyView| ready_log(e)),
        decreases ready.len() - i,
    {
        let e = &ready[i];
        let row = log_row("ready", &e.update, &e.tier, ready_note(&e.reason));
        let ghost before = log_row_views(out@);
        out.push(row);
        assert(log_row_views(out@) =~= before.push(log_row_view(row)));
        assert(rv[i as int] == ready_view(ready@[i as int]));
        assert(rv.take(i + 1).map_values(|e: ReadyView| ready_log(e)) =~= rv.take(i as int).map_values(
            |e: ReadyView| ready_log(e),
        ).push(ready_log(rv[i as int])));
        i += 1;
    }
    assert(rv.take(i as int) =~= rv);
    let ghost a = log_row_views(out@);
    let mut j: usize = 0;
    while j < held.len()
        invariant
            j <= held.len(),
            hv == held_views(held@),
            log_row_views(out@) == a + hv.take(j as int).map_values(|e: HeldView| held_log(e)),
        decreases held.len() - j,
    {
        let e = &held[j];
        let row = log_row("held", &e.update, &e.tier, held_note(e.remaining, &e.reason));
        let ghost before = log_row_views(out@);
        out.push(row);
        assert(log_row_views(out@) =~= before.push(log_row_view(row)));
        assert(hv[j as int] == held_view(held@[j as int]));
        assert(hv.take(j + 1).map_values(|e: HeldView| held_log(e)) =~= hv.take(j as int).map_values(
            |e: HeldView| held_log(e),
        ).push(held_log(hv[j as int])));
        j += 1;
    }
    assert(hv.take(j as int) =~= hv);
    let ghost b = log_row_views(out@);
    let mut k: usize = 0;
    while k < unknown.len()
        invariant
            k <= unknown.len(),
            uv == unknown_views(unknown@),
            log_row_views(out@) == b + uv.take(k as int).map_values(|e: UnknownView| unknown_log(e)),
        decreases unknown.len() - k,
    {
        let e = &unknown[k];
        let row = log_row("unknown", &e.update, &e.tier, "no build date in sync DB".to_string());
        let ghost before = log_row_views(out@);
        out.push(row);
        assert(log_row_views(out@) =~= before.push(log_row_view(row)));
        assert(uv[k as int] == unknown_view(unknown@[k as int]));
        assert(uv.take(k + 1).map_values(|e: UnknownView| unknown_log(e)) =~= uv.take(k as int).map_values(
            |e: UnknownView| unknown_log(e),
        ).push(unknown_log(uv[k as int])));
        k += 1;
    }
    assert(uv.take(k as int) =~= uv);
    assert(log_row_views(out@) =~= log_rows_of(rv, hv, uv));
    out
}

// ---------------------------------------------------------------------------
// Commands
// ---------------------------------------------------------------------------

pub open spec fn source_of(name: Seq<char>) -> Option<Source> {
    if name == "aur"@ {
        Some(Source::Aur)
    } else if name == "chaotic-aur"@ {
        Some(Source::ChaoticAur)
    } else if name == "flatpak"@ {
        Some(Source::Flatpak)
    } else if name == "snap"@ {
        Some(Source::Snap)
    } else {
        None
    }
}

pub open spec fn unknown_source_message(name: Seq<char>) -> Seq<char> {
    "unknown source '"@ + name + "'. Valid sources: aur, chaotic-aur, flatpak, snap"@
}

fn source_named(name: &str) -> (r: Result<Source, String>)
    ensures
        match r {
            Ok(s) => source_of(name@) == Some(s),
            Err(e) => source_of(name@) is None && e@ == unknown_source_message(name@),
        },
{
    let n = chars_of(name);
    if same_str(&n, "aur") {
        Ok(Source::Aur)
    } else if same_str(&n, "chaotic-aur") {
        Ok(Source::ChaoticAur)
    } else if same_str(&n, "flatpak") {
        Ok(Source::Flatpak)
    } else if same_str(&n, "snap") {
        Ok(Source::Snap)
    } else {
        let mut out: Vec<char> = Vec::new();
        push_str(&mut out, "unknown source '");
        push_all(&mut out, &n);
        push_str(&mut out, "'. Valid sources: aur, chaotic-aur, flatpak, snap");
        Err(string_of(&out))
    }
}

/// `nog activate <source>`: the source to switch on, or the message for a
/// name that is not a source.
pub fn activate(source: &str) -> (r: Result<(Source, bool), String>)
    ensures
        match r {
            Ok((s, on)) => source_of(source@) == Some(s) && on,
            Err(e) => source_of(source@) is None && e@ == unknown_source_message(source@),
        },
{
    match source_named(source) {
        Ok(s) => Ok((s, true)),
        Err(e) => Err(e),
    }
}

/// `nog deactivate <source>`: the source to switch off, or the message for
/// a name that is not a source.
pub fn deactivate(source: &str) -> (r: Result<(Source, bool), String>)
    ensures
        match r {
            Ok((s, on)) => source_of(source@) == Some(s) && !on,
            Err(e) => source_of(source@) is None && e@ == unknown_source_message(source@),
        },
{
    match source_named(source) {
        Ok(s) => Ok((s, false)),
        Err(e) => Err(e),
    }
}

pub open spec fn tier_text(t: Tier) -> Seq<char> {
    match t {
        Tier::One => "Tier 1"@,
        Tier::Two => "Tier 2"@,
        Tier::Three => "Tier 3"@,
    }
}

pub open spec fn install_note_spec(pkg: Seq<char>, t: Tier) -> Seq<char> {
    "nog: '"@ + pkg + "' is "@ + tier_text(t) + match t {
        Tier::One => " — critical system package, will be protected by 30-day hold on future updates."@,
        Tier::Two => " — 15-day hold applies to future updates."@,
        Tier::Three => " — proceeding."@,
    }
}

/// What `nog install` says of each package before handing off: its tier and
/// what that means for future updates.
pub fn install_note(pkg: &str, tier: Tier) -> (r: String)
    ensures
        r@ == install_note_spec(pkg@, tier),
{
    let mut out: Vec<char> = Vec::new();
    push_str(&mut out, "nog: '");
    push_str(&mut out, pkg);
    push_str(&mut out, "' is ");
    let label = tier.label();
    push_str(&mut out, label.as_str());
    match tier {
        Tier::One => push_str(
            &mut out,
            " — critical system package, will be protected by 30-day hold on future updates.",
        ),
        Tier::Two => push_str(&mut out, " — 15-day hold applies to future updates."),
        Tier::Three => push_str(&mut out, " — proceeding."),
    }
    string_of(&out)
}

pub open spec fn unlock_lines_spec(pkg: Seq<char>, t: Tier, signoff: bool) -> Seq<Seq<char>> {
    seq![
        "nog: '"@ + pkg + "' is "@ + tier_text(t) + "."@,
        match t {
            Tier::One => if signoff {
                "     Tier 1 with `manual_signoff = true` — wholesale held until promote."@
            } else {
                "     Tier 1 (30-day hold by default)."@
            },
            Tier::Two => "     Tier 2 (15-day hold by default)."@,
            Tier::Three => "     Tier 3 (7-day hold by default)."@,
        },
        "     `nog unlock` by itself does nothing — it has no per-session state to toggle."@,
        "     To force-upgrade this package now, bypassing the hold, run:"@,
        "         nog unlock "@ + pkg + " --promote"@,
    ]
}

/// What `nog unlock <pkg>` without `--promote` says: the package's tier and
/// hold, and how to force the upgrade.
pub fn unlock_lines(pkg: &str, tier: Tier, signoff: bool) -> (r: Vec<String>)
    ensures
        views(r@) == unlock_lines_spec(pkg@, tier, signoff),
{
    let mut first: Vec<char> = Vec::new();
    push_str(&mut first, "nog: '");
    push_str(&mut first, pkg);
    push_str(&mut first, "' is ");
    let label = tier.label();
    push_str(&mut first, label.as_str());
    push_str(&mut first, ".");
    let second = match tier {
        Tier::One => if signoff {
            "     Tier 1 with `manual_signoff = true` — wholesale held until promote.".to_string()
        } else {
            "     Tier 1 (30-day hold by default).".to_string()
        },
        Tier::Two => "     Tier 2 (15-day hold by default).".to_string(),
        Tier::Three => "     Tier 3 (7-day hold by default).".to_string(),
    };
    let mut last: Vec<char> = Vec::new();
    push_str(&mut last, "         nog unlock ");
    push_str(&mut last, pkg);
    push_str(&mut last, " --promote");
    let mut out: Vec<String> = Vec::new();
    out.push(string_of(&first));
    out.push(second);
    out.push(
        "     `nog unlock` by itself does nothing — it has no per-session state to toggle.".to_string(),
    );
    out.push("     To force-upgrade this package now, bypassing the hold, run:".to_string());
    out.push(string_of(&last));
    assert(views(out@) =~= unlock_lines_spec(pkg@, tier, signoff));
    out
}

// ---------------------------------------------------------------------------
// nog search
// ---------------------------------------------------------------------------

pub open spec fn indented(l: Seq<char>) -> bool {
    l.len() > 0 && (l[0] == ' ' || l[0] == '\t')
}

/// The package of a `repo/name version` result line: the first word after
/// the first `/`, or nothing.
pub open spec fn result_package(l: Seq<char>) -> Seq<char> {
    let parts = split(l, '/');
    let rest = if parts.len() > 1 {
        parts[1]
    } else {
        Seq::<char>::empty()
    };
    if words(rest).len() > 0 {
        words(rest)[0]
    } else {
        Seq::<char>::empty()
    }
}

/// The tier tag printed after a search result.
pub open spec fn search_tag(tm: TierManager, holds: HoldsConfig, pkg: Seq<char>) -> Seq<char> {
    let t = classify_spec(tm.pins(), tm.index(), pkg);
    match t {
        Tier::One => " \x1b[31m[Tier 1 — "@ + (if tm.pins().tier1.manual_signoff {
            "manual sign-off"@
        } else {
            decimal(holds.tier1_days as nat) + "d hold"@
        }) + "]\x1b[0m"@,
        Tier::Two => " \x1b[33m[Tier 2 — "@ + decimal(holds.tier2_days as nat) + "d hold]\x1b[0m"@,
        Tier::Three => " \x1b[32m[Tier 3 — "@ + decimal(holds.tier3_days as nat) + "d hold]\x1b[0m"@,
    }
}

/// The annotated output from line `i` on: each result line gets its tier
/// tag, and keeps the indented description line that follows it;
/// indented lines anywhere else are dropped.
pub open spec fn search_from(ls: Seq<Seq<char>>, i: int, tm: TierManager, holds: HoldsConfig) -> Seq<Seq<char>>
    decreases ls.len() - i,
{
    if i >= ls.len() || i < 0 {
        seq![]
    } else if indented(ls[i]) {
        search_from(ls, i + 1, tm, holds)
    } else {
        let head = ls[i] + search_tag(tm, holds, result_package(ls[i]));
        if i + 1 < ls.len() && indented(ls[i + 1]) {
            seq![head, ls[i + 1]] + search_from(ls, i + 2, tm, holds)
        } else {
            seq![head] + search_from(ls, i + 1, tm, holds)
        }
    }
}

fn is_indented(l: &Vec<char>) -> (b: bool)
    ensures
        b == indented(l@),
{
    l.len() > 0 && (l[0] == ' ' || l[0] == '\t')
}

fn search_tag_exec(tm: &TierManager, holds: &HoldsConfig, pkg: &Vec<char>) -> (r: Vec<char>)
    ensures
        r@ == search_tag(*tm, *holds, pkg@),
{
    let name = string_of(pkg);
    let t = tm.classify(name.as_str());
    let mut out: Vec<char> = Vec::new();
    match t {
        Tier::One => {
            push_str(&mut out, " \x1b[31m[Tier 1 — ");
            if tm.is_manual_signoff(name.as_str()) {
                push_str(&mut out, "manual sign-off");
            } else {
                let d = decimal_chars(holds.tier1_days as u64);
                push_all(&mut out, &d);
                push_str(&mut out, "d hold");
            }
            push_str(&mut out, "]\x1b[0m");
        },
        Tier::Two => {
            push_str(&mut out, " \x1b[33m[Tier 2 — ");
            let d = decimal_chars(holds.tier2_days as u64);
            push_all(&mut out, &d);
            push_str(&mut out, "d hold]\x1b[0m");
        },
        Tier::Three => {
            push_str(&mut out, " \x1b[32m[Tier 3 — ");
            let d = decimal_chars(holds.tier3_days as u64);
            push_all(&mut out, &d);
            push_str(&mut out, "d hold]\x1b[0m");
        },
    }
    out
}

fn result_package_exec(l: &Vec<char>) -> (r: Vec<char>)
    ensures
        r@ == result_package(l@),
{
    let parts = split_char(l, '/');
    let rest = if parts.len() > 1 {
        let mut c: Vec<char> = Vec::new();
        push_all(&mut c, &parts[1]);
        c
    } else {
        Vec::new()
    };
    let ws = words_of(&rest);
    if ws.len() > 0 {
        let mut c: Vec<char> = Vec::new();
        push_all(&mut c, &ws[0]);
        c
    } else {
        Vec::new()
    }
}

/// `nog search`: pacman's `-Ss` output with every result line tagged with
/// the package's tier and its hold.
pub fn search_lines(stdout: &str, tm: &TierManager, holds: &HoldsConfig) -> (r: Vec<String>)
    ensures
        views(r@) == search_from(lines(stdout@), 0, *tm, *holds),
{
    let text = chars_of(stdout);
    let ls = lines_of(&text);
    let ghost lv = cviews(ls@);
    let mut out: Vec<String> = Vec::new();
    let mut i: usize = 0;
    while i < ls.len()
        invariant
            i <= ls.len() + 1,
            lv == cviews(ls@),
            lv == lines(stdout@),
            views(out@) + search_from(lv, i as int, *tm, *holds) == search_from(lv, 0, *tm, *holds),
        decreases ls.len() + 1 - i,
    {
        let ghost before = views(out@);
        let line = &ls[i];
        assert(lv[i as int] == line@);
        if is_indented(line) {
            i += 1;
        } else {
            let pkg = result_package_exec(line);
            let tag = search_tag_exec(tm, holds, &pkg);
            let mut head: Vec<char> = Vec::new();
            push_all(&mut head, line);
            push_all(&mut head, &tag);
            let hs = string_of(&head);
            out.push(hs);
            if i + 1 < ls.len() && is_indented(&ls[i + 1]) {
                assert(lv[i + 1] == ls@[i + 1]@);
                let ds = string_of(&ls[i + 1]);
                out.push(ds);
                assert(views(out@) =~= before + seq![hs@, ds@]);
                assert(before + seq![hs@, ds@] + search_from(lv, i + 2, *tm, *holds) =~= before + (seq![
                    hs@,
                    ds@,
                ] + search_from(lv, i + 2, *tm, *holds)));
                i += 2;
            } else {
                assert(views(out@) =~= before + seq![hs@]);
                assert(before + seq![hs@] + search_from(lv, i + 1, *tm, *holds) =~= before + (seq![hs@]
                    + search_from(lv, i + 1, *tm, *holds)));
                i += 1;
            }
        }
    }
    assert(search_from(lv, i as int, *tm, *holds) =~= Seq::<Seq<char>>::empty());
    assert(views(out@) + Seq::<Seq<char>>::empty() =~= views(out@));
    out
}

// ---------------------------------------------------------------------------
// The hold of one package (`nog _debug-hold`)
// ---------------------------------------------------------------------------

pub open spec fn plural(n: u64) -> Seq<char> {
    if n == 1 {
        Seq::<char>::empty()
    } else {
        "s"@
    }
}

pub open spec fn window_of(t: Tier, holds: HoldsConfig) -> u32 {
    match t {
        Tier::One => holds.tier1_days,
        Tier::Two => holds.tier2_days,
        Tier::Three => holds.tier3_days,
    }
}

pub open spec fn hold_report_spec(
    package: Seq<char>,
    t: Tier,
    holds: HoldsConfig,
    built: Option<u64>,
    status: crate::holds::HoldStatus,
) -> Seq<Seq<char>> {
    seq![
        "package:   "@ + package,
        "tier:      "@ + tier_text(t),
        "window:    "@ + decimal(window_of(t, holds) as nat) + " days"@,
        match built {
            Some(ts) => "built:     "@ + decimal(ts as nat) + " (Unix timestamp)"@,
            None => "built:     (unknown — not in any sync DB)"@,
        },
        match status {
            crate::holds::HoldStatus::Expired { days_past_window } => "status:    READY TO INSTALL (hold expired "@
                + decimal(days_past_window as nat) + " day"@ + plural(days_past_window) + " ago)"@,
            crate::holds::HoldStatus::Holding { days_remaining } => "status:    HELD ("@ + decimal(
                days_remaining as nat,
            ) + " day"@ + plural(days_remaining) + " remaining)"@,
            crate::holds::HoldStatus::Unknown => "status:    UNKNOWN (no build date available)"@,
        },
    ]
}

fn push_plural(out: &mut Vec<char>, n: u64)
    ensures
        final(out)@ == old(out)@ + plural(n),
{
    if n != 1 {
        push_str(out, "s");
    } else {
        assert(old(out)@ + plural(n) =~= old(out)@);
    }
}

/// What `nog _debug-hold <package>` prints: the package, its tier and
/// window, its build date if known, and its hold status.
pub fn hold_report(
    package: &str,
    tier: Tier,
    holds: &HoldsConfig,
    built: Option<u64>,
    status: crate::holds::HoldStatus,
) -> (r: Vec<String>)
    ensures
        views(r@) == hold_report_spec(package@, tier, *holds, built, status),
{
    let mut l1: Vec<char> = Vec::new();
    push_str(&mut l1, "package:   ");
    push_str(&mut l1, package);
    let mut l2: Vec<char> = Vec::new();
    push_str(&mut l2, "tier:      ");
    let label = tier.label();
    push_str(&mut l2, label.as_str());
    let w: u32 = match tier {
        Tier::One => holds.tier1_days,
        Tier::Two => holds.tier2_days,
        Tier::Three => holds.tier3_days,
    };
    let mut l3: Vec<char> = Vec::new();
    push_str(&mut l3, "window:    ");
    let wd = decimal_chars(w as u64);
    push_all(&mut l3, &wd);
    push_str(&mut l3, " days");
    let mut l4: Vec<char> = Vec::new();
    match built {
        Some(ts) => {
            push_str(&mut l4, "built:     ");
            let d = decimal_chars(ts);
            push_all(&mut l4, &d);
            push_str(&mut l4, " (Unix timestamp)");
        },
        None => push_str(&mut l4, "built:     (unknown — not in any sync DB)"),
    }
    let mut l5: Vec<char> = Vec::new();
    match status {
        crate::holds::HoldStatus::Expired { days_past_window } => {
            push_str(&mut l5, "status:    READY TO INSTALL (hold expired ");
            let d = decimal_chars(days_past_window);
            push_all(&mut l5, &d);
            push_str(&mut l5, " day");
            push_plural(&mut l5, days_past_window);
            push_str(&mut l5, " ago)");
        },
        crate::holds::HoldStatus::Holding { days_remaining } => {
            push_str(&mut l5, "status:    HELD (");
            let d = decimal_chars(days_remaining);
            push_all(&mut l5, &d);
            push_str(&mut l5, " day");
            push_plural(&mut l5, days_remaining);
            push_str(&mut l5, " remaining)");
        },
        crate::holds::HoldStatus::Unknown => push_str(&mut l5, "status:    UNKNOWN (no build date available)"),
    }
    let mut out: Vec<String> = Vec::new();
    out.push(string_of(&l1));
    out.push(string_of(&l2));
    out.push(string_of(&l3));
    out.push(string_of(&l4));
    out.push(string_of(&l5));
    assert(views(out@) =~= hold_report_spec(package@, tier, *holds, built, status));
    out
}

// ---------------------------------------------------------------------------
// Answers at the prompts
// ---------------------------------------------------------------------------

/// The answer to `update anyway? [y/N]`: yes, no (the default), or
/// anything else, which asks again (`None`).
pub open spec fn unknown_answer_spec(line: Seq<char>) -> Option<bool> {
    let t = crate::text::lowercased(crate::text::trim(line));
    if t == "y"@ || t == "yes"@ {
        Some(true)
    } else if t.len() == 0 || t == "n"@ || t == "no"@ {
        Some(false)
    } else {
        None
    }
}

/// Read an answer to the per-package prompt for an Unknown update:
/// `Some(true)` to let it through, `Some(false)` to skip it, `None` to ask
/// again.
pub fn unknown_answer(line: &str) -> (r: Option<bool>)
    ensures
        r == unknown_answer_spec(line@),
{
    let c = chars_of(line);
    let t = string_of(&crate::text::trim_chars(&c));
    let lower = crate::text::lowercase(t.as_str());
    let l = chars_of(lower.as_str());
    if same_str(&l, "y") || same_str(&l, "yes") {
        Some(true)
    } else if l.len() == 0 || same_str(&l, "n") || same_str(&l, "no") {
        Some(false)
    } else {
        None
    }
}

/// The answer to `Proceed with installation? [Y/n]`: yes by default.
pub open spec fn proceed_answer_spec(line: Seq<char>) -> bool {
    let t = crate::text::lowercased(crate::text::trim(line));
    t.len() == 0 || t == "y"@ || t == "yes"@
}

/// Read the answer at the review gate; an empty answer proceeds.
pub fn proceed_answer(line: &str) -> (r: bool)
    ensures
        r == proceed_answer_spec(line@),
{
    let c = chars_of(line);
    let t = string_of(&crate::text::trim_chars(&c));
    let lower = crate::text::lowercase(t.as_str());
    let l = chars_of(lower.as_str());
    l.len() == 0 || same_str(&l, "y") || same_str(&l, "yes")
}

/// The banner's date and time from `date +%m/%d/%Y|%I:%M %p` output: the
/// trimmed output split at its first `|`.
pub open spec fn date_time_spec(stdout: Seq<char>) -> Option<(Seq<char>, Seq<char>)> {
    crate::text::split_once(crate::text::trim(stdout), '|')
}

pub fn split_date_time(stdout: &str) -> (r: Option<(String, String)>)
    ensures
        match r {
            Some((d, t)) => date_time_spec(stdout@) == Some((d@, t@)),
            None => date_time_spec(stdout@) is None,
        },
{
    let c = chars_of(stdout);
    let t = crate::text::trim_chars(&c);
    match crate::text::split_once_char(&t, '|') {
        Some((d, tm)) => Some((string_of(&d), string_of(&tm))),
        None => None,
    }
}

// ---------------------------------------------------------------------------
// Colour never moves a column
// ---------------------------------------------------------------------------

pub open spec fn esc() -> char {
    '\x1b'
}

/// The text with every colour code nog prints removed.
pub open spec fn strip_colour(s: Seq<char>) -> Seq<char>
    decreases s.len(),
{
    if s.len() == 0 {
        seq![]
    } else if starts_with(s, C_RED@) && C_RED@.len() > 0 {
        strip_colour(s.skip(C_RED@.len() as int))
    } else if starts_with(s, C_YELLOW@) && C_YELLOW@.len() > 0 {
        strip_colour(s.skip(C_YELLOW@.len() as int))
    } else if starts_with(s, C_GREEN@) && C_GREEN@.len() > 0 {
        strip_colour(s.skip(C_GREEN@.len() as int))
    } else if starts_with(s, C_RESET@) && C_RESET@.len() > 0 {
        strip_colour(s.skip(C_RESET@.len() as int))
    } else {
        seq![s[0]] + strip_colour(s.skip(1))
    }
}

proof fn lemma_codes()
    ensures
        C_RED@ =~= seq!['\x1b', '[', '3', '8', ';', '2', ';', '2', '4', '3', ';', '1', '3', '9', ';', '1', '6', '8', 'm'],
        C_YELLOW@ =~= seq!['\x1b', '[', '3', '8', ';', '2', ';', '2', '4', '9', ';', '2', '2', '6', ';', '1', '7', '5', 'm'],
        C_GREEN@ =~= seq!['\x1b', '[', '3', '8', ';', '2', ';', '1', '6', '6', ';', '2', '2', '7', ';', '1', '6', '1', 'm'],
        C_RESET@ =~= seq!['\x1b', '[', '0', 'm'],
{
    reveal_strlit("\x1b[38;2;243;139;168m");
    reveal_strlit("\x1b[38;2;249;226;175m");
    reveal_strlit("\x1b[38;2;166;227;161m");
    reveal_strlit("\x1b[0m");
}

/// Text without an escape character passes through untouched.
proof fn lemma_strip_plain(a: Seq<char>, b: Seq<char>)
    requires
        !a.contains(esc()),
    ensures
        strip_colour(a + b) == a + strip_colour(b),
    decreases a.len(),
{
    lemma_codes();
    if a.len() > 0 {
        let s = a + b;
        assert(s[0] == a[0]);
        assert(a[0] != esc()) by {
            if a[0] == esc() {
                assert(a.contains(esc()));
            }
        }
        assert(!starts_with(s, C_RED@)) by {
            if starts_with(s, C_RED@) {
                assert(s.take(C_RED@.len() as int)[0] == C_RED@[0]);
            }
        }
        assert(!starts_with(s, C_YELLOW@)) by {
            if starts_with(s, C_YELLOW@) {
                assert(s.take(C_YELLOW@.len() as int)[0] == C_YELLOW@[0]);
            }
        }
        assert(!starts_with(s, C_GREEN@)) by {
            if starts_with(s, C_GREEN@) {
                assert(s.take(C_GREEN@.len() as int)[0] == C_GREEN@[0]);
            }
        }
        assert(!starts_with(s, C_RESET@)) by {
            if starts_with(s, C_RESET@) {
                assert(s.take(C_RESET@.len() as int)[0] == C_RESET@[0]);
            }
        }
        assert(s.skip(1) =~= a.skip(1) + b);
        assert(!a.skip(1).contains(esc())) by {
            if a.skip(1).contains(esc()) {
                let k = choose|k: int| 0 <= k < a.skip(1).len() && a.skip(1)[k] == esc();
                assert(a[k + 1] == esc());
            }
        }
        lemma_strip_plain(a.skip(1), b);
        assert(seq![a[0]] + (a.skip(1) + strip_colour(b)) =~= a + strip_colour(b));
    } else {
        assert(a + b =~= b);
    }
}

/// A tier colour code, and the reset after the digit, are removed.
proof fn lemma_strip_code(n: u8, reset: bool, b: Seq<char>)
    ensures
        strip_colour((if reset { C_RESET@ } else { tier_color(n) }) + b) == strip_colour(b),
{
    lemma_codes();
    let c = if reset { C_RESET@ } else { tier_color(n) };
    let s = c + b;
    assert(s.take(c.len() as int) =~= c);
    assert(s.skip(c.len() as int) =~= b);
    if reset {
        assert(!starts_with(s, C_RED@)) by {
            if starts_with(s, C_RED@) {
                assert(s.take(C_RED@.len() as int)[2] == C_RED@[2]);
            }
        }
        assert(!starts_with(s, C_YELLOW@)) by {
            if starts_with(s, C_YELLOW@) {
                assert(s.take(C_YELLOW@.len() as int)[2] == C_YELLOW@[2]);
            }
        }
        assert(!starts_with(s, C_GREEN@)) by {
            if starts_with(s, C_GREEN@) {
                assert(s.take(C_GREEN@.len() as int)[2] == C_GREEN@[2]);
            }
        }
    } else if n == 2 {
        assert(!starts_with(s, C_RED@)) by {
            if starts_with(s, C_RED@) {
                assert(s.take(C_RED@.len() as int)[9] == C_RED@[9]);
            }
        }
    } else if n != 1 {
        assert(!starts_with(s, C_RED@)) by {
            if starts_with(s, C_RED@) {
                assert(s.take(C_RED@.len() as int)[7] == C_RED@[7]);
            }
        }
        assert(!starts_with(s, C_YELLOW@)) by {
            if starts_with(s, C_YELLOW@) {
                assert(s.take(C_YELLOW@.len() as int)[7] == C_YELLOW@[7]);
            }
        }
    }
}

proof fn lemma_decimal_plain(n: nat)
    ensures
        !decimal(n).contains(esc()),
    decreases n,
{
    if n >= 10 {
        lemma_decimal_plain(n / 10);
        assert(!decimal(n).contains(esc())) by {
            if decimal(n).contains(esc()) {
                let k = choose|k: int| 0 <= k < decimal(n).len() && decimal(n)[k] == esc();
                if k < decimal(n / 10).len() {
                    assert(decimal(n / 10)[k] == esc());
                }
            }
        }
    } else {
        assert(decimal(n)[0] == digit_char(n));
    }
}

proof fn lemma_plain_concat(a: Seq<char>, b: Seq<char>)
    requires
        !a.contains(esc()),
        !b.contains(esc()),
    ensures
        !(a + b).contains(esc()),
{
    if (a + b).contains(esc()) {
        let k = choose|k: int| 0 <= k < (a + b).len() && (a + b)[k] == esc();
        if k < a.len() {
            assert(a[k] == esc());
        } else {
            assert(b[k - a.len()] == esc());
        }
    }
}

proof fn lemma_spaces_plain(n: int)
    ensures
        !spaces(n).contains(esc()),
{
}

proof fn lemma_pad_plain(s: Seq<char>, w: int)
    requires
        !s.contains(esc()),
    ensures
        !pad(s, w).contains(esc()),
{
    lemma_plain_concat(s, spaces(w - s.len()));
}

pub open spec fn plain_row(r: RowView) -> bool {
    &&& 1 <= r.3 <= 9
    &&& !r.0.contains(esc())
    &&& !r.1.contains(esc())
    &&& !r.2.contains(esc())
    &&& !r.4.contains(esc())
}

proof fn lemma_strip_row(r: RowView, wp: int, wo: int, wn: int, b: Seq<char>)
    requires
        plain_row(r),
    ensures
        strip_colour(row_line(r, wp, wo, wn, true) + b) == row_line(r, wp, wo, wn, false) + strip_colour(b),
{
    reveal_strlit("  ");
    reveal_strlit("\n");
    lemma_pad_plain(r.0, wp);
    lemma_pad_plain(r.1, wo);
    lemma_pad_plain(r.2, wn);
    let g = gap();
    assert(!g.contains(esc()));
    let p = pad(r.0, wp) + g + pad(r.1, wo) + g + pad(r.2, wn) + g;
    lemma_plain_concat(pad(r.0, wp), g);
    lemma_plain_concat(pad(r.0, wp) + g, pad(r.1, wo));
    lemma_plain_concat(pad(r.0, wp) + g + pad(r.1, wo), g);
    lemma_plain_concat(pad(r.0, wp) + g + pad(r.1, wo) + g, pad(r.2, wn));
    lemma_plain_concat(pad(r.0, wp) + g + pad(r.1, wo) + g + pad(r.2, wn), g);
    let d = decimal(r.3 as nat);
    assert(d =~= seq![digit_char(r.3 as nat)]);
    lemma_decimal_plain(r.3 as nat);
    let sfx = spaces(3) + g + r.4 + "\n"@;
    assert(!"\n"@.contains(esc())) by {
        assert("\n"@ =~= seq!['\n']);
    }
    lemma_spaces_plain(3);
    lemma_plain_concat(spaces(3), g);
    lemma_plain_concat(spaces(3) + g, r.4);
    lemma_plain_concat(spaces(3) + g + r.4, "\n"@);
    assert(row_line(r, wp, wo, wn, true) + b =~= p + (tier_color(r.3) + (d + (C_RESET@ + (sfx + b)))));
    assert(pad(d, 4) =~= d + spaces(3));
    assert(row_line(r, wp, wo, wn, false) =~= p + d + sfx);
    lemma_strip_plain(p, tier_color(r.3) + (d + (C_RESET@ + (sfx + b))));
    lemma_strip_code(r.3, false, d + (C_RESET@ + (sfx + b)));
    lemma_strip_plain(d, C_RESET@ + (sfx + b));
    lemma_strip_code(r.3, true, sfx + b);
    lemma_strip_plain(sfx, b);
    assert(p + (d + (sfx + strip_colour(b))) =~= p + d + sfx + strip_colour(b));
}

proof fn lemma_strip_rows(rows: Seq<RowView>, wp: int, wo: int, wn: int, b: Seq<char>)
    requires
        forall|i: int| 0 <= i < rows.len() ==> plain_row(#[trigger] rows[i]),
    ensures
        strip_colour(rows_text(rows, wp, wo, wn, true) + b) == rows_text(rows, wp, wo, wn, false) + strip_colour(b),
    decreases rows.len(),
{
    if rows.len() == 0 {
        assert(rows_text(rows, wp, wo, wn, true) + b =~= b);
        assert(rows_text(rows, wp, wo, wn, false) + strip_colour(b) =~= strip_colour(b));
    } else {
        let pre = rows.drop_last();
        let line_t = row_line(rows.last(), wp, wo, wn, true);
        let line_f = row_line(rows.last(), wp, wo, wn, false);
        assert(plain_row(rows[rows.len() - 1]));
        lemma_strip_rows(pre, wp, wo, wn, line_t + b);
        lemma_strip_row(rows.last(), wp, wo, wn, b);
        assert(rows_text(rows, wp, wo, wn, true) + b =~= rows_text(pre, wp, wo, wn, true) + (line_t + b));
        assert(rows_text(pre, wp, wo, wn, false) + (line_f + strip_colour(b)) =~= rows_text(rows, wp, wo, wn, false)
            + strip_colour(b));
    }
}

/// Colour never changes the table's layout: with the colour codes removed,
/// the coloured table is exactly the plain one. (The tier digit is a single
/// character and no field holds an escape character.)
pub proof fn lemma_colour_keeps_alignment(title: Seq<char>, rows: Seq<RowView>)
    requires
        !title.contains(esc()),
        forall|i: int| 0 <= i < rows.len() ==> plain_row(#[trigger] rows[i]),
    ensures
        strip_colour(format_table_spec(title, rows, true)) == format_table_spec(title, rows, false),
{
    reveal_strlit(":");
    reveal_strlit("\n");
    reveal_strlit("(none)\n");
    reveal_strlit("Package (");
    reveal_strlit(")");
    reveal_strlit("Old Version");
    reveal_strlit("New Version");
    reveal_strlit("Tier");
    reveal_strlit("Note");
    reveal_strlit("  ");
    let title_line = title + ":"@;
    let head = title_line + "\n"@ + Seq::new(width(title_line) as nat, |i: int| '-') + "\n"@ + "\n"@;
    lemma_plain_concat(title, ":"@);
    lemma_plain_concat(title_line, "\n"@);
    lemma_plain_concat(title_line + "\n"@, Seq::new(width(title_line) as nat, |i: int| '-'));
    lemma_plain_concat(title_line + "\n"@ + Seq::new(width(title_line) as nat, |i: int| '-'), "\n"@);
    lemma_plain_concat(title_line + "\n"@ + Seq::new(width(title_line) as nat, |i: int| '-') + "\n"@, "\n"@);
    if rows.len() == 0 {
        lemma_strip_plain(head + "(none)\n"@, seq![]);
        assert(head + "(none)\n"@ + Seq::<char>::empty() =~= head + "(none)\n"@);
        lemma_plain_concat(head, "(none)\n"@);
        assert(strip_colour(Seq::<char>::empty()) == Seq::<char>::empty());
        assert(head + "(none)\n"@ + strip_colour(Seq::<char>::empty()) =~= head + "(none)\n"@);
    } else {
        let pkg_hdr = "Package ("@ + decimal(rows.len()) + ")"@;
        let wp = max_width(rows, 0, width(pkg_hdr));
        let wo = max_width(rows, 1, width("Old Version"@));
        let wn = max_width(rows, 2, width("New Version"@));
        lemma_decimal_plain(rows.len());
        lemma_plain_concat("Package ("@, decimal(rows.len()));
        lemma_plain_concat("Package ("@ + decimal(rows.len()), ")"@);
        let g = gap();
        let h2 = head + pad(pkg_hdr, wp) + g + pad("Old Version"@, wo) + g + pad("New Version"@, wn) + g + pad(
            "Tier"@,
            4,
        ) + g + "Note"@ + "\n"@ + "\n"@;
        lemma_pad_plain(pkg_hdr, wp);
        lemma_pad_plain("Old Version"@, wo);
        lemma_pad_plain("New Version"@, wn);
        lemma_pad_plain("Tier"@, 4);
        lemma_plain_concat(head, pad(pkg_hdr, wp));
        lemma_plain_concat(head + pad(pkg_hdr, wp), g);
        lemma_plain_concat(head + pad(pkg_hdr, wp) + g, pad("Old Version"@, wo));
        lemma_plain_concat(head + pad(pkg_hdr, wp) + g + pad("Old Version"@, wo), g);
        lemma_plain_concat(head + pad(pkg_hdr, wp) + g + pad("Old Version"@, wo) + g, pad("New Version"@, wn));
        lemma_plain_concat(head + pad(pkg_hdr, wp) + g + pad("Old Version"@, wo) + g + pad("New Version"@, wn), g);
        lemma_plain_concat(
            head + pad(pkg_hdr, wp) + g + pad("Old Version"@, wo) + g + pad("New Version"@, wn) + g,
            pad("Tier"@, 4),
        );
        lemma_plain_concat(
            head + pad(pkg_hdr, wp) + g + pad("Old Version"@, wo) + g + pad("New Version"@, wn) + g + pad("Tier"@, 4),
            g,
        );
        lemma_plain_concat(
            head + pad(pkg_hdr, wp) + g + pad("Old Version"@, wo) + g + pad("New Version"@, wn) + g + pad("Tier"@, 4)
                + g,
            "Note"@,
        );
        lemma_plain_concat(
            head + pad(pkg_hdr, wp) + g + pad("Old Version"@, wo) + g + pad("New Version"@, wn) + g + pad("Tier"@, 4)
                + g + "Note"@,
            "\n"@,
        );
        lemma_plain_concat(
            head + pad(pkg_hdr, wp) + g + pad("Old Version"@, wo) + g + pad("New Version"@, wn) + g + pad("Tier"@, 4)
                + g + "Note"@ + "\n"@,
            "\n"@,
        );
        let rt = rows_text(rows, wp, wo, wn, true);
        lemma_strip_rows(rows, wp, wo, wn, seq![]);
        assert(rt + Seq::<char>::empty() =~= rt);
        assert(strip_colour(Seq::<char>::empty()) == Seq::<char>::empty());
        assert(rows_text(rows, wp, wo, wn, false) + strip_colour(Seq::<char>::empty()) =~= rows_text(rows, wp, wo, wn, false));
        lemma_strip_plain(h2, rt);
    }
}

// ---------------------------------------------------------------------------
// Every table row shows its own update
// ---------------------------------------------------------------------------

/// The Held table has one row per held update, in order, and each row shows
/// that update's name, its installed (old) and offered (new) version in
/// that order, and its tier number.
pub proof fn lemma_held_rows_columns(s: Seq<HeldView>, fl: Seq<Seq<char>>, sn: Seq<Seq<char>>)
    ensures
        held_rows_spec(s, fl, sn).len() == s.len(),
        forall|i: int|
            0 <= i < s.len() ==> {
                let row = #[trigger] held_rows_spec(s, fl, sn)[i];
                &&& row.0 == s[i].0.0
                &&& row.1 == s[i].0.1
                &&& row.2 == s[i].0.2
                &&& row.3 == tier_num(s[i].1)
            },
    decreases s.len(),
{
    if s.len() > 0 {
        lemma_held_rows_columns(s.drop_last(), fl, sn);
        let all = held_rows_spec(s, fl, sn);
        let pre = held_rows_spec(s.drop_last(), fl, sn);
        assert forall|i: int| 0 <= i < s.len() implies {
            let row = #[trigger] all[i];
            &&& row.0 == s[i].0.0
            &&& row.1 == s[i].0.1
            &&& row.2 == s[i].0.2
            &&& row.3 == tier_num(s[i].1)
        } by {
            if i < s.len() - 1 {
                assert(all[i] == pre[i]);
                assert(s.drop_last()[i] == s[i]);
            }
        }
    }
}

/// The Ready table has one row per ready update, in order, each showing
/// that update's name, old and new version, and tier number.
pub proof fn lemma_ready_rows_columns(s: Seq<ReadyView>, fl: Seq<Seq<char>>, sn: Seq<Seq<char>>)
    ensures
        ready_rows_spec(s, fl, sn).len() == s.len(),
        forall|i: int|
            0 <= i < s.len() ==> {
                let row = #[trigger] ready_rows_spec(s, fl, sn)[i];
                &&& row.0 == s[i].0.0
                &&& row.1 == s[i].0.1
                &&& row.2 == s[i].0.2
                &&& row.3 == tier_num(s[i].1)
            },
    decreases s.len(),
{
    if s.len() > 0 {
        lemma_ready_rows_columns(s.drop_last(), fl, sn);
        let all = ready_rows_spec(s, fl, sn);
        let pre = ready_rows_spec(s.drop_last(), fl, sn);
        assert forall|i: int| 0 <= i < s.len() implies {
            let row = #[trigger] all[i];
            &&& row.0 == s[i].0.0
            &&& row.1 == s[i].0.1
            &&& row.2 == s[i].0.2
            &&& row.3 == tier_num(s[i].1)
        } by {
            if i < s.len() - 1 {
                assert(all[i] == pre[i]);
                assert(s.drop_last()[i] == s[i]);
            }
        }
    }
}

/// The Unknown table has one row per undated update, in order, each showing
/// that update's name, old and new version, and tier number.
pub proof fn lemma_unknown_rows_columns(s: Seq<UnknownView>, fl: Seq<Seq<char>>, sn: Seq<Seq<char>>)
    ensures
        unknown_rows_spec(s, fl, sn).len() == s.len(),
        forall|i: int|
            0 <= i < s.len() ==> {
                let row = #[trigger] unknown_rows_spec(s, fl, sn)[i];
                &&& row.0 == s[i].0.0
                &&& row.1 == s[i].0.1
                &&& row.2 == s[i].0.2
                &&& row.3 == tier_num(s[i].1)
            },
    decreases s.len(),
{
    if s.len() > 0 {
        lemma_unknown_rows_columns(s.drop_last(), fl, sn);
        let all = unknown_rows_spec(s, fl, sn);
        let pre = unknown_rows_spec(s.drop_last(), fl, sn);
        assert forall|i: int| 0 <= i < s.len() implies {
            let row = #[trigger] all[i];
            &&& row.0 == s[i].0.0
            &&& row.1 == s[i].0.1
            &&& row.2 == s[i].0.2
            &&& row.3 == tier_num(s[i].1)
        } by {
            if i < s.len() - 1 {
                assert(all[i] == pre[i]);
                assert(s.drop_last()[i] == s[i]);
            }
        }
    }
}

} // verus!
