//! CSV run logs.
//!
//! Every `nog update` run appends a CSV record of the report it showed (the
//! Ready / Held / Unknown rows) and the run's outcome to a per-day file
//! `YYYYMMDD nog-update.log`. Logs older than the retention window are
//! pruned. This module renders the records and makes the retention
//! decision; the file system and the `date` command are the caller's.
use crate::text::{
    chars_of, contains_char, cviews, is_ascii_digit, is_digit, join, join_chars, push_all, push_str,
    seq_lt, lt_chars, string_of, strip_prefix_str, strip_suffix_str, trim,
    trim_chars, views, ends_with, starts_with, decimal, decimal_chars,
};
use vstd::prelude::*;

verus! {

/// Retention window in days ("keep 3 months of history").
pub const RETENTION_DAYS: u32 = 90;

/// Column header written once when a day's log file is created.
pub const CSV_HEADER: &'static str = "date,time,user,bucket,package,old_version,new_version,tier,note,outcome";

/// One package row of a run: the update-table columns plus its bucket
/// ("ready", "held" or "unknown").
#[derive(Debug)]
pub struct RunRow {
    pub bucket: String,
    pub package: String,
    pub old_version: String,
    pub new_version: String,
    /// The tier digit as text; empty on the marker row of a run with no
    /// pending updates.
    pub tier: String,
    pub note: String,
}

/// A whole `nog update` run: banner context, rows, and outcome.
#[derive(Debug)]
pub struct RunRecord {
    pub date: String,
    pub time: String,
    pub user: String,
    pub rows: Vec<RunRow>,
    pub outcome: String,
}

// ---------------------------------------------------------------------------
// CSV
// ---------------------------------------------------------------------------

pub open spec fn needs_quotes(s: Seq<char>) -> bool {
    s.contains(',') || s.contains('"') || s.contains('\n') || s.contains('\r')
}

/// Every `"` doubled.
pub open spec fn double_quotes(s: Seq<char>) -> Seq<char>
    decreases s.len(),
{
    if s.len() == 0 {
        seq![]
    } else {
        double_quotes(s.drop_last()) + if s.last() == '"' {
            seq!['"', '"']
        } else {
            seq![s.last()]
        }
    }
}

/// RFC 4180 field: quoted, with inner quotes doubled, when it holds a comma,
/// a quote or a line break; verbatim otherwise.
pub open spec fn csv_field_spec(s: Seq<char>) -> Seq<char> {
    if needs_quotes(s) {
        seq!['"'] + double_quotes(s) + seq!['"']
    } else {
        s
    }
}

/// Escape one CSV field: quote it when it contains a comma, a double quote
/// or a line break, doubling any embedded quotes.
pub fn csv_field(s: &str) -> (r: String)
    ensures
        r@ == csv_field_spec(s@),
{
    let v = chars_of(s);
    if contains_char(&v, ',') || contains_char(&v, '"') || contains_char(&v, '\n')
        || contains_char(&v, '\r') {
        let mut out: Vec<char> = Vec::new();
        out.push('"');
        let mut i: usize = 0;
        while i < v.len()
            invariant
                i <= v.len(),
                out@ == seq!['"'] + double_quotes(v@.take(i as int)),
            decreases v.len() - i,
        {
            assert(v@.take(i + 1).drop_last() =~= v@.take(i as int));
            if v[i] == '"' {
                out.push('"');
                out.push('"');
            } else {
                out.push(v[i]);
            }
            assert(out@ =~= seq!['"'] + double_quotes(v@.take(i + 1)));
            i += 1;
        }
        assert(v@.take(i as int) =~= v@);
        out.push('"');
        string_of(&out)
    } else {
        string_of(&v)
    }
}

/// One CSV line of ten fields, comma-separated, newline-terminated.
pub open spec fn csv_line(fields: Seq<Seq<char>>) -> Seq<char> {
    join(fields.map_values(|f: Seq<char>| csv_field_spec(f)), ","@) + "\n"@
}

/// The ten fields of a row in the context of its run.
pub open spec fn row_fields(rec: RunRecord, bucket: Seq<char>, pkg: Seq<char>, old: Seq<char>, new: Seq<char>, tier: Seq<char>, note: Seq<char>) -> Seq<Seq<char>> {
    seq![rec.date@, rec.time@, rec.user@, bucket, pkg, old, new, tier, note, rec.outcome@]
}

pub open spec fn row_line(rec: RunRecord, r: RunRow) -> Seq<char> {
    csv_line(row_fields(rec, r.bucket@, r.package@, r.old_version@, r.new_version@, r.tier@, r.note@))
}

pub open spec fn rows_text(rec: RunRecord, rows: Seq<RunRow>) -> Seq<char>
    decreases rows.len(),
{
    if rows.len() == 0 {
        seq![]
    } else {
        rows_text(rec, rows.drop_last()) + row_line(rec, rows.last())
    }
}

/// A run as CSV data lines: one per row, or a single marker line with empty
/// package columns when the run had no rows.
pub open spec fn render_run_spec(rec: RunRecord) -> Seq<char> {
    if rec.rows@.len() == 0 {
        csv_line(row_fields(rec, seq![], seq![], seq![], seq![], seq![], seq![]))
    } else {
        rows_text(rec, rec.rows@)
    }
}

fn line_of(fields: &Vec<String>) -> (r: Vec<char>)
    ensures
        r@ == csv_line(views(fields@)),
{
    let mut pieces: Vec<Vec<char>> = Vec::new();
    let mut i: usize = 0;
    while i < fields.len()
        invariant
            i <= fields.len(),
            cviews(pieces@) == views(fields@).take(i as int).map_values(
                |f: Seq<char>| csv_field_spec(f),
            ),
        decreases fields.len() - i,
    {
        let ghost before = cviews(pieces@);
        let f = csv_field(fields[i].as_str());
        let fc = chars_of(f.as_str());
        pieces.push(fc);
        assert(cviews(pieces@) =~= before.push(fc@));
        assert(views(fields@).take(i + 1) =~= views(fields@).take(i as int).push(fields@[i as int]@));
        assert(views(fields@).take(i + 1).map_values(|f: Seq<char>| csv_field_spec(f)) =~= views(
            fields@,
        ).take(i as int).map_values(|f: Seq<char>| csv_field_spec(f)).push(csv_field_spec(fields@[i as int]@)));
        i += 1;
    }
    assert(views(fields@).take(i as int) =~= views(fields@));
    let mut out = join_chars(&pieces, ",");
    push_str(&mut out, "\n");
    out
}

fn context_line(
    rec: &RunRecord,
    bucket: &String,
    pkg: &String,
    old: &String,
    new: &String,
    tier: &String,
    note: &String,
) -> (r: Vec<char>)
    ensures
        r@ == csv_line(row_fields(*rec, bucket@, pkg@, old@, new@, tier@, note@)),
{
    let mut fields: Vec<String> = Vec::new();
    fields.push(rec.date.clone());
    fields.push(rec.time.clone());
    fields.push(rec.user.clone());
    fields.push(bucket.clone());
    fields.push(pkg.clone());
    fields.push(old.clone());
    fields.push(new.clone());
    fields.push(tier.clone());
    fields.push(note.clone());
    fields.push(rec.outcome.clone());
    assert(views(fields@) =~= row_fields(*rec, bucket@, pkg@, old@, new@, tier@, note@));
    line_of(&fields)
}

/// Render a run as CSV data lines (the header belongs to the file, not the
/// run). A run without rows still gets one marker line, so the log holds
/// every invocation.
pub fn render_run(record: &RunRecord) -> (r: String)
    ensures
        r@ == render_run_spec(*record),
{
    if record.rows.len() == 0 {
        let e = String::new();
        let line = context_line(record, &e, &e, &e, &e, &e, &e);
        return string_of(&line);
    }
    let mut out: Vec<char> = Vec::new();
    let mut i: usize = 0;
    while i < record.rows.len()
        invariant
            i <= record.rows.len(),
            out@ == rows_text(*record, record.rows@.take(i as int)),
        decreases record.rows.len() - i,
    {
        let r = &record.rows[i];
        let line = context_line(record, &r.bucket, &r.package, &r.old_version, &r.new_version, &r.tier, &r.note);
        push_all(&mut out, &line);
        assert(record.rows@.take(i + 1).drop_last() =~= record.rows@.take(i as int));
        i += 1;
    }
    assert(record.rows@.take(i as int) =~= record.rows@);
    string_of(&out)
}

/// What a run adds to its day's file: the header first when the file is
/// new, then the run's lines.
pub fn run_log_body(is_new: bool, record: &RunRecord) -> (r: String)
    ensures
        r@ == if is_new {
            CSV_HEADER@ + "\n"@ + render_run_spec(*record)
        } else {
            render_run_spec(*record)
        },
{
    let mut out: Vec<char> = Vec::new();
    if is_new {
        push_str(&mut out, CSV_HEADER);
        push_str(&mut out, "\n");
    }
    let body = render_run(record);
    push_str(&mut out, body.as_str());
    string_of(&out)
}

// ---------------------------------------------------------------------------
// File names and retention
// ---------------------------------------------------------------------------

/// The per-day log file name: `YYYYMMDD nog-update.log`.
pub fn filename_for(yyyymmdd: &str) -> (r: String)
    ensures
        r@ == yyyymmdd@ + " nog-update.log"@,
{
    let mut out = chars_of(yyyymmdd);
    push_str(&mut out, " nog-update.log");
    string_of(&out)
}

/// Eight ASCII digits.
pub open spec fn is_stamp(s: Seq<char>) -> bool {
    s.len() == 8 && forall|i: int| 0 <= i < 8 ==> is_digit(#[trigger] s[i])
}

pub open spec fn log_date_spec(name: Seq<char>) -> Option<Seq<char>> {
    let suffix = " nog-update.log"@;
    if ends_with(name, suffix) && is_stamp(name.take(name.len() - suffix.len())) {
        Some(name.take(name.len() - suffix.len()))
    } else {
        None
    }
}

fn all_stamp_digits(s: &Vec<char>) -> (b: bool)
    ensures
        b == is_stamp(s@),
{
    if s.len() != 8 {
        return false;
    }
    let mut i: usize = 0;
    while i < 8
        invariant
            i <= 8,
            s@.len() == 8,
            forall|j: int| 0 <= j < i ==> is_digit(#[trigger] s@[j]),
        decreases 8 - i,
    {
        if !is_ascii_digit(s[i]) {
            return false;
        }
        i += 1;
    }
    true
}

/// The date stamp of a run-log file name; `None` for anything that is not
/// exactly `YYYYMMDD nog-update.log`.
pub fn log_date(name: &str) -> (r: Option<String>)
    ensures
        match r {
            Some(d) => log_date_spec(name@) == Some(d@),
            None => log_date_spec(name@) is None,
        },
{
    let v = chars_of(name);
    match strip_suffix_str(&v, " nog-update.log") {
        Some(stamp) => {
            if all_stamp_digits(&stamp) {
                Some(string_of(&stamp))
            } else {
                None
            }
        },
        None => None,
    }
}

pub open spec fn expired(name: Seq<char>, cutoff: Seq<char>) -> bool {
    match log_date_spec(name) {
        Some(d) => seq_lt(d, cutoff),
        None => false,
    }
}

pub open spec fn expired_logs(names: Seq<Seq<char>>, cutoff: Seq<char>) -> Seq<Seq<char>>
    decreases names.len(),
{
    if names.len() == 0 {
        seq![]
    } else if expired(names.last(), cutoff) {
        expired_logs(names.drop_last(), cutoff).push(names.last())
    } else {
        expired_logs(names.drop_last(), cutoff)
    }
}

/// The run logs among `names` dated strictly before the cutoff, in order.
/// Zero-padded stamps compare correctly as plain strings; other files are
/// never candidates.
pub fn prune_candidates(names: &[String], cutoff_yyyymmdd: &str) -> (r: Vec<String>)
    ensures
        views(r@) == expired_logs(views(names@), cutoff_yyyymmdd@),
{
    let ghost nv = views(names@);
    let cutoff = chars_of(cutoff_yyyymmdd);
    let mut out: Vec<String> = Vec::new();
    let mut i: usize = 0;
    while i < names.len()
        invariant
            i <= names.len(),
            nv == views(names@),
            cutoff@ == cutoff_yyyymmdd@,
            views(out@) == expired_logs(nv.take(i as int), cutoff_yyyymmdd@),
        decreases names.len() - i,
    {
        assert(nv.take(i + 1).drop_last() =~= nv.take(i as int));
        let ghost before = views(out@);
        match log_date(names[i].as_str()) {
            Some(d) => {
                let dv = chars_of(d.as_str());
                if lt_chars(&dv, &cutoff) {
                    out.push(names[i].clone());
                    assert(views(out@) =~= before.push(nv[i as int]));
                }
            },
            None => {},
        }
        i += 1;
    }
    assert(nv.take(i as int) =~= nv);
    out
}

pub open spec fn expand_home_spec(path: Seq<char>, home: Option<Seq<char>>) -> Seq<char> {
    if starts_with(path, "~/"@) && home is Some {
        home->0 + "/"@ + path.skip("~/"@.len() as int)
    } else {
        path
    }
}

/// Expand a leading `~/` against the home directory, when it is known.
/// Anything else passes through unchanged.
pub fn expand_home_with(path: &str, home: Option<&str>) -> (r: String)
    ensures
        r@ == expand_home_spec(path@, match home {
            Some(h) => Some(h@),
            None => None,
        }),
{
    let v = chars_of(path);
    match strip_prefix_str(&v, "~/") {
        Some(rest) => match home {
            Some(h) => {
                let mut out = chars_of(h);
                push_str(&mut out, "/");
                push_all(&mut out, &rest);
                string_of(&out)
            },
            None => string_of(&v),
        },
        None => string_of(&v),
    }
}

/// The `date` argument for the retention cutoff: `90 days ago`.
pub fn cutoff_date_arg() -> (r: String)
    ensures
        r@ == decimal(RETENTION_DAYS as nat) + " days ago"@,
{
    let mut out = decimal_chars(RETENTION_DAYS as u64);
    push_str(&mut out, " days ago");
    string_of(&out)
}

/// A `date +%Y%m%d` reply: the trimmed output when it is eight digits.
pub fn date_stamp_from(stdout: &str) -> (r: Option<String>)
    ensures
        match r {
            Some(s) => is_stamp(trim(stdout@)) && s@ == trim(stdout@),
            None => !is_stamp(trim(stdout@)),
        },
{
    let v = chars_of(stdout);
    let t = trim_chars(&v);
    if all_stamp_digits(&t) {
        Some(string_of(&t))
    } else {
        None
    }
}

} // verus!
