//! Flatpak as a package source.
//!
//! nog delegates to the `flatpak` CLI: it asks which apps have updates,
//! dates each pending commit so the tier hold windows apply, and hands the
//! cleared apps to `flatpak update`. Running the CLI is left to the caller;
//! this module reads its output and decides what may be applied.
use crate::pacman::PendingUpdate;
use crate::table::NameTable;
use crate::text::{
    chars_of, cviews, lines, lines_of, split, split_char, string_of, strip_prefix_str, trim,
    trim_chars, trim_end, trim_end_chars, views,
};
use vstd::prelude::*;

verus! {

/// One pending flatpak app update.
#[derive(Debug, Clone, PartialEq)]
pub struct FlatpakUpdate {
    pub app_id: String,
    /// The remote, e.g. `flathub`.
    pub origin: String,
    /// Often empty: many flatpaks set no version.
    pub new_version: String,
}

pub open spec fn update_view(u: FlatpakUpdate) -> (Seq<char>, Seq<char>, Seq<char>) {
    (u.app_id@, u.origin@, u.new_version@)
}

pub open spec fn update_views(s: Seq<FlatpakUpdate>) -> Seq<(Seq<char>, Seq<char>, Seq<char>)> {
    s.map_values(|u: FlatpakUpdate| update_view(u))
}

/// One line of `--columns=application,version,origin` output: tab-separated
/// fields, trimmed; the origin defaults to `flathub`. A line without an app
/// ID is no update.
pub open spec fn columns_line(l: Seq<char>) -> Option<(Seq<char>, Seq<char>, Seq<char>)> {
    let line = trim_end(l);
    let parts = split(line, '\t');
    if line.len() == 0 || trim(parts[0]).len() == 0 {
        None
    } else {
        Some(
            (
                trim(parts[0]),
                if parts.len() > 2 {
                    trim(parts[2])
                } else {
                    "flathub"@
                },
                if parts.len() > 1 {
                    trim(parts[1])
                } else {
                    Seq::<char>::empty()
                },
            ),
        )
    }
}

pub open spec fn columns_updates(ls: Seq<Seq<char>>) -> Seq<(Seq<char>, Seq<char>, Seq<char>)>
    decreases ls.len(),
{
    if ls.len() == 0 {
        seq![]
    } else {
        match columns_line(ls.last()) {
            Some(u) => columns_updates(ls.drop_last()).push(u),
            None => columns_updates(ls.drop_last()),
        }
    }
}

/// Parse `flatpak remote-ls --updates --app --columns=application,version,origin`.
pub fn parse_columns_output(stdout: &str) -> (r: Vec<FlatpakUpdate>)
    ensures
        update_views(r@) == columns_updates(lines(stdout@)),
{
    let text = chars_of(stdout);
    let ls = lines_of(&text);
    let ghost lv = cviews(ls@);
    let mut out: Vec<FlatpakUpdate> = Vec::new();
    let mut i: usize = 0;
    while i < ls.len()
        invariant
            i <= ls.len(),
            lv == cviews(ls@),
            lv == lines(stdout@),
            update_views(out@) == columns_updates(lv.take(i as int)),
        decreases ls.len() - i,
    {
        assert(lv.take(i + 1).drop_last() =~= lv.take(i as int));
        assert(lv.take(i + 1).last() == ls@[i as int]@);
        let line = trim_end_chars(&ls[i]);
        if line.len() > 0 {
            let parts = split_char(&line, '\t');
            let id = trim_chars(&parts[0]);
            if id.len() > 0 {
                let ghost before = update_views(out@);
                let new_version = if parts.len() > 1 {
                    string_of(&trim_chars(&parts[1]))
                } else {
                    String::new()
                };
                let origin = if parts.len() > 2 {
                    string_of(&trim_chars(&parts[2]))
                } else {
                    "flathub".to_string()
                };
                let u = FlatpakUpdate { app_id: string_of(&id), origin, new_version };
                assert(update_view(u) == columns_line(ls@[i as int]@)->0);
                out.push(u);
                assert(update_views(out@) =~= before.push(update_view(u)));
            }
        }
        i += 1;
    }
    assert(lv.take(i as int) =~= lv);
    out
}

/// `flatpak list --app --columns=application,version`: app ID to version
/// (possibly empty); a later line of the same ID wins.
pub open spec fn installed_map(ls: Seq<Seq<char>>) -> Map<Seq<char>, Seq<char>>
    decreases ls.len(),
{
    if ls.len() == 0 {
        Map::empty()
    } else {
        let parts = split(ls.last(), '\t');
        let id = trim(parts[0]);
        if id.len() == 0 {
            installed_map(ls.drop_last())
        } else {
            installed_map(ls.drop_last()).insert(
                id,
                if parts.len() > 1 {
                    trim(parts[1])
                } else {
                    Seq::<char>::empty()
                },
            )
        }
    }
}

/// Read the installed app versions, for the Old column of the update table.
pub fn parse_installed_versions(stdout: &str) -> (t: NameTable<String>)
    ensures
        forall|k: Seq<char>| #[trigger]
            t@.contains_key(k) <==> installed_map(lines(stdout@)).contains_key(k),
        forall|k: Seq<char>| #[trigger]
            t@.contains_key(k) ==> t@[k]@ == installed_map(lines(stdout@))[k],
{
    let text = chars_of(stdout);
    let ls = lines_of(&text);
    let ghost lv = cviews(ls@);
    let mut t: NameTable<String> = NameTable::new();
    let mut i: usize = 0;
    while i < ls.len()
        invariant
            i <= ls.len(),
            lv == cviews(ls@),
            forall|k: Seq<char>| #[trigger]
                t@.contains_key(k) <==> installed_map(lv.take(i as int)).contains_key(k),
            forall|k: Seq<char>| #[trigger]
                t@.contains_key(k) ==> t@[k]@ == installed_map(lv.take(i as int))[k],
        decreases ls.len() - i,
    {
        assert(lv.take(i + 1).drop_last() =~= lv.take(i as int));
        assert(lv.take(i + 1).last() == ls@[i as int]@);
        let parts = split_char(&ls[i], '\t');
        let id = trim_chars(&parts[0]);
        if id.len() > 0 {
            let version = if parts.len() > 1 {
                string_of(&trim_chars(&parts[1]))
            } else {
                String::new()
            };
            t.insert(string_of(&id), version);
        }
        i += 1;
    }
    assert(lv.take(i as int) =~= lv);
    t
}

/// The text of the first `Date:` line of `flatpak remote-info` output.
pub open spec fn remote_info_date_spec(ls: Seq<Seq<char>>) -> Option<Seq<char>>
    decreases ls.len(),
{
    if ls.len() == 0 {
        None
    } else {
        match remote_info_date_spec(ls.drop_last()) {
            Some(d) => Some(d),
            None => if crate::text::starts_with(trim(ls.last()), "Date:"@) {
                Some(trim(trim(ls.last()).skip("Date:"@.len() as int)))
            } else {
                None
            },
        }
    }
}

/// The date text of the pending commit in `flatpak remote-info` output: the
/// trimmed rest of the first `Date:` line. Converting it to Unix time is the
/// caller's (`date -d`).
pub fn remote_info_date_text(stdout: &str) -> (r: Option<String>)
    ensures
        match r {
            Some(d) => remote_info_date_spec(lines(stdout@)) == Some(d@),
            None => remote_info_date_spec(lines(stdout@)) is None,
        },
{
    let text = chars_of(stdout);
    let ls = lines_of(&text);
    let ghost lv = cviews(ls@);
    let mut i: usize = 0;
    while i < ls.len()
        invariant
            i <= ls.len(),
            lv == cviews(ls@),
            lv == lines(stdout@),
            remote_info_date_spec(lv.take(i as int)) is None,
        decreases ls.len() - i,
    {
        assert(lv.take(i + 1).drop_last() =~= lv.take(i as int));
        assert(lv.take(i + 1).last() == ls@[i as int]@);
        let t = trim_chars(&ls[i]);
        match strip_prefix_str(&t, "Date:") {
            Some(rest) => {
                let d = trim_chars(&rest);
                proof {
                    lemma_date_prefix(lv, i + 1);
                }
                return Some(string_of(&d));
            },
            None => {},
        }
        i += 1;
    }
    assert(lv.take(i as int) =~= lv);
    None
}

proof fn lemma_date_prefix(ls: Seq<Seq<char>>, k: int)
    requires
        0 <= k <= ls.len(),
        remote_info_date_spec(ls.take(k)) is Some,
    ensures
        remote_info_date_spec(ls) == remote_info_date_spec(ls.take(k)),
    decreases ls.len() - k,
{
    if k < ls.len() {
        assert(ls.take(k + 1).drop_last() =~= ls.take(k));
        lemma_date_prefix(ls, k + 1);
    } else {
        assert(ls.take(k) =~= ls);
    }
}

/// `flatpak update -y <app-ids>`.
pub fn update_args(app_ids: &[String]) -> (r: Vec<String>)
    ensures
        views(r@) == seq!["update"@, "-y"@] + views(app_ids@),
{
    let head = ["update", "-y"];
    let r = crate::pacman::command_args(&head, app_ids);
    assert(head@.map_values(|s: &str| s@) =~= seq!["update"@, "-y"@]);
    r
}

// ---------------------------------------------------------------------------
// What may be applied
// ---------------------------------------------------------------------------

pub open spec fn keep_listed(xs: Seq<Seq<char>>, names: Seq<Seq<char>>, ignore: Seq<Seq<char>>) -> Seq<
    Seq<char>,
>
    decreases xs.len(),
{
    if xs.len() == 0 {
        seq![]
    } else if names.contains(xs.last()) && !ignore.contains(xs.last()) {
        keep_listed(xs.drop_last(), names, ignore).push(xs.last())
    } else {
        keep_listed(xs.drop_last(), names, ignore)
    }
}

/// The refs a source may apply: its Ready names, then its Unknown names
/// that the user did not skip, in that order.
pub open spec fn apply_list_spec(
    names: Seq<Seq<char>>,
    ready: Seq<Seq<char>>,
    unknown: Seq<Seq<char>>,
    ignore: Seq<Seq<char>>,
) -> Seq<Seq<char>> {
    keep_listed(ready, names, seq![]) + keep_listed(unknown, names, ignore)
}

fn is_listed(names: &[String], n: &String) -> (b: bool)
    ensures
        b == views(names@).contains(n@),
{
    let ghost nv = views(names@);
    let mut i: usize = 0;
    while i < names.len()
        invariant
            i <= names.len(),
            nv == views(names@),
            forall|j: int| 0 <= j < i ==> nv[j] != n@,
        decreases names.len() - i,
    {
        if names[i] == *n {
            assert(nv[i as int] == n@);
            return true;
        }
        i += 1;
    }
    false
}

fn push_listed(out: &mut Vec<String>, xs: &[String], names: &[String], ignore: &[String])
    ensures
        views(final(out)@) == views(old(out)@) + keep_listed(views(xs@), views(names@), views(ignore@)),
{
    let ghost start = views(out@);
    let ghost xv = views(xs@);
    let mut i: usize = 0;
    while i < xs.len()
        invariant
            i <= xs.len(),
            xv == views(xs@),
            views(out@) == start + keep_listed(xv.take(i as int), views(names@), views(ignore@)),
        decreases xs.len() - i,
    {
        assert(xv.take(i + 1).drop_last() =~= xv.take(i as int));
        if is_listed(names, &xs[i]) && !is_listed(ignore, &xs[i]) {
            let ghost before = views(out@);
            out.push(xs[i].clone());
            assert(views(out@) =~= before.push(xv[i as int]));
        }
        i += 1;
    }
    assert(xv.take(i as int) =~= xv);
}

/// Which refs of this source may be handed to `flatpak update` this run:
/// the Ready ones, then the Unknown ones the user did not skip. A held ref
/// is in neither list, so it is never named; naming is the only exclusion
/// flatpak has.
pub fn apply_list(flatpak_names: &[String], ready: &[String], unknown: &[String], ignore: &[String]) -> (r:
    Vec<String>)
    ensures
        views(r@) == apply_list_spec(views(flatpak_names@), views(ready@), views(unknown@), views(ignore@)),
{
    let mut out: Vec<String> = Vec::new();
    let none: Vec<String> = Vec::new();
    push_listed(&mut out, ready, flatpak_names, none.as_slice());
    assert(views(none@) =~= Seq::<Seq<char>>::empty());
    push_listed(&mut out, unknown, flatpak_names, ignore);
    assert(views(out@) =~= apply_list_spec(views(flatpak_names@), views(ready@), views(unknown@), views(ignore@)));
    out
}

/// A version for the update table: `?` where the source reports none.
pub open spec fn shown_version(v: Seq<char>) -> Seq<char> {
    if v.len() == 0 {
        "?"@
    } else {
        v
    }
}

pub(crate) fn shown(v: &str) -> (r: String)
    ensures
        r@ == shown_version(v@),
        v@.len() > 0 ==> r@ == v@,
        v@.len() == 0 ==> r@ == "?"@,
{
    let c = chars_of(v);
    if c.len() == 0 {
        "?".to_string()
    } else {
        string_of(&c)
    }
}

/// A flatpak update in the shared pending-update shape; empty versions show
/// as `?`.
pub fn to_pending(u: &FlatpakUpdate, installed: &NameTable<String>) -> (p: PendingUpdate)
    ensures
        p.name@ == u.app_id@,
        p.old_version@ == shown_version(
            if installed@.contains_key(u.app_id@) {
                installed@[u.app_id@]@
            } else {
                Seq::<char>::empty()
            },
        ),
        p.new_version@ == shown_version(u.new_version@),
        u.new_version@.len() > 0 ==> p.new_version@ == u.new_version@,
        u.new_version@.len() == 0 ==> p.new_version@ == "?"@,
        installed@.contains_key(u.app_id@) && installed@[u.app_id@]@.len() > 0 ==> p.old_version@
            == installed@[u.app_id@]@,
        !(installed@.contains_key(u.app_id@) && installed@[u.app_id@]@.len() > 0) ==> p.old_version@
            == "?"@,
{
    let old = match installed.get(u.app_id.as_str()) {
        Some(s) => shown(s.as_str()),
        None => "?".to_string(),
    };
    PendingUpdate { name: u.app_id.clone(), old_version: old, new_version: shown(u.new_version.as_str()) }
}

// ---------------------------------------------------------------------------
// Laws
// ---------------------------------------------------------------------------

/// A `application<TAB>version<TAB>origin` row gives the application, then
/// its origin, then the offered version, each trimmed.
pub proof fn lemma_columns_line_fields(l: Seq<char>, app: Seq<char>, version: Seq<char>, origin: Seq<char>)
    requires
        split(trim_end(l), '\t') == seq![app, version, origin],
        trim(app).len() > 0,
    ensures
        columns_line(l) == Some((trim(app), trim(origin), trim(version))),
{
    if trim_end(l).len() == 0 {
        assert(split(Seq::<char>::empty(), '\t') == seq![Seq::<char>::empty()]);
    }
}

/// A reported version is shown as it was reported; only a missing (empty)
/// version is shown as `?`.
pub proof fn lemma_shown_version_keeps_reported(v: Seq<char>)
    ensures
        v.len() > 0 ==> shown_version(v) == v,
        v.len() == 0 ==> shown_version(v) == "?"@,
        shown_version(v).len() > 0,
{
    reveal_strlit("?");
}

proof fn lemma_keep_listed(xs: Seq<Seq<char>>, names: Seq<Seq<char>>, ignore: Seq<Seq<char>>, n: Seq<char>)
    requires
        keep_listed(xs, names, ignore).contains(n),
    ensures
        xs.contains(n),
        names.contains(n),
        !ignore.contains(n),
    decreases xs.len(),
{
    let k = keep_listed(xs, names, ignore);
    let rest = keep_listed(xs.drop_last(), names, ignore);
    if xs.len() > 0 {
        if rest.contains(n) {
            lemma_keep_listed(xs.drop_last(), names, ignore, n);
            let j = choose|j: int| 0 <= j < xs.drop_last().len() && xs.drop_last()[j] == n;
            assert(xs[j] == n);
        } else {
            let j = choose|j: int| 0 <= j < k.len() && k[j] == n;
            if names.contains(xs.last()) && !ignore.contains(xs.last()) {
                if j < rest.len() {
                    assert(rest[j] == n);
                }
                assert(xs[xs.len() - 1] == n);
            } else {
                assert(rest[j] == n);
            }
        }
    }
}

/// Only what nog cleared is ever applied: every name handed to the source
/// is one of its own, and is Ready, or Unknown and not skipped. A held
/// package, in neither list, is never named.
pub proof fn lemma_apply_only_cleared(
    names: Seq<Seq<char>>,
    ready: Seq<Seq<char>>,
    unknown: Seq<Seq<char>>,
    ignore: Seq<Seq<char>>,
    n: Seq<char>,
)
    requires
        apply_list_spec(names, ready, unknown, ignore).contains(n),
    ensures
        names.contains(n),
        ready.contains(n) || (unknown.contains(n) && !ignore.contains(n)),
{
    let a = keep_listed(ready, names, seq![]);
    let b = keep_listed(unknown, names, ignore);
    let j = choose|j: int| 0 <= j < (a + b).len() && (a + b)[j] == n;
    if j < a.len() {
        assert(a[j] == n);
        lemma_keep_listed(ready, names, seq![], n);
    } else {
        assert(b[j - a.len()] == n);
        lemma_keep_listed(unknown, names, ignore, n);
    }
}

} // verus!
