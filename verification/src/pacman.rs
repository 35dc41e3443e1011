//! What `checkupdates` reports, and the arguments nog hands to pacman.
use crate::text::{
    chars_of, cviews, join, join_strings, lines, lines_of, push_all, push_str, signed_decimal,
    string_of, trim, trim_chars, views, words, words_of, i32_chars,
};
use vstd::prelude::*;

verus! {

/// One pending upgrade reported by `checkupdates` (or an AUR helper's
/// `-Qua`).
#[derive(Debug, Clone)]
pub struct PendingUpdate {
    pub name: String,
    pub old_version: String,
    pub new_version: String,
}

/// Why `checkupdates` produced no list: the tool is not installed, or it
/// failed with a message.
#[derive(Debug)]
pub enum CheckUpdatesError {
    Missing,
    Other(String),
}

pub open spec fn pending_fields(u: PendingUpdate) -> (Seq<char>, Seq<char>, Seq<char>) {
    (u.name@, u.old_version@, u.new_version@)
}

pub open spec fn pending_views(s: Seq<PendingUpdate>) -> Seq<(Seq<char>, Seq<char>, Seq<char>)> {
    s.map_values(|u: PendingUpdate| pending_fields(u))
}

/// One `pkgname oldver -> newver` line: the first, second and fourth words
/// (missing ones empty). A blank line is no update.
pub open spec fn pending_line(l: Seq<char>) -> Option<(Seq<char>, Seq<char>, Seq<char>)> {
    let w = words(trim(l));
    if w.len() == 0 {
        None
    } else {
        Some(
            (
                w[0],
                if w.len() > 1 {
                    w[1]
                } else {
                    Seq::<char>::empty()
                },
                if w.len() > 3 {
                    w[3]
                } else {
                    Seq::<char>::empty()
                },
            ),
        )
    }
}

pub open spec fn pending_list(ls: Seq<Seq<char>>) -> Seq<(Seq<char>, Seq<char>, Seq<char>)>
    decreases ls.len(),
{
    if ls.len() == 0 {
        seq![]
    } else {
        match pending_line(ls.last()) {
            Some(u) => pending_list(ls.drop_last()).push(u),
            None => pending_list(ls.drop_last()),
        }
    }
}

/// Parse the `pkgname oldver -> newver` lines that `checkupdates` and the
/// AUR helpers print, skipping blank lines.
pub fn parse_pending_lines(stdout: &str) -> (r: Vec<PendingUpdate>)
    ensures
        pending_views(r@) == pending_list(lines(stdout@)),
{
    let text = chars_of(stdout);
    let ls = lines_of(&text);
    let ghost lv = cviews(ls@);
    let mut out: Vec<PendingUpdate> = Vec::new();
    let mut i: usize = 0;
    while i < ls.len()
        invariant
            i <= ls.len(),
            lv == cviews(ls@),
            lv == lines(stdout@),
            pending_views(out@) == pending_list(lv.take(i as int)),
        decreases ls.len() - i,
    {
        assert(lv.take(i + 1).drop_last() =~= lv.take(i as int));
        assert(lv.take(i + 1).last() == ls@[i as int]@);
        let t = trim_chars(&ls[i]);
        let w = words_of(&t);
        if w.len() > 0 {
            let ghost before = pending_views(out@);
            let name = string_of(&w[0]);
            let old_version = if w.len() > 1 {
                string_of(&w[1])
            } else {
                String::new()
            };
            let new_version = if w.len() > 3 {
                string_of(&w[3])
            } else {
                String::new()
            };
            let u = PendingUpdate { name, old_version, new_version };
            assert(pending_fields(u) == pending_line(ls@[i as int]@)->0);
            out.push(u);
            assert(pending_views(out@) =~= before.push(pending_fields(u)));
        }
        i += 1;
    }
    assert(lv.take(i as int) =~= lv);
    out
}

/// The message of a failed `checkupdates` run: its trimmed stderr, or the
/// exit status when stderr is blank.
pub open spec fn checkupdates_message(code: i32, stderr: Seq<char>) -> Seq<char> {
    if trim(stderr).len() > 0 {
        trim(stderr)
    } else {
        "checkupdates exited with status "@ + signed_decimal(code as int)
    }
}

/// Interpret a finished `checkupdates` run. Exit status 2 means no updates;
/// any other nonzero status is a failure; status 0 (or none, after a
/// signal) means the updates are on stdout.
pub fn interpret_checkupdates(code: Option<i32>, stdout: &str, stderr: &str) -> (r: Result<
    Vec<PendingUpdate>,
    CheckUpdatesError,
>)
    ensures
        code == Some(2i32) ==> (r matches Ok(v) && v@.len() == 0),
        (code matches Some(c) && c != 2 && c != 0) ==> (r matches Err(CheckUpdatesError::Other(m))
            && m@ == checkupdates_message(code->0, stderr@)),
        (code is None || code == Some(0i32)) ==> (r matches Ok(v) && pending_views(v@)
            == pending_list(lines(stdout@))),
{
    match code {
        Some(c) => {
            if c == 2 {
                return Ok(Vec::new());
            }
            if c != 0 {
                let e = chars_of(stderr);
                let msg = trim_chars(&e);
                if msg.len() > 0 {
                    return Err(CheckUpdatesError::Other(string_of(&msg)));
                }
                let mut out: Vec<char> = Vec::new();
                push_str(&mut out, "checkupdates exited with status ");
                let d = i32_chars(c);
                push_all(&mut out, &d);
                return Err(CheckUpdatesError::Other(string_of(&out)));
            }
        },
        None => {},
    }
    Ok(parse_pending_lines(stdout))
}

pub(crate) fn command_args(head: &[&str], packages: &[String]) -> (r: Vec<String>)
    ensures
        views(r@) == head@.map_values(|s: &str| s@) + views(packages@),
{
    let mut out: Vec<String> = Vec::new();
    let mut i: usize = 0;
    while i < head.len()
        invariant
            i <= head.len(),
            views(out@) == head@.map_values(|s: &str| s@).take(i as int),
        decreases head.len() - i,
    {
        let ghost before = views(out@);
        let item = head[i].to_string();
        out.push(item);
        assert(views(out@) =~= before.push(item@));
        assert(head@.map_values(|s: &str| s@).take(i + 1) =~= head@.map_values(|s: &str| s@).take(
            i as int,
        ).push(head@[i as int]@));
        i += 1;
    }
    assert(head@.map_values(|s: &str| s@).take(i as int) =~= head@.map_values(|s: &str| s@));
    let ghost h = views(out@);
    let mut j: usize = 0;
    while j < packages.len()
        invariant
            j <= packages.len(),
            views(out@) == h + views(packages@).take(j as int),
        decreases packages.len() - j,
    {
        let ghost before = views(out@);
        let item = packages[j].clone();
        out.push(item);
        assert(views(out@) =~= before.push(item@));
        assert(views(packages@).take(j + 1) =~= views(packages@).take(j as int).push(packages@[j as int]@));
        j += 1;
    }
    assert(views(packages@).take(j as int) =~= views(packages@));
    out
}

/// `pacman -S --noconfirm <packages>`.
pub fn install_args(packages: &[String]) -> (r: Vec<String>)
    ensures
        views(r@) == seq!["-S"@, "--noconfirm"@] + views(packages@),
{
    let head = ["-S", "--noconfirm"];
    let r = command_args(&head, packages);
    assert(head@.map_values(|s: &str| s@) =~= seq!["-S"@, "--noconfirm"@]);
    r
}

/// `pacman -Rs --noconfirm <packages>`.
pub fn remove_args(packages: &[String]) -> (r: Vec<String>)
    ensures
        views(r@) == seq!["-Rs"@, "--noconfirm"@] + views(packages@),
{
    let head = ["-Rs", "--noconfirm"];
    let r = command_args(&head, packages);
    assert(head@.map_values(|s: &str| s@) =~= seq!["-Rs"@, "--noconfirm"@]);
    r
}

/// A full upgrade that skips the given packages: `-Syu`, plus
/// `--ignore <a,b,...>` when there is anything to skip. pacman and the AUR
/// helpers take the same arguments.
pub fn update_excluding_args(excluded: &[String]) -> (r: Vec<String>)
    ensures
        views(r@) == if excluded@.len() == 0 {
            seq!["-Syu"@]
        } else {
            seq!["-Syu"@, "--ignore"@, join(views(excluded@), ","@)]
        },
{
    let mut out: Vec<String> = Vec::new();
    out.push("-Syu".to_string());
    if excluded.len() > 0 {
        out.push("--ignore".to_string());
        out.push(join_strings(excluded, ","));
    }
    assert(views(out@) =~= if excluded@.len() == 0 {
        seq!["-Syu"@]
    } else {
        seq!["-Syu"@, "--ignore"@, join(views(excluded@), ","@)]
    });
    out
}

pub open spec fn name_lines(ls: Seq<Seq<char>>) -> Seq<Seq<char>>
    decreases ls.len(),
{
    if ls.len() == 0 {
        seq![]
    } else if trim(ls.last()).len() == 0 {
        name_lines(ls.drop_last())
    } else {
        name_lines(ls.drop_last()).push(trim(ls.last()))
    }
}

/// The package names of `pacman -Qqm` output (the foreign packages): one
/// per non-blank line, trimmed.
pub fn parse_name_lines(stdout: &str) -> (r: Vec<String>)
    ensures
        views(r@) == name_lines(lines(stdout@)),
{
    let text = chars_of(stdout);
    let ls = lines_of(&text);
    let ghost lv = cviews(ls@);
    let mut out: Vec<String> = Vec::new();
    let mut i: usize = 0;
    while i < ls.len()
        invariant
            i <= ls.len(),
            lv == cviews(ls@),
            lv == lines(stdout@),
            views(out@) == name_lines(lv.take(i as int)),
        decreases ls.len() - i,
    {
        assert(lv.take(i + 1).drop_last() =~= lv.take(i as int));
        assert(lv.take(i + 1).last() == ls@[i as int]@);
        let t = trim_chars(&ls[i]);
        if t.len() > 0 {
            let ghost before = views(out@);
            let n = string_of(&t);
            out.push(n);
            assert(views(out@) =~= before.push(t@));
        }
        i += 1;
    }
    assert(lv.take(i as int) =~= lv);
    out
}

/// A `name old -> new` line gives the update of `name` from `old` to `new`:
/// the installed version first, the offered one second.
pub proof fn lemma_pending_line_columns(l: Seq<char>, name: Seq<char>, old: Seq<char>, new: Seq<char>)
    requires
        words(trim(l)) == seq![name, old, "->"@, new],
    ensures
        pending_line(l) == Some((name, old, new)),
{
}

} // verus!
