//! AUR helper choice and the helpers' output.
//!
//! nog never builds AUR packages itself: it delegates to yay or paru. The
//! `[aur] helper` setting picks one ("auto" prefers yay, then paru; "none"
//! disables the AUR paths). Running the helper is left to the caller; this
//! module decides which helper to use, reads what it printed, and builds its
//! arguments.
use crate::pacman::{command_args, parse_pending_lines, pending_list, pending_views, PendingUpdate};
use crate::table::NameTable;
use crate::text::{
    chars_of, cviews, lines, lines_of, lowercase, lowercased, parse_u64, parse_u64_spec, push_all,
    push_str, same_str, split_once, split_once_char, string_of, trim, trim_chars, views,
};
use vstd::prelude::*;

verus! {

/// The supported AUR helpers.
#[derive(Debug, Clone, Copy, PartialEq, Eq, Structural)]
pub enum Helper {
    Yay,
    Paru,
}

pub open spec fn helper_binary(h: Helper) -> Seq<char> {
    match h {
        Helper::Yay => "yay"@,
        Helper::Paru => "paru"@,
    }
}

impl Helper {
    /// The helper's executable name.
    pub fn binary(&self) -> (b: &'static str)
        ensures
            b@ == helper_binary(*self),
    {
        match self {
            Helper::Yay => "yay",
            Helper::Paru => "paru",
        }
    }
}

/// The helper a normalized preference selects, given which helpers are on
/// `PATH`, or the message for a preference that cannot be met.
pub open spec fn helper_choice(p: Seq<char>, yay: bool, paru: bool) -> Result<Option<Helper>, Seq<char>> {
    if p == "none"@ {
        Ok(None)
    } else if p == "auto"@ {
        if yay {
            Ok(Some(Helper::Yay))
        } else if paru {
            Ok(Some(Helper::Paru))
        } else {
            Ok(None)
        }
    } else if p == "yay"@ {
        if yay {
            Ok(Some(Helper::Yay))
        } else {
            Err("nog.conf requests `helper = \"yay\"` but yay is not on PATH"@)
        }
    } else if p == "paru"@ {
        if paru {
            Ok(Some(Helper::Paru))
        } else {
            Err("nog.conf requests `helper = \"paru\"` but paru is not on PATH"@)
        }
    } else {
        Err("invalid `[aur] helper` value '"@ + p + "'. Expected one of: auto, yay, paru, none"@)
    }
}

/// Resolve a normalized (trimmed, lowercase) `[aur] helper` preference:
/// "none" disables the AUR, "auto" takes yay, else paru, else nothing, and
/// "yay" or "paru" insist on that helper.
pub fn choose_helper(preference: &str, yay_on_path: bool, paru_on_path: bool) -> (r: Result<
    Option<Helper>,
    String,
>)
    ensures
        match r {
            Ok(h) => helper_choice(preference@, yay_on_path, paru_on_path) == Ok::<
                Option<Helper>,
                Seq<char>,
            >(h),
            Err(e) => helper_choice(preference@, yay_on_path, paru_on_path) == Err::<
                Option<Helper>,
                Seq<char>,
            >(e@),
        },
{
    let p = chars_of(preference);
    if same_str(&p, "none") {
        Ok(None)
    } else if same_str(&p, "auto") {
        if yay_on_path {
            Ok(Some(Helper::Yay))
        } else if paru_on_path {
            Ok(Some(Helper::Paru))
        } else {
            Ok(None)
        }
    } else if same_str(&p, "yay") {
        if yay_on_path {
            Ok(Some(Helper::Yay))
        } else {
            Err("nog.conf requests `helper = \"yay\"` but yay is not on PATH".to_string())
        }
    } else if same_str(&p, "paru") {
        if paru_on_path {
            Ok(Some(Helper::Paru))
        } else {
            Err("nog.conf requests `helper = \"paru\"` but paru is not on PATH".to_string())
        }
    } else {
        let mut out: Vec<char> = Vec::new();
        push_str(&mut out, "invalid `[aur] helper` value '");
        push_all(&mut out, &p);
        push_str(&mut out, "'. Expected one of: auto, yay, paru, none");
        Err(string_of(&out))
    }
}

/// Resolve the user's `[aur] helper` preference against the helpers found
/// on `PATH`: the preference is trimmed and lowercased, then chosen as
/// `choose_helper` says.
pub fn detect_helper(preference: &str, yay_on_path: bool, paru_on_path: bool) -> (r: Result<
    Option<Helper>,
    String,
>)
    ensures
        match r {
            Ok(h) => helper_choice(lowercased(trim(preference@)), yay_on_path, paru_on_path)
                == Ok::<Option<Helper>, Seq<char>>(h),
            Err(e) => helper_choice(lowercased(trim(preference@)), yay_on_path, paru_on_path)
                == Err::<Option<Helper>, Seq<char>>(e@),
        },
{
    let p = chars_of(preference);
    let t = string_of(&trim_chars(&p));
    let lower = lowercase(t.as_str());
    choose_helper(lower.as_str(), yay_on_path, paru_on_path)
}

/// The helper of a run. The AUR kill switch outranks the configuration:
/// while the AUR source is switched off there is no helper, whatever the
/// preference says or finds; otherwise the preference is resolved as
/// `detect_helper` does.
pub fn resolve_helper(aur_active: bool, preference: &str, yay_on_path: bool, paru_on_path: bool) -> (r:
    Result<Option<Helper>, String>)
    ensures
        !aur_active ==> r matches Ok(None),
        aur_active ==> match r {
            Ok(h) => helper_choice(lowercased(trim(preference@)), yay_on_path, paru_on_path)
                == Ok::<Option<Helper>, Seq<char>>(h),
            Err(e) => helper_choice(lowercased(trim(preference@)), yay_on_path, paru_on_path)
                == Err::<Option<Helper>, Seq<char>>(e@),
        },
{
    if !aur_active {
        return Ok(None);
    }
    detect_helper(preference, yay_on_path, paru_on_path)
}

/// The message of a failed `-Qua` query: trimmed stderr, or the exit status.
pub open spec fn query_message(h: Helper, status: Seq<char>, stderr: Seq<char>) -> Seq<char> {
    if trim(stderr).len() > 0 {
        trim(stderr)
    } else {
        helper_binary(h) + " -Qua exited with status "@ + status
    }
}

/// Interpret a finished `<helper> -Qua` run. Blank stdout means no AUR
/// updates whatever the exit status (the helpers exit 1 then); otherwise a
/// failed run is an error and a successful one lists the updates.
pub fn pending_from_query(helper: Helper, success: bool, status: &str, stdout: &str, stderr: &str) -> (r:
    Result<Vec<PendingUpdate>, String>)
    ensures
        trim(stdout@).len() == 0 ==> (r matches Ok(v) && v@.len() == 0),
        trim(stdout@).len() > 0 && !success ==> (r matches Err(m) && m@ == query_message(
            helper,
            status@,
            stderr@,
        )),
        trim(stdout@).len() > 0 && success ==> (r matches Ok(v) && pending_views(v@)
            == pending_list(lines(stdout@))),
{
    let out = chars_of(stdout);
    if trim_chars(&out).len() == 0 {
        return Ok(Vec::new());
    }
    if !success {
        let e = chars_of(stderr);
        let msg = trim_chars(&e);
        if msg.len() > 0 {
            return Err(string_of(&msg));
        }
        let mut m: Vec<char> = Vec::new();
        push_str(&mut m, helper.binary());
        push_str(&mut m, " -Qua exited with status ");
        push_str(&mut m, status);
        return Err(string_of(&m));
    }
    Ok(parse_pending_lines(stdout))
}

/// `<helper> -S <packages>`: install, sync repositories first, then the AUR.
pub fn install_args(packages: &[String]) -> (r: Vec<String>)
    ensures
        views(r@) == seq!["-S"@] + views(packages@),
{
    let head = ["-S"];
    let r = command_args(&head, packages);
    assert(head@.map_values(|s: &str| s@) =~= seq!["-S"@]);
    r
}

/// `<helper> -Sai <packages>`: AUR information for each package.
pub fn info_args(packages: &[String]) -> (r: Vec<String>)
    ensures
        views(r@) == seq!["-Sai"@] + views(packages@),
{
    let head = ["-Sai"];
    let r = command_args(&head, packages);
    assert(head@.map_values(|s: &str| s@) =~= seq!["-Sai"@]);
    r
}

/// Scanning state of `-Sai` output: the package the current block is about,
/// and the `(name, Last Modified text)` pairs found so far.
pub type InfoScan = (Option<Seq<char>>, Seq<(Seq<char>, Seq<char>)>);

/// One line of `-Sai` output. A blank line ends a package block; `Name`
/// starts one; `Last Modified` within a named block is recorded. Keys and
/// values are split at the first colon and trimmed.
pub open spec fn info_step(st: InfoScan, line: Seq<char>) -> InfoScan {
    if trim(line).len() == 0 {
        (None, st.1)
    } else {
        match split_once(line, ':') {
            Some((k, v)) => if trim(k) == "Name"@ {
                (Some(trim(v)), st.1)
            } else if trim(k) == "Last Modified"@ {
                match st.0 {
                    Some(n) => (st.0, st.1.push((n, trim(v)))),
                    None => st,
                }
            } else {
                st
            },
            None => st,
        }
    }
}

pub open spec fn info_scan(ls: Seq<Seq<char>>) -> InfoScan
    decreases ls.len(),
{
    if ls.len() == 0 {
        (None, seq![])
    } else {
        info_step(info_scan(ls.drop_last()), ls.last())
    }
}

pub open spec fn pair_views(v: Seq<(String, String)>) -> Seq<(Seq<char>, Seq<char>)> {
    v.map_values(|p: (String, String)| (p.0@, p.1@))
}

/// The `Last Modified` text of each package block in a helper's `-Sai`
/// output, in output order.
pub fn last_modified_entries(stdout: &str) -> (r: Vec<(String, String)>)
    ensures
        pair_views(r@) == info_scan(lines(stdout@)).1,
{
    let text = chars_of(stdout);
    let ls = lines_of(&text);
    let ghost lv = cviews(ls@);
    let mut current: Option<Vec<char>> = None;
    let mut out: Vec<(String, String)> = Vec::new();
    let mut i: usize = 0;
    while i < ls.len()
        invariant
            i <= ls.len(),
            lv == cviews(ls@),
            lv == lines(stdout@),
            info_scan(lv.take(i as int)) == (
                match current {
                    Some(v) => Some(v@),
                    None => None::<Seq<char>>,
                },
                pair_views(out@),
            ),
        decreases ls.len() - i,
    {
        assert(lv.take(i + 1).drop_last() =~= lv.take(i as int));
        assert(lv.take(i + 1).last() == ls@[i as int]@);
        let line = &ls[i];
        if trim_chars(line).len() == 0 {
            current = None;
        } else {
            match split_once_char(line, ':') {
                Some((k, v)) => {
                    let key = trim_chars(&k);
                    let val = trim_chars(&v);
                    if same_str(&key, "Name") {
                        current = Some(val);
                    } else if same_str(&key, "Last Modified") {
                        match &current {
                            Some(n) => {
                                let ghost before = pair_views(out@);
                                let entry = (string_of(n), string_of(&val));
                                out.push(entry);
                                assert(pair_views(out@) =~= before.push((n@, val@)));
                            },
                            None => {},
                        }
                    }
                },
                None => {},
            }
        }
        i += 1;
    }
    assert(lv.take(i as int) =~= lv);
    out
}

/// `date -d <text> +%s` output: the trimmed text as a `u64`.
pub fn parse_epoch(stdout: &str) -> (r: Option<u64>)
    ensures
        r == parse_u64_spec(trim(stdout@)),
{
    let c = chars_of(stdout);
    let t = trim_chars(&c);
    parse_u64(&t)
}

pub open spec fn dates_map(entries: Seq<(Seq<char>, Seq<char>)>, stamps: Seq<Option<u64>>) -> Map<
    Seq<char>,
    u64,
>
    decreases entries.len(),
{
    if entries.len() == 0 {
        Map::empty()
    } else {
        let rest = dates_map(entries.drop_last(), stamps);
        match stamps[entries.len() - 1] {
            Some(ts) => rest.insert(entries.last().0, ts),
            None => rest,
        }
    }
}

/// The build-date map of the AUR packages: each `Last Modified` entry whose
/// text converted to a timestamp (`stamps[i]` for `entries[i]`); a later
/// entry of the same package wins.
pub fn collect_build_dates(entries: &Vec<(String, String)>, stamps: &Vec<Option<u64>>) -> (t:
    NameTable<u64>)
    requires
        entries@.len() == stamps@.len(),
    ensures
        t@ == dates_map(pair_views(entries@), stamps@),
{
    let ghost ev = pair_views(entries@);
    let mut t: NameTable<u64> = NameTable::new();
    let mut i: usize = 0;
    while i < entries.len()
        invariant
            i <= entries.len(),
            entries@.len() == stamps@.len(),
            ev == pair_views(entries@),
            t@ == dates_map(ev.take(i as int), stamps@),
        decreases entries.len() - i,
    {
        assert(ev.take(i + 1).drop_last() =~= ev.take(i as int));
        match stamps[i] {
            Some(ts) => {
                t.insert(entries[i].0.clone(), ts);
            },
            None => {},
        }
        i += 1;
    }
    assert(ev.take(i as int) =~= ev);
    t
}

} // verus!
