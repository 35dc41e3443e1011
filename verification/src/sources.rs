//! Source kill switches.
//!
//! `nog deactivate <source>` / `nog activate <source>` flip a per-source
//! flag persisted in `/etc/nog/sources.toml`. A missing file leaves every
//! source active; a file that cannot be parsed turns every source off (fail
//! closed). The `chaotic-aur` switch also comments its section out of
//! `pacman.conf` (or back in), marking each line it touches with `#nog# ` so
//! that activation restores exactly what nog disabled and nothing else.
use crate::text::{
    chars_of, concat, concat_chars, cviews, is_ws, lemma_concat_pieces, lemma_pieces_of_concat,
    lemma_trim_end_concat, lemma_trim_end_keeps_head, lemma_trim_idempotent,
    lemma_trim_of_trim_end, lemma_trim_start_head, pieces, pieces_of, push_all, push_str, same,
    starts_with, string_of, strip_prefix_str, trim, trim_chars, trim_end, trim_start,
    trim_start_chars,
};
use vstd::prelude::*;

verus! {

/// Where the source switches are kept.
pub const DEFAULT_PATH: &'static str = "/etc/nog/sources.toml";

/// Prefix nog puts on each `pacman.conf` line of a section it disables.
pub const REPO_MARKER: &'static str = "#nog# ";

/// The persisted switch of every package source.
#[derive(Debug, Clone, Copy, PartialEq, Eq, Structural)]
pub struct SourceState {
    pub aur: bool,
    pub chaotic_aur: bool,
    pub flatpak: bool,
    pub snap: bool,
}

impl Default for SourceState {
    /// Every source active: the state of a missing file.
    fn default() -> (s: SourceState)
        ensures
            s == (SourceState { aur: true, chaotic_aur: true, flatpak: true, snap: true }),
    {
        SourceState { aur: true, chaotic_aur: true, flatpak: true, snap: true }
    }
}

/// A package source that can be switched.
#[derive(Debug, Clone, Copy, PartialEq, Eq, Structural)]
pub enum Source {
    Aur,
    ChaoticAur,
    Flatpak,
    Snap,
}

pub open spec fn flag_of(s: SourceState, src: Source) -> bool {
    match src {
        Source::Aur => s.aur,
        Source::ChaoticAur => s.chaotic_aur,
        Source::Flatpak => s.flatpak,
        Source::Snap => s.snap,
    }
}

impl SourceState {
    /// The switch of one source.
    pub fn flag(&self, src: Source) -> (b: bool)
        ensures
            b == flag_of(*self, src),
    {
        match src {
            Source::Aur => self.aur,
            Source::ChaoticAur => self.chaotic_aur,
            Source::Flatpak => self.flatpak,
            Source::Snap => self.snap,
        }
    }

    /// The state with one switch set; every other switch unchanged.
    pub fn with_flag(&self, src: Source, on: bool) -> (s: SourceState)
        ensures
            flag_of(s, src) == on,
            forall|o: Source| o != src ==> flag_of(s, o) == flag_of(*self, o),
    {
        let mut s = *self;
        match src {
            Source::Aur => s.aur = on,
            Source::ChaoticAur => s.chaotic_aur = on,
            Source::Flatpak => s.flatpak = on,
            Source::Snap => s.snap = on,
        }
        s
    }
}

/// The state a load ends with: the parsed file; every source active when
/// there is no file (`None`); every source off when the file does not
/// parse.
pub fn resolve_loaded(parsed: Option<Result<SourceState, String>>) -> (s: SourceState)
    ensures
        match parsed {
            None => s == SourceState { aur: true, chaotic_aur: true, flatpak: true, snap: true },
            Some(Ok(p)) => s == p,
            Some(Err(_)) => s == SourceState {
                aur: false,
                chaotic_aur: false,
                flatpak: false,
                snap: false,
            },
        },
{
    match parsed {
        None => SourceState { aur: true, chaotic_aur: true, flatpak: true, snap: true },
        Some(Ok(p)) => p,
        Some(Err(_)) => SourceState { aur: false, chaotic_aur: false, flatpak: false, snap: false },
    }
}

pub open spec fn bool_text(b: bool) -> Seq<char> {
    if b {
        "true"@
    } else {
        "false"@
    }
}

/// The canonical `sources.toml` text of a state.
pub open spec fn render_spec(s: SourceState) -> Seq<char> {
    "# Managed by `nog activate <source>` / `nog deactivate <source>`.\n"@
        + "# A missing file or missing key means the source is ACTIVE.\n"@ + "[sources]\n"@
        + "aur = "@ + bool_text(s.aur) + "\n"@ + "\"chaotic-aur\" = "@ + bool_text(s.chaotic_aur)
        + "\n"@ + "flatpak = "@ + bool_text(s.flatpak) + "\n"@ + "snap = "@ + bool_text(s.snap)
        + "\n"@
}

fn push_bool(out: &mut Vec<char>, b: bool)
    ensures
        final(out)@ == old(out)@ + bool_text(b),
{
    if b {
        push_str(out, "true");
    } else {
        push_str(out, "false");
    }
}

/// Render the canonical file content for a state.
pub fn render(state: &SourceState) -> (r: String)
    ensures
        r@ == render_spec(*state),
{
    let mut out: Vec<char> = Vec::new();
    push_str(&mut out, "# Managed by `nog activate <source>` / `nog deactivate <source>`.\n");
    push_str(&mut out, "# A missing file or missing key means the source is ACTIVE.\n");
    push_str(&mut out, "[sources]\n");
    push_str(&mut out, "aur = ");
    push_bool(&mut out, state.aur);
    push_str(&mut out, "\n");
    push_str(&mut out, "\"chaotic-aur\" = ");
    push_bool(&mut out, state.chaotic_aur);
    push_str(&mut out, "\n");
    push_str(&mut out, "flatpak = ");
    push_bool(&mut out, state.flatpak);
    push_str(&mut out, "\n");
    push_str(&mut out, "snap = ");
    push_bool(&mut out, state.snap);
    push_str(&mut out, "\n");
    string_of(&out)
}

// ---------------------------------------------------------------------------
// pacman.conf section toggling
// ---------------------------------------------------------------------------

/// Outcome of a `pacman.conf` section toggle.
#[derive(Debug, PartialEq)]
pub enum RepoToggle {
    /// The section was found and flipped; the new file content.
    Changed(String),
    /// The section is already in the requested state.
    AlreadyInState,
    /// No `[repo]` section, active or nog-disabled, exists.
    NotFound,
}

/// `RepoToggle` over character sequences.
pub enum ToggleOutcome {
    Changed(Seq<char>),
    AlreadyInState,
    NotFound,
}

pub open spec fn toggle_view(t: RepoToggle) -> ToggleOutcome {
    match t {
        RepoToggle::Changed(s) => ToggleOutcome::Changed(s@),
        RepoToggle::AlreadyInState => ToggleOutcome::AlreadyInState,
        RepoToggle::NotFound => ToggleOutcome::NotFound,
    }
}

pub open spec fn marker() -> Seq<char> {
    REPO_MARKER@
}

pub open spec fn active_header(repo: Seq<char>) -> Seq<char> {
    seq!['['] + repo + seq![']']
}

pub open spec fn disabled_header(repo: Seq<char>) -> Seq<char> {
    marker() + active_header(repo)
}

/// The first line whose trimmed text is the section header, active or
/// disabled: its index and whether it is active.
pub open spec fn find_section(ls: Seq<Seq<char>>, repo: Seq<char>) -> Option<(int, bool)>
    decreases ls.len(),
{
    if ls.len() == 0 {
        None
    } else {
        match find_section(ls.drop_last(), repo) {
            Some(f) => Some(f),
            None => if trim(ls.last()) == active_header(repo) {
                Some((ls.len() - 1, true))
            } else if trim(ls.last()) == disabled_header(repo) {
                Some((ls.len() - 1, false))
            } else {
                None
            },
        }
    }
}

/// A line as the section scan sees it: trimmed, one marker dropped, trimmed
/// again, so that a disabled section does not hide the next header.
pub open spec fn logical(raw: Seq<char>) -> Seq<char> {
    let t = trim(raw);
    if starts_with(t, marker()) {
        trim(t.skip(marker().len() as int))
    } else {
        trim(t)
    }
}

pub open spec fn is_header(t: Seq<char>) -> bool {
    t.len() > 0 && t[0] == '[' && t.last() == ']'
}

/// The first section header at or after line `i`, or the end of the file.
pub open spec fn next_header(ls: Seq<Seq<char>>, i: int) -> int
    decreases ls.len() - i,
{
    if i >= ls.len() {
        ls.len() as int
    } else if is_header(logical(ls[i])) {
        i
    } else {
        next_header(ls, i + 1)
    }
}

/// One line of the section, toggled. Enabling strips the marker from a
/// line that (after leading whitespace) carries it; disabling marks every
/// line that is not blank.
pub open spec fn toggled(raw: Seq<char>, enable: bool) -> Seq<char> {
    if enable {
        let ts = trim_start(raw);
        if starts_with(ts, marker()) {
            ts.skip(marker().len() as int)
        } else {
            raw
        }
    } else if trim(raw).len() > 0 {
        marker() + raw
    } else {
        raw
    }
}

/// The lines with those in `[s, e)` toggled.
pub open spec fn toggle_lines(ls: Seq<Seq<char>>, s: int, e: int, enable: bool) -> Seq<Seq<char>> {
    Seq::new(
        ls.len(),
        |i: int|
            if s <= i && i < e {
                toggled(ls[i], enable)
            } else {
                ls[i]
            },
    )
}

/// The toggle over the file's lines, each with its own line break, so
/// that every byte outside the section is kept as it was.
pub open spec fn toggle_spec(conf: Seq<char>, repo: Seq<char>, enable: bool) -> ToggleOutcome {
    let ls = pieces(conf);
    match find_section(ls, repo) {
        None => ToggleOutcome::NotFound,
        Some((s, active)) => if active == enable {
            ToggleOutcome::AlreadyInState
        } else {
            ToggleOutcome::Changed(
                concat(toggle_lines(ls, s, next_header(ls, s + 1), enable)),
            )
        },
    }
}

fn logical_exec(raw: &Vec<char>) -> (r: Vec<char>)
    ensures
        r@ == logical(raw@),
{
    let t = trim_chars(raw);
    match strip_prefix_str(&t, REPO_MARKER) {
        Some(rest) => trim_chars(&rest),
        None => trim_chars(&t),
    }
}

fn is_header_exec(t: &Vec<char>) -> (b: bool)
    ensures
        b == is_header(t@),
{
    t.len() > 0 && t[0] == '[' && t[t.len() - 1] == ']'
}

fn toggled_exec(raw: &Vec<char>, enable: bool) -> (r: Vec<char>)
    ensures
        r@ == toggled(raw@, enable),
{
    if enable {
        let ts = trim_start_chars(raw);
        match strip_prefix_str(&ts, REPO_MARKER) {
            Some(rest) => rest,
            None => {
                let mut c: Vec<char> = Vec::new();
                push_all(&mut c, raw);
                c
            },
        }
    } else if trim_chars(raw).len() > 0 {
        let mut c: Vec<char> = Vec::new();
        push_str(&mut c, REPO_MARKER);
        push_all(&mut c, raw);
        c
    } else {
        let mut c: Vec<char> = Vec::new();
        push_all(&mut c, raw);
        c
    }
}

/// Comment a `[repo]` section in or out of `pacman.conf` text.
///
/// Disabling prefixes every non-blank line of the section (its header up to
/// the line before the next section header) with `#nog# `; enabling strips
/// exactly that prefix. Blank lines and every byte outside the section,
/// line breaks included, are kept as they are.
pub fn toggle_repo_section(conf: &str, repo: &str, enable: bool) -> (r: RepoToggle)
    ensures
        toggle_view(r) == toggle_spec(conf@, repo@, enable),
{
    let text = chars_of(conf);
    let ls = pieces_of(&text);
    let ghost lv = cviews(ls@);
    let mut active: Vec<char> = Vec::new();
    active.push('[');
    push_str(&mut active, repo);
    active.push(']');
    let mut disabled: Vec<char> = Vec::new();
    push_str(&mut disabled, REPO_MARKER);
    push_all(&mut disabled, &active);
    assert(active@ =~= active_header(repo@));
    assert(disabled@ =~= disabled_header(repo@));

    let mut i: usize = 0;
    let mut found: Option<(usize, bool)> = None;
    assert(lv.take(ls.len() as int) =~= lv);
    while i < ls.len()
        invariant_except_break
            found is None,
        invariant
            i <= ls.len(),
            lv.take(ls.len() as int) == lv,
            lv == cviews(ls@),
            active@ == active_header(repo@),
            disabled@ == disabled_header(repo@),
            find_section(lv.take(i as int), repo@) is None,
        ensures
            match found {
                Some((s, a)) => find_section(lv, repo@) == Some((s as int, a)) && s < ls.len(),
                None => find_section(lv, repo@) is None,
            },
        decreases ls.len() - i,
    {
        assert(lv.take(i + 1).drop_last() =~= lv.take(i as int));
        assert(lv.take(i + 1).last() == ls@[i as int]@);
        let t = trim_chars(&ls[i]);
        if same(&t, &active) {
            found = Some((i, true));
            proof {
                lemma_find_section_prefix(lv, repo@, i + 1);
            }
            break;
        }
        if same(&t, &disabled) {
            found = Some((i, false));
            proof {
                lemma_find_section_prefix(lv, repo@, i + 1);
            }
            break;
        }
        i += 1;
    }
    let (start, currently_active) = match found {
        None => {
            return RepoToggle::NotFound;
        },
        Some(f) => f,
    };
    if currently_active == enable {
        return RepoToggle::AlreadyInState;
    }
    let mut end = start + 1;
    while end < ls.len()
        invariant
            start < end <= ls.len(),
            lv == cviews(ls@),
            next_header(lv, start + 1) == next_header(lv, end as int),
        ensures
            next_header(lv, start + 1) == end as int,
        decreases ls.len() - end,
    {
        let lg = logical_exec(&ls[end]);
        assert(lv[end as int] == ls@[end as int]@);
        if is_header_exec(&lg) {
            break;
        }
        end += 1;
    }
    let ghost want = toggle_lines(lv, start as int, end as int, enable);
    let mut out: Vec<Vec<char>> = Vec::new();
    let mut j: usize = 0;
    while j < ls.len()
        invariant
            j <= ls.len(),
            lv == cviews(ls@),
            want == toggle_lines(lv, start as int, end as int, enable),
            cviews(out@) == want.take(j as int),
        decreases ls.len() - j,
    {
        let ghost before = cviews(out@);
        if start <= j && j < end {
            let t = toggled_exec(&ls[j], enable);
            out.push(t);
        } else {
            let mut c: Vec<char> = Vec::new();
            push_all(&mut c, &ls[j]);
            out.push(c);
        }
        assert(cviews(out@) =~= before.push(want[j as int]));
        assert(want.take(j + 1) =~= want.take(j as int).push(want[j as int]));
        j += 1;
    }
    assert(want.take(j as int) =~= want);
    let joined = concat_chars(&out);
    RepoToggle::Changed(string_of(&joined))
}

proof fn lemma_find_section_prefix(ls: Seq<Seq<char>>, repo: Seq<char>, k: int)
    requires
        0 <= k <= ls.len(),
        find_section(ls.take(k), repo) is Some,
    ensures
        find_section(ls, repo) == find_section(ls.take(k), repo),
    decreases ls.len() - k,
{
    if k < ls.len() {
        assert(ls.take(k + 1).drop_last() =~= ls.take(k));
        lemma_find_section_prefix(ls, repo, k + 1);
    } else {
        assert(ls.take(k) =~= ls);
    }
}

// ---------------------------------------------------------------------------
// Laws of the section toggle
// ---------------------------------------------------------------------------

proof fn lemma_marker()
    ensures
        marker().len() == 6,
        marker()[0] == '#',
        !is_ws(marker()[0]),
        !marker().contains('\n'),
        !marker().contains('\r'),
        marker() != Seq::<char>::empty(),
{
    reveal_strlit("#nog# ");
    assert(marker() =~= seq!['#', 'n', 'o', 'g', '#', ' ']);
}

proof fn lemma_find_section_first(ls: Seq<Seq<char>>, repo: Seq<char>)
    requires
        find_section(ls, repo) is Some,
    ensures
        ({
            let (s, a) = find_section(ls, repo)->0;
            &&& 0 <= s < ls.len()
            &&& find_section(ls.take(s), repo) is None
            &&& trim(ls[s]) == if a {
                active_header(repo)
            } else {
                disabled_header(repo)
            }
        }),
    decreases ls.len(),
{
    let pre = ls.drop_last();
    if find_section(pre, repo) is Some {
        lemma_find_section_first(pre, repo);
        let (s, _) = find_section(pre, repo)->0;
        assert(pre.take(s) =~= ls.take(s));
        assert(pre[s] == ls[s]);
    } else {
        assert(ls.take(ls.len() - 1) =~= pre);
    }
}

proof fn lemma_find_section_at(ls: Seq<Seq<char>>, repo: Seq<char>, s: int, a: bool)
    requires
        0 <= s < ls.len(),
        find_section(ls.take(s), repo) is None,
        trim(ls[s]) == if a {
            active_header(repo)
        } else {
            disabled_header(repo)
        },
    ensures
        find_section(ls, repo) == Some((s, a)),
{
    lemma_marker();
    assert(ls.take(s + 1).drop_last() =~= ls.take(s));
    assert(ls.take(s + 1).last() == ls[s]);
    if !a {
        assert(active_header(repo)[0] == '[');
        assert(disabled_header(repo)[0] == '#');
    }
    assert(find_section(ls.take(s + 1), repo) == Some((s, a)));
    lemma_find_section_prefix(ls, repo, s + 1);
}

proof fn lemma_next_header_facts(ls: Seq<Seq<char>>, k: int)
    requires
        0 <= k <= ls.len(),
    ensures
        k <= next_header(ls, k) <= ls.len(),
        forall|i: int| k <= i < next_header(ls, k) ==> !is_header(logical(#[trigger] ls[i])),
        next_header(ls, k) < ls.len() ==> is_header(logical(ls[next_header(ls, k)])),
    decreases ls.len() - k,
{
    if k < ls.len() && !is_header(logical(ls[k])) {
        lemma_next_header_facts(ls, k + 1);
    }
}

proof fn lemma_next_header_is(ls: Seq<Seq<char>>, k: int, e: int)
    requires
        0 <= k <= e <= ls.len(),
        forall|i: int| k <= i < e ==> !is_header(logical(#[trigger] ls[i])),
        e < ls.len() ==> is_header(logical(ls[e])),
    ensures
        next_header(ls, k) == e,
    decreases e - k,
{
    if k < e {
        lemma_next_header_is(ls, k + 1, e);
    }
}

/// A marked non-blank line trims to the marker and the line's trimmed end,
/// and the section scan sees through the marker.
proof fn lemma_marked_line(raw: Seq<char>)
    requires
        trim(raw).len() > 0,
    ensures
        trim(marker() + raw) == marker() + trim_end(raw),
        logical(marker() + raw) == trim(raw),
        toggled(marker() + raw, true) == raw,
{
    lemma_marker();
    let m = marker();
    lemma_trim_of_trim_end(raw);
    assert(trim_end(raw).len() > 0) by {
        if trim_end(raw).len() == 0 {
            assert(trim_end(raw) =~= Seq::<char>::empty());
            assert(trim(Seq::<char>::empty()) =~= Seq::<char>::empty());
        }
    }
    assert((m + raw)[0] == '#');
    assert(trim_start(m + raw) == m + raw);
    lemma_trim_end_concat(m, raw);
    let t = m + trim_end(raw);
    assert(t.take(6) =~= m);
    assert(t.skip(6) =~= trim_end(raw));
    assert((m + raw).take(6) =~= m);
    assert((m + raw).skip(6) =~= raw);
}

/// A line that is not a section header stays one after marking.
proof fn lemma_marked_not_header(raw: Seq<char>)
    requires
        trim(raw).len() > 0,
        !is_header(logical(raw)),
    ensures
        !is_header(logical(marker() + raw)),
{
    lemma_marked_line(raw);
    lemma_marker();
    let t0 = trim(raw);
    if is_header(t0) {
        assert(!starts_with(t0, marker())) by {
            assert(t0.take(6)[0] == '[');
        }
        lemma_trim_idempotent(raw);
    }
}

/// Enabling leaves a blank line alone.
proof fn lemma_blank_line(raw: Seq<char>)
    requires
        trim(raw).len() == 0,
    ensures
        toggled(raw, true) == raw,
        toggled(raw, false) == raw,
{
    lemma_marker();
    lemma_trim_start_head(raw);
    if trim_start(raw).len() > 0 {
        lemma_trim_end_keeps_head(trim_start(raw));
    }
}

/// A text nog can restore exactly: the section header of `repo` is active
/// and starts its line.
pub open spec fn restorable(conf: Seq<char>, repo: Seq<char>) -> bool {
    find_section(pieces(conf), repo) matches Some((s, a)) && a && trim_start(pieces(conf)[s])
        == pieces(conf)[s]
}

/// Deactivating a section and activating it again gives back the exact
/// original text; between the two, deactivating again changes nothing; and
/// activating an active section changes nothing either. Every line outside
/// the section, its line break included, is the same in the deactivated
/// text.
pub proof fn lemma_toggle_roundtrip(conf: Seq<char>, repo: Seq<char>)
    requires
        restorable(conf, repo),
    ensures
        toggle_spec(conf, repo, true) == ToggleOutcome::AlreadyInState,
        toggle_spec(conf, repo, false) is Changed,
        ({
            let d = toggle_spec(conf, repo, false)->Changed_0;
            let (s, _) = find_section(pieces(conf), repo)->0;
            let e = next_header(pieces(conf), s + 1);
            &&& toggle_spec(d, repo, true) == ToggleOutcome::Changed(conf)
            &&& toggle_spec(d, repo, false) == ToggleOutcome::AlreadyInState
            &&& pieces(d).len() == pieces(conf).len()
            &&& forall|i: int|
                0 <= i < pieces(conf).len() && !(s <= i < e) ==> #[trigger] pieces(d)[i]
                    == pieces(conf)[i]
        }),
{
    lemma_marker();
    let ls = pieces(conf);
    lemma_concat_pieces(conf);
    lemma_find_section_first(ls, repo);
    let (s, _) = find_section(ls, repo)->0;
    lemma_next_header_facts(ls, s + 1);
    let e = next_header(ls, s + 1);
    let out = toggle_lines(ls, s, e, false);
    let d = concat(out);
    // the disabled pieces are still well formed
    assert forall|i: int| 0 <= i < out.len() implies {
        &&& (#[trigger] out[i]).len() > 0
        &&& !out[i].drop_last().contains('\n')
        &&& (i < out.len() - 1 ==> out[i].last() == '\n')
    } by {
        assert(ls[i].len() > 0);
        if s <= i < e && trim(ls[i]).len() > 0 {
            assert(out[i] == marker() + ls[i]);
            assert((marker() + ls[i]).drop_last() =~= marker() + ls[i].drop_last());
            assert((marker() + ls[i]).last() == ls[i].last());
            if (marker() + ls[i].drop_last()).contains('\n') {
                let k = choose|k: int| 0 <= k < (marker() + ls[i].drop_last()).len() && (marker() + ls[i].drop_last())[k] == '\n';
                if k < 6 {
                    assert(marker()[k] == '\n');
                } else {
                    assert(ls[i].drop_last()[k - 6] == '\n');
                }
            }
        } else {
            assert(out[i] == ls[i]);
        }
    }
    lemma_pieces_of_concat(out);
    assert(pieces(d) == out);
    // the disabled text finds the disabled header at the same line
    let raw = ls[s];
    assert(trim(raw) == trim_end(raw));
    assert(trim(raw).len() > 0) by {
        assert(active_header(repo).len() > 0);
    }
    lemma_marked_line(raw);
    assert(out[s] == marker() + raw);
    assert(trim(out[s]) =~= disabled_header(repo));
    assert(out.take(s) =~= ls.take(s));
    lemma_find_section_at(out, repo, s, false);
    // the section ends at the same line
    assert forall|i: int| s + 1 <= i < e implies !is_header(logical(#[trigger] out[i])) by {
        if trim(ls[i]).len() > 0 {
            lemma_marked_not_header(ls[i]);
        } else {
            assert(out[i] == ls[i]);
        }
    }
    if e < ls.len() {
        assert(out[e] == ls[e]);
    }
    lemma_next_header_is(out, s + 1, e);
    // enabling restores every line
    let back = toggle_lines(out, s, e, true);
    assert forall|i: int| 0 <= i < ls.len() implies #[trigger] back[i] == ls[i] by {
        if s <= i < e {
            if trim(ls[i]).len() > 0 {
                lemma_marked_line(ls[i]);
            } else {
                lemma_blank_line(ls[i]);
            }
        }
    }
    assert(back =~= ls);
}

} // verus!
