//! Reboot advice after an update.
//!
//! nog checks the machine where it can and names the package where it
//! cannot. Every piece of advice is one of two kinds and says which:
//! [`Basis::Verified`] (nog compared the running system with what is now
//! installed and they differ) or [`Basis::Installed`] (nog confirmed the
//! install but cannot ask what is running). nog recommends; it never
//! reboots anything. Probing the system is left to the caller, which hands
//! the findings over as a [`SystemProbe`].
use crate::table::NameTable;
use crate::text::{
    chars_of, contains_char, contains_seq, contains_str, cviews, ends_with, ends_with_str,
    find_first, find_first_char, is_ascii_digit, is_digit, join, join_chars, lines, lines_of,
    push_all, push_str, same, same_str, slice, split, split_char, split_once, split_once_char,
    starts_with, starts_with_str, str_eq, string_of, strip_prefix_str, trim, trim_chars, views,
    words, words_of,
};
use vstd::prelude::*;

verus! {

/// What a package's update calls for.
#[derive(Debug, Clone, Copy, PartialEq, Eq, Structural)]
pub enum Restart {
    /// The running kernel, or a module loaded into it, was replaced.
    Reboot,
    /// A display or session component was replaced; logging out is enough.
    Session,
}

/// Why nog says it.
#[derive(Debug, Clone, PartialEq, Eq)]
pub enum Basis {
    /// nog observed the difference: what runs and what is installed.
    Verified { running: String, installed: String },
    /// nog confirmed the install but cannot inspect the running system.
    Installed,
}

/// One reason to restart, tied to the package that caused it.
#[derive(Debug, Clone, PartialEq, Eq)]
pub struct Advice {
    pub package: String,
    pub restart: Restart,
    pub basis: Basis,
    /// Plain-language consequence, shown only for verified findings.
    pub detail: String,
}

impl Advice {
    pub fn is_verified(&self) -> (b: bool)
        ensures
            b == self.basis is Verified,
    {
        match self.basis {
            Basis::Verified { .. } => true,
            Basis::Installed => false,
        }
    }
}

/// What nog read from the running system after the handoff.
pub struct SystemProbe {
    /// Does `/usr/lib/modules/<uname -r>/` still exist? `None`: could not look.
    pub running_kernel_present: Option<bool>,
    /// The running kernel release, for reporting only.
    pub running_kernel: Option<String>,
    /// Driver version from `/proc/driver/nvidia/version`; `None` when no
    /// NVIDIA module is loaded or the file was unreadable.
    pub nvidia_running: Option<String>,
    /// Version reported by `systemctl --version`.
    pub systemd_running: Option<String>,
    /// `pacman -Q` for the candidate packages, read after the handoff.
    pub installed_now: NameTable<String>,
}

impl Default for SystemProbe {
    /// A probe that saw nothing.
    fn default() -> (p: SystemProbe)
        ensures
            p.running_kernel_present is None,
            p.running_kernel is None,
            p.nvidia_running is None,
            p.systemd_running is None,
            p.installed_now@ == Map::<Seq<char>, String>::empty(),
    {
        SystemProbe {
            running_kernel_present: None,
            running_kernel: None,
            nvidia_running: None,
            systemd_running: None,
            installed_now: NameTable::new(),
        }
    }
}

// ---------------------------------------------------------------------------
// Classification
// ---------------------------------------------------------------------------

/// Components picked up by logging out, not by rebooting.
pub open spec fn is_session_component(p: Seq<char>) -> bool {
    p == "xorg-server"@ || p == "wayland"@ || p == "dbus"@ || p == "mesa"@
}

pub open spec fn is_nvidia_spec(p: Seq<char>) -> bool {
    let base = if starts_with(p, "lib32-"@) {
        p.skip("lib32-"@.len() as int)
    } else {
        p
    };
    base == "nvidia"@ || starts_with(base, "nvidia-"@)
}

pub open spec fn classify_spec(p: Seq<char>, tier1: Seq<Seq<char>>) -> Option<Restart> {
    if ends_with(p, "-headers"@) {
        None
    } else if is_session_component(p) {
        Some(Restart::Session)
    } else if is_nvidia_spec(p) || ends_with(p, "-dkms"@) {
        Some(Restart::Reboot)
    } else if tier1.contains(p) {
        Some(Restart::Reboot)
    } else {
        None
    }
}

pub open spec fn is_kernel_spec(p: Seq<char>, tier1: Seq<Seq<char>>) -> bool {
    !ends_with(p, "-headers"@) && tier1.contains(p) && (p == "linux"@ || starts_with(p, "linux-"@))
}

fn listed(names: &[String], p: &Vec<char>) -> (b: bool)
    ensures
        b == views(names@).contains(p@),
{
    let ghost nv = views(names@);
    let mut i: usize = 0;
    while i < names.len()
        invariant
            i <= names.len(),
            nv == views(names@),
            forall|j: int| 0 <= j < i ==> nv[j] != p@,
        decreases names.len() - i,
    {
        if same_str(p, names[i].as_str()) {
            assert(nv[i as int] == p@);
            return true;
        }
        i += 1;
    }
    false
}

/// `nvidia`, `nvidia-utils`, `lib32-nvidia-utils`, ...: by name, not by
/// substring.
pub fn is_nvidia(package: &str) -> (b: bool)
    ensures
        b == is_nvidia_spec(package@),
{
    let p = chars_of(package);
    let base = match strip_prefix_str(&p, "lib32-") {
        Some(rest) => rest,
        None => p,
    };
    same_str(&base, "nvidia") || starts_with_str(&base, "nvidia-")
}

/// Is this package one of the kernels: Tier 1, named `linux` or
/// `linux-...`, and not a headers package?
pub fn is_kernel(package: &str, tier1: &[String]) -> (b: bool)
    ensures
        b == is_kernel_spec(package@, views(tier1@)),
{
    let p = chars_of(package);
    if ends_with_str(&p, "-headers") {
        return false;
    }
    listed(tier1, &p) && (same_str(&p, "linux") || starts_with_str(&p, "linux-"))
}

/// Decide whether a package's update is worth mentioning and what it calls
/// for: headers never; session components a logout; NVIDIA and `*-dkms`
/// packages and Tier 1 a reboot.
pub fn classify(package: &str, tier1: &[String]) -> (r: Option<Restart>)
    ensures
        r == classify_spec(package@, views(tier1@)),
{
    let p = chars_of(package);
    if ends_with_str(&p, "-headers") {
        return None;
    }
    if same_str(&p, "xorg-server") || same_str(&p, "wayland") || same_str(&p, "dbus") || same_str(
        &p,
        "mesa",
    ) {
        return Some(Restart::Session);
    }
    if is_nvidia(package) || ends_with_str(&p, "-dkms") {
        return Some(Restart::Reboot);
    }
    if listed(tier1, &p) {
        return Some(Restart::Reboot);
    }
    None
}

// ---------------------------------------------------------------------------
// Parsing probe output
// ---------------------------------------------------------------------------

/// The first line holding `NVRM version`.
pub open spec fn nvrm_line(ls: Seq<Seq<char>>) -> Option<Seq<char>>
    decreases ls.len(),
{
    if ls.len() == 0 {
        None
    } else {
        match nvrm_line(ls.drop_last()) {
            Some(l) => Some(l),
            None => if contains_seq(ls.last(), "NVRM version"@) {
                Some(ls.last())
            } else {
                None
            },
        }
    }
}

/// A dotted-numeric token: starts with a digit, holds a dot, and only
/// digits and dots.
pub open spec fn is_version_token(t: Seq<char>) -> bool {
    &&& t.contains('.')
    &&& forall|i: int| 0 <= i < t.len() ==> is_digit(#[trigger] t[i]) || t[i] == '.'
    &&& t.len() > 0 && is_digit(t[0])
}

pub open spec fn first_version_token(ws: Seq<Seq<char>>) -> Option<Seq<char>>
    decreases ws.len(),
{
    if ws.len() == 0 {
        None
    } else {
        match first_version_token(ws.drop_last()) {
            Some(t) => Some(t),
            None => if is_version_token(ws.last()) {
                Some(ws.last())
            } else {
                None
            },
        }
    }
}

pub open spec fn nvidia_running_spec(text: Seq<char>) -> Option<Seq<char>> {
    match nvrm_line(lines(text)) {
        Some(l) => first_version_token(words(l)),
        None => None,
    }
}

fn version_token(t: &Vec<char>) -> (b: bool)
    ensures
        b == is_version_token(t@),
{
    if t.len() == 0 || !is_ascii_digit(t[0]) {
        return false;
    }
    let mut i: usize = 0;
    while i < t.len()
        invariant
            i <= t.len(),
            forall|j: int| 0 <= j < i ==> is_digit(#[trigger] t@[j]) || t@[j] == '.',
        decreases t.len() - i,
    {
        if !(is_ascii_digit(t[i]) || t[i] == '.') {
            return false;
        }
        i += 1;
    }
    contains_char(t, '.')
}

/// The driver version in `/proc/driver/nvidia/version`: the first
/// dotted-numeric word of the `NVRM version` line, found by its shape since
/// the open and proprietary banners differ.
pub fn parse_nvidia_running(proc_text: &str) -> (r: Option<String>)
    ensures
        match r {
            Some(v) => nvidia_running_spec(proc_text@) == Some(v@),
            None => nvidia_running_spec(proc_text@) is None,
        },
{
    let text = chars_of(proc_text);
    let ls = lines_of(&text);
    let ghost lv = cviews(ls@);
    let mut i: usize = 0;
    let mut found: Option<usize> = None;
    assert(lv.take(ls.len() as int) =~= lv);
    while i < ls.len()
        invariant_except_break
            found is None,
        invariant
            i <= ls.len(),
            lv == cviews(ls@),
            lv.take(ls.len() as int) == lv,
            nvrm_line(lv.take(i as int)) is None,
        ensures
            match found {
                Some(k) => k < ls.len() && nvrm_line(lv) == Some(lv[k as int]),
                None => nvrm_line(lv) is None,
            },
        decreases ls.len() - i,
    {
        assert(lv.take(i + 1).drop_last() =~= lv.take(i as int));
        if contains_str(&ls[i], "NVRM version") {
            found = Some(i);
            assert(nvrm_line(lv.take(i + 1)) == Some(lv[i as int]));
            proof {
                lemma_nvrm_prefix(lv, i + 1);
            }
            break;
        }
        i += 1;
    }
    let k = match found {
        Some(k) => k,
        None => {
            return None;
        },
    };
    assert(lv[k as int] == ls@[k as int]@);
    let ws = words_of(&ls[k]);
    let ghost wv = cviews(ws@);
    assert(nvidia_running_spec(proc_text@) == first_version_token(wv));
    let mut j: usize = 0;
    while j < ws.len()
        invariant
            j <= ws.len(),
            wv == cviews(ws@),
            nvidia_running_spec(proc_text@) == first_version_token(wv),
            first_version_token(wv.take(j as int)) is None,
        decreases ws.len() - j,
    {
        assert(wv.take(j + 1).drop_last() =~= wv.take(j as int));
        if version_token(&ws[j]) {
            assert(first_version_token(wv.take(j + 1)) == Some(wv[j as int]));
            proof {
                lemma_token_prefix(wv, j + 1);
            }
            return Some(string_of(&ws[j]));
        }
        j += 1;
    }
    assert(wv.take(j as int) =~= wv);
    None
}

proof fn lemma_nvrm_prefix(ls: Seq<Seq<char>>, k: int)
    requires
        0 <= k <= ls.len(),
        nvrm_line(ls.take(k)) is Some,
    ensures
        nvrm_line(ls) == nvrm_line(ls.take(k)),
    decreases ls.len() - k,
{
    if k < ls.len() {
        assert(ls.take(k + 1).drop_last() =~= ls.take(k));
        lemma_nvrm_prefix(ls, k + 1);
    } else {
        assert(ls.take(k) =~= ls);
    }
}

proof fn lemma_token_prefix(ws: Seq<Seq<char>>, k: int)
    requires
        0 <= k <= ws.len(),
        first_version_token(ws.take(k)) is Some,
    ensures
        first_version_token(ws) == first_version_token(ws.take(k)),
    decreases ws.len() - k,
{
    if k < ws.len() {
        assert(ws.take(k + 1).drop_last() =~= ws.take(k));
        lemma_token_prefix(ws, k + 1);
    } else {
        assert(ws.take(k) =~= ws);
    }
}

/// Does the piece hold an ASCII digit?
pub open spec fn has_digit(p: Seq<char>) -> bool {
    exists|i: int| 0 <= i < p.len() && is_digit(#[trigger] p[i])
}

/// Drop trailing pieces without digits, keeping at least one.
pub open spec fn keep_digit_tail(ps: Seq<Seq<char>>) -> Seq<Seq<char>>
    decreases ps.len(),
{
    if ps.len() > 1 && !has_digit(ps.last()) {
        keep_digit_tail(ps.drop_last())
    } else {
        ps
    }
}

pub open spec fn strip_distro_suffix_spec(v: Seq<char>) -> Seq<char> {
    join(keep_digit_tail(split(v, '-')), "-"@)
}

fn piece_has_digit(p: &Vec<char>) -> (b: bool)
    ensures
        b == has_digit(p@),
{
    let mut i: usize = 0;
    while i < p.len()
        invariant
            i <= p.len(),
            forall|j: int| 0 <= j < i ==> !is_digit(#[trigger] p@[j]),
        decreases p.len() - i,
    {
        if is_ascii_digit(p[i]) {
            return true;
        }
        i += 1;
    }
    false
}

/// `261.2-1-arch` becomes `261.2-1`: trailing hyphen-separated pieces with
/// no digit are distribution suffixes; a real `pkgrel` has digits.
pub fn strip_distro_suffix(version: &str) -> (r: String)
    ensures
        r@ == strip_distro_suffix_spec(version@),
{
    let v = chars_of(version);
    let mut parts = split_char(&v, '-');
    while parts.len() > 1 && !piece_has_digit(&parts[parts.len() - 1])
        invariant
            parts@.len() >= 1,
            keep_digit_tail(cviews(parts@)) == keep_digit_tail(split(version@, '-')),
        decreases parts.len(),
    {
        let ghost before = cviews(parts@);
        parts.pop();
        assert(cviews(parts@) =~= before.drop_last());
    }
    let joined = join_chars(&parts, "-");
    string_of(&joined)
}

pub open spec fn without_pkgrel(v: Seq<char>) -> Seq<char> {
    split(v, '-')[0]
}

/// `610.57.04-1` becomes `610.57.04`: the running driver reports no
/// `pkgrel`.
pub fn version_without_pkgrel(version: &str) -> (r: String)
    ensures
        r@ == without_pkgrel(version@),
{
    let v = chars_of(version);
    let parts = split_char(&v, '-');
    string_of(&parts[0])
}

pub open spec fn systemd_running_spec(out: Seq<char>) -> Option<Seq<char>> {
    let ls = lines(out);
    if ls.len() == 0 {
        None
    } else {
        let first = ls[0];
        match find_first(first, '(') {
            None => None,
            Some(start) => match find_first(first.skip(start), ')') {
                None => None,
                Some(off) => Some(
                    strip_distro_suffix_spec(first.subrange(start + 1, start + off)),
                ),
            },
        }
    }
}

/// The version in `systemctl --version`, whose first line reads
/// `systemd 261 (261.2-1-arch)`: the parenthesised token without its
/// distribution suffix.
pub fn parse_systemd_running(version_output: &str) -> (r: Option<String>)
    ensures
        match r {
            Some(v) => systemd_running_spec(version_output@) == Some(v@),
            None => systemd_running_spec(version_output@) is None,
        },
{
    let text = chars_of(version_output);
    let ls = lines_of(&text);
    if ls.len() == 0 {
        return None;
    }
    let first = &ls[0];
    assert(first@ == lines(version_output@)[0]);
    let start = match find_first_char(first, '(') {
        Some(s) => s,
        None => {
            return None;
        },
    };
    proof {
        crate::text::lemma_find_first_bounds(first@, '(');
    }
    let rest = slice(first, start, first.len());
    assert(rest@ =~= first@.skip(start as int));
    let off = match find_first_char(&rest, ')') {
        Some(o) => o,
        None => {
            return None;
        },
    };
    proof {
        crate::text::lemma_find_first_bounds(rest@, ')');
    }
    assert(rest@[0] == '(');
    let inner = slice(first, start + 1, start + off);
    let s = strip_distro_suffix(string_of(&inner).as_str());
    Some(s)
}

/// `pacman -Q` output: `name version` per line, split at the first space
/// and trimmed; a later line of the same name wins.
pub open spec fn installed_map(ls: Seq<Seq<char>>) -> Map<Seq<char>, Seq<char>>
    decreases ls.len(),
{
    if ls.len() == 0 {
        Map::empty()
    } else {
        match split_once(ls.last(), ' ') {
            Some((n, v)) => installed_map(ls.drop_last()).insert(trim(n), trim(v)),
            None => installed_map(ls.drop_last()),
        }
    }
}

/// Read `pacman -Q <names>` output into a name-to-version table. Lines
/// without a space are skipped.
pub fn parse_installed(stdout: &str) -> (t: NameTable<String>)
    ensures
        forall|k: Seq<char>| #[trigger]
            t@.contains_key(k) <==> installed_map(lines(stdout@)).contains_key(k),
        forall|k: Seq<char>| #[trigger]
            t@.contains_key(k) ==> t@[k]@ == installed_map(lines(stdout@))[k],
{
    let text = chars_of(stdout);
    let ls = lines_of(&text);
    let ghost lv = cviews(ls@);
    let mut t: NameTable<String> = NameTable::new();
    let mut i: usize = 0;
    while i < ls.len()
        invariant
            i <= ls.len(),
            lv == cviews(ls@),
            forall|k: Seq<char>| #[trigger]
                t@.contains_key(k) <==> installed_map(lv.take(i as int)).contains_key(k),
            forall|k: Seq<char>| #[trigger]
                t@.contains_key(k) ==> t@[k]@ == installed_map(lv.take(i as int))[k],
        decreases ls.len() - i,
    {
        assert(lv.take(i + 1).drop_last() =~= lv.take(i as int));
        assert(lv.take(i + 1).last() == ls@[i as int]@);
        match split_once_char(&ls[i], ' ') {
            Some((n, v)) => {
                let name = string_of(&trim_chars(&n));
                let version = string_of(&trim_chars(&v));
                t.insert(name, version);
            },
            None => {},
        }
        i += 1;
    }
    assert(lv.take(i as int) =~= lv);
    t
}

// ---------------------------------------------------------------------------
// Assessment
// ---------------------------------------------------------------------------

/// Advice over character sequences: package, restart, the verified
/// (running, installed) pair if any, and the detail.
pub type AdviceView = (Seq<char>, Restart, Option<(Seq<char>, Seq<char>)>, Seq<char>);

pub open spec fn advice_view(a: Advice) -> AdviceView {
    (
        a.package@,
        a.restart,
        match a.basis {
            Basis::Verified { running, installed } => Some((running@, installed@)),
            Basis::Installed => None,
        },
        a.detail@,
    )
}

pub open spec fn advice_views(s: Seq<Advice>) -> Seq<AdviceView> {
    s.map_values(|a: Advice| advice_view(a))
}

pub open spec fn opt_view(o: Option<String>) -> Option<Seq<char>> {
    match o {
        Some(s) => Some(s@),
        None => None,
    }
}

/// What to say about one cleared package, given what the probe saw.
pub open spec fn advice_for(
    name: Seq<char>,
    nv: Seq<char>,
    tier1: Seq<Seq<char>>,
    probe: SystemProbe,
) -> Option<AdviceView> {
    match classify_spec(name, tier1) {
        None => None,
        Some(restart) => if !(probe.installed_now@.contains_key(name) && probe.installed_now@[name]@
            == nv) {
            None
        } else if is_kernel_spec(name, tier1) && probe.running_kernel_present == Some(true) {
            None
        } else if is_kernel_spec(name, tier1) && probe.running_kernel_present == Some(false) {
            Some(
                (
                    name,
                    Restart::Reboot,
                    Some(
                        (
                            match opt_view(probe.running_kernel) {
                                Some(r) => r,
                                None => "the running kernel"@,
                            },
                            nv,
                        ),
                    ),
                    "the kernel you are running is no longer installed"@,
                ),
            )
        } else if is_nvidia_spec(name) && probe.nvidia_running is Some {
            let running = opt_view(probe.nvidia_running)->0;
            if running == without_pkgrel(nv) {
                None
            } else {
                Some(
                    (
                        name,
                        Restart::Reboot,
                        Some((running, without_pkgrel(nv))),
                        "3D applications will fail until you reboot"@,
                    ),
                )
            }
        } else if (name == "systemd"@ || name == "systemd-libs"@) && probe.systemd_running is Some {
            let running = opt_view(probe.systemd_running)->0;
            if running == strip_distro_suffix_spec(nv) {
                None
            } else {
                Some(
                    (
                        name,
                        Restart::Reboot,
                        Some((running, strip_distro_suffix_spec(nv))),
                        "your machine is still running the old init system"@,
                    ),
                )
            }
        } else {
            Some((name, restart, None, Seq::<char>::empty()))
        },
    }
}

pub open spec fn assess_spec(
    cleared: Seq<(Seq<char>, Seq<char>)>,
    tier1: Seq<Seq<char>>,
    probe: SystemProbe,
) -> Seq<AdviceView>
    decreases cleared.len(),
{
    if cleared.len() == 0 {
        seq![]
    } else {
        let rest = assess_spec(cleared.drop_last(), tier1, probe);
        match advice_for(cleared.last().0, cleared.last().1, tier1, probe) {
            Some(a) => rest.push(a),
            None => rest,
        }
    }
}

pub open spec fn pair_views(v: Seq<(String, String)>) -> Seq<(Seq<char>, Seq<char>)> {
    v.map_values(|p: (String, String)| (p.0@, p.1@))
}

fn advice_one(name: &String, nv: &String, tier1: &[String], probe: &SystemProbe) -> (r: Option<
    Advice,
>)
    ensures
        match r {
            Some(a) => advice_for(name@, nv@, views(tier1@), *probe) == Some(advice_view(a)),
            None => advice_for(name@, nv@, views(tier1@), *probe) is None,
        },
{
    let restart = match classify(name.as_str(), tier1) {
        Some(r) => r,
        None => {
            return None;
        },
    };
    match probe.installed_now.get(name.as_str()) {
        Some(now) => {
            if !str_eq(now.as_str(), nv.as_str()) {
                return None;
            }
        },
        None => {
            return None;
        },
    }
    let kernel = is_kernel(name.as_str(), tier1);
    if kernel {
        match probe.running_kernel_present {
            Some(true) => {
                return None;
            },
            Some(false) => {
                let running = match &probe.running_kernel {
                    Some(r) => r.clone(),
                    None => "the running kernel".to_string(),
                };
                return Some(
                    Advice {
                        package: name.clone(),
                        restart: Restart::Reboot,
                        basis: Basis::Verified { running, installed: nv.clone() },
                        detail: "the kernel you are running is no longer installed".to_string(),
                    },
                );
            },
            None => {},
        }
    }
    if is_nvidia(name.as_str()) {
        match &probe.nvidia_running {
            Some(running) => {
                let installed = version_without_pkgrel(nv.as_str());
                if str_eq(running.as_str(), installed.as_str()) {
                    return None;
                }
                return Some(
                    Advice {
                        package: name.clone(),
                        restart: Restart::Reboot,
                        basis: Basis::Verified { running: running.clone(), installed },
                        detail: "3D applications will fail until you reboot".to_string(),
                    },
                );
            },
            None => {},
        }
    }
    if str_eq(name.as_str(), "systemd") || str_eq(name.as_str(), "systemd-libs") {
        match &probe.systemd_running {
            Some(running) => {
                let installed = strip_distro_suffix(nv.as_str());
                if str_eq(running.as_str(), installed.as_str()) {
                    return None;
                }
                return Some(
                    Advice {
                        package: name.clone(),
                        restart: Restart::Reboot,
                        basis: Basis::Verified { running: running.clone(), installed },
                        detail: "your machine is still running the old init system".to_string(),
                    },
                );
            },
            None => {},
        }
    }
    Some(Advice { package: name.clone(), restart, basis: Basis::Installed, detail: String::new() })
}

/// Work out what to tell the user. `cleared` is what nog handed off, as
/// `(name, new_version)`; a package counts only when the probe confirms it
/// reached that version. Kernels are checked against the modules directory,
/// NVIDIA against the loaded driver, systemd against the running init; a
/// package nog cannot check is announced, never claimed.
pub fn assess(cleared: &[(String, String)], tier1: &[String], probe: &SystemProbe) -> (r: Vec<
    Advice,
>)
    ensures
        advice_views(r@) == assess_spec(pair_views(cleared@), views(tier1@), *probe),
{
    let ghost cv = pair_views(cleared@);
    let mut out: Vec<Advice> = Vec::new();
    let mut i: usize = 0;
    while i < cleared.len()
        invariant
            i <= cleared.len(),
            cv == pair_views(cleared@),
            advice_views(out@) == assess_spec(cv.take(i as int), views(tier1@), *probe),
        decreases cleared.len() - i,
    {
        assert(cv.take(i + 1).drop_last() =~= cv.take(i as int));
        assert(cv.take(i + 1).last() == (cleared@[i as int].0@, cleared@[i as int].1@));
        let ghost before = advice_views(out@);
        match advice_one(&cleared[i].0, &cleared[i].1, tier1, probe) {
            Some(a) => {
                out.push(a);
                assert(advice_views(out@) =~= before.push(advice_view(out@.last())));
            },
            None => {},
        }
        i += 1;
    }
    assert(cv.take(i as int) =~= cv);
    out
}

// ---------------------------------------------------------------------------
// Rendering
// ---------------------------------------------------------------------------

/// `glibc was updated this run.` / `glibc and mesa were updated this run.`
pub open spec fn updated_clause_spec(names: Seq<Seq<char>>) -> Seq<char> {
    if names.len() == 0 {
        seq![]
    } else if names.len() == 1 {
        names[0] + " was updated this run."@
    } else {
        join(names.drop_last(), ", "@) + " and "@ + names.last() + " were updated this run."@
    }
}

/// The sentence that names the packages of one kind of advice, with the
/// verb agreeing in number.
pub fn updated_clause(names: &Vec<Vec<char>>) -> (r: Vec<char>)
    ensures
        r@ == updated_clause_spec(cviews(names@)),
{
    let mut out: Vec<char> = Vec::new();
    if names.len() == 0 {
        return out;
    }
    if names.len() == 1 {
        push_all(&mut out, &names[0]);
        push_str(&mut out, " was updated this run.");
        return out;
    }
    let mut head: Vec<Vec<char>> = Vec::new();
    let mut i: usize = 0;
    while i < names.len() - 1
        invariant
            i <= names.len() - 1,
            cviews(head@) == cviews(names@).take(i as int),
        decreases names.len() - 1 - i,
    {
        let ghost before = cviews(head@);
        let mut c: Vec<char> = Vec::new();
        push_all(&mut c, &names[i]);
        head.push(c);
        assert(cviews(head@) =~= before.push(names@[i as int]@));
        assert(cviews(names@).take(i + 1) =~= cviews(names@).take(i as int).push(names@[i as int]@));
        i += 1;
    }
    assert(cviews(names@).take(i as int) =~= cviews(names@).drop_last());
    out = join_chars(&head, ", ");
    push_str(&mut out, " and ");
    push_all(&mut out, &names[names.len() - 1]);
    push_str(&mut out, " were updated this run.");
    out
}

/// The two lines of each verified reboot finding.
pub open spec fn verified_lines(items: Seq<Advice>) -> Seq<Seq<char>>
    decreases items.len(),
{
    if items.len() == 0 {
        seq![]
    } else {
        let rest = verified_lines(items.drop_last());
        let a = items.last();
        match a.basis {
            Basis::Verified { running, installed } => if a.restart == Restart::Reboot {
                rest.push(
                    "    verified — "@ + a.package@ + ": running "@ + running@ + ", installed "@
                        + installed@ + "."@,
                ).push("               "@ + a.detail@ + "."@)
            } else {
                rest
            },
            Basis::Installed => rest,
        }
    }
}

/// Names of the advice items of one restart kind, verified ones included
/// or not.
pub open spec fn names_where(items: Seq<Advice>, kind: Restart, with_verified: bool) -> Seq<Seq<char>>
    decreases items.len(),
{
    if items.len() == 0 {
        seq![]
    } else {
        let rest = names_where(items.drop_last(), kind, with_verified);
        let a = items.last();
        if a.restart == kind && (with_verified || a.basis is Installed) {
            rest.push(a.package@)
        } else {
            rest
        }
    }
}

pub open spec fn reboot_part(items: Seq<Advice>) -> Seq<Seq<char>> {
    if names_where(items, Restart::Reboot, true).len() == 0 {
        seq![]
    } else {
        let announced = names_where(items, Restart::Reboot, false);
        seq!["IMPORTANT: It is highly recommended to reboot the system!"@] + verified_lines(items)
            + if announced.len() == 0 {
            seq![]
        } else {
            seq![
                "    "@ + updated_clause_spec(announced),
                "    nog cannot check these against the running system, so this is"@,
                "    advice, not a finding."@,
            ]
        }
    }
}

pub open spec fn render_spec(items: Seq<Advice>) -> Seq<Seq<char>> {
    let r = reboot_part(items);
    let session = names_where(items, Restart::Session, true);
    if items.len() == 0 {
        seq![]
    } else if session.len() == 0 {
        r
    } else {
        r + (if r.len() > 0 {
            seq![Seq::<char>::empty()]
        } else {
            seq![]
        }) + seq![
            "NOTE: Log out and back in to pick up the new session components."@,
            "    "@ + updated_clause_spec(session),
        ]
    }
}

fn names_where_exec(items: &[Advice], kind: Restart, with_verified: bool) -> (r: Vec<Vec<char>>)
    ensures
        cviews(r@) == names_where(items@, kind, with_verified),
{
    let mut out: Vec<Vec<char>> = Vec::new();
    let mut i: usize = 0;
    while i < items.len()
        invariant
            i <= items.len(),
            cviews(out@) == names_where(items@.take(i as int), kind, with_verified),
        decreases items.len() - i,
    {
        assert(items@.take(i + 1).drop_last() =~= items@.take(i as int));
        let a = &items[i];
        if a.restart == kind && (with_verified || !a.is_verified()) {
            let ghost before = cviews(out@);
            let c = chars_of(a.package.as_str());
            out.push(c);
            assert(cviews(out@) =~= before.push(a.package@));
        }
        i += 1;
    }
    assert(items@.take(i as int) =~= items@);
    out
}

fn verified_lines_exec(items: &[Advice]) -> (r: Vec<String>)
    ensures
        views(r@) == verified_lines(items@),
{
    let mut out: Vec<String> = Vec::new();
    let mut i: usize = 0;
    while i < items.len()
        invariant
            i <= items.len(),
            views(out@) == verified_lines(items@.take(i as int)),
        decreases items.len() - i,
    {
        assert(items@.take(i + 1).drop_last() =~= items@.take(i as int));
        let a = &items[i];
        match &a.basis {
            Basis::Verified { running, installed } => {
                if a.restart == Restart::Reboot {
                    let ghost before = views(out@);
                    let mut l1: Vec<char> = Vec::new();
                    push_str(&mut l1, "    verified — ");
                    push_str(&mut l1, a.package.as_str());
                    push_str(&mut l1, ": running ");
                    push_str(&mut l1, running.as_str());
                    push_str(&mut l1, ", installed ");
                    push_str(&mut l1, installed.as_str());
                    push_str(&mut l1, ".");
                    let mut l2: Vec<char> = Vec::new();
                    push_str(&mut l2, "               ");
                    push_str(&mut l2, a.detail.as_str());
                    push_str(&mut l2, ".");
                    let s1 = string_of(&l1);
                    let s2 = string_of(&l2);
                    out.push(s1);
                    out.push(s2);
                    assert(views(out@) =~= before.push(s1@).push(s2@));
                }
            },
            Basis::Installed => {},
        }
        i += 1;
    }
    assert(items@.take(i as int) =~= items@);
    out
}

fn indented(clause: &Vec<char>) -> (r: String)
    ensures
        r@ == "    "@ + clause@,
{
    let mut l: Vec<char> = Vec::new();
    push_str(&mut l, "    ");
    push_all(&mut l, clause);
    string_of(&l)
}

/// Render the advice as plain lines: the reboot notice (verified findings
/// first, then the announced packages), then the logout note. Nothing at
/// all when there is nothing to say.
pub fn render(items: &[Advice]) -> (r: Vec<String>)
    ensures
        views(r@) == render_spec(items@),
{
    let mut lines: Vec<String> = Vec::new();
    if items.len() == 0 {
        return lines;
    }
    let reboot = names_where_exec(items, Restart::Reboot, true);
    if reboot.len() > 0 {
        lines.push("IMPORTANT: It is highly recommended to reboot the system!".to_string());
        let mut v = verified_lines_exec(items);
        lines.append(&mut v);
        let announced = names_where_exec(items, Restart::Reboot, false);
        if announced.len() > 0 {
            let clause = updated_clause(&announced);
            lines.push(indented(&clause));
            lines.push(
                "    nog cannot check these against the running system, so this is".to_string(),
            );
            lines.push("    advice, not a finding.".to_string());
        }
    }
    assert(views(lines@) =~= reboot_part(items@));
    let session = names_where_exec(items, Restart::Session, true);
    if session.len() > 0 {
        let ghost r = views(lines@);
        if lines.len() > 0 {
            lines.push(String::new());
        }
        lines.push("NOTE: Log out and back in to pick up the new session components.".to_string());
        let clause = updated_clause(&session);
        lines.push(indented(&clause));
        assert(views(lines@) =~= r + (if r.len() > 0 {
            seq![Seq::<char>::empty()]
        } else {
            seq![]
        }) + seq![
            "NOTE: Log out and back in to pick up the new session components."@,
            "    "@ + updated_clause_spec(cviews(session@)),
        ]);
    }
    lines
}

// ---------------------------------------------------------------------------
// Laws
// ---------------------------------------------------------------------------

/// A version whose hyphen-separated pieces after the first all carry a digit
/// has no distribution suffix: it is kept whole, its `pkgrel` included.
pub proof fn lemma_strip_distro_suffix_keeps_pkgrel(v: Seq<char>)
    requires
        forall|k: int| 1 <= k < split(v, '-').len() ==> has_digit(#[trigger] split(v, '-')[k]),
    ensures
        strip_distro_suffix_spec(v) == v,
{
    let ps = split(v, '-');
    crate::text::lemma_split_nonempty(v, '-');
    if ps.len() > 1 {
        assert(has_digit(ps[ps.len() - 1]));
    }
    assert(keep_digit_tail(ps) == ps);
    crate::text::lemma_join_split(v, '-', '-');
    reveal_strlit("-");
    assert("-"@ =~= seq!['-']);
}

/// The running init is checked against the installed systemd version with
/// its `pkgrel`: for a version without a distribution suffix, nothing is
/// said when the running init reports that very version, and otherwise the
/// finding names the running version and the installed one as it is.
pub proof fn lemma_systemd_advice(
    name: Seq<char>,
    nv: Seq<char>,
    tier1: Seq<Seq<char>>,
    probe: SystemProbe,
)
    requires
        name == "systemd"@ || name == "systemd-libs"@,
        tier1.contains(name),
        probe.installed_now@.contains_key(name),
        probe.installed_now@[name]@ == nv,
        probe.systemd_running is Some,
        forall|k: int| 1 <= k < split(nv, '-').len() ==> has_digit(#[trigger] split(nv, '-')[k]),
    ensures
        opt_view(probe.systemd_running) == Some(nv) ==> advice_for(name, nv, tier1, probe) is None,
        opt_view(probe.systemd_running) != Some(nv) ==> advice_for(name, nv, tier1, probe) == Some(
            (
                name,
                Restart::Reboot,
                Some((opt_view(probe.systemd_running)->0, nv)),
                "your machine is still running the old init system"@,
            ),
        ),
{
    lemma_strip_distro_suffix_keeps_pkgrel(nv);
    reveal_strlit("systemd");
    reveal_strlit("systemd-libs");
    reveal_strlit("-headers");
    reveal_strlit("xorg-server");
    reveal_strlit("wayland");
    reveal_strlit("dbus");
    reveal_strlit("mesa");
    reveal_strlit("lib32-");
    reveal_strlit("nvidia");
    reveal_strlit("nvidia-");
    reveal_strlit("-dkms");
    reveal_strlit("linux");
    reveal_strlit("linux-");
    assert(!ends_with(name, "-headers"@)) by {
        if ends_with(name, "-headers"@) {
            assert(name.skip(name.len() - 8)[0] == '-');
        }
    }
    assert(!is_session_component(name)) by {
        assert(name[0] == 's');
        assert("wayland"@[0] == 'w');
    }
    assert(!ends_with(name, "-dkms"@)) by {
        if ends_with(name, "-dkms"@) {
            assert(name.skip(name.len() - 5)[1] == name[name.len() - 4]);
        }
    }
    assert(!starts_with(name, "lib32-"@)) by {
        if starts_with(name, "lib32-"@) {
            assert(name.take(6)[0] == name[0]);
        }
    }
    assert(!is_nvidia_spec(name)) by {
        if starts_with(name, "nvidia-"@) {
            assert(name.take(7)[0] == name[0]);
        }
    }
    assert(classify_spec(name, tier1) == Some(Restart::Reboot));
    assert(!is_kernel_spec(name, tier1)) by {
        if starts_with(name, "linux-"@) {
            assert(name.take(6)[0] == name[0]);
        }
    }
}

/// What grounds one piece of advice: the package was cleared and the probe
/// confirmed it at the cleared version; and a verified finding rests on
/// something the probe saw (the running kernel's modules gone, or a loaded
/// driver or running init at another version than the one installed).
pub open spec fn grounded(a: AdviceView, cleared: Seq<(Seq<char>, Seq<char>)>, probe: SystemProbe) -> bool {
    &&& exists|k: int|
        0 <= k < cleared.len() && (#[trigger] cleared[k]).0 == a.0 && probe.installed_now@.contains_key(a.0)
            && probe.installed_now@[a.0]@ == cleared[k].1
    &&& (a.2 matches Some((running, installed)) ==> (probe.running_kernel_present == Some(false) || (
    opt_view(probe.nvidia_running) == Some(running) && running != installed) || (opt_view(
        probe.systemd_running,
    ) == Some(running) && running != installed)))
}

/// nog never claims a finding it did not observe, and never speaks of a
/// package that the probe did not confirm at the version nog cleared.
pub proof fn lemma_advice_is_grounded(
    cleared: Seq<(Seq<char>, Seq<char>)>,
    tier1: Seq<Seq<char>>,
    probe: SystemProbe,
)
    ensures
        forall|i: int|
            0 <= i < assess_spec(cleared, tier1, probe).len() ==> grounded(
                #[trigger] assess_spec(cleared, tier1, probe)[i],
                cleared,
                probe,
            ),
    decreases cleared.len(),
{
    if cleared.len() > 0 {
        let pre = cleared.drop_last();
        lemma_advice_is_grounded(pre, tier1, probe);
        let rest = assess_spec(pre, tier1, probe);
        let all = assess_spec(cleared, tier1, probe);
        assert forall|i: int| 0 <= i < all.len() implies grounded(#[trigger] all[i], cleared, probe) by {
            if i < rest.len() {
                assert(all[i] == rest[i]);
                assert(grounded(rest[i], pre, probe));
                let k = choose|k: int|
                    0 <= k < pre.len() && (#[trigger] pre[k]).0 == rest[i].0
                        && probe.installed_now@.contains_key(rest[i].0)
                        && probe.installed_now@[rest[i].0]@ == pre[k].1;
                assert(cleared[k] == pre[k]);
            } else {
                let last = cleared.last();
                assert(cleared[cleared.len() - 1] == last);
                assert(advice_for(last.0, last.1, tier1, probe) == Some(all[i]));
            }
        }
    }
}

} // verus!
