//! Hold evaluation and hold-release coupling.
//!
//! Given a package, its tier, the build dates and the hold windows, decide
//! whether the package's hold has expired, is still running, or cannot be
//! evaluated; and, once every pending update is bucketed, which Ready
//! packages must wait for a Held partner so version-locked families move
//! together.
//!
//! Everything here is a function of its arguments: the caller passes `now`.
use crate::config::HoldsConfig;
use crate::sync_db::PackageDesc;
use crate::table::NameTable;
use crate::tiers::{contains_string, lib32_base, list_at, Tier};
use crate::text::{
    chars_of, contains_char, ends_with, ends_with_chars, lt_strings, push_all, push_str, rsplit_once,
    rsplit_once_char, same, seq_lt, split_once, split_once_char, starts_with, string_of,
    strip_prefix_str, views,
};
use vstd::prelude::*;
use vstd::string::*;

verus! {

/// `std::time::SystemTime`, carried through to the clock conversion.
#[verifier::external_type_specification]
#[verifier::external_body]
pub struct ExSystemTime(std::time::SystemTime);

/// The result of evaluating a package's hold. Day counts are never negative;
/// the variant says which side of the window "today" is on.
#[derive(Debug, Clone, Copy, PartialEq, Eq, Structural)]
pub enum HoldStatus {
    /// The window has elapsed; the package may update.
    Expired { days_past_window: u64 },
    /// The window is still open; the package must wait.
    Holding { days_remaining: u64 },
    /// No usable build date.
    Unknown,
}

pub const SECONDS_PER_DAY: u64 = 86_400;

/// The hold window of a tier, in days.
pub open spec fn window_days(tier: Tier, holds: HoldsConfig) -> int {
    match tier {
        Tier::One => holds.tier1_days as int,
        Tier::Two => holds.tier2_days as int,
        Tier::Three => holds.tier3_days as int,
    }
}

/// Whole days in `secs` seconds, rounded up.
pub open spec fn days_ceil_spec(secs: int) -> int {
    secs / 86400 + if secs % 86400 == 0 {
        0int
    } else {
        1int
    }
}

/// Seconds from the build to `now`; a build "in the future" counts as zero.
pub open spec fn elapsed_secs(build_ts: u64, now: u64) -> int {
    if now >= build_ts {
        now - build_ts
    } else {
        0
    }
}

/// The hold status of a build at `build_ts`, seen at `now` (Unix seconds;
/// `None` when the clock could not be read).
pub open spec fn status_at(build_ts: u64, tier: Tier, holds: HoldsConfig, now: Option<u64>) -> HoldStatus {
    match now {
        None => HoldStatus::Unknown,
        Some(n) => {
            let d = days_ceil_spec(elapsed_secs(build_ts, n));
            let w = window_days(tier, holds);
            if d >= w {
                HoldStatus::Expired { days_past_window: (d - w) as u64 }
            } else {
                HoldStatus::Holding { days_remaining: (w - d) as u64 }
            }
        },
    }
}

/// The hold status of `package` from a name-to-build-date map.
pub open spec fn evaluate_spec(
    package: Seq<char>,
    tier: Tier,
    build_dates: Map<Seq<char>, u64>,
    holds: HoldsConfig,
    now: Option<u64>,
) -> HoldStatus {
    if build_dates.contains_key(package) {
        status_at(build_dates[package], tier, holds, now)
    } else {
        HoldStatus::Unknown
    }
}

/// The hold status of a pending update: as `evaluate_spec`, but a date whose
/// entry belongs to another version than the candidate's is not used.
pub open spec fn evaluate_candidate_spec(
    package: Seq<char>,
    tier: Tier,
    candidate_version: Seq<char>,
    packages: Map<Seq<char>, PackageDesc>,
    holds: HoldsConfig,
    now: Option<u64>,
) -> HoldStatus {
    if !packages.contains_key(package) {
        HoldStatus::Unknown
    } else {
        let desc = packages[package];
        match desc.version {
            Some(v) => if v@ != candidate_version {
                HoldStatus::Unknown
            } else {
                status_at(desc.builddate, tier, holds, now)
            },
            None => status_at(desc.builddate, tier, holds, now),
        }
    }
}

/// What `SystemTime::duration_since(UNIX_EPOCH)` followed by
/// `Duration::as_secs` gives for a clock reading: whole seconds since the
/// Unix epoch, `None` for a reading before it. A function of the reading
/// alone.
pub uninterp spec fn epoch_seconds(t: std::time::SystemTime) -> Option<u64>;

/// Calls `SystemTime::duration_since(UNIX_EPOCH)` and `Duration::as_secs`.
/// Claims only that the result is named `epoch_seconds`.
#[verifier::external_body]
fn unix_seconds(now: std::time::SystemTime) -> (r: Option<u64>)
    ensures
        r == epoch_seconds(now),
{
    match now.duration_since(std::time::UNIX_EPOCH) {
        Ok(d) => Some(d.as_secs()),
        Err(_) => None,
    }
}

/// Whole days, rounded up: 0s is 0 days, 1s to 86400s is one day.
pub fn days_ceil(seconds: u64) -> (d: u64)
    ensures
        d == days_ceil_spec(seconds as int),
{
    seconds / SECONDS_PER_DAY + if seconds % SECONDS_PER_DAY == 0 {
        0
    } else {
        1
    }
}

fn window_of(tier: Tier, holds: &HoldsConfig) -> (w: u64)
    ensures
        w == window_days(tier, *holds),
{
    match tier {
        Tier::One => holds.tier1_days as u64,
        Tier::Two => holds.tier2_days as u64,
        Tier::Three => holds.tier3_days as u64,
    }
}

/// The shared date math: elapsed days since the build, rounded up, against
/// the tier's window.
pub fn evaluate_ts(build_ts: u64, tier: Tier, holds: &HoldsConfig, now: Option<u64>) -> (s: HoldStatus)
    ensures
        s == status_at(build_ts, tier, *holds, now),
{
    let now_ts = match now {
        Some(n) => n,
        None => return HoldStatus::Unknown,
    };
    let elapsed = if now_ts >= build_ts {
        now_ts - build_ts
    } else {
        0
    };
    let elapsed_days = days_ceil(elapsed);
    let window = window_of(tier, holds);
    if elapsed_days >= window {
        HoldStatus::Expired { days_past_window: elapsed_days - window }
    } else {
        HoldStatus::Holding { days_remaining: window - elapsed_days }
    }
}

/// Evaluate `package`'s hold at a given clock reading.
pub fn evaluate_at(
    package: &str,
    tier: Tier,
    build_dates: &NameTable<u64>,
    holds: &HoldsConfig,
    now: Option<u64>,
) -> (s: HoldStatus)
    ensures
        s == evaluate_spec(package@, tier, build_dates@, *holds, now),
{
    match build_dates.get(package) {
        Some(ts) => evaluate_ts(*ts, tier, holds, now),
        None => HoldStatus::Unknown,
    }
}

/// Evaluate `package`'s hold now. A package with no build date is
/// `Unknown` whatever the clock says.
pub fn evaluate(
    package: &str,
    tier: Tier,
    build_dates: &NameTable<u64>,
    holds: &HoldsConfig,
    now: std::time::SystemTime,
) -> (s: HoldStatus)
    ensures
        s == evaluate_spec(package@, tier, build_dates@, *holds, epoch_seconds(now)),
{
    let secs = unix_seconds(now);
    evaluate_at(package, tier, build_dates, holds, secs)
}

/// Evaluate a pending update against the exact candidate it proposes to
/// install, at a given clock reading.
pub fn evaluate_candidate_at(
    package: &str,
    tier: Tier,
    candidate_version: &str,
    packages: &NameTable<PackageDesc>,
    holds: &HoldsConfig,
    now: Option<u64>,
) -> (s: HoldStatus)
    ensures
        s == evaluate_candidate_spec(package@, tier, candidate_version@, packages@, *holds, now),
{
    let desc = match packages.get(package) {
        Some(d) => d,
        None => return HoldStatus::Unknown,
    };
    if let Some(db_version) = &desc.version {
        let cand = candidate_version.to_owned();
        if *db_version != cand {
            return HoldStatus::Unknown;
        }
    }
    evaluate_ts(desc.builddate, tier, holds, now)
}

/// Evaluate a pending update against the exact candidate it proposes to
/// install, now. A missing entry, or an entry for another version, is
/// `Unknown` whatever the clock says.
pub fn evaluate_candidate(
    package: &str,
    tier: Tier,
    candidate_version: &str,
    packages: &NameTable<PackageDesc>,
    holds: &HoldsConfig,
    now: std::time::SystemTime,
) -> (s: HoldStatus)
    ensures
        s == evaluate_candidate_spec(
            package@,
            tier,
            candidate_version@,
            packages@,
            *holds,
            epoch_seconds(now),
        ),
{
    let secs = unix_seconds(now);
    evaluate_candidate_at(package, tier, candidate_version, packages, holds, secs)
}

// ---------------------------------------------------------------------------
// Hold-release coupling
// ---------------------------------------------------------------------------

/// `(demoted, partner)` pairs, by view.
pub open spec fn pair_views(v: Seq<(String, String)>) -> Seq<(Seq<char>, Seq<char>)> {
    v.map_values(|p: (String, String)| (p.0@, p.1@))
}

/// `lib32-<n>`.
pub open spec fn lib32_name(n: Seq<char>) -> Seq<char> {
    "lib32-"@ + n
}

/// The lib32 rule for one Ready name: `lib32-<X>` waits for a held `<X>`;
/// otherwise `<X>` waits for a held `lib32-<X>`.
pub open spec fn lib32_step(n: Seq<char>, held: Seq<Seq<char>>) -> Seq<(Seq<char>, Seq<char>)> {
    if starts_with(n, "lib32-"@) && held.contains(lib32_base(n)) {
        seq![(n, lib32_base(n))]
    } else if held.contains(lib32_name(n)) {
        seq![(n, lib32_name(n))]
    } else {
        seq![]
    }
}

pub open spec fn lib32_demotions_spec(ready: Seq<Seq<char>>, held: Seq<Seq<char>>) -> Seq<
    (Seq<char>, Seq<char>),
>
    decreases ready.len(),
{
    if ready.len() == 0 {
        seq![]
    } else {
        lib32_demotions_spec(ready.drop_last(), held) + lib32_step(ready.last(), held)
    }
}

/// Couple a `lib32-<X>` multilib package to its base `<X>` at hold-release
/// time: the Ready names that must move to Held so that no split pair is
/// released half-way, each with the held partner it waits on. The rule
/// works in both directions.
pub fn lib32_coupling_demotions(ready: &[String], held: &[String]) -> (d: Vec<(String, String)>)
    ensures
        pair_views(d@) == lib32_demotions_spec(views(ready@), views(held@)),
{
    let ghost r = views(ready@);
    let ghost h = views(held@);
    let mut demotions: Vec<(String, String)> = Vec::new();
    let mut i: usize = 0;
    while i < ready.len()
        invariant
            i <= ready.len(),
            r == views(ready@),
            h == views(held@),
            pair_views(demotions@) == lib32_demotions_spec(r.take(i as int), h),
        decreases ready.len() - i,
    {
        let name = &ready[i];
        let ghost before = pair_views(demotions@);
        assert(r.take(i + 1).drop_last() =~= r.take(i as int));
        assert(r.take(i + 1).last() == name@);
        let nv = chars_of(name.as_str());
        let mut done = false;
        if let Some(base) = strip_prefix_str(&nv, "lib32-") {
            let base_s = string_of(&base);
            if contains_string(held, &base_s) {
                demotions.push((name.clone(), base_s));
                assert(pair_views(demotions@) =~= before + seq![(name@, lib32_base(name@))]);
                done = true;
            }
        }
        if !done {
            let mut sib: Vec<char> = Vec::new();
            push_str(&mut sib, "lib32-");
            push_all(&mut sib, &nv);
            let sibling = string_of(&sib);
            assert(sibling@ == lib32_name(name@));
            if contains_string(held, &sibling) {
                demotions.push((name.clone(), sibling));
                assert(pair_views(demotions@) =~= before + seq![(name@, lib32_name(name@))]);
            } else {
                assert(pair_views(demotions@) =~= before + Seq::<(Seq<char>, Seq<char>)>::empty());
            }
        }
        i += 1;
    }
    assert(r.take(i as int) =~= r);
    demotions
}

/// The foreign fence, by view: foreign names neither cleared nor already
/// ignored, in order.
pub open spec fn fence_spec(foreign: Seq<Seq<char>>, cleared: Seq<Seq<char>>, ignored: Seq<Seq<char>>) -> Seq<
    Seq<char>,
>
    decreases foreign.len(),
{
    if foreign.len() == 0 {
        seq![]
    } else {
        let r = fence_spec(foreign.drop_last(), cleared, ignored);
        let n = foreign.last();
        if !cleared.contains(n) && !ignored.contains(n) {
            r.push(n)
        } else {
            r
        }
    }
}

/// The foreign fence: every installed foreign package goes on the ignore
/// list unless this run cleared it. Returns the additions: foreign names
/// that are neither cleared nor already ignored.
pub fn foreign_fence(foreign: &[String], cleared: &[String], already_ignored: &[String]) -> (f: Vec<
    String,
>)
    ensures
        views(f@) == fence_spec(views(foreign@), views(cleared@), views(already_ignored@)),
{
    let ghost fo = views(foreign@);
    let mut out: Vec<String> = Vec::new();
    let mut i: usize = 0;
    while i < foreign.len()
        invariant
            i <= foreign.len(),
            fo == views(foreign@),
            views(out@) == fence_spec(fo.take(i as int), views(cleared@), views(already_ignored@)),
        decreases foreign.len() - i,
    {
        assert(fo.take(i + 1).drop_last() =~= fo.take(i as int));
        assert(fo.take(i + 1).last() == foreign@[i as int]@);
        let name = &foreign[i];
        if !contains_string(cleared, name) && !contains_string(already_ignored, name) {
            let ghost before = views(out@);
            out.push(name.clone());
            assert(views(out@) =~= before.push(name@));
        }
        i += 1;
    }
    assert(fo.take(i as int) =~= fo);
    out
}

/// The foreign fence shields every foreign package that was not cleared:
/// each one ends up on the ignore list (already there, or added by the
/// fence), and the fence adds nothing that was cleared or already ignored.
pub proof fn lemma_fence_shields_uncleared(
    foreign: Seq<Seq<char>>,
    cleared: Seq<Seq<char>>,
    ignored: Seq<Seq<char>>,
)
    ensures
        forall|n: Seq<char>|
            foreign.contains(n) && !cleared.contains(n) ==> ignored.contains(n)
                || fence_spec(foreign, cleared, ignored).contains(n),
        forall|n: Seq<char>| #[trigger]
            fence_spec(foreign, cleared, ignored).contains(n) ==> foreign.contains(n)
                && !cleared.contains(n) && !ignored.contains(n),
    decreases foreign.len(),
{
    if foreign.len() > 0 {
        let pre = foreign.drop_last();
        lemma_fence_shields_uncleared(pre, cleared, ignored);
        let r = fence_spec(pre, cleared, ignored);
        let n = foreign.last();
        assert forall|m: Seq<char>|
            foreign.contains(m) && !cleared.contains(m) implies ignored.contains(m)
                || fence_spec(foreign, cleared, ignored).contains(m) by {
            let i = choose|i: int| 0 <= i < foreign.len() && foreign[i] == m;
            if i < foreign.len() - 1 {
                assert(pre[i] == m);
                if r.contains(m) {
                    let j = choose|j: int| 0 <= j < r.len() && r[j] == m;
                    if !cleared.contains(n) && !ignored.contains(n) {
                        assert(r.push(n)[j] == m);
                    }
                }
            } else if !ignored.contains(m) {
                assert(r.push(n)[r.len() as int] == m);
            }
        }
        assert forall|m: Seq<char>| #[trigger]
            fence_spec(foreign, cleared, ignored).contains(m) implies foreign.contains(m)
                && !cleared.contains(m) && !ignored.contains(m) by {
            let f = fence_spec(foreign, cleared, ignored);
            let j = choose|j: int| 0 <= j < f.len() && f[j] == m;
            if j < r.len() {
                assert(r[j] == m);
                assert(r.contains(m));
                assert(pre.contains(m));
                let i = choose|i: int| 0 <= i < pre.len() && pre[i] == m;
                assert(foreign[i] == m);
            } else {
                assert(foreign[foreign.len() - 1] == m);
            }
        }
    }
}

/// One package as the coupling rules see it.
#[derive(Debug, Clone)]
pub struct CouplingPkg {
    pub name: String,
    pub old_version: String,
    pub new_version: String,
    pub pkgbase: Option<String>,
    /// Days left on the hold; what a demoted partner inherits. Meaningless
    /// for Ready entries.
    pub remaining: u64,
}

pub open spec fn pkg_names(s: Seq<CouplingPkg>) -> Seq<Seq<char>> {
    s.map_values(|p: CouplingPkg| p.name@)
}

/// Strip epoch and pkgrel: `1:6.11.2-2` is upstream version `6.11.2`.
pub open spec fn pkgver_spec(v: Seq<char>) -> Seq<char> {
    let no_epoch = match split_once(v, ':') {
        Some((_, rest)) => rest,
        None => v,
    };
    match rsplit_once(no_epoch, '-') {
        Some((u, _)) => u,
        None => no_epoch,
    }
}

/// Strip epoch and pkgrel from a pacman version string, leaving the
/// upstream version: `1:6.11.2-2` becomes `6.11.2`.
pub fn pkgver(version: &str) -> (r: String)
    ensures
        r@ == pkgver_spec(version@),
{
    let v = chars_of(version);
    let no_epoch = match split_once_char(&v, ':') {
        Some((_, rest)) => rest,
        None => v,
    };
    match rsplit_once_char(&no_epoch, '-') {
        Some((u, _)) => string_of(&u),
        None => string_of(&no_epoch),
    }
}

/// Does the current pick `a` stay ahead of the newcomer `b`? Longest
/// countdown wins; on a tie the name that sorts first wins; otherwise the
/// later package is taken.
pub open spec fn keeps(a: CouplingPkg, b: CouplingPkg) -> bool {
    a.remaining > b.remaining || (a.remaining == b.remaining && seq_lt(a.name@, b.name@))
}

/// The package a demoted sibling waits on, among the held packages that
/// satisfy `pred`: the longest remaining countdown, ties broken by name.
pub open spec fn best_where(held: Seq<CouplingPkg>, pred: spec_fn(CouplingPkg) -> bool) -> Option<
    CouplingPkg,
>
    decreases held.len(),
{
    if held.len() == 0 {
        None
    } else {
        let r = best_where(held.drop_last(), pred);
        let h = held.last();
        if pred(h) {
            match r {
                None => Some(h),
                Some(x) => if keeps(x, h) {
                    Some(x)
                } else {
                    Some(h)
                },
            }
        } else {
            r
        }
    }
}

fn keeps_exec(a: &CouplingPkg, b: &CouplingPkg) -> (k: bool)
    ensures
        k == keeps(*a, *b),
{
    a.remaining > b.remaining || (a.remaining == b.remaining && lt_strings(&a.name, &b.name))
}

pub open spec fn has_pkgbase(p: CouplingPkg, b: Seq<char>) -> bool {
    match p.pkgbase {
        Some(x) => x@ == b,
        None => false,
    }
}

/// The pkgbase rule for one Ready package.
pub open spec fn pkgbase_step(p: CouplingPkg, held: Seq<CouplingPkg>) -> Seq<(Seq<char>, Seq<char>)> {
    match p.pkgbase {
        None => seq![],
        Some(b) => match best_where(held, |h: CouplingPkg| has_pkgbase(h, b@)) {
            Some(x) => seq![(p.name@, x.name@)],
            None => seq![],
        },
    }
}

pub open spec fn pkgbase_demotions_spec(ready: Seq<CouplingPkg>, held: Seq<CouplingPkg>) -> Seq<
    (Seq<char>, Seq<char>),
>
    decreases ready.len(),
{
    if ready.len() == 0 {
        seq![]
    } else {
        pkgbase_demotions_spec(ready.drop_last(), held) + pkgbase_step(ready.last(), held)
    }
}

/// Index of the held package with pkgbase `b` that a sibling waits on.
fn best_with_base(held: &[CouplingPkg], b: &String) -> (r: Option<usize>)
    ensures
        match r {
            Some(i) => i < held@.len() && best_where(held@, |h: CouplingPkg| has_pkgbase(h, b@))
                == Some(held@[i as int]),
            None => best_where(held@, |h: CouplingPkg| has_pkgbase(h, b@)) is None,
        },
{
    let ghost pred = |h: CouplingPkg| has_pkgbase(h, b@);
    let mut best: Option<usize> = None;
    let mut i: usize = 0;
    while i < held.len()
        invariant
            i <= held.len(),
            pred == (|h: CouplingPkg| has_pkgbase(h, b@)),
            match best {
                Some(k) => k < i && best_where(held@.take(i as int), pred) == Some(held@[k as int]),
                None => best_where(held@.take(i as int), pred) is None,
            },
        decreases held.len() - i,
    {
        assert(held@.take(i + 1).drop_last() =~= held@.take(i as int));
        assert(held@.take(i + 1).last() == held@[i as int]);
        let matches = match &held[i].pkgbase {
            Some(x) => *x == *b,
            None => false,
        };
        assert(matches == pred(held@[i as int]));
        if matches {
            best = match best {
                None => Some(i),
                Some(k) => if keeps_exec(&held[k], &held[i]) {
                    Some(k)
                } else {
                    Some(i)
                },
            };
        }
        i += 1;
    }
    assert(held@.take(i as int) =~= held@);
    best
}

/// Couple packages built from the same PKGBUILD: a Ready package whose
/// pkgbase has a held member waits on that group's longest-held member.
pub fn pkgbase_coupling_demotions(ready: &[CouplingPkg], held: &[CouplingPkg]) -> (d: Vec<
    (String, String),
>)
    ensures
        pair_views(d@) == pkgbase_demotions_spec(ready@, held@),
{
    let mut demotions: Vec<(String, String)> = Vec::new();
    let mut i: usize = 0;
    while i < ready.len()
        invariant
            i <= ready.len(),
            pair_views(demotions@) == pkgbase_demotions_spec(ready@.take(i as int), held@),
        decreases ready.len() - i,
    {
        assert(ready@.take(i + 1).drop_last() =~= ready@.take(i as int));
        assert(ready@.take(i + 1).last() == ready@[i as int]);
        let pkg = &ready[i];
        let ghost before = pair_views(demotions@);
        match &pkg.pkgbase {
            Some(base) => {
                match best_with_base(held, base) {
                    Some(k) => {
                        demotions.push((pkg.name.clone(), held[k].name.clone()));
                        assert(pair_views(demotions@) =~= before + pkgbase_step(*pkg, held@));
                    },
                    None => {
                        assert(pair_views(demotions@) =~= before + pkgbase_step(*pkg, held@));
                    },
                }
            },
            None => {
                assert(pair_views(demotions@) =~= before + pkgbase_step(*pkg, held@));
            },
        }
        i += 1;
    }
    assert(ready@.take(i as int) =~= ready@);
    demotions
}

/// Minimum members before a shared version move is treated as a family.
pub const COHORT_MIN: usize = 3;

/// The version cohort of a package: current and new upstream versions.
pub open spec fn cohort_key(p: CouplingPkg) -> (Seq<char>, Seq<char>) {
    (pkgver_spec(p.old_version@), pkgver_spec(p.new_version@))
}

/// Members of `s` in cohort `k`.
pub open spec fn cohort_count(s: Seq<CouplingPkg>, k: (Seq<char>, Seq<char>)) -> nat
    decreases s.len(),
{
    if s.len() == 0 {
        0
    } else {
        cohort_count(s.drop_last(), k) + if cohort_key(s.last()) == k {
            1nat
        } else {
            0nat
        }
    }
}

/// The cohort rule for one Ready package `p` of `ready`: when its cohort is
/// split across the buckets and has at least `COHORT_MIN` members, it waits
/// on the cohort's longest-held member.
pub open spec fn cohort_step(p: CouplingPkg, ready: Seq<CouplingPkg>, held: Seq<CouplingPkg>) -> Seq<
    (Seq<char>, Seq<char>),
> {
    let k = cohort_key(p);
    if cohort_count(held, k) > 0 && cohort_count(ready, k) + cohort_count(held, k) >= 3 {
        match best_where(held, |h: CouplingPkg| cohort_key(h) == k) {
            Some(x) => seq![(p.name@, x.name@)],
            None => seq![],
        }
    } else {
        seq![]
    }
}

/// The cohort rule over the Ready packages `prefix` (a prefix of `ready`),
/// in order.
pub open spec fn cohort_demotions_spec(
    prefix: Seq<CouplingPkg>,
    ready: Seq<CouplingPkg>,
    held: Seq<CouplingPkg>,
) -> Seq<(Seq<char>, Seq<char>)>
    decreases prefix.len(),
{
    if prefix.len() == 0 {
        seq![]
    } else {
        cohort_demotions_spec(prefix.drop_last(), ready, held) + cohort_step(prefix.last(), ready, held)
    }
}

fn cohort_key_of(p: &CouplingPkg) -> (k: (Vec<char>, Vec<char>))
    ensures
        (k.0@, k.1@) == cohort_key(*p),
{
    let old = pkgver(p.old_version.as_str());
    let new = pkgver(p.new_version.as_str());
    (chars_of(old.as_str()), chars_of(new.as_str()))
}

fn cohort_keys(s: &[CouplingPkg]) -> (ks: Vec<(Vec<char>, Vec<char>)>)
    ensures
        ks@.len() == s@.len(),
        forall|i: int| 0 <= i < s@.len() ==> (#[trigger] ks@[i].0@, ks@[i].1@) == cohort_key(s@[i]),
{
    let mut ks: Vec<(Vec<char>, Vec<char>)> = Vec::new();
    let mut i: usize = 0;
    while i < s.len()
        invariant
            i <= s.len(),
            ks@.len() == i,
            forall|j: int| 0 <= j < i ==> (#[trigger] ks@[j].0@, ks@[j].1@) == cohort_key(s@[j]),
        decreases s.len() - i,
    {
        ks.push(cohort_key_of(&s[i]));
        i += 1;
    }
    ks
}

fn same_key(a: &(Vec<char>, Vec<char>), b: &(Vec<char>, Vec<char>)) -> (r: bool)
    ensures
        r == ((a.0@, a.1@) == (b.0@, b.1@)),
{
    same(&a.0, &b.0) && same(&a.1, &b.1)
}

fn count_key(s: &[CouplingPkg], ks: &Vec<(Vec<char>, Vec<char>)>, k: &(Vec<char>, Vec<char>)) -> (n: usize)
    requires
        ks@.len() == s@.len(),
        forall|i: int| 0 <= i < s@.len() ==> (#[trigger] ks@[i].0@, ks@[i].1@) == cohort_key(s@[i]),
    ensures
        n == cohort_count(s@, (k.0@, k.1@)),
{
    let ghost key = (k.0@, k.1@);
    let mut n: usize = 0;
    let mut i: usize = 0;
    while i < s.len()
        invariant
            i <= s.len(),
            ks@.len() == s@.len(),
            forall|j: int| 0 <= j < s@.len() ==> (#[trigger] ks@[j].0@, ks@[j].1@) == cohort_key(s@[j]),
            key == (k.0@, k.1@),
            n == cohort_count(s@.take(i as int), key),
            n <= i,
        decreases s.len() - i,
    {
        assert(s@.take(i + 1).drop_last() =~= s@.take(i as int));
        assert(s@.take(i + 1).last() == s@[i as int]);
        assert((ks@[i as int].0@, ks@[i as int].1@) == cohort_key(s@[i as int]));
        if same_key(&ks[i], k) {
            n += 1;
        }
        i += 1;
    }
    assert(s@.take(i as int) =~= s@);
    n
}

fn best_in_cohort(held: &[CouplingPkg], ks: &Vec<(Vec<char>, Vec<char>)>, k: &(Vec<char>, Vec<char>)) -> (r: Option<usize>)
    requires
        ks@.len() == held@.len(),
        forall|i: int| 0 <= i < held@.len() ==> (#[trigger] ks@[i].0@, ks@[i].1@) == cohort_key(held@[i]),
    ensures
        match r {
            Some(i) => i < held@.len() && best_where(
                held@,
                |h: CouplingPkg| cohort_key(h) == (k.0@, k.1@),
            ) == Some(held@[i as int]),
            None => best_where(held@, |h: CouplingPkg| cohort_key(h) == (k.0@, k.1@)) is None,
        },
{
    let ghost pred = |h: CouplingPkg| cohort_key(h) == (k.0@, k.1@);
    let mut best: Option<usize> = None;
    let mut i: usize = 0;
    while i < held.len()
        invariant
            i <= held.len(),
            ks@.len() == held@.len(),
            forall|j: int| 0 <= j < held@.len() ==> (#[trigger] ks@[j].0@, ks@[j].1@) == cohort_key(held@[j]),
            pred == (|h: CouplingPkg| cohort_key(h) == (k.0@, k.1@)),
            match best {
                Some(b) => b < i && best_where(held@.take(i as int), pred) == Some(held@[b as int]),
                None => best_where(held@.take(i as int), pred) is None,
            },
        decreases held.len() - i,
    {
        assert(held@.take(i + 1).drop_last() =~= held@.take(i as int));
        assert(held@.take(i + 1).last() == held@[i as int]);
        assert((ks@[i as int].0@, ks@[i as int].1@) == cohort_key(held@[i as int]));
        if same_key(&ks[i], k) {
            best = match best {
                None => Some(i),
                Some(b) => if keeps_exec(&held[b], &held[i]) {
                    Some(b)
                } else {
                    Some(i)
                },
            };
        }
        i += 1;
    }
    assert(held@.take(i as int) =~= held@);
    best
}

/// Couple version cohorts across pkgbase boundaries: packages on the same
/// upstream version all moving to the same new one are a family, and when
/// such a family of at least `COHORT_MIN` is split across the buckets the
/// Ready members wait on the longest-held member. A heuristic, and
/// deliberately cautious.
pub fn cohort_coupling_demotions(ready: &[CouplingPkg], held: &[CouplingPkg]) -> (d: Vec<
    (String, String),
>)
    ensures
        pair_views(d@) == cohort_demotions_spec(ready@, ready@, held@),
{
    let rk = cohort_keys(ready);
    let hk = cohort_keys(held);
    let mut demotions: Vec<(String, String)> = Vec::new();
    let mut i: usize = 0;
    while i < ready.len()
        invariant
            i <= ready.len(),
            rk@.len() == ready@.len(),
            forall|j: int| 0 <= j < ready@.len() ==> (#[trigger] rk@[j].0@, rk@[j].1@) == cohort_key(ready@[j]),
            hk@.len() == held@.len(),
            forall|j: int| 0 <= j < held@.len() ==> (#[trigger] hk@[j].0@, hk@[j].1@) == cohort_key(held@[j]),
            pair_views(demotions@) == cohort_demotions_spec(ready@.take(i as int), ready@, held@),
        decreases ready.len() - i,
    {
        assert(ready@.take(i + 1).drop_last() =~= ready@.take(i as int));
        assert(ready@.take(i + 1).last() == ready@[i as int]);
        let ghost before = pair_views(demotions@);
        let k = &rk[i];
        assert((k.0@, k.1@) == cohort_key(ready@[i as int]));
        let in_held = count_key(held, &hk, k);
        let in_ready = count_key(ready, &rk, k);
        if in_held > 0 && (in_held >= COHORT_MIN || in_ready >= COHORT_MIN - in_held) {
            match best_in_cohort(held, &hk, k) {
                Some(b) => {
                    demotions.push((ready[i].name.clone(), held[b].name.clone()));
                    assert(pair_views(demotions@) =~= before + cohort_step(ready@[i as int], ready@, held@));
                },
                None => {
                    assert(pair_views(demotions@) =~= before + cohort_step(ready@[i as int], ready@, held@));
                },
            }
        } else {
            assert(pair_views(demotions@) =~= before + cohort_step(ready@[i as int], ready@, held@));
        }
        i += 1;
    }
    assert(ready@.take(i as int) =~= ready@);
    demotions
}

/// What the soname rule reads out of the two pacman databases. An empty
/// `installed_provides` makes the rule a no-op.
pub struct SonameData {
    /// installed package -> its `%PROVIDES%`
    pub installed_provides: NameTable<Vec<String>>,
    /// installed package -> its `%DEPENDS%`
    pub installed_depends: NameTable<Vec<String>>,
    /// candidate -> `%PROVIDES%` of the version that would be installed
    pub new_provides: NameTable<Vec<String>>,
}

impl Default for SonameData {
    fn default() -> (d: SonameData)
        ensures
            d.installed_provides@ == Map::<Seq<char>, Vec<String>>::empty(),
            d.installed_depends@ == Map::<Seq<char>, Vec<String>>::empty(),
            d.new_provides@ == Map::<Seq<char>, Vec<String>>::empty(),
    {
        SonameData {
            installed_provides: NameTable::new(),
            installed_depends: NameTable::new(),
            new_provides: NameTable::new(),
        }
    }
}

/// A versioned soname entry such as `libbluray.so=3-64`, compared as a
/// whole string; ranges (`<`, `>`) are not sonames.
pub open spec fn is_soname_spec(e: Seq<char>) -> bool {
    !e.contains('<') && !e.contains('>') && match split_once(e, '=') {
        Some((base, _)) => ends_with(base, ".so"@),
        None => false,
    }
}

/// Is this dependency entry a versioned soname (`libbluray.so=3-64`)?
pub fn is_soname(entry: &str) -> (b: bool)
    ensures
        b == is_soname_spec(entry@),
{
    let e = chars_of(entry);
    if contains_char(&e, '<') || contains_char(&e, '>') {
        return false;
    }
    match split_once_char(&e, '=') {
        Some((base, _)) => {
            let so = chars_of(".so");
            ends_with_chars(&base, &so)
        },
        None => false,
    }
}

/// Is `n` one of the Ready (moving) packages?
pub open spec fn moving(ready: Seq<CouplingPkg>, n: Seq<char>) -> bool {
    pkg_names(ready).contains(n)
}

/// Will something still provide soname `d` after the Ready packages move:
/// an installed provider that is not moving, or one that moves but still
/// provides it?
pub open spec fn survives(d: Seq<char>, ready: Seq<CouplingPkg>, data: SonameData) -> bool {
    exists|p: Seq<char>|
        #[trigger] data.installed_provides@.contains_key(p) && list_at(data.installed_provides, p).contains(d) && (
        !moving(ready, p) || list_at(data.new_provides, p).contains(d))
}

/// Installed packages (of `keys`, in order) that require `d` and are not moving.
pub open spec fn breakers(
    keys: Seq<Seq<char>>,
    depends: NameTable<Vec<String>>,
    d: Seq<char>,
    ready: Seq<CouplingPkg>,
) -> Seq<Seq<char>>
    decreases keys.len(),
{
    if keys.len() == 0 {
        seq![]
    } else {
        let r = breakers(keys.drop_last(), depends, d, ready);
        let k = keys.last();
        if list_at(depends, k).contains(d) && !moving(ready, k) {
            r.push(k)
        } else {
            r
        }
    }
}

/// The name that sorts first.
pub open spec fn min_name(s: Seq<Seq<char>>) -> Seq<char>
    decreases s.len(),
{
    if s.len() <= 1 {
        s[0]
    } else {
        let m = min_name(s.drop_last());
        if seq_lt(s.last(), m) {
            s.last()
        } else {
            m
        }
    }
}

/// The partner a package dropping soname `d` waits on, if dropping it breaks
/// anything: a held dependent with the longest countdown, else the dependent
/// that sorts first.
pub open spec fn partner_for(
    d: Seq<char>,
    ready: Seq<CouplingPkg>,
    held: Seq<CouplingPkg>,
    data: SonameData,
) -> Option<Seq<char>> {
    if survives(d, ready, data) {
        None
    } else {
        let br = breakers(data.installed_depends.key_seq(), data.installed_depends, d, ready);
        if br.len() == 0 {
            None
        } else {
            match best_where(held, |h: CouplingPkg| br.contains(h.name@)) {
                Some(x) => Some(x.name@),
                None => Some(min_name(br)),
            }
        }
    }
}

/// Sonames of `before` the candidate stops providing, in `before`'s order.
pub open spec fn dropped_sonames(before: Seq<Seq<char>>, after: Seq<Seq<char>>) -> Seq<Seq<char>>
    decreases before.len(),
{
    if before.len() == 0 {
        seq![]
    } else {
        let r = dropped_sonames(before.drop_last(), after);
        let e = before.last();
        if is_soname_spec(e) && !after.contains(e) {
            r.push(e)
        } else {
            r
        }
    }
}

/// The first dropped soname that names a partner.
pub open spec fn first_partner(
    ds: Seq<Seq<char>>,
    ready: Seq<CouplingPkg>,
    held: Seq<CouplingPkg>,
    data: SonameData,
) -> Option<Seq<char>>
    decreases ds.len(),
{
    if ds.len() == 0 {
        None
    } else {
        match first_partner(ds.drop_last(), ready, held, data) {
            Some(x) => Some(x),
            None => partner_for(ds.last(), ready, held, data),
        }
    }
}

/// The soname rule for one Ready candidate.
pub open spec fn soname_step(
    cand: CouplingPkg,
    ready: Seq<CouplingPkg>,
    held: Seq<CouplingPkg>,
    data: SonameData,
) -> Seq<(Seq<char>, Seq<char>)> {
    let ds = dropped_sonames(
        list_at(data.installed_provides, cand.name@),
        list_at(data.new_provides, cand.name@),
    );
    match first_partner(ds, ready, held, data) {
        Some(pn) => seq![(cand.name@, pn)],
        None => seq![],
    }
}

pub open spec fn soname_demotions_spec(
    prefix: Seq<CouplingPkg>,
    ready: Seq<CouplingPkg>,
    held: Seq<CouplingPkg>,
    data: SonameData,
) -> Seq<(Seq<char>, Seq<char>)>
    decreases prefix.len(),
{
    if prefix.len() == 0 {
        seq![]
    } else {
        soname_demotions_spec(prefix.drop_last(), ready, held, data) + soname_step(
            prefix.last(),
            ready,
            held,
            data,
        )
    }
}

proof fn lemma_soname_inert(
    prefix: Seq<CouplingPkg>,
    ready: Seq<CouplingPkg>,
    held: Seq<CouplingPkg>,
    data: SonameData,
)
    requires
        data.installed_provides@ == Map::<Seq<char>, Vec<String>>::empty(),
    ensures
        soname_demotions_spec(prefix, ready, held, data) == Seq::<(Seq<char>, Seq<char>)>::empty(),
    decreases prefix.len(),
{
    if prefix.len() > 0 {
        lemma_soname_inert(prefix.drop_last(), ready, held, data);
        let cand = prefix.last();
        assert(list_at(data.installed_provides, cand.name@) == Seq::<Seq<char>>::empty());
        assert(soname_step(cand, ready, held, data) =~= Seq::<(Seq<char>, Seq<char>)>::empty());
        assert(soname_demotions_spec(prefix, ready, held, data) =~= Seq::<
            (Seq<char>, Seq<char>),
        >::empty());
    }
}

/// The string list stored under `k`, or an empty list.
fn list_or_empty<'a>(t: &'a NameTable<Vec<String>>, k: &str, empty: &'a Vec<String>) -> (r: &'a Vec<String>)
    requires
        empty@.len() == 0,
    ensures
        views(r@) == list_at(*t, k@),
{
    match t.get(k) {
        Some(v) => v,
        None => {
            assert(views(empty@) =~= Seq::<Seq<char>>::empty());
            empty
        },
    }
}

fn is_moving(ready: &[CouplingPkg], n: &String) -> (b: bool)
    ensures
        b == moving(ready@, n@),
{
    let mut i: usize = 0;
    while i < ready.len()
        invariant
            i <= ready.len(),
            forall|j: int| 0 <= j < i ==> ready@[j].name@ != n@,
        decreases ready.len() - i,
    {
        if ready[i].name == *n {
            assert(pkg_names(ready@)[i as int] == n@);
            return true;
        }
        i += 1;
    }
    assert forall|j: int| 0 <= j < pkg_names(ready@).len() implies pkg_names(ready@)[j] != n@ by {
        assert(pkg_names(ready@)[j] == ready@[j].name@);
    }
    false
}

fn survives_exec(d: &String, ready: &[CouplingPkg], data: &SonameData) -> (b: bool)
    ensures
        b == survives(d@, ready@, *data),
{
    let empty: Vec<String> = Vec::new();
    let n = data.installed_provides.len();
    let ghost keys = data.installed_provides.key_seq();
    let mut i: usize = 0;
    while i < n
        invariant
            i <= n,
            n == keys.len(),
            keys == data.installed_provides.key_seq(),
            empty@.len() == 0,
            forall|j: int|
                0 <= j < i ==> !(list_at(data.installed_provides, #[trigger] keys[j]).contains(d@) && (
                !moving(ready@, keys[j]) || list_at(data.new_provides, keys[j]).contains(d@))),
        decreases n - i,
    {
        let p = data.installed_provides.key_at(i);
        let provided = list_or_empty(&data.installed_provides, p.as_str(), &empty);
        if contains_string(provided, d) {
            let still = !is_moving(ready, p) || contains_string(
                list_or_empty(&data.new_provides, p.as_str(), &empty),
                d,
            );
            if still {
                assert(data.installed_provides@.contains_key(p@));
                return true;
            }
        }
        i += 1;
    }
    assert forall|p: Seq<char>| #[trigger] data.installed_provides@.contains_key(p) implies !(list_at(
        data.installed_provides,
        p,
    ).contains(d@) && (!moving(ready@, p) || list_at(data.new_provides, p).contains(d@))) by {
        assert(keys.contains(p));
        let j = choose|j: int| 0 <= j < keys.len() && keys[j] == p;
    }
    false
}

fn breakers_exec(d: &String, ready: &[CouplingPkg], depends: &NameTable<Vec<String>>) -> (br: Vec<String>)
    ensures
        views(br@) == breakers(depends.key_seq(), *depends, d@, ready@),
{
    let empty: Vec<String> = Vec::new();
    let n = depends.len();
    let ghost keys = depends.key_seq();
    let mut out: Vec<String> = Vec::new();
    let mut i: usize = 0;
    while i < n
        invariant
            i <= n,
            n == keys.len(),
            keys == depends.key_seq(),
            empty@.len() == 0,
            views(out@) == breakers(keys.take(i as int), *depends, d@, ready@),
        decreases n - i,
    {
        let k = depends.key_at(i);
        assert(keys.take(i + 1).drop_last() =~= keys.take(i as int));
        assert(keys.take(i + 1).last() == k@);
        let required = list_or_empty(depends, k.as_str(), &empty);
        if contains_string(required, d) && !is_moving(ready, k) {
            let ghost before = views(out@);
            out.push(k.clone());
            assert(views(out@) =~= before.push(k@));
        }
        i += 1;
    }
    assert(keys.take(i as int) =~= keys);
    out
}

fn min_name_exec(v: &Vec<String>) -> (m: String)
    requires
        v@.len() >= 1,
    ensures
        m@ == min_name(views(v@)),
{
    let ghost s = views(v@);
    let mut m = v[0].clone();
    let mut i: usize = 1;
    assert(s.take(1) =~= seq![s[0]]);
    while i < v.len()
        invariant
            1 <= i <= v.len(),
            s == views(v@),
            m@ == min_name(s.take(i as int)),
        decreases v.len() - i,
    {
        assert(s.take(i + 1).drop_last() =~= s.take(i as int));
        assert(s.take(i + 1).last() == v@[i as int]@);
        if lt_strings(&v[i], &m) {
            m = v[i].clone();
        }
        i += 1;
    }
    assert(s.take(i as int) =~= s);
    m
}

fn best_among(held: &[CouplingPkg], names: &Vec<String>) -> (r: Option<usize>)
    ensures
        match r {
            Some(i) => i < held@.len() && best_where(held@, |h: CouplingPkg| views(names@).contains(h.name@))
                == Some(held@[i as int]),
            None => best_where(held@, |h: CouplingPkg| views(names@).contains(h.name@)) is None,
        },
{
    let ghost pred = |h: CouplingPkg| views(names@).contains(h.name@);
    let mut best: Option<usize> = None;
    let mut i: usize = 0;
    while i < held.len()
        invariant
            i <= held.len(),
            pred == (|h: CouplingPkg| views(names@).contains(h.name@)),
            match best {
                Some(b) => b < i && best_where(held@.take(i as int), pred) == Some(held@[b as int]),
                None => best_where(held@.take(i as int), pred) is None,
            },
        decreases held.len() - i,
    {
        assert(held@.take(i + 1).drop_last() =~= held@.take(i as int));
        assert(held@.take(i + 1).last() == held@[i as int]);
        if contains_string(names, &held[i].name) {
            best = match best {
                None => Some(i),
                Some(b) => if keeps_exec(&held[b], &held[i]) {
                    Some(b)
                } else {
                    Some(i)
                },
            };
        }
        i += 1;
    }
    assert(held@.take(i as int) =~= held@);
    best
}

fn partner_for_exec(d: &String, ready: &[CouplingPkg], held: &[CouplingPkg], data: &SonameData) -> (r: Option<String>)
    ensures
        match r {
            Some(p) => partner_for(d@, ready@, held@, *data) == Some(p@),
            None => partner_for(d@, ready@, held@, *data) is None,
        },
{
    if survives_exec(d, ready, data) {
        return None;
    }
    let broken = breakers_exec(d, ready, &data.installed_depends);
    if broken.len() == 0 {
        return None;
    }
    match best_among(held, &broken) {
        Some(b) => Some(held[b].name.clone()),
        None => Some(min_name_exec(&broken)),
    }
}

/// Couple a Ready package to a package it would break by dropping a soname.
///
/// For each soname a Ready candidate would stop providing: if nothing will
/// still provide it afterwards, every installed package that still requires
/// it and is not moving alongside would break, so the candidate waits. The
/// partner named is a held dependent with the longest countdown, else the
/// first dependent by name; one partner per candidate.
pub fn soname_coupling_demotions(ready: &[CouplingPkg], held: &[CouplingPkg], data: &SonameData) -> (d: Vec<(String, String)>)
    ensures
        pair_views(d@) == soname_demotions_spec(ready@, ready@, held@, *data),
{
    if ready.len() == 0 {
        return Vec::new();
    }
    if data.installed_provides.len() == 0 {
        proof {
            assert(data.installed_provides@ =~= Map::<Seq<char>, Vec<String>>::empty());
            lemma_soname_inert(ready@, ready@, held@, *data);
        }
        return Vec::new();
    }
    let empty: Vec<String> = Vec::new();
    let mut out: Vec<(String, String)> = Vec::new();
    let mut i: usize = 0;
    while i < ready.len()
        invariant
            i <= ready.len(),
            empty@.len() == 0,
            pair_views(out@) == soname_demotions_spec(ready@.take(i as int), ready@, held@, *data),
        decreases ready.len() - i,
    {
        assert(ready@.take(i + 1).drop_last() =~= ready@.take(i as int));
        assert(ready@.take(i + 1).last() == ready@[i as int]);
        let cand = &ready[i];
        let before = list_or_empty(&data.installed_provides, cand.name.as_str(), &empty);
        let after = list_or_empty(&data.new_provides, cand.name.as_str(), &empty);
        let ghost bs = views(before@);
        let ghost ds = dropped_sonames(bs, views(after@));
        let mut found: Option<String> = None;
        let mut j: usize = 0;
        while j < before.len()
            invariant
                j <= before.len(),
                bs == views(before@),
                ds == dropped_sonames(bs, views(after@)),
                match found {
                    Some(p) => first_partner(dropped_sonames(bs.take(j as int), views(after@)), ready@, held@, *data) == Some(p@),
                    None => first_partner(dropped_sonames(bs.take(j as int), views(after@)), ready@, held@, *data) is None,
                },
            decreases before.len() - j,
        {
            assert(bs.take(j + 1).drop_last() =~= bs.take(j as int));
            assert(bs.take(j + 1).last() == before@[j as int]@);
            let e = &before[j];
            if found.is_none() && is_soname(e.as_str()) && !contains_string(after, e) {
                let ghost pre = dropped_sonames(bs.take(j as int), views(after@));
                assert(dropped_sonames(bs.take(j + 1), views(after@)) == pre.push(e@));
                assert(pre.push(e@).drop_last() =~= pre);
                found = partner_for_exec(e, ready, held, data);
            } else if found.is_some() && is_soname(e.as_str()) && !contains_string(after, e) {
                let ghost pre = dropped_sonames(bs.take(j as int), views(after@));
                assert(pre.push(e@).drop_last() =~= pre);
            }
            j += 1;
        }
        assert(bs.take(j as int) =~= bs);
        let ghost prev = pair_views(out@);
        match found {
            Some(p) => {
                out.push((cand.name.clone(), p));
                assert(pair_views(out@) =~= prev + soname_step(*cand, ready@, held@, *data));
            },
            None => {
                assert(pair_views(out@) =~= prev + soname_step(*cand, ready@, held@, *data));
            },
        }
        i += 1;
    }
    assert(ready@.take(i as int) =~= ready@);
    out
}

/// The demoted names of a list of pairs.
pub open spec fn firsts(s: Seq<(Seq<char>, Seq<char>)>) -> Seq<Seq<char>> {
    s.map_values(|p: (Seq<char>, Seq<char>)| p.0)
}

/// Keep the first pair for each demoted name.
pub open spec fn claim_first(s: Seq<(Seq<char>, Seq<char>)>) -> Seq<(Seq<char>, Seq<char>)>
    decreases s.len(),
{
    if s.len() == 0 {
        seq![]
    } else {
        let c = claim_first(s.drop_last());
        if firsts(c).contains(s.last().0) {
            c
        } else {
            c.push(s.last())
        }
    }
}

/// Every rule, in order: lib32, pkgbase, cohort, soname.
pub open spec fn all_rules(ready: Seq<CouplingPkg>, held: Seq<CouplingPkg>, data: SonameData) -> Seq<
    (Seq<char>, Seq<char>),
> {
    lib32_demotions_spec(pkg_names(ready), pkg_names(held)) + pkgbase_demotions_spec(ready, held)
        + cohort_demotions_spec(ready, ready, held) + soname_demotions_spec(ready, ready, held, data)
}

/// One pass of every coupling rule: the first rule to claim a name wins.
pub open spec fn coupling_spec(ready: Seq<CouplingPkg>, held: Seq<CouplingPkg>, data: SonameData) -> Seq<
    (Seq<char>, Seq<char>),
> {
    claim_first(all_rules(ready, held, data))
}

/// Every pair of `s` demotes one of `names`.
pub open spec fn demotes_only(s: Seq<(Seq<char>, Seq<char>)>, names: Seq<Seq<char>>) -> bool {
    forall|i: int| 0 <= i < s.len() ==> names.contains(#[trigger] s[i].0)
}

proof fn lemma_demotes_only_concat(a: Seq<(Seq<char>, Seq<char>)>, b: Seq<(Seq<char>, Seq<char>)>, names: Seq<Seq<char>>)
    requires
        demotes_only(a, names),
        demotes_only(b, names),
    ensures
        demotes_only(a + b, names),
{
    assert forall|i: int| 0 <= i < (a + b).len() implies names.contains(#[trigger] (a + b)[i].0) by {
        if i < a.len() {
            assert((a + b)[i] == a[i]);
        } else {
            assert((a + b)[i] == b[i - a.len()]);
        }
    }
}

proof fn lemma_rule_folds_demote_prefix(prefix: Seq<CouplingPkg>, ready: Seq<CouplingPkg>, held: Seq<CouplingPkg>, data: SonameData)
    ensures
        demotes_only(pkgbase_demotions_spec(prefix, held), pkg_names(prefix)),
        demotes_only(cohort_demotions_spec(prefix, ready, held), pkg_names(prefix)),
        demotes_only(soname_demotions_spec(prefix, ready, held, data), pkg_names(prefix)),
    decreases prefix.len(),
{
    if prefix.len() > 0 {
        let pre = prefix.drop_last();
        let p = prefix.last();
        lemma_rule_folds_demote_prefix(pre, ready, held, data);
        assert(pkg_names(prefix)[prefix.len() - 1] == p.name@);
        assert forall|x: Seq<char>| pkg_names(pre).contains(x) implies pkg_names(prefix).contains(x) by {
            let j = choose|j: int| 0 <= j < pkg_names(pre).len() && pkg_names(pre)[j] == x;
            assert(pkg_names(prefix)[j] == x);
        }
        assert(demotes_only(pkgbase_step(p, held), pkg_names(prefix)));
        assert(demotes_only(cohort_step(p, ready, held), pkg_names(prefix)));
        assert(demotes_only(soname_step(p, ready, held, data), pkg_names(prefix)));
        lemma_demotes_only_concat(pkgbase_demotions_spec(pre, held), pkgbase_step(p, held), pkg_names(prefix));
        lemma_demotes_only_concat(cohort_demotions_spec(pre, ready, held), cohort_step(p, ready, held), pkg_names(prefix));
        lemma_demotes_only_concat(soname_demotions_spec(pre, ready, held, data), soname_step(p, ready, held, data), pkg_names(prefix));
    }
}

proof fn lemma_lib32_demotes_ready(ready: Seq<Seq<char>>, held: Seq<Seq<char>>)
    ensures
        demotes_only(lib32_demotions_spec(ready, held), ready),
    decreases ready.len(),
{
    if ready.len() > 0 {
        let pre = ready.drop_last();
        lemma_lib32_demotes_ready(pre, held);
        assert(ready[ready.len() - 1] == ready.last());
        assert forall|x: Seq<char>| pre.contains(x) implies ready.contains(x) by {
            let j = choose|j: int| 0 <= j < pre.len() && pre[j] == x;
            assert(ready[j] == x);
        }
        assert(demotes_only(lib32_step(ready.last(), held), ready));
        lemma_demotes_only_concat(lib32_demotions_spec(pre, held), lib32_step(ready.last(), held), ready);
    }
}

proof fn lemma_claim_first(s: Seq<(Seq<char>, Seq<char>)>)
    ensures
        firsts(claim_first(s)).no_duplicates(),
        forall|i: int| 0 <= i < claim_first(s).len() ==> s.contains(#[trigger] claim_first(s)[i]),
        s.len() > 0 ==> claim_first(s).len() > 0,
        forall|x: Seq<char>| firsts(s).contains(x) ==> #[trigger] firsts(claim_first(s)).contains(x),
    decreases s.len(),
{
    if s.len() > 0 {
        let pre = s.drop_last();
        lemma_claim_first(pre);
        let c = claim_first(pre);
        assert forall|i: int| 0 <= i < claim_first(s).len() implies s.contains(#[trigger] claim_first(s)[i]) by {
            if i < c.len() {
                assert(c.contains(c[i]) ==> true);
                assert(pre.contains(c[i]));
                let j = choose|j: int| 0 <= j < pre.len() && pre[j] == c[i];
                assert(s[j] == c[i]);
            } else {
                assert(s[s.len() - 1] == s.last());
            }
        }
        if !firsts(c).contains(s.last().0) {
            assert(firsts(c.push(s.last())) =~= firsts(c).push(s.last().0));
        }
        assert forall|x: Seq<char>| firsts(s).contains(x) implies #[trigger] firsts(claim_first(s)).contains(x) by {
            let j = choose|j: int| 0 <= j < firsts(s).len() && firsts(s)[j] == x;
            if j < pre.len() {
                assert(firsts(pre)[j] == x);
                assert(firsts(c).contains(x));
                if !firsts(c).contains(s.last().0) {
                    let k = choose|k: int| 0 <= k < firsts(c).len() && firsts(c)[k] == x;
                    assert(firsts(c.push(s.last()))[k] == x);
                }
            } else {
                if !firsts(c).contains(s.last().0) {
                    assert(firsts(c.push(s.last()))[c.len() as int] == x);
                }
            }
        }
    }
}

/// One pass of every coupling rule demotes only Ready packages, each at
/// most once.
pub proof fn lemma_coupling_demotes_ready_once(ready: Seq<CouplingPkg>, held: Seq<CouplingPkg>, data: SonameData)
    ensures
        firsts(coupling_spec(ready, held, data)).no_duplicates(),
        forall|i: int| 0 <= i < coupling_spec(ready, held, data).len() ==> pkg_names(ready).contains(
            #[trigger] coupling_spec(ready, held, data)[i].0,
        ),
        all_rules(ready, held, data).len() > 0 ==> coupling_spec(ready, held, data).len() > 0,
{
    let all = all_rules(ready, held, data);
    lemma_claim_first(all);
    lemma_lib32_demotes_ready(pkg_names(ready), pkg_names(held));
    lemma_rule_folds_demote_prefix(ready, ready, held, data);
    lemma_demotes_only_concat(
        lib32_demotions_spec(pkg_names(ready), pkg_names(held)),
        pkgbase_demotions_spec(ready, held),
        pkg_names(ready),
    );
    lemma_demotes_only_concat(
        lib32_demotions_spec(pkg_names(ready), pkg_names(held)) + pkgbase_demotions_spec(ready, held),
        cohort_demotions_spec(ready, ready, held),
        pkg_names(ready),
    );
    lemma_demotes_only_concat(
        lib32_demotions_spec(pkg_names(ready), pkg_names(held)) + pkgbase_demotions_spec(ready, held)
            + cohort_demotions_spec(ready, ready, held),
        soname_demotions_spec(ready, ready, held, data),
        pkg_names(ready),
    );
    let c = coupling_spec(ready, held, data);
    assert forall|i: int| 0 <= i < c.len() implies pkg_names(ready).contains(#[trigger] c[i].0) by {
        assert(all.contains(c[i]));
        let j = choose|j: int| 0 <= j < all.len() && all[j] == c[i];
        assert(pkg_names(ready).contains(all[j].0));
    }
}

fn names_of(pkgs: &[CouplingPkg]) -> (v: Vec<String>)
    ensures
        views(v@) == pkg_names(pkgs@),
{
    let mut v: Vec<String> = Vec::new();
    let mut i: usize = 0;
    while i < pkgs.len()
        invariant
            i <= pkgs.len(),
            views(v@) == pkg_names(pkgs@.take(i as int)),
        decreases pkgs.len() - i,
    {
        let ghost before = views(v@);
        v.push(pkgs[i].name.clone());
        assert(views(v@) =~= before.push(pkgs@[i as int].name@));
        assert(pkg_names(pkgs@.take(i + 1)) =~= pkg_names(pkgs@.take(i as int)).push(pkgs@[i as int].name@));
        i += 1;
    }
    assert(pkgs@.take(i as int) =~= pkgs@);
    v
}

fn claims(claimed: &Vec<(String, String)>, name: &String) -> (b: bool)
    ensures
        b == firsts(pair_views(claimed@)).contains(name@),
{
    let ghost f = firsts(pair_views(claimed@));
    let mut i: usize = 0;
    while i < claimed.len()
        invariant
            i <= claimed.len(),
            f == firsts(pair_views(claimed@)),
            forall|j: int| 0 <= j < i ==> f[j] != name@,
        decreases claimed.len() - i,
    {
        if claimed[i].0 == *name {
            assert(f[i as int] == name@);
            return true;
        }
        i += 1;
    }
    false
}

/// Every coupling rule, applied to one snapshot of the buckets: the Ready
/// names that must move into Held, each with the package it waits on. A
/// name appears at most once; the first rule to claim it wins, in the order
/// lib32, pkgbase, cohort, soname. One pass does not converge on its own;
/// see `settle_coupling`.
pub fn coupling_demotions(ready: &[CouplingPkg], held: &[CouplingPkg], soname: &SonameData) -> (d: Vec<(String, String)>)
    ensures
        pair_views(d@) == coupling_spec(ready@, held@, *soname),
{
    let ready_names = names_of(ready);
    let held_names = names_of(held);
    let mut all = lib32_coupling_demotions(&ready_names, &held_names);
    let mut b = pkgbase_coupling_demotions(ready, held);
    let mut c = cohort_coupling_demotions(ready, held);
    let mut s = soname_coupling_demotions(ready, held, soname);
    let ghost pa = pair_views(all@);
    let ghost pb = pair_views(b@);
    let ghost pc = pair_views(c@);
    let ghost ps = pair_views(s@);
    all.append(&mut b);
    all.append(&mut c);
    all.append(&mut s);
    let ghost everything = pair_views(all@);
    assert(everything =~= pa + pb + pc + ps);
    let mut out: Vec<(String, String)> = Vec::new();
    let mut i: usize = 0;
    while i < all.len()
        invariant
            i <= all.len(),
            everything == pair_views(all@),
            pair_views(out@) == claim_first(everything.take(i as int)),
        decreases all.len() - i,
    {
        assert(everything.take(i + 1).drop_last() =~= everything.take(i as int));
        assert(everything.take(i + 1).last() == (all@[i as int].0@, all@[i as int].1@));
        let ghost before = pair_views(out@);
        if !claims(&out, &all[i].0) {
            out.push((all[i].0.clone(), all[i].1.clone()));
            assert(pair_views(out@) =~= before.push((all@[i as int].0@, all@[i as int].1@)));
        }
        i += 1;
    }
    assert(everything.take(i as int) =~= everything);
    out
}

/// An exact copy of a coupling entry.
pub(crate) fn copy_pkg(p: &CouplingPkg) -> (q: CouplingPkg)
    ensures
        q == *p,
{
    CouplingPkg {
        name: p.name.clone(),
        old_version: p.old_version.clone(),
        new_version: p.new_version.clone(),
        pkgbase: match &p.pkgbase {
            Some(b) => Some(b.clone()),
            None => None,
        },
        remaining: p.remaining,
    }
}

/// The Ready packages a demotion list does not name, in order.
pub open spec fn unclaimed(ready: Seq<CouplingPkg>, d: Seq<(Seq<char>, Seq<char>)>) -> Seq<CouplingPkg>
    decreases ready.len(),
{
    if ready.len() == 0 {
        seq![]
    } else if firsts(d).contains(ready.last().name@) {
        unclaimed(ready.drop_last(), d)
    } else {
        unclaimed(ready.drop_last(), d).push(ready.last())
    }
}

/// The Ready packages a demotion list names, in order.
pub open spec fn claimed(ready: Seq<CouplingPkg>, d: Seq<(Seq<char>, Seq<char>)>) -> Seq<CouplingPkg>
    decreases ready.len(),
{
    if ready.len() == 0 {
        seq![]
    } else if firsts(d).contains(ready.last().name@) {
        claimed(ready.drop_last(), d).push(ready.last())
    } else {
        claimed(ready.drop_last(), d)
    }
}

/// The buckets after the coupling passes: each pass moves exactly the Ready
/// packages the rules demote, in order, to the end of Held, until a pass
/// demotes nothing. (A pass that would leave Ready as it was ends the
/// iteration too; the passes `settle_coupling` makes never do.)
pub open spec fn settle_spec(ready: Seq<CouplingPkg>, held: Seq<CouplingPkg>, data: SonameData) -> (
    Seq<CouplingPkg>,
    Seq<CouplingPkg>,
)
    decreases ready.len(),
{
    let d = coupling_spec(ready, held, data);
    let keep = unclaimed(ready, d);
    if d.len() == 0 || keep.len() >= ready.len() {
        (ready, held)
    } else {
        settle_spec(keep, held + claimed(ready, d), data)
    }
}

/// How many passes `settle_spec` makes that move something.
pub open spec fn settle_passes(ready: Seq<CouplingPkg>, held: Seq<CouplingPkg>, data: SonameData) -> nat
    decreases ready.len(),
{
    let d = coupling_spec(ready, held, data);
    let keep = unclaimed(ready, d);
    if d.len() == 0 || keep.len() >= ready.len() {
        0
    } else {
        1 + settle_passes(keep, held + claimed(ready, d), data)
    }
}

/// The coupling passes end: each one that moves anything moves at least
/// one Ready package, so there are never more such passes than Ready
/// packages.
pub proof fn lemma_settle_passes_bounded(ready: Seq<CouplingPkg>, held: Seq<CouplingPkg>, data: SonameData)
    ensures
        settle_passes(ready, held, data) <= ready.len(),
    decreases ready.len(),
{
    let d = coupling_spec(ready, held, data);
    let keep = unclaimed(ready, d);
    if !(d.len() == 0 || keep.len() >= ready.len()) {
        lemma_settle_passes_bounded(keep, held + claimed(ready, d), data);
    }
}

/// Apply the coupling rules until they demote nothing more.
///
/// Each pass moves every Ready package that the rules demote to the end of
/// Held, unchanged. Returns the settled Ready and Held lists. Held keeps its
/// original entries first, no package is lost or duplicated, and one more
/// pass of the rules would demote nothing: the iteration always converges.
#[verifier::loop_isolation(false)]
pub fn settle_coupling(ready: Vec<CouplingPkg>, held: Vec<CouplingPkg>, soname: &SonameData) -> (r: (
    Vec<CouplingPkg>,
    Vec<CouplingPkg>,
))
    ensures
        (r.0@, r.1@) == settle_spec(ready@, held@, *soname),
        coupling_spec(r.0@, r.1@, *soname).len() == 0,
        r.1@.len() >= held@.len(),
        r.1@.take(held@.len() as int) == held@,
        (r.0@ + r.1@).to_multiset() == (ready@ + held@).to_multiset(),
{
    broadcast use vstd::seq_lib::group_to_multiset_ensures;
    broadcast use vstd::multiset::group_multiset_axioms;

    let ghost total = (ready@ + held@).to_multiset();
    let ghost held0 = held@;
    let ghost goal = settle_spec(ready@, held@, *soname);
    let mut ready = ready;
    let mut held = held;
    loop
        invariant
            (ready@ + held@).to_multiset() == total,
            held@.len() >= held0.len(),
            held@.take(held0.len() as int) == held0,
            settle_spec(ready@, held@, *soname) == goal,
        decreases ready@.len(),
    {
        let d = coupling_demotions(&ready, &held, soname);
        if d.len() == 0 {
            return (ready, held);
        }
        proof {
            lemma_coupling_demotes_ready_once(ready@, held@, *soname);
        }
        let ghost dv = pair_views(d@);
        let ghost first_name = dv[0].0;
        assert(pkg_names(ready@).contains(first_name));
        let mut keep: Vec<CouplingPkg> = Vec::new();
        let mut moved: Vec<CouplingPkg> = Vec::new();
        let mut i: usize = 0;
        assert(ready@.take(0) =~= Seq::<CouplingPkg>::empty());
        assert(keep@ + moved@ =~= Seq::<CouplingPkg>::empty());
        while i < ready.len()
            invariant
                i <= ready.len(),
                dv == pair_views(d@),
                dv.len() > 0,
                first_name == dv[0].0,
                keep@.len() + moved@.len() == i,
                (keep@ + moved@).to_multiset() == ready@.take(i as int).to_multiset(),
                moved@.len() > 0 || forall|j: int| 0 <= j < i ==> ready@[j].name@ != first_name,
                keep@ == unclaimed(ready@.take(i as int), dv),
                moved@ == claimed(ready@.take(i as int), dv),
            decreases ready.len() - i,
        {
            let ghost k0 = keep@;
            let ghost m0 = moved@;
            let p = copy_pkg(&ready[i]);
            assert(ready@.take(i + 1) =~= ready@.take(i as int).push(p));
            assert(ready@.take(i + 1).drop_last() =~= ready@.take(i as int));
            if claims(&d, &p.name) {
                moved.push(p);
                assert(k0 + m0.push(p) =~= (k0 + m0).push(p));
            } else {
                keep.push(p);
                proof {
                    vstd::seq_lib::lemma_multiset_commutative(k0.push(p), m0);
                    vstd::seq_lib::lemma_multiset_commutative(k0, m0);
                    assert(k0.push(p).to_multiset() == k0.to_multiset().insert(p));
                    assert((k0 + m0).push(p).to_multiset() == (k0 + m0).to_multiset().insert(p));
                    if p.name@ == first_name {
                        assert(firsts(dv)[0] == first_name);
                    }
                }
            }
            i += 1;
        }
        assert(ready@.take(i as int) =~= ready@);
        proof {
            if moved@.len() == 0 {
                let j = choose|j: int| 0 <= j < pkg_names(ready@).len() && pkg_names(ready@)[j] == first_name;
                assert(ready@[j].name@ == first_name);
            }
        }
        let ghost old_held = held@;
        let ghost mv = moved@;
        let ghost kp = keep@;
        assert(kp.len() < ready@.len());
        assert(settle_spec(ready@, old_held, *soname) == settle_spec(kp, old_held + mv, *soname));
        held.append(&mut moved);
        proof {
            assert(held@ =~= old_held + mv);
            assert(held@.take(held0.len() as int) =~= old_held.take(held0.len() as int));
            vstd::seq_lib::lemma_multiset_commutative(kp, mv);
            vstd::seq_lib::lemma_multiset_commutative(kp, old_held + mv);
            vstd::seq_lib::lemma_multiset_commutative(old_held, mv);
            vstd::seq_lib::lemma_multiset_commutative(ready@, old_held);
            assert((kp + (old_held + mv)).to_multiset() =~= (ready@ + old_held).to_multiset());
        }
        ready = keep;
    }
}

proof fn lemma_best_where_pred(held: Seq<CouplingPkg>, pred: spec_fn(CouplingPkg) -> bool)
    ensures
        best_where(held, pred) matches Some(x) ==> pred(x),
    decreases held.len(),
{
    if held.len() > 0 {
        lemma_best_where_pred(held.drop_last(), pred);
    }
}

proof fn lemma_min_name_in(s: Seq<Seq<char>>)
    requires
        s.len() > 0,
    ensures
        s.contains(min_name(s)),
    decreases s.len(),
{
    if s.len() == 1 {
        assert(s[0] == min_name(s));
    } else {
        lemma_min_name_in(s.drop_last());
        let m = min_name(s.drop_last());
        if seq_lt(s.last(), m) {
            assert(s[s.len() - 1] == s.last());
        } else {
            let j = choose|j: int| 0 <= j < s.drop_last().len() && s.drop_last()[j] == m;
            assert(s[j] == m);
        }
    }
}

proof fn lemma_breakers_unmoved(keys: Seq<Seq<char>>, depends: NameTable<Vec<String>>, d: Seq<char>, ready: Seq<CouplingPkg>)
    ensures
        forall|x: Seq<char>| #[trigger] breakers(keys, depends, d, ready).contains(x) ==> keys.contains(x) && !moving(ready, x),
    decreases keys.len(),
{
    if keys.len() > 0 {
        let pre = keys.drop_last();
        lemma_breakers_unmoved(pre, depends, d, ready);
        let r = breakers(pre, depends, d, ready);
        assert forall|x: Seq<char>| #[trigger] breakers(keys, depends, d, ready).contains(x) implies keys.contains(x) && !moving(ready, x) by {
            let b = breakers(keys, depends, d, ready);
            let k = choose|k: int| 0 <= k < b.len() && b[k] == x;
            if k < r.len() {
                assert(b[k] == r[k]);
                assert(r.contains(x));
                let j = choose|j: int| 0 <= j < pre.len() && pre[j] == x;
                assert(keys[j] == x);
            } else {
                assert(keys[keys.len() - 1] == x);
            }
        }
    }
}

/// The partners of a list of demotions are installed packages (listed in
/// the `%DEPENDS%` table) that are not moving this run.
pub open spec fn unmoved_partners(s: Seq<(Seq<char>, Seq<char>)>, ready: Seq<CouplingPkg>, data: SonameData) -> bool {
    forall|i: int|
        0 <= i < s.len() ==> data.installed_depends.key_seq().contains(#[trigger] s[i].1) && !moving(ready, s[i].1)
}

proof fn lemma_first_partner_unmoved(ds: Seq<Seq<char>>, ready: Seq<CouplingPkg>, held: Seq<CouplingPkg>, data: SonameData)
    ensures
        first_partner(ds, ready, held, data) matches Some(p) ==> data.installed_depends.key_seq().contains(p)
            && !moving(ready, p),
    decreases ds.len(),
{
    if ds.len() > 0 {
        lemma_first_partner_unmoved(ds.drop_last(), ready, held, data);
        let d = ds.last();
        let br = breakers(data.installed_depends.key_seq(), data.installed_depends, d, ready);
        lemma_breakers_unmoved(data.installed_depends.key_seq(), data.installed_depends, d, ready);
        lemma_best_where_pred(held, |h: CouplingPkg| br.contains(h.name@));
        if br.len() > 0 {
            lemma_min_name_in(br);
        }
    }
}

/// The soname rule only ever makes a package wait on an installed package
/// that still requires the soname it would drop and is not itself moving
/// this run (a held update, or a package with no update at all).
pub proof fn lemma_soname_partners_unmoved(prefix: Seq<CouplingPkg>, ready: Seq<CouplingPkg>, held: Seq<CouplingPkg>, data: SonameData)
    ensures
        unmoved_partners(soname_demotions_spec(prefix, ready, held, data), ready, data),
    decreases prefix.len(),
{
    if prefix.len() > 0 {
        let pre = soname_demotions_spec(prefix.drop_last(), ready, held, data);
        let cand = prefix.last();
        let st = soname_step(cand, ready, held, data);
        lemma_soname_partners_unmoved(prefix.drop_last(), ready, held, data);
        let ds = dropped_sonames(
            list_at(data.installed_provides, cand.name@),
            list_at(data.new_provides, cand.name@),
        );
        lemma_first_partner_unmoved(ds, ready, held, data);
        assert forall|i: int| 0 <= i < (pre + st).len() implies data.installed_depends.key_seq().contains(
            #[trigger] (pre + st)[i].1,
        ) && !moving(ready, (pre + st)[i].1) by {
            if i < pre.len() {
                assert((pre + st)[i] == pre[i]);
            } else {
                assert((pre + st)[i] == st[i - pre.len()]);
            }
        }
    }
}

/// Every pair of `s` waits on one of `names`.
pub open spec fn waits_on(s: Seq<(Seq<char>, Seq<char>)>, names: Seq<Seq<char>>) -> bool {
    forall|i: int| 0 <= i < s.len() ==> names.contains(#[trigger] s[i].1)
}

proof fn lemma_waits_on_concat(a: Seq<(Seq<char>, Seq<char>)>, b: Seq<(Seq<char>, Seq<char>)>, names: Seq<Seq<char>>)
    requires
        waits_on(a, names),
        waits_on(b, names),
    ensures
        waits_on(a + b, names),
{
    assert forall|i: int| 0 <= i < (a + b).len() implies names.contains(#[trigger] (a + b)[i].1) by {
        if i < a.len() {
            assert((a + b)[i] == a[i]);
        } else {
            assert((a + b)[i] == b[i - a.len()]);
        }
    }
}

proof fn lemma_best_where_held(held: Seq<CouplingPkg>, pred: spec_fn(CouplingPkg) -> bool)
    ensures
        best_where(held, pred) matches Some(x) ==> pkg_names(held).contains(x.name@),
    decreases held.len(),
{
    if held.len() > 0 {
        lemma_best_where_held(held.drop_last(), pred);
        if let Some(x) = best_where(held, pred) {
            if best_where(held.drop_last(), pred) == Some(x) {
                let j = choose|j: int|
                    0 <= j < pkg_names(held.drop_last()).len() && pkg_names(held.drop_last())[j] == x.name@;
                assert(pkg_names(held)[j] == x.name@);
            } else {
                assert(x == held.last());
                assert(pkg_names(held)[held.len() - 1] == x.name@);
            }
        }
    }
}

proof fn lemma_lib32_waits_on_held(ready: Seq<Seq<char>>, held: Seq<Seq<char>>)
    ensures
        waits_on(lib32_demotions_spec(ready, held), held),
    decreases ready.len(),
{
    if ready.len() > 0 {
        lemma_lib32_waits_on_held(ready.drop_last(), held);
        lemma_waits_on_concat(lib32_demotions_spec(ready.drop_last(), held), lib32_step(ready.last(), held), held);
    }
}

proof fn lemma_pkgbase_waits_on_held(ready: Seq<CouplingPkg>, held: Seq<CouplingPkg>)
    ensures
        waits_on(pkgbase_demotions_spec(ready, held), pkg_names(held)),
    decreases ready.len(),
{
    if ready.len() > 0 {
        let p = ready.last();
        lemma_pkgbase_waits_on_held(ready.drop_last(), held);
        if let Some(b) = p.pkgbase {
            lemma_best_where_held(held, |h: CouplingPkg| has_pkgbase(h, b@));
        }
        lemma_waits_on_concat(pkgbase_demotions_spec(ready.drop_last(), held), pkgbase_step(p, held), pkg_names(held));
    }
}

proof fn lemma_cohort_waits_on_held(prefix: Seq<CouplingPkg>, ready: Seq<CouplingPkg>, held: Seq<CouplingPkg>)
    ensures
        waits_on(cohort_demotions_spec(prefix, ready, held), pkg_names(held)),
    decreases prefix.len(),
{
    if prefix.len() > 0 {
        let p = prefix.last();
        lemma_cohort_waits_on_held(prefix.drop_last(), ready, held);
        let k = cohort_key(p);
        lemma_best_where_held(held, |h: CouplingPkg| cohort_key(h) == k);
        lemma_waits_on_concat(cohort_demotions_spec(prefix.drop_last(), ready, held), cohort_step(p, ready, held), pkg_names(held));
    }
}

/// The exact coupling rules (lib32, pkgbase, version cohort) only ever make
/// a Ready package wait on a package that is itself held, so both release
/// together. (The soname rule may name an installed package that has no
/// update at all.)
pub proof fn lemma_exact_partners_are_held(ready: Seq<CouplingPkg>, held: Seq<CouplingPkg>)
    ensures
        waits_on(
            lib32_demotions_spec(pkg_names(ready), pkg_names(held)) + pkgbase_demotions_spec(ready, held)
                + cohort_demotions_spec(ready, ready, held),
            pkg_names(held),
        ),
{
    lemma_lib32_waits_on_held(pkg_names(ready), pkg_names(held));
    lemma_pkgbase_waits_on_held(ready, held);
    lemma_cohort_waits_on_held(ready, ready, held);
    lemma_waits_on_concat(
        lib32_demotions_spec(pkg_names(ready), pkg_names(held)),
        pkgbase_demotions_spec(ready, held),
        pkg_names(held),
    );
    lemma_waits_on_concat(
        lib32_demotions_spec(pkg_names(ready), pkg_names(held)) + pkgbase_demotions_spec(ready, held),
        cohort_demotions_spec(ready, ready, held),
        pkg_names(held),
    );
}

// ---------------------------------------------------------------------------
// Laws of the hold clock
// ---------------------------------------------------------------------------

proof fn lemma_days_ceil_shift(e: int, k: int)
    requires
        e >= 0,
        k >= 0,
    ensures
        days_ceil_spec(e + k * 86400) == days_ceil_spec(e) + k,
{
    let q = e / 86400;
    let r = e % 86400;
    vstd::arithmetic::div_mod::lemma_fundamental_div_mod(e, 86400);
    assert(0 <= r < 86400);
    vstd::arithmetic::div_mod::lemma_fundamental_div_mod_converse(e + k * 86400, 86400, q + k, r);
}

proof fn lemma_days_ceil_alt(e: int)
    requires
        e >= 0,
    ensures
        days_ceil_spec(e) == (e + 86399) / 86400,
{
    let q = e / 86400;
    let r = e % 86400;
    vstd::arithmetic::div_mod::lemma_fundamental_div_mod(e, 86400);
    if r == 0 {
        vstd::arithmetic::div_mod::lemma_fundamental_div_mod_converse(e + 86399, 86400, q, 86399);
    } else {
        vstd::arithmetic::div_mod::lemma_fundamental_div_mod_converse(e + 86399, 86400, q + 1, r - 1);
    }
}

proof fn lemma_days_ceil_monotone(e: int, f: int)
    requires
        0 <= e <= f,
    ensures
        days_ceil_spec(e) <= days_ceil_spec(f),
{
    lemma_days_ceil_alt(e);
    lemma_days_ceil_alt(f);
    vstd::arithmetic::div_mod::lemma_div_is_ordered(e + 86399, f + 86399, 86400);
}

/// The countdown of a held package is exact: when its remaining days have
/// passed, its window has just expired. (A build dated after the clock is
/// left out: its elapsed time stays zero until the build date is reached.)
pub proof fn lemma_countdown_releases_on_time(build_ts: u64, tier: Tier, holds: HoldsConfig, now: u64, r: u64)
    requires
        build_ts <= now,
        status_at(build_ts, tier, holds, Some(now)) == (HoldStatus::Holding { days_remaining: r }),
        now + r * 86400 <= u64::MAX,
    ensures
        status_at(build_ts, tier, holds, Some((now + r * 86400) as u64)) == (HoldStatus::Expired {
            days_past_window: 0,
        }),
{
    let e = now - build_ts;
    lemma_days_ceil_shift(e, r as int);
    assert(elapsed_secs(build_ts, (now + r * 86400) as u64) == e + r * 86400);
}

/// Release is final: once a package's window has expired, a later clock
/// never puts it back on hold, and the days past the window only grow.
pub proof fn lemma_release_is_final(build_ts: u64, tier: Tier, holds: HoldsConfig, now: u64, later: u64)
    requires
        now <= later,
        status_at(build_ts, tier, holds, Some(now)) is Expired,
    ensures
        status_at(build_ts, tier, holds, Some(later)) is Expired,
        status_at(build_ts, tier, holds, Some(later))->days_past_window >= status_at(
            build_ts,
            tier,
            holds,
            Some(now),
        )->days_past_window,
{
    lemma_days_ceil_monotone(elapsed_secs(build_ts, now), elapsed_secs(build_ts, later));
}

} // verus!
