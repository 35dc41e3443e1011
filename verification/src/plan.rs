//! The decisions of `nog update`.
//!
//! The update command gathers pending updates from every active source,
//! then decides: which bucket each update lands in (Ready, Held, Unknown),
//! whether a held kernel is pulled forward to match installed headers
//! (`--realign`), which Ready halves of a lib32 pair wait for their held
//! partner, the order of the Held list, what pacman must ignore, and what
//! the foreign fence may let through. Each decision is a function here; the
//! caller runs the commands and the prompts in between.
use crate::holds::{
    coupling_demotions, coupling_spec, evaluate_candidate_at, evaluate_candidate_spec,
    lemma_coupling_demotes_ready_once, lib32_coupling_demotions, lib32_demotions_spec,
    pkg_names, CouplingPkg, HoldStatus, SonameData,
};
use crate::config::HoldsConfig;
use crate::pacman::{pending_fields, PendingUpdate};
use crate::local_db::InstalledDesc;
use crate::sync_db::{opt_view, PackageDesc};
use crate::table::NameTable;
use crate::text::{
    chars_of, i32_chars, lt_strings, push_all, push_str, seq_lt, signed_decimal, str_eq, string_of,
    views,
};
use crate::tiers::{classify_spec, Tier, TierManager};
use vstd::prelude::*;

verus! {

/// Why an update is in the Ready bucket.
#[derive(Debug, Clone, Copy, PartialEq, Eq, Structural)]
pub enum ReadyReason {
    /// The hold window passed `days_past_window` days ago.
    Expired { days_past_window: u64 },
    /// `--realign` pulled a held kernel forward to match its installed
    /// headers.
    Realigned,
}

/// Why an update is in the Held bucket.
#[derive(Debug, Clone, PartialEq, Eq)]
pub enum HeldReason {
    /// The tier's window is still open.
    Window,
    /// Tier 1 with `manual_signoff = true`; released with `nog unlock`.
    ManualSignoff,
    /// Held only to keep a lib32/base pair together; waits on the partner.
    CoupledTo(String),
}

/// `HeldReason` over character sequences.
pub enum HeldWhy {
    Window,
    ManualSignoff,
    CoupledTo(Seq<char>),
}

pub open spec fn held_why(r: HeldReason) -> HeldWhy {
    match r {
        HeldReason::Window => HeldWhy::Window,
        HeldReason::ManualSignoff => HeldWhy::ManualSignoff,
        HeldReason::CoupledTo(p) => HeldWhy::CoupledTo(p@),
    }
}

#[derive(Debug, Clone)]
pub struct ReadyEntry {
    pub update: PendingUpdate,
    pub tier: Tier,
    pub reason: ReadyReason,
}

#[derive(Debug, Clone)]
pub struct HeldEntry {
    pub update: PendingUpdate,
    pub tier: Tier,
    /// Days left; 0 for a manual sign-off.
    pub remaining: u64,
    pub reason: HeldReason,
}

#[derive(Debug, Clone)]
pub struct UnknownEntry {
    pub update: PendingUpdate,
    pub tier: Tier,
}

pub type Fields = (Seq<char>, Seq<char>, Seq<char>);

pub type ReadyView = (Fields, Tier, ReadyReason);

pub type HeldView = (Fields, Tier, u64, HeldWhy);

pub type UnknownView = (Fields, Tier);

pub open spec fn ready_view(e: ReadyEntry) -> ReadyView {
    (pending_fields(e.update), e.tier, e.reason)
}

pub open spec fn held_view(e: HeldEntry) -> HeldView {
    (pending_fields(e.update), e.tier, e.remaining, held_why(e.reason))
}

pub open spec fn unknown_view(e: UnknownEntry) -> UnknownView {
    (pending_fields(e.update), e.tier)
}

pub open spec fn ready_views(s: Seq<ReadyEntry>) -> Seq<ReadyView> {
    s.map_values(|e: ReadyEntry| ready_view(e))
}

pub open spec fn held_views(s: Seq<HeldEntry>) -> Seq<HeldView> {
    s.map_values(|e: HeldEntry| held_view(e))
}

pub open spec fn unknown_views(s: Seq<UnknownEntry>) -> Seq<UnknownView> {
    s.map_values(|e: UnknownEntry| unknown_view(e))
}

fn copy_update(u: &PendingUpdate) -> (r: PendingUpdate)
    ensures
        pending_fields(r) == pending_fields(*u),
{
    PendingUpdate {
        name: u.name.clone(),
        old_version: u.old_version.clone(),
        new_version: u.new_version.clone(),
    }
}

// ---------------------------------------------------------------------------
// Bucketing
// ---------------------------------------------------------------------------

/// Where one pending update lands, with the days past or left and, for
/// Held, whether a manual sign-off holds it.
pub enum Placement {
    Ready(u64),
    Held(u64, bool),
    Unknown,
}

/// The bucket of an update: a Tier 1 package under manual sign-off is held
/// whatever its date; otherwise the hold status decides.
pub open spec fn placement(
    u: Fields,
    tm: TierManager,
    packages: Map<Seq<char>, PackageDesc>,
    holds: HoldsConfig,
    now: Option<u64>,
) -> Placement {
    let tier = classify_spec(tm.pins(), tm.index(), u.0);
    let signoff = tier == Tier::One && tm.pins().tier1.manual_signoff;
    if signoff {
        Placement::Held(0, true)
    } else {
        match evaluate_candidate_spec(u.0, tier, u.2, packages, holds, now) {
            HoldStatus::Expired { days_past_window } => Placement::Ready(days_past_window),
            HoldStatus::Holding { days_remaining } => Placement::Held(days_remaining, false),
            HoldStatus::Unknown => Placement::Unknown,
        }
    }
}

pub open spec fn tier_of(tm: TierManager, u: Fields) -> Tier {
    classify_spec(tm.pins(), tm.index(), u.0)
}

pub open spec fn ready_of(
    ps: Seq<Fields>,
    tm: TierManager,
    packages: Map<Seq<char>, PackageDesc>,
    holds: HoldsConfig,
    now: Option<u64>,
) -> Seq<ReadyView>
    decreases ps.len(),
{
    if ps.len() == 0 {
        seq![]
    } else {
        let rest = ready_of(ps.drop_last(), tm, packages, holds, now);
        let u = ps.last();
        match placement(u, tm, packages, holds, now) {
            Placement::Ready(d) => rest.push(
                (u, tier_of(tm, u), ReadyReason::Expired { days_past_window: d }),
            ),
            _ => rest,
        }
    }
}

pub open spec fn held_of(
    ps: Seq<Fields>,
    tm: TierManager,
    packages: Map<Seq<char>, PackageDesc>,
    holds: HoldsConfig,
    now: Option<u64>,
) -> Seq<HeldView>
    decreases ps.len(),
{
    if ps.len() == 0 {
        seq![]
    } else {
        let rest = held_of(ps.drop_last(), tm, packages, holds, now);
        let u = ps.last();
        match placement(u, tm, packages, holds, now) {
            Placement::Held(r, signoff) => rest.push(
                (
                    u,
                    tier_of(tm, u),
                    r,
                    if signoff {
                        HeldWhy::ManualSignoff
                    } else {
                        HeldWhy::Window
                    },
                ),
            ),
            _ => rest,
        }
    }
}

pub open spec fn unknown_of(
    ps: Seq<Fields>,
    tm: TierManager,
    packages: Map<Seq<char>, PackageDesc>,
    holds: HoldsConfig,
    now: Option<u64>,
) -> Seq<UnknownView>
    decreases ps.len(),
{
    if ps.len() == 0 {
        seq![]
    } else {
        let rest = unknown_of(ps.drop_last(), tm, packages, holds, now);
        let u = ps.last();
        match placement(u, tm, packages, holds, now) {
            Placement::Unknown => rest.push((u, tier_of(tm, u))),
            _ => rest,
        }
    }
}

/// The three buckets of a run.
pub struct Buckets {
    pub ready: Vec<ReadyEntry>,
    pub held: Vec<HeldEntry>,
    pub unknown: Vec<UnknownEntry>,
}

/// Put every pending update in its bucket, in pending order: Held when its
/// tier's window is open or it needs a manual sign-off, Ready when the
/// window has passed, Unknown when there is no usable build date (or the
/// clock could not be read).
pub fn bucket_updates(
    pending: &[PendingUpdate],
    tm: &TierManager,
    packages: &NameTable<PackageDesc>,
    holds: &HoldsConfig,
    now: Option<u64>,
) -> (b: Buckets)
    ensures
        ready_views(b.ready@) == ready_of(
            crate::pacman::pending_views(pending@),
            *tm,
            packages@,
            *holds,
            now,
        ),
        held_views(b.held@) == held_of(
            crate::pacman::pending_views(pending@),
            *tm,
            packages@,
            *holds,
            now,
        ),
        unknown_views(b.unknown@) == unknown_of(
            crate::pacman::pending_views(pending@),
            *tm,
            packages@,
            *holds,
            now,
        ),
{
    let ghost pv = crate::pacman::pending_views(pending@);
    let mut ready: Vec<ReadyEntry> = Vec::new();
    let mut held: Vec<HeldEntry> = Vec::new();
    let mut unknown: Vec<UnknownEntry> = Vec::new();
    let mut i: usize = 0;
    while i < pending.len()
        invariant
            i <= pending.len(),
            pv == crate::pacman::pending_views(pending@),
            ready_views(ready@) == ready_of(pv.take(i as int), *tm, packages@, *holds, now),
            held_views(held@) == held_of(pv.take(i as int), *tm, packages@, *holds, now),
            unknown_views(unknown@) == unknown_of(pv.take(i as int), *tm, packages@, *holds, now),
        decreases pending.len() - i,
    {
        assert(pv.take(i + 1).drop_last() =~= pv.take(i as int));
        assert(pv.take(i + 1).last() == pending_fields(pending@[i as int]));
        let u = &pending[i];
        let tier = tm.classify(u.name.as_str());
        let status = evaluate_candidate_at(
            u.name.as_str(),
            tier,
            u.new_version.as_str(),
            packages,
            holds,
            now,
        );
        let signoff = tm.is_manual_signoff(u.name.as_str());
        let ghost r0 = ready_views(ready@);
        let ghost h0 = held_views(held@);
        let ghost k0 = unknown_views(unknown@);
        if signoff {
            let e = HeldEntry { update: copy_update(u), tier, remaining: 0, reason: HeldReason::ManualSignoff };
            held.push(e);
            assert(held_views(held@) =~= h0.push(held_view(e)));
        } else {
            match status {
                HoldStatus::Expired { days_past_window } => {
                    let e = ReadyEntry {
                        update: copy_update(u),
                        tier,
                        reason: ReadyReason::Expired { days_past_window },
                    };
                    ready.push(e);
                    assert(ready_views(ready@) =~= r0.push(ready_view(e)));
                },
                HoldStatus::Holding { days_remaining } => {
                    let e = HeldEntry {
                        update: copy_update(u),
                        tier,
                        remaining: days_remaining,
                        reason: HeldReason::Window,
                    };
                    held.push(e);
                    assert(held_views(held@) =~= h0.push(held_view(e)));
                },
                HoldStatus::Unknown => {
                    let e = UnknownEntry { update: copy_update(u), tier };
                    unknown.push(e);
                    assert(unknown_views(unknown@) =~= k0.push(unknown_view(e)));
                },
            }
        }
        i += 1;
    }
    assert(pv.take(i as int) =~= pv);
    Buckets { ready, held, unknown }
}

// ---------------------------------------------------------------------------
// Kernel / headers desync and --realign
// ---------------------------------------------------------------------------

pub open spec fn headers_of(k: Seq<char>) -> Seq<char> {
    k + "-headers"@
}

/// The packages whose installed versions the desync check needs: every
/// Tier 1 package, then its `-headers` companion.
pub fn desync_queries(kernels: &[String]) -> (r: Vec<String>)
    ensures
        views(r@) == views(kernels@) + views(kernels@).map_values(|k: Seq<char>| headers_of(k)),
{
    let mut out: Vec<String> = Vec::new();
    let mut i: usize = 0;
    while i < kernels.len()
        invariant
            i <= kernels.len(),
            views(out@) == views(kernels@).take(i as int),
        decreases kernels.len() - i,
    {
        let ghost before = views(out@);
        out.push(kernels[i].clone());
        assert(views(out@) =~= before.push(kernels@[i as int]@));
        assert(views(kernels@).take(i + 1) =~= views(kernels@).take(i as int).push(kernels@[i as int]@));
        i += 1;
    }
    assert(views(kernels@).take(i as int) =~= views(kernels@));
    let ghost base = views(out@);
    let mut j: usize = 0;
    while j < kernels.len()
        invariant
            j <= kernels.len(),
            base == views(kernels@),
            views(out@) == base + views(kernels@).map_values(|k: Seq<char>| headers_of(k)).take(j as int),
        decreases kernels.len() - j,
    {
        let ghost before = views(out@);
        let mut h = chars_of(kernels[j].as_str());
        push_str(&mut h, "-headers");
        let hs = string_of(&h);
        out.push(hs);
        assert(views(out@) =~= before.push(hs@));
        assert(views(kernels@).map_values(|k: Seq<char>| headers_of(k)).take(j + 1) =~= views(
            kernels@,
        ).map_values(|k: Seq<char>| headers_of(k)).take(j as int).push(headers_of(kernels@[j as int]@)));
        j += 1;
    }
    assert(views(kernels@).map_values(|k: Seq<char>| headers_of(k)).take(j as int) =~= views(
        kernels@,
    ).map_values(|k: Seq<char>| headers_of(k)));
    out
}

pub type Desync = (Seq<char>, Seq<char>, Seq<char>);

/// Installed kernels whose `-headers` package is installed at another
/// version: (kernel, kernel version, headers version).
pub open spec fn desyncs_of(kernels: Seq<Seq<char>>, installed: Map<Seq<char>, String>) -> Seq<Desync>
    decreases kernels.len(),
{
    if kernels.len() == 0 {
        seq![]
    } else {
        let rest = desyncs_of(kernels.drop_last(), installed);
        let k = kernels.last();
        if installed.contains_key(k) && installed.contains_key(headers_of(k)) && installed[k]@
            != installed[headers_of(k)]@ {
            rest.push((k, installed[k]@, installed[headers_of(k)]@))
        } else {
            rest
        }
    }
}

pub open spec fn triple_views(s: Seq<(String, String, String)>) -> Seq<Desync> {
    s.map_values(|t: (String, String, String)| (t.0@, t.1@, t.2@))
}

/// The kernel/headers mismatches on this machine: the fingerprint of
/// headers that raced ahead of a held kernel, which breaks the next DKMS
/// rebuild.
pub fn find_desyncs(kernels: &[String], installed: &NameTable<String>) -> (r: Vec<(String, String, String)>)
    ensures
        triple_views(r@) == desyncs_of(views(kernels@), installed@),
{
    let ghost kv = views(kernels@);
    let mut out: Vec<(String, String, String)> = Vec::new();
    let mut i: usize = 0;
    while i < kernels.len()
        invariant
            i <= kernels.len(),
            kv == views(kernels@),
            triple_views(out@) == desyncs_of(kv.take(i as int), installed@),
        decreases kernels.len() - i,
    {
        assert(kv.take(i + 1).drop_last() =~= kv.take(i as int));
        let k = &kernels[i];
        let mut h = chars_of(k.as_str());
        push_str(&mut h, "-headers");
        let hs = string_of(&h);
        match installed.get(k.as_str()) {
            Some(kver) => match installed.get(hs.as_str()) {
                Some(hver) => {
                    if !str_eq(kver.as_str(), hver.as_str()) {
                        let ghost before = triple_views(out@);
                        let t = (k.clone(), kver.clone(), hver.clone());
                        out.push(t);
                        assert(triple_views(out@) =~= before.push((t.0@, t.1@, t.2@)));
                    }
                },
                None => {},
            },
            None => {},
        }
        i += 1;
    }
    assert(kv.take(i as int) =~= kv);
    out
}

/// Does a held update match a desync: the kernel itself, pending exactly
/// the installed headers version?
pub open spec fn realigns(u: Fields, desyncs: Seq<Desync>) -> bool {
    exists|j: int| 0 <= j < desyncs.len() && (#[trigger] desyncs[j]).0 == u.0 && desyncs[j].2 == u.2
}

pub open spec fn realigned_of(held: Seq<HeldView>, desyncs: Seq<Desync>) -> Seq<ReadyView>
    decreases held.len(),
{
    if held.len() == 0 {
        seq![]
    } else {
        let rest = realigned_of(held.drop_last(), desyncs);
        let h = held.last();
        if realigns(h.0, desyncs) {
            rest.push((h.0, h.1, ReadyReason::Realigned))
        } else {
            rest
        }
    }
}

pub open spec fn still_held(held: Seq<HeldView>, desyncs: Seq<Desync>) -> Seq<HeldView>
    decreases held.len(),
{
    if held.len() == 0 {
        seq![]
    } else {
        let rest = still_held(held.drop_last(), desyncs);
        if realigns(held.last().0, desyncs) {
            rest
        } else {
            rest.push(held.last())
        }
    }
}

fn matches_desync(u: &PendingUpdate, desyncs: &[(String, String, String)]) -> (b: bool)
    ensures
        b == realigns(pending_fields(*u), triple_views(desyncs@)),
{
    let ghost dv = triple_views(desyncs@);
    let mut j: usize = 0;
    while j < desyncs.len()
        invariant
            j <= desyncs.len(),
            dv == triple_views(desyncs@),
            forall|x: int| 0 <= x < j ==> !((#[trigger] dv[x]).0 == u.name@ && dv[x].2 == u.new_version@),
        decreases desyncs.len() - j,
    {
        if str_eq(u.name.as_str(), desyncs[j].0.as_str()) && str_eq(
            u.new_version.as_str(),
            desyncs[j].2.as_str(),
        ) {
            assert(dv[j as int].0 == u.name@ && dv[j as int].2 == u.new_version@);
            return true;
        }
        j += 1;
    }
    false
}

/// `--realign`: pull every held kernel whose pending version matches its
/// installed headers into Ready, so kernel and headers meet again in one
/// transaction. Returns the pulled entries (in Held order) and what stays
/// held.
pub fn realign(held: Vec<HeldEntry>, desyncs: &[(String, String, String)]) -> (r: (
    Vec<ReadyEntry>,
    Vec<HeldEntry>,
))
    ensures
        ready_views(r.0@) == realigned_of(held_views(held@), triple_views(desyncs@)),
        held_views(r.1@) == still_held(held_views(held@), triple_views(desyncs@)),
{
    let ghost hv = held_views(held@);
    let mut pulled: Vec<ReadyEntry> = Vec::new();
    let mut kept: Vec<HeldEntry> = Vec::new();
    let mut i: usize = 0;
    while i < held.len()
        invariant
            i <= held.len(),
            hv == held_views(held@),
            ready_views(pulled@) == realigned_of(hv.take(i as int), triple_views(desyncs@)),
            held_views(kept@) == still_held(hv.take(i as int), triple_views(desyncs@)),
        decreases held.len() - i,
    {
        assert(hv.take(i + 1).drop_last() =~= hv.take(i as int));
        let e = &held[i];
        let ghost p0 = ready_views(pulled@);
        let ghost k0 = held_views(kept@);
        if matches_desync(&e.update, desyncs) {
            let r = ReadyEntry { update: copy_update(&e.update), tier: e.tier, reason: ReadyReason::Realigned };
            pulled.push(r);
            assert(ready_views(pulled@) =~= p0.push(ready_view(r)));
        } else {
            let c = copy_held(e);
            kept.push(c);
            assert(held_views(kept@) =~= k0.push(held_view(c)));
        }
        i += 1;
    }
    assert(hv.take(i as int) =~= hv);
    (pulled, kept)
}

fn copy_held(e: &HeldEntry) -> (r: HeldEntry)
    ensures
        held_view(r) == held_view(*e),
{
    HeldEntry {
        update: copy_update(&e.update),
        tier: e.tier,
        remaining: e.remaining,
        reason: match &e.reason {
            HeldReason::Window => HeldReason::Window,
            HeldReason::ManualSignoff => HeldReason::ManualSignoff,
            HeldReason::CoupledTo(p) => HeldReason::CoupledTo(p.clone()),
        },
    }
}

fn copy_ready(e: &ReadyEntry) -> (r: ReadyEntry)
    ensures
        ready_view(r) == ready_view(*e),
{
    ReadyEntry { update: copy_update(&e.update), tier: e.tier, reason: e.reason }
}

// ---------------------------------------------------------------------------
// lib32 coupling of the buckets
// ---------------------------------------------------------------------------

pub open spec fn ready_names(s: Seq<ReadyView>) -> Seq<Seq<char>> {
    s.map_values(|e: ReadyView| e.0.0)
}

pub open spec fn held_names(s: Seq<HeldView>) -> Seq<Seq<char>> {
    s.map_values(|e: HeldView| e.0.0)
}

/// The partner a demotion list gives a name: that of its first pair.
pub open spec fn partner_in(d: Seq<(Seq<char>, Seq<char>)>, n: Seq<char>) -> Option<Seq<char>>
    decreases d.len(),
{
    if d.len() == 0 {
        None
    } else {
        match partner_in(d.drop_last(), n) {
            Some(p) => Some(p),
            None => if d.last().0 == n {
                Some(d.last().1)
            } else {
                None
            },
        }
    }
}

/// The countdown of the first held entry of a name, or 0.
pub open spec fn remaining_in(held: Seq<HeldView>, n: Seq<char>) -> u64
    decreases held.len(),
{
    if held.len() == 0 {
        0
    } else if remaining_in(held.drop_last(), n) != 0 || exists|j: int|
        0 <= j < held.len() - 1 && (#[trigger] held[j]).0.0 == n {
        remaining_in(held.drop_last(), n)
    } else if held.last().0.0 == n {
        held.last().2
    } else {
        0
    }
}

pub open spec fn coupled_out(ready: Seq<ReadyView>, d: Seq<(Seq<char>, Seq<char>)>, held: Seq<HeldView>) -> Seq<HeldView>
    decreases ready.len(),
{
    if ready.len() == 0 {
        seq![]
    } else {
        let rest = coupled_out(ready.drop_last(), d, held);
        let e = ready.last();
        match partner_in(d, e.0.0) {
            Some(p) => rest.push((e.0, e.1, remaining_in(held, p), HeldWhy::CoupledTo(p))),
            None => rest,
        }
    }
}

pub open spec fn coupled_kept(ready: Seq<ReadyView>, d: Seq<(Seq<char>, Seq<char>)>) -> Seq<ReadyView>
    decreases ready.len(),
{
    if ready.len() == 0 {
        seq![]
    } else {
        let rest = coupled_kept(ready.drop_last(), d);
        if partner_in(d, ready.last().0.0) is Some {
            rest
        } else {
            rest.push(ready.last())
        }
    }
}

fn partner_of(d: &Vec<(String, String)>, n: &String) -> (r: Option<String>)
    ensures
        match r {
            Some(p) => partner_in(crate::holds::pair_views(d@), n@) == Some(p@),
            None => partner_in(crate::holds::pair_views(d@), n@) is None,
        },
{
    let ghost pv = crate::holds::pair_views(d@);
    let mut i: usize = 0;
    while i < d.len()
        invariant
            i <= d.len(),
            pv == crate::holds::pair_views(d@),
            partner_in(pv.take(i as int), n@) is None,
        decreases d.len() - i,
    {
        assert(pv.take(i + 1).drop_last() =~= pv.take(i as int));
        assert(pv.take(i + 1).last() == (d@[i as int].0@, d@[i as int].1@));
        if str_eq(d[i].0.as_str(), n.as_str()) {
            proof {
                lemma_partner_prefix(pv, n@, i + 1);
            }
            return Some(d[i].1.clone());
        }
        i += 1;
    }
    assert(pv.take(i as int) =~= pv);
    None
}

proof fn lemma_partner_prefix(d: Seq<(Seq<char>, Seq<char>)>, n: Seq<char>, k: int)
    requires
        0 <= k <= d.len(),
        partner_in(d.take(k), n) is Some,
    ensures
        partner_in(d, n) == partner_in(d.take(k), n),
    decreases d.len() - k,
{
    if k < d.len() {
        assert(d.take(k + 1).drop_last() =~= d.take(k));
        lemma_partner_prefix(d, n, k + 1);
    } else {
        assert(d.take(k) =~= d);
    }
}

fn remaining_of(held: &Vec<HeldEntry>, n: &String) -> (r: u64)
    ensures
        r == remaining_in(held_views(held@), n@),
{
    let ghost hv = held_views(held@);
    let mut i: usize = 0;
    while i < held.len()
        invariant
            i <= held.len(),
            hv == held_views(held@),
            forall|j: int| 0 <= j < i ==> (#[trigger] hv[j]).0.0 != n@,
            remaining_in(hv.take(i as int), n@) == 0,
        decreases held.len() - i,
    {
        assert(hv.take(i + 1).drop_last() =~= hv.take(i as int));
        assert(hv.take(i + 1).last() == hv[i as int]);
        assert(forall|j: int| 0 <= j < i ==> hv.take(i + 1)[j] == hv[j]);
        if str_eq(held[i].update.name.as_str(), n.as_str()) {
            assert(remaining_in(hv.take(i + 1), n@) == hv[i as int].2);
            assert(hv[i as int].0.0 == n@);
            proof {
                lemma_remaining_prefix(hv, n@, i + 1);
            }
            return held[i].remaining;
        }
        i += 1;
    }
    assert(hv.take(i as int) =~= hv);
    0
}

proof fn lemma_remaining_prefix(h: Seq<HeldView>, n: Seq<char>, k: int)
    requires
        0 < k <= h.len(),
        exists|j: int| 0 <= j < k && (#[trigger] h[j]).0.0 == n,
    ensures
        remaining_in(h, n) == remaining_in(h.take(k), n),
    decreases h.len() - k,
{
    if k < h.len() {
        assert(h.take(k + 1).drop_last() =~= h.take(k));
        let j = choose|j: int| 0 <= j < k && (#[trigger] h[j]).0.0 == n;
        assert(h.take(k + 1)[j] == h[j]);
        assert(remaining_in(h.take(k + 1), n) == remaining_in(h.take(k), n));
        lemma_remaining_prefix(h, n, k + 1);
    } else {
        assert(h.take(k) =~= h);
    }
}

/// Couple split lib32/base pairs: a Ready half of a pair whose other half is
/// held moves to the end of Held, with the partner's countdown (0 when the
/// partner has none), so the pair releases together. Returns the new Ready
/// and Held lists.
pub fn couple_lib32(ready: Vec<ReadyEntry>, held: Vec<HeldEntry>) -> (r: (Vec<ReadyEntry>, Vec<HeldEntry>))
    ensures
        ({
            let d = lib32_demotions_spec(ready_names(ready_views(ready@)), held_names(held_views(held@)));
            &&& ready_views(r.0@) == coupled_kept(ready_views(ready@), d)
            &&& held_views(r.1@) == held_views(held@) + coupled_out(ready_views(ready@), d, held_views(held@))
        }),
{
    let ghost rv = ready_views(ready@);
    let ghost hv = held_views(held@);
    let mut rn: Vec<String> = Vec::new();
    let mut i: usize = 0;
    while i < ready.len()
        invariant
            i <= ready.len(),
            rv == ready_views(ready@),
            views(rn@) == ready_names(rv).take(i as int),
        decreases ready.len() - i,
    {
        let ghost before = views(rn@);
        rn.push(ready[i].update.name.clone());
        assert(views(rn@) =~= before.push(ready@[i as int].update.name@));
        assert(ready_names(rv).take(i + 1) =~= ready_names(rv).take(i as int).push(ready_names(rv)[i as int]));
        i += 1;
    }
    assert(ready_names(rv).take(i as int) =~= ready_names(rv));
    let mut hn: Vec<String> = Vec::new();
    let mut j: usize = 0;
    while j < held.len()
        invariant
            j <= held.len(),
            hv == held_views(held@),
            views(hn@) == held_names(hv).take(j as int),
        decreases held.len() - j,
    {
        let ghost before = views(hn@);
        hn.push(held[j].update.name.clone());
        assert(views(hn@) =~= before.push(held@[j as int].update.name@));
        assert(held_names(hv).take(j + 1) =~= held_names(hv).take(j as int).push(held_names(hv)[j as int]));
        j += 1;
    }
    assert(held_names(hv).take(j as int) =~= held_names(hv));
    let d = lib32_coupling_demotions(&rn, &hn);
    let ghost dv = crate::holds::pair_views(d@);
    let mut kept: Vec<ReadyEntry> = Vec::new();
    let mut moved: Vec<HeldEntry> = Vec::new();
    let mut k: usize = 0;
    while k < ready.len()
        invariant
            k <= ready.len(),
            rv == ready_views(ready@),
            hv == held_views(held@),
            dv == crate::holds::pair_views(d@),
            ready_views(kept@) == coupled_kept(rv.take(k as int), dv),
            held_views(moved@) == coupled_out(rv.take(k as int), dv, hv),
        decreases ready.len() - k,
    {
        assert(rv.take(k + 1).drop_last() =~= rv.take(k as int));
        assert(rv.take(k + 1).last() == rv[k as int]);
        let e = &ready[k];
        let ghost k0 = ready_views(kept@);
        let ghost m0 = held_views(moved@);
        match partner_of(&d, &e.update.name) {
            Some(p) => {
                let rem = remaining_of(&held, &p);
                let h = HeldEntry {
                    update: copy_update(&e.update),
                    tier: e.tier,
                    remaining: rem,
                    reason: HeldReason::CoupledTo(p),
                };
                moved.push(h);
                assert(held_views(moved@) =~= m0.push(held_view(h)));
            },
            None => {
                let c = copy_ready(e);
                kept.push(c);
                assert(ready_views(kept@) =~= k0.push(ready_view(c)));
            },
        }
        k += 1;
    }
    assert(rv.take(k as int) =~= rv);
    let mut out_held = held;
    let ghost h_before = held_views(out_held@);
    let ghost mv = held_views(moved@);
    out_held.append(&mut moved);
    assert(held_views(out_held@) =~= h_before + mv);
    (kept, out_held)
}

// ---------------------------------------------------------------------------
// Every coupling rule, to a fixpoint
// ---------------------------------------------------------------------------

/// The pkgbase the package table gives a name.
pub open spec fn base_of(packages: Map<Seq<char>, PackageDesc>, n: Seq<char>) -> Option<Seq<char>> {
    if packages.contains_key(n) {
        opt_view(packages[n].pkgbase)
    } else {
        None
    }
}

/// A coupling-rule entry that stands for an update with the given fields
/// and countdown.
pub open spec fn cp_fits(c: CouplingPkg, f: Fields, packages: Map<Seq<char>, PackageDesc>, remaining: u64) -> bool {
    &&& (c.name@, c.old_version@, c.new_version@) == f
    &&& opt_view(c.pkgbase) == base_of(packages, f.0)
    &&& c.remaining == remaining
}

/// `cs` is what the coupling rules see of the Ready entries `es`.
pub open spec fn ready_fit(cs: Seq<CouplingPkg>, es: Seq<ReadyEntry>, packages: Map<Seq<char>, PackageDesc>) -> bool {
    &&& cs.len() == es.len()
    &&& forall|i: int| 0 <= i < cs.len() ==> cp_fits(#[trigger] cs[i], pending_fields(es[i].update), packages, 0)
}

/// `cs` is what the coupling rules see of the Held entries `es`.
pub open spec fn held_fit(cs: Seq<CouplingPkg>, es: Seq<HeldEntry>, packages: Map<Seq<char>, PackageDesc>) -> bool {
    &&& cs.len() == es.len()
    &&& forall|i: int|
        0 <= i < cs.len() ==> cp_fits(#[trigger] cs[i], pending_fields(es[i].update), packages, es[i].remaining)
}

/// No coupling rule splits a family across the two buckets: one more pass
/// of every rule would demote nothing.
pub open spec fn settled(
    ready: Seq<ReadyEntry>,
    held: Seq<HeldEntry>,
    packages: Map<Seq<char>, PackageDesc>,
    data: SonameData,
) -> bool {
    exists|cr: Seq<CouplingPkg>, ch: Seq<CouplingPkg>|
        #![trigger ready_fit(cr, ready, packages), held_fit(ch, held, packages)]
        ready_fit(cr, ready, packages) && held_fit(ch, held, packages) && coupling_spec(cr, ch, data).len()
            == 0
}

pub open spec fn rfields(s: Seq<ReadyEntry>) -> Seq<Fields> {
    s.map_values(|e: ReadyEntry| pending_fields(e.update))
}

pub open spec fn hfields(s: Seq<HeldEntry>) -> Seq<Fields> {
    s.map_values(|e: HeldEntry| pending_fields(e.update))
}

/// What the coupling rules see of an update: its name, versions, the
/// pkgbase the package table gives it, and its countdown.
pub open spec fn cp_of(u: PendingUpdate, packages: Map<Seq<char>, PackageDesc>, remaining: u64) -> CouplingPkg {
    CouplingPkg {
        name: u.name,
        old_version: u.old_version,
        new_version: u.new_version,
        pkgbase: if packages.contains_key(u.name@) {
            packages[u.name@].pkgbase
        } else {
            None
        },
        remaining,
    }
}

pub open spec fn ready_cps(s: Seq<ReadyEntry>, packages: Map<Seq<char>, PackageDesc>) -> Seq<CouplingPkg> {
    s.map_values(|e: ReadyEntry| cp_of(e.update, packages, 0))
}

pub open spec fn held_cps(s: Seq<HeldEntry>, packages: Map<Seq<char>, PackageDesc>) -> Seq<CouplingPkg> {
    s.map_values(|e: HeldEntry| cp_of(e.update, packages, e.remaining))
}

/// The coupling entries a demotion list leaves in Ready.
pub open spec fn cp_kept(rc: Seq<CouplingPkg>, d: Seq<(Seq<char>, Seq<char>)>) -> Seq<CouplingPkg>
    decreases rc.len(),
{
    if rc.len() == 0 {
        seq![]
    } else if partner_in(d, rc.last().name@) is Some {
        cp_kept(rc.drop_last(), d)
    } else {
        cp_kept(rc.drop_last(), d).push(rc.last())
    }
}

/// The coupling entries a demotion list moves to Held, each with its
/// partner's countdown.
pub open spec fn cp_out(rc: Seq<CouplingPkg>, d: Seq<(Seq<char>, Seq<char>)>, held: Seq<HeldView>) -> Seq<CouplingPkg>
    decreases rc.len(),
{
    if rc.len() == 0 {
        seq![]
    } else {
        let rest = cp_out(rc.drop_last(), d, held);
        let c = rc.last();
        match partner_in(d, c.name@) {
            Some(p) => rest.push(
                CouplingPkg {
                    name: c.name,
                    old_version: c.old_version,
                    new_version: c.new_version,
                    pkgbase: c.pkgbase,
                    remaining: remaining_in(held, p),
                },
            ),
            None => rest,
        }
    }
}

/// The buckets after the coupling passes of a run. Each pass applies every
/// rule to the buckets as they stand (`rc` and `hc`: what the rules see of
/// them) and moves exactly the Ready entries it demotes to the end of Held,
/// each waiting on the partner the rule names with that partner's
/// countdown (0 when the partner is not held); the passes stop when one
/// demotes nothing. (A pass that would leave Ready as it was ends them too;
/// the passes `couple_all` makes never do.)
pub open spec fn couple_spec(
    rv: Seq<ReadyView>,
    hv: Seq<HeldView>,
    rc: Seq<CouplingPkg>,
    hc: Seq<CouplingPkg>,
    data: SonameData,
) -> (Seq<ReadyView>, Seq<HeldView>)
    decreases rv.len(),
{
    let d = coupling_spec(rc, hc, data);
    let keep = coupled_kept(rv, d);
    if d.len() == 0 || keep.len() >= rv.len() {
        (rv, hv)
    } else {
        couple_spec(keep, hv + coupled_out(rv, d, hv), cp_kept(rc, d), hc + cp_out(rc, d, hv), data)
    }
}

/// How many passes `couple_spec` makes that move something.
pub open spec fn couple_passes(
    rv: Seq<ReadyView>,
    hv: Seq<HeldView>,
    rc: Seq<CouplingPkg>,
    hc: Seq<CouplingPkg>,
    data: SonameData,
) -> nat
    decreases rv.len(),
{
    let d = coupling_spec(rc, hc, data);
    let keep = coupled_kept(rv, d);
    if d.len() == 0 || keep.len() >= rv.len() {
        0
    } else {
        1 + couple_passes(keep, hv + coupled_out(rv, d, hv), cp_kept(rc, d), hc + cp_out(rc, d, hv), data)
    }
}

/// The coupling passes of a run end: each one that moves anything moves at
/// least one Ready update, so there are never more of them than Ready
/// updates.
pub proof fn lemma_couple_passes_bounded(
    rv: Seq<ReadyView>,
    hv: Seq<HeldView>,
    rc: Seq<CouplingPkg>,
    hc: Seq<CouplingPkg>,
    data: SonameData,
)
    ensures
        couple_passes(rv, hv, rc, hc, data) <= rv.len(),
    decreases rv.len(),
{
    let d = coupling_spec(rc, hc, data);
    let keep = coupled_kept(rv, d);
    if !(d.len() == 0 || keep.len() >= rv.len()) {
        lemma_couple_passes_bounded(keep, hv + coupled_out(rv, d, hv), cp_kept(rc, d), hc + cp_out(rc, d, hv), data);
    }
}

fn coupling_pkg(u: &PendingUpdate, packages: &NameTable<PackageDesc>, remaining: u64) -> (c: CouplingPkg)
    ensures
        cp_fits(c, pending_fields(*u), packages@, remaining),
        c == cp_of(*u, packages@, remaining),
{
    let pkgbase = match packages.get(u.name.as_str()) {
        Some(d) => match &d.pkgbase {
            Some(b) => Some(b.clone()),
            None => None,
        },
        None => None,
    };
    CouplingPkg {
        name: u.name.clone(),
        old_version: u.old_version.clone(),
        new_version: u.new_version.clone(),
        pkgbase,
        remaining,
    }
}

proof fn lemma_partner_found(d: Seq<(Seq<char>, Seq<char>)>, j: int)
    requires
        0 <= j < d.len(),
    ensures
        partner_in(d, d[j].0) is Some,
    decreases d.len(),
{
    if j < d.len() - 1 {
        lemma_partner_found(d.drop_last(), j);
    }
}

/// The installed packages' `%PROVIDES%` or `%DEPENDS%` lists, by name.
fn installed_lists(installed: &NameTable<InstalledDesc>, depends: bool) -> (t: NameTable<Vec<String>>)
    ensures
        forall|k: Seq<char>| #[trigger] t@.contains_key(k) <==> installed@.contains_key(k),
        forall|k: Seq<char>| #[trigger]
            t@.contains_key(k) ==> t@[k]@ == if depends {
                installed@[k].depends@
            } else {
                installed@[k].provides@
            },
{
    let n = installed.len();
    let mut t: NameTable<Vec<String>> = NameTable::new();
    let mut i: usize = 0;
    while i < n
        invariant
            i <= n,
            n == installed.key_seq().len(),
            forall|k: Seq<char>| #[trigger] installed@.contains_key(k) <==> installed.key_seq().contains(k),
            forall|k: Seq<char>| #[trigger] t@.contains_key(k) <==> installed.key_seq().take(i as int).contains(k),
            forall|k: Seq<char>| #[trigger]
                t@.contains_key(k) ==> installed@.contains_key(k) && t@[k]@ == if depends {
                    installed@[k].depends@
                } else {
                    installed@[k].provides@
                },
        decreases n - i,
    {
        let k = installed.key_at(i);
        let ghost kv = k@;
        let ghost pre = installed.key_seq().take(i as int);
        assert(installed.key_seq().take(i + 1) =~= pre.push(kv));
        assert forall|x: Seq<char>| pre.push(kv).contains(x) <==> (pre.contains(x) || x == kv) by {
            if pre.push(kv).contains(x) {
                let j = choose|j: int| 0 <= j < pre.push(kv).len() && pre.push(kv)[j] == x;
                if j < pre.len() {
                    assert(pre[j] == x);
                }
            }
            if pre.contains(x) {
                let j = choose|j: int| 0 <= j < pre.len() && pre[j] == x;
                assert(pre.push(kv)[j] == x);
            }
            if x == kv {
                assert(pre.push(kv)[pre.len() as int] == x);
            }
        }
        match installed.get(k.as_str()) {
            Some(d) => {
                let list = if depends {
                    crate::tiers::copy_strings(&d.depends)
                } else {
                    crate::tiers::copy_strings(&d.provides)
                };
                t.insert(k.clone(), list);
            },
            None => {},
        }
        i += 1;
    }
    assert(installed.key_seq().take(n as int) =~= installed.key_seq());
    t
}

/// What a pending update will provide once installed: its sync-database
/// `%PROVIDES%`; a package the sync databases do not carry (from the AUR,
/// or built locally) is taken to keep what it provides now.
pub open spec fn new_provides_of(
    n: Seq<char>,
    installed: Map<Seq<char>, InstalledDesc>,
    packages: Map<Seq<char>, PackageDesc>,
) -> Seq<String> {
    if packages.contains_key(n) {
        packages[n].provides@
    } else {
        installed[n].provides@
    }
}

/// Gather what the soname rule reads: every installed package's
/// `%PROVIDES%` and `%DEPENDS%`, and what each pending update will provide.
pub fn soname_data(
    installed: &NameTable<InstalledDesc>,
    packages: &NameTable<PackageDesc>,
    pending: &[PendingUpdate],
) -> (d: SonameData)
    ensures
        forall|k: Seq<char>| #[trigger] d.installed_provides@.contains_key(k) <==> installed@.contains_key(k),
        forall|k: Seq<char>| #[trigger]
            d.installed_provides@.contains_key(k) ==> d.installed_provides@[k]@ == installed@[k].provides@,
        forall|k: Seq<char>| #[trigger] d.installed_depends@.contains_key(k) <==> installed@.contains_key(k),
        forall|k: Seq<char>| #[trigger]
            d.installed_depends@.contains_key(k) ==> d.installed_depends@[k]@ == installed@[k].depends@,
        forall|k: Seq<char>| #[trigger]
            d.new_provides@.contains_key(k) <==> (pending@.map_values(|u: PendingUpdate| u.name@).contains(k)
                && (packages@.contains_key(k) || installed@.contains_key(k))),
        forall|k: Seq<char>| #[trigger]
            d.new_provides@.contains_key(k) ==> d.new_provides@[k]@ == new_provides_of(k, installed@, packages@),
{
    let installed_provides = installed_lists(installed, false);
    let installed_depends = installed_lists(installed, true);
    let ghost names = pending@.map_values(|u: PendingUpdate| u.name@);
    let mut new_provides: NameTable<Vec<String>> = NameTable::new();
    let mut i: usize = 0;
    while i < pending.len()
        invariant
            i <= pending.len(),
            names == pending@.map_values(|u: PendingUpdate| u.name@),
            forall|k: Seq<char>| #[trigger]
                new_provides@.contains_key(k) <==> (names.take(i as int).contains(k) && (packages@.contains_key(k)
                    || installed@.contains_key(k))),
            forall|k: Seq<char>| #[trigger]
                new_provides@.contains_key(k) ==> new_provides@[k]@ == new_provides_of(k, installed@, packages@),
        decreases pending.len() - i,
    {
        let n = &pending[i].name;
        let ghost pre = names.take(i as int);
        assert(names.take(i + 1) =~= pre.push(n@));
        assert forall|x: Seq<char>| pre.push(n@).contains(x) <==> (pre.contains(x) || x == n@) by {
            if pre.push(n@).contains(x) {
                let j = choose|j: int| 0 <= j < pre.push(n@).len() && pre.push(n@)[j] == x;
                if j < pre.len() {
                    assert(pre[j] == x);
                }
            }
            if pre.contains(x) {
                let j = choose|j: int| 0 <= j < pre.len() && pre[j] == x;
                assert(pre.push(n@)[j] == x);
            }
            if x == n@ {
                assert(pre.push(n@)[pre.len() as int] == x);
            }
        }
        match packages.get(n.as_str()) {
            Some(d) => {
                new_provides.insert(n.clone(), crate::tiers::copy_strings(&d.provides));
            },
            None => match installed.get(n.as_str()) {
                Some(d) => {
                    new_provides.insert(n.clone(), crate::tiers::copy_strings(&d.provides));
                },
                None => {},
            },
        }
        i += 1;
    }
    assert(names.take(pending.len() as int) =~= names);
    SonameData { installed_provides, installed_depends, new_provides }
}

/// Apply every coupling rule (lib32, pkgbase, cohort, soname) until none
/// demotes anything more. Each pass moves the Ready entries the rules
/// demote to the end of Held, waiting on the partner the rule names, with
/// that partner's countdown when it is held (0 otherwise). Returns the
/// settled Ready and Held lists: Held keeps its entries first, every
/// entry after them was moved out of Ready by a coupling rule, no update is
/// lost or duplicated, and no rule splits a family any more. The result is
/// exactly `couple_spec` of the input buckets.
#[verifier::loop_isolation(false)]
pub fn couple_all(
    ready: Vec<ReadyEntry>,
    held: Vec<HeldEntry>,
    packages: &NameTable<PackageDesc>,
    data: &SonameData,
) -> (r: (Vec<ReadyEntry>, Vec<HeldEntry>))
    ensures
        (ready_views(r.0@), held_views(r.1@)) == couple_spec(
            ready_views(ready@),
            held_views(held@),
            ready_cps(ready@, packages@),
            held_cps(held@, packages@),
            *data,
        ),
        settled(r.0@, r.1@, packages@, *data),
        r.1@.len() >= held@.len(),
        held_views(r.1@).take(held@.len() as int) == held_views(held@),
        forall|i: int| held@.len() <= i < r.1@.len() ==> (#[trigger] r.1@[i]).reason is CoupledTo,
        forall|i: int| 0 <= i < r.0@.len() ==> ready_views(ready@).contains(#[trigger] ready_view(r.0@[i])),
        (rfields(r.0@) + hfields(r.1@.skip(held@.len() as int))).to_multiset() == rfields(ready@).to_multiset(),
{
    broadcast use vstd::seq_lib::group_to_multiset_ensures;
    broadcast use vstd::multiset::group_multiset_axioms;

    let ghost h0 = held_views(held@);
    let ghost hn = held@.len();
    let ghost rv0 = ready_views(ready@);
    let ghost rf0 = rfields(ready@);
    let mut ready = ready;
    let mut held = held;
    let mut rc: Vec<CouplingPkg> = Vec::new();
    let mut k: usize = 0;
    while k < ready.len()
        invariant
            k <= ready.len(),
            rc@.len() == k,
            rc@ == ready_cps(ready@.take(k as int), packages@),
            forall|i: int| 0 <= i < k ==> cp_fits(#[trigger] rc@[i], pending_fields(ready@[i].update), packages@, 0),
        decreases ready.len() - k,
    {
        rc.push(coupling_pkg(&ready[k].update, packages, 0));
        assert(ready_cps(ready@.take(k + 1), packages@) =~= ready_cps(ready@.take(k as int), packages@).push(
            cp_of(ready@[k as int].update, packages@, 0),
        ));
        k += 1;
    }
    let mut hc: Vec<CouplingPkg> = Vec::new();
    let mut k: usize = 0;
    while k < held.len()
        invariant
            k <= held.len(),
            hc@.len() == k,
            hc@ == held_cps(held@.take(k as int), packages@),
            forall|i: int|
                0 <= i < k ==> cp_fits(#[trigger] hc@[i], pending_fields(held@[i].update), packages@, held@[i].remaining),
        decreases held.len() - k,
    {
        hc.push(coupling_pkg(&held[k].update, packages, held[k].remaining));
        assert(held_cps(held@.take(k + 1), packages@) =~= held_cps(held@.take(k as int), packages@).push(
            cp_of(held@[k as int].update, packages@, held@[k as int].remaining),
        ));
        k += 1;
    }
    assert(held_views(held@).take(hn as int) =~= h0);
    assert(ready@.take(ready@.len() as int) =~= ready@);
    assert(held@.take(held@.len() as int) =~= held@);
    let ghost goal = couple_spec(ready_views(ready@), held_views(held@), rc@, hc@, *data);
    assert(held@.skip(hn as int) =~= Seq::<HeldEntry>::empty());
    assert(rfields(ready@) + hfields(held@.skip(hn as int)) =~= rf0);
    assert forall|i: int| 0 <= i < ready@.len() implies rv0.contains(#[trigger] ready_view(ready@[i])) by {
        assert(rv0[i] == ready_view(ready@[i]));
    }
    loop
        invariant
            ready_fit(rc@, ready@, packages@),
            held_fit(hc@, held@, packages@),
            held@.len() >= hn,
            held_views(held@).take(hn as int) == h0,
            forall|i: int| hn <= i < held@.len() ==> (#[trigger] held@[i]).reason is CoupledTo,
            forall|i: int| 0 <= i < ready@.len() ==> rv0.contains(#[trigger] ready_view(ready@[i])),
            (rfields(ready@) + hfields(held@.skip(hn as int))).to_multiset() == rf0.to_multiset(),
            couple_spec(ready_views(ready@), held_views(held@), rc@, hc@, *data) == goal,
        decreases ready@.len(),
    {
        let d = coupling_demotions(&rc, &hc, data);
        if d.len() == 0 {
            assert(ready_fit(rc@, ready@, packages@) && held_fit(hc@, held@, packages@));
            return (ready, held);
        }
        proof {
            lemma_coupling_demotes_ready_once(rc@, hc@, *data);
        }
        let ghost dv = crate::holds::pair_views(d@);
        let ghost rv = ready_views(ready@);
        let ghost hv = held_views(held@);
        let ghost rcv = rc@;
        let ghost first_name = dv[0].0;
        assert(pkg_names(rc@).contains(first_name));
        proof {
            lemma_partner_found(dv, 0);
        }
        let mut keep: Vec<ReadyEntry> = Vec::new();
        let mut keep_c: Vec<CouplingPkg> = Vec::new();
        let mut moved: Vec<HeldEntry> = Vec::new();
        let mut moved_c: Vec<CouplingPkg> = Vec::new();
        let mut i: usize = 0;
        while i < ready.len()
            invariant
                i <= ready.len(),
                dv == crate::holds::pair_views(d@),
                partner_in(dv, first_name) is Some,
                ready_fit(keep_c@, keep@, packages@),
                held_fit(moved_c@, moved@, packages@),
                keep@.len() + moved@.len() == i,
                forall|j: int| 0 <= j < moved@.len() ==> (#[trigger] moved@[j]).reason is CoupledTo,
                forall|j: int| 0 <= j < keep@.len() ==> rv0.contains(#[trigger] ready_view(keep@[j])),
                (rfields(keep@) + hfields(moved@)).to_multiset() == rfields(ready@.take(i as int)).to_multiset(),
                moved@.len() > 0 || forall|j: int| 0 <= j < i ==> ready@[j].update.name@ != first_name,
                rv == ready_views(ready@),
                hv == held_views(held@),
                rcv == rc@,
                ready_views(keep@) == coupled_kept(rv.take(i as int), dv),
                held_views(moved@) == coupled_out(rv.take(i as int), dv, hv),
                keep_c@ == cp_kept(rcv.take(i as int), dv),
                moved_c@ == cp_out(rcv.take(i as int), dv, hv),
            decreases ready.len() - i,
        {
            let ghost kf = rfields(keep@);
            let ghost mf = hfields(moved@);
            let ghost f = pending_fields(ready@[i as int].update);
            assert(rfields(ready@.take(i + 1)) =~= rfields(ready@.take(i as int)).push(f));
            assert(rc@[i as int].name@ == ready@[i as int].update.name@);
            assert(rv.take(i + 1).drop_last() =~= rv.take(i as int));
            assert(rv.take(i + 1).last() == ready_view(ready@[i as int]));
            assert(rcv.take(i + 1).drop_last() =~= rcv.take(i as int));
            assert(rcv.take(i + 1).last() == rcv[i as int]);
            let ghost k0 = ready_views(keep@);
            let ghost m0 = held_views(moved@);
            let ghost kc0 = keep_c@;
            let ghost mc0 = moved_c@;
            match partner_of(&d, &rc[i].name) {
                Some(p) => {
                    let rem = remaining_of(&held, &p);
                    let e = HeldEntry {
                        update: copy_update(&ready[i].update),
                        tier: ready[i].tier,
                        remaining: rem,
                        reason: HeldReason::CoupledTo(p),
                    };
                    let c = CouplingPkg {
                        name: rc[i].name.clone(),
                        old_version: rc[i].old_version.clone(),
                        new_version: rc[i].new_version.clone(),
                        pkgbase: match &rc[i].pkgbase {
                            Some(b) => Some(b.clone()),
                            None => None,
                        },
                        remaining: rem,
                    };
                    moved.push(e);
                    moved_c.push(c);
                    assert(held_views(moved@) =~= m0.push(held_view(e)));
                    assert(moved_c@ =~= mc0.push(c));
                    proof {
                        assert(hfields(moved@) =~= mf.push(f));
                        vstd::seq_lib::lemma_multiset_commutative(kf, mf.push(f));
                        vstd::seq_lib::lemma_multiset_commutative(kf, mf);
                    }
                },
                None => {
                    let e = copy_ready(&ready[i]);
                    let c = crate::holds::copy_pkg(&rc[i]);
                    keep.push(e);
                    keep_c.push(c);
                    assert(ready_views(keep@) =~= k0.push(ready_view(e)));
                    assert(keep_c@ =~= kc0.push(c));
                    proof {
                        assert(rfields(keep@) =~= kf.push(f));
                        vstd::seq_lib::lemma_multiset_commutative(kf.push(f), mf);
                        vstd::seq_lib::lemma_multiset_commutative(kf, mf);
                        if ready@[i as int].update.name@ == first_name {
                            assert(false);
                        }
                    }
                },
            }
            i += 1;
        }
        assert(ready@.take(i as int) =~= ready@);
        assert(rv.take(i as int) =~= rv);
        assert(rcv.take(i as int) =~= rcv);
        proof {
            if moved@.len() == 0 {
                let j = choose|j: int| 0 <= j < pkg_names(rc@).len() && pkg_names(rc@)[j] == first_name;
                assert(ready@[j].update.name@ == first_name);
            }
        }
        let ghost old_held = held@;
        let ghost mv = moved@;
        let ghost kp = keep@;
        let ghost hcv = hc@;
        let ghost mcv = moved_c@;
        assert(kp.len() < ready@.len());
        assert(coupled_kept(rv, dv).len() < rv.len());
        assert(couple_spec(rv, hv, rcv, hcv, *data) == couple_spec(
            coupled_kept(rv, dv),
            hv + coupled_out(rv, dv, hv),
            cp_kept(rcv, dv),
            hcv + cp_out(rcv, dv, hv),
            *data,
        ));
        held.append(&mut moved);
        hc.append(&mut moved_c);
        assert(held_views(held@) =~= hv + held_views(mv));
        assert(hc@ =~= hcv + mcv);
        proof {
            assert(held@ =~= old_held + mv);
            assert(held_views(held@).take(hn as int) =~= held_views(old_held).take(hn as int));
            assert(held@.skip(hn as int) =~= old_held.skip(hn as int) + mv);
            assert(hfields(old_held.skip(hn as int) + mv) =~= hfields(old_held.skip(hn as int)) + hfields(mv));
            let a = rfields(kp);
            let b = hfields(old_held.skip(hn as int));
            let c = hfields(mv);
            vstd::seq_lib::lemma_multiset_commutative(a, b + c);
            vstd::seq_lib::lemma_multiset_commutative(b, c);
            vstd::seq_lib::lemma_multiset_commutative(a, c);
            vstd::seq_lib::lemma_multiset_commutative(rfields(ready@), b);
            assert((a + (b + c)).to_multiset() =~= (rfields(ready@) + b).to_multiset());
        }
        ready = keep;
        rc = keep_c;
    }
}

// ---------------------------------------------------------------------------
// Held order
// ---------------------------------------------------------------------------

/// `a` may come before `b` in the Held list: fewer days left, or the same
/// days and a name that does not sort after.
pub open spec fn held_le(a: HeldView, b: HeldView) -> bool {
    a.2 < b.2 || (a.2 == b.2 && !seq_lt(b.0.0, a.0.0))
}

/// Insert after every entry that may come before it (stable).
pub open spec fn insert_stable(s: Seq<HeldView>, x: HeldView) -> Seq<HeldView>
    decreases s.len(),
{
    if s.len() == 0 {
        seq![x]
    } else if held_le(s.last(), x) {
        s.push(x)
    } else {
        insert_stable(s.drop_last(), x).push(s.last())
    }
}

/// The Held list in release order, ties in input order: what a stable sort
/// by (days left, name) gives.
pub open spec fn held_order(s: Seq<HeldView>) -> Seq<HeldView>
    decreases s.len(),
{
    if s.len() == 0 {
        seq![]
    } else {
        insert_stable(held_order(s.drop_last()), s.last())
    }
}

proof fn lemma_insert_stable_at(s: Seq<HeldView>, x: HeldView, p: int)
    requires
        0 <= p <= s.len(),
        forall|j: int| p <= j < s.len() ==> !held_le(#[trigger] s[j], x),
        p == 0 || held_le(s[p - 1], x),
    ensures
        insert_stable(s, x) == s.take(p).push(x) + s.skip(p),
    decreases s.len() - p,
{
    if s.len() == 0 {
        assert(s.take(p).push(x) + s.skip(p) =~= seq![x]);
    } else if p == s.len() {
        assert(s.take(p) =~= s);
        assert(s.skip(p) =~= Seq::<HeldView>::empty());
        assert(s.take(p).push(x) + s.skip(p) =~= s.push(x));
    } else {
        let t = s.drop_last();
        assert(!held_le(s[s.len() - 1], x));
        assert forall|j: int| p <= j < t.len() implies !held_le(#[trigger] t[j], x) by {
            assert(t[j] == s[j]);
        }
        if p > 0 {
            assert(t[p - 1] == s[p - 1]);
        }
        lemma_insert_stable_at(t, x, p);
        assert(t.take(p) =~= s.take(p));
        assert(t.take(p).push(x) + t.skip(p) + seq![s.last()] =~= s.take(p).push(x) + s.skip(p));
    }
}

fn held_le_exec(a: &HeldEntry, b: &HeldEntry) -> (r: bool)
    ensures
        r == held_le(held_view(*a), held_view(*b)),
{
    a.remaining < b.remaining || (a.remaining == b.remaining && !lt_strings(&b.update.name, &a.update.name))
}

/// The Held list in release order: soonest first, ties by name, otherwise
/// in the order given. Manual sign-offs (0 days) come first.
pub fn sort_held(held: Vec<HeldEntry>) -> (r: Vec<HeldEntry>)
    ensures
        held_views(r@) == held_order(held_views(held@)),
{
    let ghost hv = held_views(held@);
    let mut out: Vec<HeldEntry> = Vec::new();
    let mut i: usize = 0;
    while i < held.len()
        invariant
            i <= held.len(),
            hv == held_views(held@),
            held_views(out@) == held_order(hv.take(i as int)),
        decreases held.len() - i,
    {
        assert(hv.take(i + 1).drop_last() =~= hv.take(i as int));
        let x = copy_held(&held[i]);
        let ghost ov = held_views(out@);
        let ghost xv = held_view(x);
        let mut p = out.len();
        while p > 0 && !held_le_exec(&out[p - 1], &x)
            invariant
                p <= out.len(),
                ov == held_views(out@),
                xv == held_view(x),
                forall|j: int| p <= j < ov.len() ==> !held_le(#[trigger] ov[j], xv),
            decreases p,
        {
            p -= 1;
        }
        proof {
            lemma_insert_stable_at(ov, xv, p as int);
        }
        out.insert(p, x);
        assert(held_views(out@) =~= ov.take(p as int).push(xv) + ov.skip(p as int));
        assert(hv.take(i + 1).last() == hv[i as int]);
        i += 1;
    }
    assert(hv.take(i as int) =~= hv);
    out
}

// ---------------------------------------------------------------------------
// What pacman ignores, and what the foreign fence lets through
// ---------------------------------------------------------------------------

pub open spec fn unknown_names(s: Seq<UnknownView>) -> Seq<Seq<char>> {
    s.map_values(|e: UnknownView| e.0.0)
}

fn push_names_held(out: &mut Vec<String>, held: &Vec<HeldEntry>)
    ensures
        views(final(out)@) == views(old(out)@) + held_names(held_views(held@)),
{
    let ghost start = views(out@);
    let mut i: usize = 0;
    while i < held.len()
        invariant
            i <= held.len(),
            views(out@) == start + held_names(held_views(held@)).take(i as int),
        decreases held.len() - i,
    {
        let ghost before = views(out@);
        out.push(held[i].update.name.clone());
        assert(views(out@) =~= before.push(held@[i as int].update.name@));
        assert(held_names(held_views(held@)).take(i + 1) =~= held_names(held_views(held@)).take(
            i as int,
        ).push(held@[i as int].update.name@));
        i += 1;
    }
    assert(held_names(held_views(held@)).take(i as int) =~= held_names(held_views(held@)));
}

/// The names of the Ready entries, in order.
pub fn ready_name_list(ready: &Vec<ReadyEntry>) -> (r: Vec<String>)
    ensures
        views(r@) == ready_names(ready_views(ready@)),
{
    let mut out: Vec<String> = Vec::new();
    let mut i: usize = 0;
    while i < ready.len()
        invariant
            i <= ready.len(),
            views(out@) == ready_names(ready_views(ready@)).take(i as int),
        decreases ready.len() - i,
    {
        let ghost before = views(out@);
        out.push(ready[i].update.name.clone());
        assert(views(out@) =~= before.push(ready@[i as int].update.name@));
        assert(ready_names(ready_views(ready@)).take(i + 1) =~= ready_names(ready_views(ready@)).take(
            i as int,
        ).push(ready@[i as int].update.name@));
        i += 1;
    }
    assert(ready_names(ready_views(ready@)).take(i as int) =~= ready_names(ready_views(ready@)));
    out
}

/// The names of the Unknown entries, in order.
pub fn unknown_name_list(unknown: &Vec<UnknownEntry>) -> (r: Vec<String>)
    ensures
        views(r@) == unknown_names(unknown_views(unknown@)),
{
    let mut out: Vec<String> = Vec::new();
    let mut i: usize = 0;
    while i < unknown.len()
        invariant
            i <= unknown.len(),
            views(out@) == unknown_names(unknown_views(unknown@)).take(i as int),
        decreases unknown.len() - i,
    {
        let ghost before = views(out@);
        out.push(unknown[i].update.name.clone());
        assert(views(out@) =~= before.push(unknown@[i as int].update.name@));
        assert(unknown_names(unknown_views(unknown@)).take(i + 1) =~= unknown_names(
            unknown_views(unknown@),
        ).take(i as int).push(unknown@[i as int].update.name@));
        i += 1;
    }
    assert(unknown_names(unknown_views(unknown@)).take(i as int) =~= unknown_names(
        unknown_views(unknown@),
    ));
    out
}

/// What pacman must ignore: every held package, then the Unknown packages
/// the user skipped.
pub fn ignore_list(held: &Vec<HeldEntry>, skipped: &[String]) -> (r: Vec<String>)
    ensures
        views(r@) == held_names(held_views(held@)) + views(skipped@),
{
    let mut out: Vec<String> = Vec::new();
    push_names_held(&mut out, held);
    let ghost h = views(out@);
    assert(h =~= held_names(held_views(held@)));
    let mut i: usize = 0;
    while i < skipped.len()
        invariant
            i <= skipped.len(),
            views(out@) == h + views(skipped@).take(i as int),
        decreases skipped.len() - i,
    {
        let ghost before = views(out@);
        out.push(skipped[i].clone());
        assert(views(out@) =~= before.push(skipped@[i as int]@));
        assert(views(skipped@).take(i + 1) =~= views(skipped@).take(i as int).push(skipped@[i as int]@));
        i += 1;
    }
    assert(views(skipped@).take(i as int) =~= views(skipped@));
    out
}

pub open spec fn not_ignored(xs: Seq<Seq<char>>, ignore: Seq<Seq<char>>) -> Seq<Seq<char>>
    decreases xs.len(),
{
    if xs.len() == 0 {
        seq![]
    } else if ignore.contains(xs.last()) {
        not_ignored(xs.drop_last(), ignore)
    } else {
        not_ignored(xs.drop_last(), ignore).push(xs.last())
    }
}

/// What nog cleared this run, for the foreign fence: every Ready package,
/// then every Unknown package the user did not skip.
pub fn fence_cleared(ready: &Vec<ReadyEntry>, unknown: &Vec<UnknownEntry>, ignore: &[String]) -> (r:
    Vec<String>)
    ensures
        views(r@) == ready_names(ready_views(ready@)) + not_ignored(
            unknown_names(unknown_views(unknown@)),
            views(ignore@),
        ),
{
    let mut out = ready_name_list(ready);
    let ghost r0 = views(out@);
    let names = unknown_name_list(unknown);
    let ghost un = views(names@);
    let mut i: usize = 0;
    while i < names.len()
        invariant
            i <= names.len(),
            un == views(names@),
            views(out@) == r0 + not_ignored(un.take(i as int), views(ignore@)),
        decreases names.len() - i,
    {
        assert(un.take(i + 1).drop_last() =~= un.take(i as int));
        if !crate::tiers::contains_string(ignore, &names[i]) {
            let ghost before = views(out@);
            out.push(names[i].clone());
            assert(views(out@) =~= before.push(un[i as int]));
        }
        i += 1;
    }
    assert(un.take(i as int) =~= un);
    out
}

/// Whether the Unknown update at index `i` is skipped, given the answers
/// read at its prompt (`Some(true)` yes, `Some(false)` no, `None` when no
/// answer could be read): anything but a yes skips it, and once no answer
/// could be read every later one is skipped without asking.
pub open spec fn declined(answers: Seq<Option<bool>>, i: int) -> bool {
    ||| i >= answers.len()
    ||| answers[i] != Some(true)
    ||| exists|j: int| 0 <= j < i && j < answers.len() && (#[trigger] answers[j]) is None
}

pub open spec fn skip_list(names: Seq<Seq<char>>, answers: Seq<Option<bool>>) -> Seq<Seq<char>>
    decreases names.len(),
{
    if names.len() == 0 {
        seq![]
    } else if declined(answers, names.len() - 1) {
        skip_list(names.drop_last(), answers).push(names.last())
    } else {
        skip_list(names.drop_last(), answers)
    }
}

/// The Unknown updates the user did not let through, in order, from the
/// answers given at their prompts (`answers[i]` for `unknown[i]`; the
/// prompts stop at the first `None`, so there may be fewer answers than
/// updates).
pub fn skipped_unknowns(unknown: &Vec<UnknownEntry>, answers: &Vec<Option<bool>>) -> (r: Vec<String>)
    ensures
        views(r@) == skip_list(unknown_names(unknown_views(unknown@)), answers@),
{
    let ghost un = unknown_names(unknown_views(unknown@));
    let mut out: Vec<String> = Vec::new();
    let mut stopped = false;
    let mut i: usize = 0;
    while i < unknown.len()
        invariant
            i <= unknown.len(),
            un == unknown_names(unknown_views(unknown@)),
            un.len() == unknown@.len(),
            stopped == exists|j: int| 0 <= j < i && j < answers@.len() && (#[trigger] answers@[j]) is None,
            views(out@) == skip_list(un.take(i as int), answers@),
        decreases unknown.len() - i,
    {
        assert(un.take(i + 1).drop_last() =~= un.take(i as int));
        assert(un[i as int] == unknown@[i as int].update.name@);
        let yes = i < answers.len() && answers[i] == Some(true);
        if stopped || !yes {
            let ghost before = views(out@);
            out.push(unknown[i].update.name.clone());
            assert(views(out@) =~= before.push(un[i as int]));
        }
        if i < answers.len() && answers[i].is_none() {
            stopped = true;
        }
        proof {
            if i < answers@.len() && answers@[i as int] is None {
                assert(exists|j: int| 0 <= j < i + 1 && j < answers@.len() && (#[trigger] answers@[j]) is None);
            }
        }
        i += 1;
    }
    assert(un.take(i as int) =~= un);
    out
}

proof fn lemma_skip_list_member(names: Seq<Seq<char>>, answers: Seq<Option<bool>>, i: int)
    requires
        0 <= i < names.len(),
        declined(answers, i),
    ensures
        skip_list(names, answers).contains(names[i]),
    decreases names.len(),
{
    if i == names.len() - 1 {
        let r = skip_list(names.drop_last(), answers);
        assert(r.push(names.last())[r.len() as int] == names[i]);
    } else {
        lemma_skip_list_member(names.drop_last(), answers, i);
        let r = skip_list(names.drop_last(), answers);
        let k = choose|k: int| 0 <= k < r.len() && r[k] == names[i];
        if declined(answers, names.len() - 1) {
            assert(r.push(names.last())[k] == names[i]);
        }
    }
}

proof fn lemma_not_ignored_member(xs: Seq<Seq<char>>, ignore: Seq<Seq<char>>, n: Seq<char>)
    ensures
        not_ignored(xs, ignore).contains(n) ==> xs.contains(n) && !ignore.contains(n),
        xs.contains(n) && !ignore.contains(n) ==> not_ignored(xs, ignore).contains(n),
    decreases xs.len(),
{
    if xs.len() > 0 {
        let pre = xs.drop_last();
        lemma_not_ignored_member(pre, ignore, n);
        let r = not_ignored(pre, ignore);
        if not_ignored(xs, ignore).contains(n) {
            let k = choose|k: int| 0 <= k < not_ignored(xs, ignore).len() && not_ignored(xs, ignore)[k] == n;
            if k < r.len() {
                assert(not_ignored(xs, ignore)[k] == r[k]);
                let j = choose|j: int| 0 <= j < pre.len() && pre[j] == n;
                assert(xs[j] == n);
            } else {
                assert(n == xs.last());
                assert(xs[xs.len() - 1] == n);
            }
        }
        if xs.contains(n) && !ignore.contains(n) {
            let j = choose|j: int| 0 <= j < xs.len() && xs[j] == n;
            if j < pre.len() {
                assert(pre[j] == n);
                let k = choose|k: int| 0 <= k < r.len() && r[k] == n;
                if !ignore.contains(xs.last()) {
                    assert(r.push(xs.last())[k] == n);
                }
            } else {
                assert(xs.last() == n);
                assert(r.push(xs.last())[r.len() as int] == n);
            }
        }
    }
}

/// What is excluded from a run and what is let through never overlap, and
/// nothing is released by omission: every held package and every Unknown
/// the user did not approve is on the ignore list, and an Unknown update is
/// cleared for the foreign fence exactly when it is not on that list.
pub proof fn lemma_exclusions(
    held: Seq<HeldView>,
    unknown: Seq<UnknownView>,
    answers: Seq<Option<bool>>,
    n: Seq<char>,
)
    ensures
        ({
            let un = unknown_names(unknown);
            let ignore = held_names(held) + skip_list(un, answers);
            &&& held_names(held).contains(n) ==> ignore.contains(n)
            &&& (forall|i: int| 0 <= i < un.len() && declined(answers, i) ==> #[trigger] ignore.contains(un[i]))
            &&& not_ignored(un, ignore).contains(n) <==> (un.contains(n) && !ignore.contains(n))
        }),
{
    let un = unknown_names(unknown);
    let hn = held_names(held);
    let sk = skip_list(un, answers);
    let ignore = hn + sk;
    if hn.contains(n) {
        let k = choose|k: int| 0 <= k < hn.len() && hn[k] == n;
        assert(ignore[k] == n);
    }
    assert forall|i: int| 0 <= i < un.len() && declined(answers, i) implies #[trigger] ignore.contains(un[i]) by {
        lemma_skip_list_member(un, answers, i);
        let k = choose|k: int| 0 <= k < sk.len() && sk[k] == un[i];
        assert(ignore[hn.len() + k] == un[i]);
    }
    lemma_not_ignored_member(un, ignore, n);
}

/// How a run ended, for the run log.
#[derive(Debug, Clone, Copy, PartialEq, Eq, Structural)]
pub enum RunOutcome {
    UpToDate,
    AllHeld,
    Cancelled,
    HandoffFailed(i32),
    FlatpakFailed(i32),
    SnapFailed(i32),
    Installed,
}

pub open spec fn outcome_text(o: RunOutcome) -> Seq<char> {
    match o {
        RunOutcome::UpToDate => "up to date"@,
        RunOutcome::AllHeld => "all held"@,
        RunOutcome::Cancelled => "cancelled"@,
        RunOutcome::HandoffFailed(c) => "handoff failed (status "@ + signed_decimal(c as int) + ")"@,
        RunOutcome::FlatpakFailed(c) => "flatpak apply failed (status "@ + signed_decimal(c as int) + ")"@,
        RunOutcome::SnapFailed(c) => "snap apply failed (status "@ + signed_decimal(c as int) + ")"@,
        RunOutcome::Installed => "installed"@,
    }
}

fn status_text(head: &str, code: i32) -> (r: String)
    ensures
        r@ == head@ + signed_decimal(code as int) + ")"@,
{
    let mut out: Vec<char> = Vec::new();
    push_str(&mut out, head);
    let d = i32_chars(code);
    push_all(&mut out, &d);
    push_str(&mut out, ")");
    string_of(&out)
}

impl RunOutcome {
    /// The run log's outcome column.
    pub fn text(&self) -> (r: String)
        ensures
            r@ == outcome_text(*self),
    {
        match self {
            RunOutcome::UpToDate => "up to date".to_string(),
            RunOutcome::AllHeld => "all held".to_string(),
            RunOutcome::Cancelled => "cancelled".to_string(),
            RunOutcome::HandoffFailed(c) => status_text("handoff failed (status ", *c),
            RunOutcome::FlatpakFailed(c) => status_text("flatpak apply failed (status ", *c),
            RunOutcome::SnapFailed(c) => status_text("snap apply failed (status ", *c),
            RunOutcome::Installed => "installed".to_string(),
        }
    }
}

/// A run ends without a transaction when nothing is Ready and every pending
/// update is on the ignore list (held, or skipped at the prompt).
pub fn nothing_to_install(ready: &Vec<ReadyEntry>, ignore: &Vec<String>, pending_count: usize) -> (b: bool)
    ensures
        b == (ready@.len() == 0 && ignore@.len() == pending_count),
{
    ready.len() == 0 && ignore.len() == pending_count
}

// ---------------------------------------------------------------------------
// Build dates from outside the sync databases
// ---------------------------------------------------------------------------

pub open spec fn undated(names: Seq<Seq<char>>, packages: Map<Seq<char>, PackageDesc>) -> Seq<Seq<char>>
    decreases names.len(),
{
    if names.len() == 0 {
        seq![]
    } else if packages.contains_key(names.last()) {
        undated(names.drop_last(), packages)
    } else {
        undated(names.drop_last(), packages).push(names.last())
    }
}

/// The names without a package entry, in order: the AUR updates whose
/// build dates must be asked of the helper.
pub fn undated_names(names: &[String], packages: &NameTable<PackageDesc>) -> (r: Vec<String>)
    ensures
        views(r@) == undated(views(names@), packages@),
{
    let ghost nv = views(names@);
    let mut out: Vec<String> = Vec::new();
    let mut i: usize = 0;
    while i < names.len()
        invariant
            i <= names.len(),
            nv == views(names@),
            views(out@) == undated(nv.take(i as int), packages@),
        decreases names.len() - i,
    {
        assert(nv.take(i + 1).drop_last() =~= nv.take(i as int));
        if !packages.contains_key(names[i].as_str()) {
            let ghost before = views(out@);
            out.push(names[i].clone());
            assert(views(out@) =~= before.push(nv[i as int]));
        }
        i += 1;
    }
    assert(nv.take(i as int) =~= nv);
    out
}

/// The entry of a date learned outside the sync databases (an AUR helper,
/// a flatpak commit, a snap release): the build date alone, with no
/// version, so the candidate-version guard does not apply to it.
pub open spec fn dated_desc(d: PackageDesc, ts: u64) -> bool {
    &&& d.builddate == ts
    &&& d.pkgbase is None
    &&& d.version is None
    &&& d.provides@.len() == 0
}

/// Give every dated name that has no package entry one carrying its build
/// date; entries already present are kept.
pub fn add_build_dates(packages: &mut NameTable<PackageDesc>, dates: &NameTable<u64>)
    ensures
        forall|k: Seq<char>| #[trigger]
            final(packages)@.contains_key(k) <==> old(packages)@.contains_key(k) || dates@.contains_key(k),
        forall|k: Seq<char>| #[trigger]
            old(packages)@.contains_key(k) ==> final(packages)@[k] == old(packages)@[k],
        forall|k: Seq<char>|
            !old(packages)@.contains_key(k) && #[trigger] dates@.contains_key(k) ==> dated_desc(
                final(packages)@[k],
                dates@[k],
            ),
{
    let n = dates.len();
    let mut i: usize = 0;
    while i < n
        invariant
            i <= n,
            n == dates.key_seq().len(),
            forall|k: Seq<char>| #[trigger] dates@.contains_key(k) <==> dates.key_seq().contains(k),
            forall|k: Seq<char>| #[trigger]
                packages@.contains_key(k) <==> old(packages)@.contains_key(k) || dates.key_seq().take(
                    i as int,
                ).contains(k),
            forall|k: Seq<char>| #[trigger]
                old(packages)@.contains_key(k) ==> packages@[k] == old(packages)@[k],
            forall|k: Seq<char>|
                !old(packages)@.contains_key(k) && #[trigger] packages@.contains_key(k)
                    ==> dates@.contains_key(k) && dated_desc(packages@[k], dates@[k]),
        decreases n - i,
    {
        let k = dates.key_at(i);
        let ghost kv = k@;
        let ghost pre = dates.key_seq().take(i as int);
        assert(dates.key_seq().take(i + 1) =~= pre.push(kv));
        assert forall|x: Seq<char>| pre.push(kv).contains(x) <==> (pre.contains(x) || x == kv) by {
            if pre.push(kv).contains(x) {
                let j = choose|j: int| 0 <= j < pre.push(kv).len() && pre.push(kv)[j] == x;
                if j < pre.len() {
                    assert(pre[j] == x);
                }
            }
            if pre.contains(x) {
                let j = choose|j: int| 0 <= j < pre.len() && pre[j] == x;
                assert(pre.push(kv)[j] == x);
            }
            if x == kv {
                assert(pre.push(kv)[pre.len() as int] == x);
            }
        }
        match dates.get(k.as_str()) {
            Some(ts) => {
                let d = PackageDesc { builddate: *ts, pkgbase: None, version: None, provides: Vec::new() };
                packages.insert_if_absent(k.clone(), d);
            },
            None => {},
        }
        i += 1;
    }
    assert(dates.key_seq().take(n as int) =~= dates.key_seq());
    assert forall|k: Seq<char>|
        !old(packages)@.contains_key(k) && #[trigger] dates@.contains_key(k) implies dated_desc(
            packages@[k],
            dates@[k],
        ) by {
        assert(packages@.contains_key(k));
    }
}

// ---------------------------------------------------------------------------
// Laws of the plan
// ---------------------------------------------------------------------------

/// Every pending update lands in exactly one bucket: none is lost, none is
/// counted twice.
pub proof fn lemma_buckets_partition(
    ps: Seq<Fields>,
    tm: TierManager,
    packages: Map<Seq<char>, PackageDesc>,
    holds: HoldsConfig,
    now: Option<u64>,
)
    ensures
        ready_of(ps, tm, packages, holds, now).len() + held_of(ps, tm, packages, holds, now).len()
            + unknown_of(ps, tm, packages, holds, now).len() == ps.len(),
    decreases ps.len(),
{
    if ps.len() > 0 {
        lemma_buckets_partition(ps.drop_last(), tm, packages, holds, now);
    }
}

/// `--realign` moves held entries to Ready without losing or adding any.
pub proof fn lemma_realign_partition(held: Seq<HeldView>, desyncs: Seq<Desync>)
    ensures
        realigned_of(held, desyncs).len() + still_held(held, desyncs).len() == held.len(),
    decreases held.len(),
{
    if held.len() > 0 {
        lemma_realign_partition(held.drop_last(), desyncs);
    }
}

/// lib32 coupling moves Ready entries to Held without losing or adding any.
pub proof fn lemma_couple_partition(ready: Seq<ReadyView>, d: Seq<(Seq<char>, Seq<char>)>, held: Seq<HeldView>)
    ensures
        coupled_kept(ready, d).len() + coupled_out(ready, d, held).len() == ready.len(),
    decreases ready.len(),
{
    if ready.len() > 0 {
        lemma_couple_partition(ready.drop_last(), d, held);
    }
}

pub open spec fn held_sorted(s: Seq<HeldView>) -> bool {
    forall|i: int, j: int| 0 <= i < j < s.len() ==> held_le(#[trigger] s[i], #[trigger] s[j])
}

proof fn lemma_held_le_total(a: HeldView, b: HeldView)
    ensures
        held_le(a, b) || held_le(b, a),
{
    if a.2 == b.2 && a.0.0 != b.0.0 {
        crate::text::lemma_seq_lt_total(a.0.0, b.0.0);
        crate::text::lemma_seq_lt_asymmetric(a.0.0, b.0.0);
    } else {
        crate::text::lemma_seq_lt_irreflexive(a.0.0);
    }
}

proof fn lemma_held_le_transitive(a: HeldView, b: HeldView, c: HeldView)
    requires
        held_le(a, b),
        held_le(b, c),
    ensures
        held_le(a, c),
{
    if a.2 == b.2 && b.2 == c.2 {
        if seq_lt(c.0.0, a.0.0) {
            if a.0.0 == b.0.0 {
            } else {
                crate::text::lemma_seq_lt_total(a.0.0, b.0.0);
                if seq_lt(b.0.0, a.0.0) {
                } else {
                    crate::text::lemma_seq_lt_transitive(c.0.0, a.0.0, b.0.0);
                }
            }
        }
    }
}

proof fn lemma_insert_stable_keeps(s: Seq<HeldView>, x: HeldView)
    requires
        held_sorted(s),
    ensures
        held_sorted(insert_stable(s, x)),
        insert_stable(s, x).to_multiset() == s.to_multiset().insert(x),
    decreases s.len(),
{
    broadcast use vstd::seq_lib::group_to_multiset_ensures;
    if s.len() == 0 {
        assert(seq![x] =~= Seq::<HeldView>::empty().push(x));
    } else if held_le(s.last(), x) {
        let t = s.push(x);
        assert forall|i: int, j: int| 0 <= i < j < t.len() implies held_le(#[trigger] t[i], #[trigger] t[j]) by {
            if j == s.len() {
                if i < s.len() - 1 {
                    lemma_held_le_transitive(s[i], s[s.len() - 1], x);
                }
            }
        }
    } else {
        let p = s.drop_last();
        assert forall|i: int, j: int| 0 <= i < j < p.len() implies held_le(#[trigger] p[i], #[trigger] p[j]) by {
            assert(p[i] == s[i] && p[j] == s[j]);
        }
        lemma_insert_stable_keeps(p, x);
        let q = insert_stable(p, x);
        let t = q.push(s.last());
        lemma_held_le_total(s.last(), x);
        assert forall|i: int, j: int| 0 <= i < j < t.len() implies held_le(#[trigger] t[i], #[trigger] t[j]) by {
            if j == q.len() {
                let y = q[i];
                assert(q.to_multiset().count(y) > 0);
                assert(y == x || p.to_multiset().count(y) > 0);
                if y != x {
                    assert(p.contains(y));
                    let k = choose|k: int| 0 <= k < p.len() && p[k] == y;
                    assert(s[k] == y);
                }
            }
        }
        assert(s =~= p.push(s.last()));
    }
}

/// The Held list is in release order (soonest first, ties by name), and it
/// holds exactly the entries it was given.
pub proof fn lemma_held_order(s: Seq<HeldView>)
    ensures
        held_sorted(held_order(s)),
        held_order(s).to_multiset() == s.to_multiset(),
    decreases s.len(),
{
    broadcast use vstd::seq_lib::group_to_multiset_ensures;
    if s.len() > 0 {
        lemma_held_order(s.drop_last());
        lemma_insert_stable_keeps(held_order(s.drop_last()), s.last());
        assert(s =~= s.drop_last().push(s.last()));
    } else {
        assert(held_order(s) =~= Seq::<HeldView>::empty());
    }
}

} // verus!
