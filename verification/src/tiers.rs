//! Tier classification: which of the three hold tiers a package belongs to.
//!
//! Resolution, first match wins:
//!   1. direct membership in `[tier1].packages` or `[tier2].packages`;
//!   2. `<X>-headers` is Tier 1 when `<X>` is listed in Tier 1;
//!   3. `lib32-<X>` inherits the tier `<X>` gets from rules 1-2 (when not Tier 3);
//!   4. packages sharing a pkgbase inherit the highest tier rules 1-3 give
//!      any sibling;
//!   5. members of a `[groups]` entry inherit the highest tier rules 1-4 give
//!      any other member of any group they are in;
//!   6. Tier 3.
use crate::sync_db::PackageDesc;
use crate::table::NameTable;
use crate::text::{
    chars_of, cviews, decimal, decimal_chars, ends_with, join, join_chars, lines, lines_of, push_all,
    push_str, split, starts_with, starts_with_str, string_of, strip_prefix_str, strip_suffix_str, trim,
    trim_chars, views, contains_char,
};
use vstd::prelude::*;
use vstd::string::*;

verus! {

#[derive(Debug, Clone, Copy, PartialEq, Eq, Hash, Structural)]
pub enum Tier {
    One,
    Two,
    Three,
}

/// 1, 2 or 3; a smaller rank is a stricter tier.
pub open spec fn tier_rank(t: Tier) -> int {
    match t {
        Tier::One => 1,
        Tier::Two => 2,
        Tier::Three => 3,
    }
}

/// The stricter of two tiers.
pub open spec fn tier_min(a: Tier, b: Tier) -> Tier {
    if tier_rank(b) < tier_rank(a) {
        b
    } else {
        a
    }
}

impl Tier {
    pub fn rank(&self) -> (r: u8)
        ensures
            r as int == tier_rank(*self),
    {
        match self {
            Tier::One => 1,
            Tier::Two => 2,
            Tier::Three => 3,
        }
    }

    /// "Tier 1", "Tier 2" or "Tier 3".
    pub fn label(&self) -> (s: String)
        ensures
            s@ == match *self {
                Tier::One => "Tier 1"@,
                Tier::Two => "Tier 2"@,
                Tier::Three => "Tier 3"@,
            },
    {
        match self {
            Tier::One => String::from_str("Tier 1"),
            Tier::Two => String::from_str("Tier 2"),
            Tier::Three => String::from_str("Tier 3"),
        }
    }
}

/// One `[tierN]` table of `tier-pins.toml`.
#[derive(Debug, Clone)]
pub struct TierConfig {
    pub manual_signoff: bool,
    pub packages: Option<Vec<String>>,
}

/// The contents of `tier-pins.toml`.
#[derive(Debug, Clone)]
pub struct TierPins {
    pub tier1: TierConfig,
    pub tier2: TierConfig,
    pub tier3: TierConfig,
    /// `[groups]`: group name and its members.
    pub groups: Vec<(String, Vec<String>)>,
}

/// Split-PKGBUILD coupling index: each package's pkgbase, and each
/// pkgbase's packages.
pub struct PkgbaseIndex {
    pub pkgbase_of: NameTable<String>,
    pub siblings_of: NameTable<Vec<String>>,
}

pub open spec fn listed(cfg: TierConfig, p: Seq<char>) -> bool {
    match cfg.packages {
        Some(v) => views(v@).contains(p),
        None => false,
    }
}

/// `<X>` of `<X>-headers`.
pub open spec fn headers_base(p: Seq<char>) -> Seq<char> {
    p.take(p.len() - "-headers"@.len())
}

/// `<X>` of `lib32-<X>`.
pub open spec fn lib32_base(p: Seq<char>) -> Seq<char> {
    p.skip("lib32-"@.len() as int)
}

/// Direct membership plus the two name patterns; no pkgbase, no groups.
pub open spec fn classify_direct(pins: TierPins, p: Seq<char>) -> Tier {
    if listed(pins.tier1, p) {
        Tier::One
    } else if listed(pins.tier2, p) {
        Tier::Two
    } else if ends_with(p, "-headers"@) && listed(pins.tier1, headers_base(p)) {
        Tier::One
    } else if starts_with(p, "lib32-"@) {
        let b = lib32_base(p);
        if listed(pins.tier1, b) {
            Tier::One
        } else if listed(pins.tier2, b) {
            Tier::Two
        } else if ends_with(b, "-headers"@) && listed(pins.tier1, headers_base(b)) {
            Tier::One
        } else {
            Tier::Three
        }
    } else {
        Tier::Three
    }
}

/// The strictest direct tier among `sibs` other than `p`.
pub open spec fn siblings_min(pins: TierPins, sibs: Seq<Seq<char>>, p: Seq<char>) -> Tier
    decreases sibs.len(),
{
    if sibs.len() == 0 {
        Tier::Three
    } else {
        let t = siblings_min(pins, sibs.drop_last(), p);
        if sibs.last() == p {
            t
        } else {
            tier_min(t, classify_direct(pins, sibs.last()))
        }
    }
}

/// What the pkgbase siblings of `p` give it.
pub open spec fn pkgbase_tier(pins: TierPins, idx: PkgbaseIndex, p: Seq<char>) -> Tier {
    if idx.pkgbase_of@.contains_key(p) && idx.siblings_of@.contains_key(idx.pkgbase_of@[p]@) {
        siblings_min(pins, views(idx.siblings_of@[idx.pkgbase_of@[p]@]@), p)
    } else {
        Tier::Three
    }
}

/// Every rule but `[groups]`.
pub open spec fn classify_no_groups(pins: TierPins, idx: PkgbaseIndex, p: Seq<char>) -> Tier {
    if listed(pins.tier1, p) {
        Tier::One
    } else if listed(pins.tier2, p) {
        Tier::Two
    } else if ends_with(p, "-headers"@) && listed(pins.tier1, headers_base(p)) {
        Tier::One
    } else if starts_with(p, "lib32-"@) && classify_direct(pins, lib32_base(p)) != Tier::Three {
        classify_direct(pins, lib32_base(p))
    } else {
        pkgbase_tier(pins, idx, p)
    }
}

/// The strictest tier (by every rule but groups) among `ms` other than `p`.
pub open spec fn members_min(pins: TierPins, idx: PkgbaseIndex, ms: Seq<Seq<char>>, p: Seq<char>) -> Tier
    decreases ms.len(),
{
    if ms.len() == 0 {
        Tier::Three
    } else {
        let t = members_min(pins, idx, ms.drop_last(), p);
        if ms.last() == p {
            t
        } else {
            tier_min(t, classify_no_groups(pins, idx, ms.last()))
        }
    }
}

/// What the groups `p` is in give it: the strictest tier among the other
/// members of every group that lists `p`.
pub open spec fn group_tier(
    pins: TierPins,
    idx: PkgbaseIndex,
    groups: Seq<(String, Vec<String>)>,
    p: Seq<char>,
) -> Tier
    decreases groups.len(),
{
    if groups.len() == 0 {
        Tier::Three
    } else {
        let ms = views(groups.last().1@);
        tier_min(
            group_tier(pins, idx, groups.drop_last(), p),
            if ms.contains(p) {
                members_min(pins, idx, ms, p)
            } else {
                Tier::Three
            },
        )
    }
}

/// The full classification: the stricter of what the package's own pins
/// and coupling rules give it and what its groups give it, so every member
/// of a group has at least the strictest tier of the group.
pub open spec fn classify_spec(pins: TierPins, idx: PkgbaseIndex, p: Seq<char>) -> Tier {
    let t = classify_no_groups(pins, idx, p);
    if t == Tier::One {
        t
    } else {
        tier_min(t, group_tier(pins, idx, pins.groups@, p))
    }
}

/// What `build_group_index` files under `k` for one group with members
/// `ms`, having scanned the members `scanned`: a copy of `ms` per
/// occurrence of `k`.
pub open spec fn member_contrib(ms: Seq<Seq<char>>, scanned: Seq<Seq<char>>, k: Seq<char>) -> Seq<
    Seq<char>,
>
    decreases scanned.len(),
{
    if scanned.len() == 0 {
        seq![]
    } else {
        member_contrib(ms, scanned.drop_last(), k) + if scanned.last() == k {
            ms
        } else {
            seq![]
        }
    }
}

/// The group index entry of `k`: member lists of every group `k` is in.
pub open spec fn group_entry(groups: Seq<(String, Vec<String>)>, k: Seq<char>) -> Seq<Seq<char>>
    decreases groups.len(),
{
    if groups.len() == 0 {
        seq![]
    } else {
        let ms = views(groups.last().1@);
        group_entry(groups.drop_last(), k) + member_contrib(ms, ms, k)
    }
}

/// The string list stored under `k`, or the empty list.
pub open spec fn list_at(t: NameTable<Vec<String>>, k: Seq<char>) -> Seq<Seq<char>> {
    if t@.contains_key(k) {
        views(t@[k]@)
    } else {
        seq![]
    }
}

pub open spec fn has_base(d: PackageDesc, b: Seq<char>) -> bool {
    match d.pkgbase {
        Some(x) => x@ == b,
        None => false,
    }
}

/// Names of `keys`, in order, whose entry in `m` has pkgbase `b`.
pub open spec fn names_with_base(keys: Seq<Seq<char>>, m: Map<Seq<char>, PackageDesc>, b: Seq<char>) -> Seq<
    Seq<char>,
>
    decreases keys.len(),
{
    if keys.len() == 0 {
        seq![]
    } else {
        let r = names_with_base(keys.drop_last(), m, b);
        let n = keys.last();
        if m.contains_key(n) && has_base(m[n], b) {
            r.push(n)
        } else {
            r
        }
    }
}

// ---------------------------------------------------------------------------
// Lemmas
// ---------------------------------------------------------------------------

proof fn lemma_members_min_concat(
    pins: TierPins,
    idx: PkgbaseIndex,
    a: Seq<Seq<char>>,
    b: Seq<Seq<char>>,
    p: Seq<char>,
)
    ensures
        members_min(pins, idx, a + b, p) == tier_min(
            members_min(pins, idx, a, p),
            members_min(pins, idx, b, p),
        ),
    decreases b.len(),
{
    if b.len() == 0 {
        assert(a + b =~= a);
    } else {
        lemma_members_min_concat(pins, idx, a, b.drop_last(), p);
        assert((a + b).drop_last() =~= a + b.drop_last());
        assert((a + b).last() == b.last());
    }
}

proof fn lemma_members_min_contrib(
    pins: TierPins,
    idx: PkgbaseIndex,
    ms: Seq<Seq<char>>,
    scanned: Seq<Seq<char>>,
    p: Seq<char>,
)
    ensures
        members_min(pins, idx, member_contrib(ms, scanned, p), p) == if scanned.contains(p) {
            members_min(pins, idx, ms, p)
        } else {
            Tier::Three
        },
    decreases scanned.len(),
{
    if scanned.len() > 0 {
        lemma_members_min_contrib(pins, idx, ms, scanned.drop_last(), p);
        let tail = if scanned.last() == p {
            ms
        } else {
            seq![]
        };
        lemma_members_min_concat(pins, idx, member_contrib(ms, scanned.drop_last(), p), tail, p);
        assert(scanned.contains(p) <==> (scanned.drop_last().contains(p) || scanned.last() == p)) by {
            if scanned.contains(p) {
                let i = choose|i: int| 0 <= i < scanned.len() && scanned[i] == p;
                if i < scanned.len() - 1 {
                    assert(scanned.drop_last()[i] == p);
                }
            }
            if scanned.drop_last().contains(p) {
                let i = choose|i: int| 0 <= i < scanned.len() - 1 && scanned.drop_last()[i] == p;
                assert(scanned[i] == p);
            }
            if scanned.last() == p {
                assert(scanned[scanned.len() - 1] == p);
            }
        }
    }
}

proof fn lemma_group_entry_min(
    pins: TierPins,
    idx: PkgbaseIndex,
    groups: Seq<(String, Vec<String>)>,
    p: Seq<char>,
)
    ensures
        members_min(pins, idx, group_entry(groups, p), p) == group_tier(pins, idx, groups, p),
    decreases groups.len(),
{
    if groups.len() > 0 {
        let ms = views(groups.last().1@);
        lemma_group_entry_min(pins, idx, groups.drop_last(), p);
        lemma_members_min_concat(
            pins,
            idx,
            group_entry(groups.drop_last(), p),
            member_contrib(ms, ms, p),
            p,
        );
        lemma_members_min_contrib(pins, idx, ms, ms, p);
    }
}

// ---------------------------------------------------------------------------
// Executable code
// ---------------------------------------------------------------------------

/// A copy of a list of strings.
pub fn copy_strings(v: &Vec<String>) -> (r: Vec<String>)
    ensures
        r@ == v@,
{
    let mut r: Vec<String> = Vec::new();
    let mut i: usize = 0;
    while i < v.len()
        invariant
            i <= v.len(),
            r@ == v@.take(i as int),
        decreases v.len() - i,
    {
        r.push(v[i].clone());
        assert(v@.take(i + 1) =~= v@.take(i as int).push(v@[i as int]));
        i += 1;
    }
    assert(v@.take(i as int) =~= v@);
    r
}

/// Is `p` one of the strings of `v`?
pub fn contains_string(v: &[String], p: &String) -> (b: bool)
    ensures
        b == views(v@).contains(p@),
{
    let mut i: usize = 0;
    while i < v.len()
        invariant
            i <= v.len(),
            forall|j: int| 0 <= j < i ==> v@[j]@ != p@,
        decreases v.len() - i,
    {
        if v[i] == *p {
            assert(views(v@)[i as int] == p@);
            return true;
        }
        i += 1;
    }
    assert forall|j: int| 0 <= j < views(v@).len() implies views(v@)[j] != p@ by {
        assert(views(v@)[j] == v@[j]@);
    }
    false
}

fn in_list(cfg: &TierConfig, p: &String) -> (b: bool)
    ensures
        b == listed(*cfg, p@),
{
    match &cfg.packages {
        Some(v) => contains_string(v, p),
        None => false,
    }
}

fn tier_lower(a: Tier, b: Tier) -> (t: Tier)
    ensures
        t == tier_min(a, b),
{
    if b.rank() < a.rank() {
        b
    } else {
        a
    }
}

/// `<X>` of `<X>-headers`, when `p` ends so.
fn strip_headers(p: &String) -> (r: Option<String>)
    ensures
        match r {
            Some(b) => ends_with(p@, "-headers"@) && b@ == headers_base(p@),
            None => !ends_with(p@, "-headers"@),
        },
{
    let pv = chars_of(p.as_str());
    match strip_suffix_str(&pv, "-headers") {
        Some(b) => Some(string_of(&b)),
        None => None,
    }
}

/// `<X>` of `lib32-<X>`, when `p` begins so.
fn strip_lib32(p: &String) -> (r: Option<String>)
    ensures
        match r {
            Some(b) => starts_with(p@, "lib32-"@) && b@ == lib32_base(p@),
            None => !starts_with(p@, "lib32-"@),
        },
{
    let pv = chars_of(p.as_str());
    match strip_prefix_str(&pv, "lib32-") {
        Some(b) => Some(string_of(&b)),
        None => None,
    }
}

/// Build the group index: for each member occurrence in each group, that
/// group's member list is filed under the member.
fn build_group_index(groups: &Vec<(String, Vec<String>)>) -> (idx: NameTable<Vec<String>>)
    ensures
        forall|k: Seq<char>| #[trigger] list_at(idx, k) == group_entry(groups@, k),
{
    let mut idx: NameTable<Vec<String>> = NameTable::new();
    let mut i: usize = 0;
    while i < groups.len()
        invariant
            i <= groups.len(),
            forall|k: Seq<char>| #[trigger] list_at(idx, k) == group_entry(groups@.take(i as int), k),
        decreases groups.len() - i,
    {
        let members = &groups[i].1;
        let ghost ms = views(members@);
        let ghost done = groups@.take(i as int);
        let mut j: usize = 0;
        while j < members.len()
            invariant
                i < groups.len(),
                members == &groups@[i as int].1,
                ms == views(members@),
                done == groups@.take(i as int),
                j <= members.len(),
                forall|k: Seq<char>|
                    #[trigger] list_at(idx, k) == group_entry(done, k) + member_contrib(
                        ms,
                        ms.take(j as int),
                        k,
                    ),
            decreases members.len() - j,
        {
            let pkg = &members[j];
            let mut entry: Vec<String> = match idx.get(pkg.as_str()) {
                Some(existing) => copy_strings(existing),
                None => Vec::new(),
            };
            let ghost before = views(entry@);
            let mut m: usize = 0;
            while m < members.len()
                invariant
                    m <= members.len(),
                    views(entry@) == before + ms.take(m as int),
                    ms == views(members@),
                decreases members.len() - m,
            {
                let ghost prev = entry@;
                let item = members[m].clone();
                assert(item@ == ms[m as int]);
                entry.push(item);
                assert(views(entry@) =~= views(prev).push(ms[m as int]));
                assert(ms.take(m + 1) =~= ms.take(m as int).push(ms[m as int]));
                assert(views(entry@) =~= before + ms.take(m + 1));
                m += 1;
            }
            assert(ms.take(m as int) =~= ms);
            let ghost old_idx = idx;
            idx.insert(pkg.clone(), entry);
            proof {
                assert(ms.take(j + 1).drop_last() =~= ms.take(j as int));
                assert(ms.take(j + 1).last() == pkg@);
                assert forall|k: Seq<char>| #[trigger] list_at(idx, k) == group_entry(done, k)
                    + member_contrib(ms, ms.take(j + 1), k) by {
                    assert(list_at(old_idx, k) == group_entry(done, k) + member_contrib(
                        ms,
                        ms.take(j as int),
                        k,
                    ));
                    if k == pkg@ {
                        assert(before == list_at(old_idx, k));
                        assert(list_at(idx, k) =~= before + ms);
                    } else {
                        assert(list_at(idx, k) == list_at(old_idx, k));
                        assert(member_contrib(ms, ms.take(j + 1), k) =~= member_contrib(
                            ms,
                            ms.take(j as int),
                            k,
                        ));
                    }
                }
            }
            j += 1;
        }
        proof {
            assert(ms.take(j as int) =~= ms);
            assert(groups@.take(i + 1).drop_last() =~= done);
            assert(groups@.take(i + 1).last() == groups@[i as int]);
            assert forall|k: Seq<char>| #[trigger] list_at(idx, k) == group_entry(
                groups@.take(i + 1),
                k,
            ) by {}
        }
        i += 1;
    }
    proof {
        assert(groups@.take(i as int) =~= groups@);
    }
    idx
}

proof fn lemma_names_with_base_distinct(keys: Seq<Seq<char>>, m: Map<Seq<char>, PackageDesc>, b: Seq<char>)
    requires
        keys.no_duplicates(),
    ensures
        names_with_base(keys, m, b).no_duplicates(),
        forall|x: Seq<char>| #[trigger] names_with_base(keys, m, b).contains(x) ==> keys.contains(x),
    decreases keys.len(),
{
    if keys.len() > 0 {
        let pre = keys.drop_last();
        assert(pre.no_duplicates()) by {
            assert forall|i: int, j: int| 0 <= i < pre.len() && 0 <= j < pre.len() && i != j implies pre[i] != pre[j] by {
                assert(pre[i] == keys[i] && pre[j] == keys[j]);
            }
        }
        lemma_names_with_base_distinct(pre, m, b);
        let r = names_with_base(pre, m, b);
        let n = keys.last();
        assert(!r.contains(n)) by {
            if r.contains(n) {
                assert(pre.contains(n));
                let j = choose|j: int| 0 <= j < pre.len() && pre[j] == n;
                assert(keys[j] == keys[keys.len() - 1]);
            }
        }
        assert forall|x: Seq<char>| names_with_base(keys, m, b).contains(x) implies keys.contains(x) by {
            let k = choose|k: int| 0 <= k < names_with_base(keys, m, b).len() && names_with_base(keys, m, b)[k] == x;
            if k < r.len() {
                assert(names_with_base(keys, m, b)[k] == r[k]);
                assert(r.contains(x));
                let j = choose|j: int| 0 <= j < pre.len() && pre[j] == x;
                assert(keys[j] == x);
            } else {
                assert(keys[keys.len() - 1] == x);
            }
        }
        if m.contains_key(n) && has_base(m[n], b) {
            assert forall|i: int, j: int|
                0 <= i < r.push(n).len() && 0 <= j < r.push(n).len() && i != j implies r.push(n)[i] != r.push(n)[j] by {
                if i < r.len() && j < r.len() {
                    assert(r.push(n)[i] == r[i] && r.push(n)[j] == r[j]);
                } else if i < r.len() {
                    assert(r.push(n)[i] == r[i]);
                } else if j < r.len() {
                    assert(r.push(n)[j] == r[j]);
                }
            }
        }
    }
}

impl PkgbaseIndex {
    /// No pkgbase data: the pkgbase rule never fires.
    pub fn empty() -> (idx: PkgbaseIndex)
        ensures
            idx.pkgbase_of@ == Map::<Seq<char>, String>::empty(),
            idx.siblings_of@ == Map::<Seq<char>, Vec<String>>::empty(),
    {
        PkgbaseIndex { pkgbase_of: NameTable::new(), siblings_of: NameTable::new() }
    }

    /// Index a sync-database package map. Packages without a pkgbase are
    /// left out.
    pub fn from_packages(packages: &NameTable<PackageDesc>) -> (idx: PkgbaseIndex)
        ensures
            forall|n: Seq<char>| #[trigger]
                idx.pkgbase_of@.contains_key(n) == (packages@.contains_key(n)
                    && packages@[n].pkgbase is Some),
            forall|n: Seq<char>| #[trigger]
                idx.pkgbase_of@.contains_key(n) ==> Some(idx.pkgbase_of@[n]@) == (
                match packages@[n].pkgbase {
                    Some(b) => Some(b@),
                    None => None,
                }),
            forall|b: Seq<char>| #[trigger]
                list_at(idx.siblings_of, b) == names_with_base(packages.key_seq(), packages@, b),
            forall|b: Seq<char>| #[trigger]
                idx.siblings_of@.contains_key(b) ==> idx.siblings_of@[b]@.len() > 0,
            forall|b: Seq<char>| #[trigger] list_at(idx.siblings_of, b).no_duplicates(),
    {
        let n = packages.len();
        let ghost keys = packages.key_seq();
        let mut pkgbase_of: NameTable<String> = NameTable::new();
        let mut siblings_of: NameTable<Vec<String>> = NameTable::new();
        let mut i: usize = 0;
        while i < n
            invariant
                n == keys.len(),
                keys == packages.key_seq(),
                i <= n,
                forall|a: int, c: int| 0 <= a < c < keys.len() ==> keys[a] != keys[c],
                forall|k: Seq<char>| packages@.contains_key(k) <==> keys.contains(k),
                forall|m: Seq<char>| #[trigger]
                    pkgbase_of@.contains_key(m) == (keys.take(i as int).contains(m)
                        && packages@[m].pkgbase is Some),
                forall|m: Seq<char>| #[trigger]
                    pkgbase_of@.contains_key(m) ==> Some(pkgbase_of@[m]@) == (
                    match packages@[m].pkgbase {
                        Some(b) => Some(b@),
                        None => None,
                    }),
                forall|b: Seq<char>| #[trigger]
                    list_at(siblings_of, b) == names_with_base(keys.take(i as int), packages@, b),
                forall|b: Seq<char>| #[trigger]
                    siblings_of@.contains_key(b) ==> siblings_of@[b]@.len() > 0,
            decreases n - i,
        {
            let name = packages.key_at(i);
            let desc = packages.get(name.as_str()).unwrap();
            let ghost old_pb = pkgbase_of;
            let ghost old_sib = siblings_of;
            proof {
                assert(keys.take(i + 1).drop_last() =~= keys.take(i as int));
                assert(keys.take(i + 1).last() == name@);
                assert(keys.take(i + 1).contains(name@)) by {
                    assert(keys.take(i + 1)[i as int] == name@);
                }
            }
            match &desc.pkgbase {
                Some(base) => {
                    pkgbase_of.insert(name.clone(), base.clone());
                    let mut list: Vec<String> = match siblings_of.get(base.as_str()) {
                        Some(existing) => copy_strings(existing),
                        None => Vec::new(),
                    };
                    let ghost before = views(list@);
                    list.push(name.clone());
                    assert(views(list@) =~= before.push(name@));
                    siblings_of.insert(base.clone(), list);
                },
                None => {},
            }
            proof {
                assert forall|m: Seq<char>| #[trigger]
                    pkgbase_of@.contains_key(m) == (keys.take(i + 1).contains(m)
                        && packages@[m].pkgbase is Some) by {
                    if m != name@ {
                        if keys.take(i + 1).contains(m) {
                            let j = choose|j: int| 0 <= j < i + 1 && #[trigger] keys.take(i + 1)[j] == m;
                            assert(keys.take(i as int)[j] == m);
                        }
                        if keys.take(i as int).contains(m) {
                            let j = choose|j: int| 0 <= j < i && #[trigger] keys.take(i as int)[j] == m;
                            assert(keys.take(i + 1)[j] == m);
                        }
                    }
                }
                assert forall|b: Seq<char>| #[trigger]
                    list_at(siblings_of, b) == names_with_base(keys.take(i + 1), packages@, b) by {
                    assert(list_at(old_sib, b) == names_with_base(keys.take(i as int), packages@, b));
                }
            }
            i += 1;
        }
        proof {
            assert(keys.take(i as int) =~= keys);
            assert(keys.no_duplicates());
            assert forall|b: Seq<char>| #[trigger] list_at(siblings_of, b).no_duplicates() by {
                lemma_names_with_base_distinct(keys, packages@, b);
            }
        }
        PkgbaseIndex { pkgbase_of, siblings_of }
    }
}

pub struct TierManager {
    pins: TierPins,
    group_members: NameTable<Vec<String>>,
    pkgbase_index: PkgbaseIndex,
}

impl TierManager {
    #[verifier::type_invariant]
    spec fn index_matches_groups(self) -> bool {
        forall|k: Seq<char>| #[trigger]
            list_at(self.group_members, k) == group_entry(self.pins.groups@, k)
    }

    pub closed spec fn pins(&self) -> TierPins {
        self.pins
    }

    pub closed spec fn index(&self) -> PkgbaseIndex {
        self.pkgbase_index
    }

    /// A manager for the given pins, with no pkgbase data attached.
    pub fn from_pins(pins: TierPins) -> (tm: TierManager)
        ensures
            tm.pins() == pins,
            tm.index().pkgbase_of@ == Map::<Seq<char>, String>::empty(),
            tm.index().siblings_of@ == Map::<Seq<char>, Vec<String>>::empty(),
    {
        let group_members = build_group_index(&pins.groups);
        TierManager { pins, group_members, pkgbase_index: PkgbaseIndex::empty() }
    }

    /// Attach a pkgbase coupling index.
    pub fn with_pkgbase_index(self, idx: PkgbaseIndex) -> (tm: TierManager)
        ensures
            tm.pins() == self.pins(),
            tm.index() == idx,
    {
        proof {
            use_type_invariant(&self);
        }
        let TierManager { pins, group_members, pkgbase_index: _ } = self;
        TierManager { pins, group_members, pkgbase_index: idx }
    }

    fn classify_direct(&self, p: &String) -> (t: Tier)
        ensures
            t == classify_direct(self.pins(), p@),
    {
        if in_list(&self.pins.tier1, p) {
            return Tier::One;
        }
        if in_list(&self.pins.tier2, p) {
            return Tier::Two;
        }
        if let Some(base) = strip_headers(p) {
            if in_list(&self.pins.tier1, &base) {
                return Tier::One;
            }
        }
        if let Some(base) = strip_lib32(p) {
            if in_list(&self.pins.tier1, &base) {
                return Tier::One;
            }
            if in_list(&self.pins.tier2, &base) {
                return Tier::Two;
            }
            if let Some(inner) = strip_headers(&base) {
                if in_list(&self.pins.tier1, &inner) {
                    return Tier::One;
                }
            }
        }
        Tier::Three
    }

    fn classify_no_groups(&self, p: &String) -> (t: Tier)
        ensures
            t == classify_no_groups(self.pins(), self.index(), p@),
    {
        if in_list(&self.pins.tier1, p) {
            return Tier::One;
        }
        if in_list(&self.pins.tier2, p) {
            return Tier::Two;
        }
        if let Some(base) = strip_headers(p) {
            if in_list(&self.pins.tier1, &base) {
                return Tier::One;
            }
        }
        if let Some(base) = strip_lib32(p) {
            let t = self.classify_direct(&base);
            if t != Tier::Three {
                return t;
            }
        }
        if let Some(pkgbase) = self.pkgbase_index.pkgbase_of.get(p.as_str()) {
            if let Some(siblings) = self.pkgbase_index.siblings_of.get(pkgbase.as_str()) {
                let ghost sibs = views(siblings@);
                let mut highest = Tier::Three;
                let mut i: usize = 0;
                while i < siblings.len()
                    invariant
                        i <= siblings.len(),
                        sibs == views(siblings@),
                        highest == siblings_min(self.pins(), sibs.take(i as int), p@),
                    decreases siblings.len() - i,
                {
                    assert(sibs.take(i + 1).drop_last() =~= sibs.take(i as int));
                    assert(sibs.take(i + 1).last() == siblings@[i as int]@);
                    if siblings[i] != *p {
                        let t = self.classify_direct(&siblings[i]);
                        highest = tier_lower(highest, t);
                    }
                    i += 1;
                }
                assert(sibs.take(i as int) =~= sibs);
                return highest;
            }
        }
        Tier::Three
    }

    /// Classify a package into Tier 1/2/3.
    pub fn classify(&self, package: &str) -> (t: Tier)
        ensures
            t == classify_spec(self.pins(), self.index(), package@),
    {
        proof {
            use_type_invariant(self);
            lemma_group_entry_min(self.pins(), self.index(), self.pins().groups@, package@);
        }
        let p = package.to_owned();
        let t = self.classify_no_groups(&p);
        if t == Tier::One {
            return t;
        }
        match self.group_members.get(package) {
            Some(members) => {
                let ghost ms = views(members@);
                assert(ms == list_at(self.group_members, package@));
                let mut highest = Tier::Three;
                let mut i: usize = 0;
                while i < members.len()
                    invariant
                        i <= members.len(),
                        ms == views(members@),
                        p@ == package@,
                        highest == members_min(self.pins(), self.index(), ms.take(i as int), p@),
                    decreases members.len() - i,
                {
                    assert(ms.take(i + 1).drop_last() =~= ms.take(i as int));
                    assert(ms.take(i + 1).last() == members@[i as int]@);
                    if members[i] != p {
                        let mt = self.classify_no_groups(&members[i]);
                        highest = tier_lower(highest, mt);
                    }
                    i += 1;
                }
                assert(ms.take(i as int) =~= ms);
                tier_lower(t, highest)
            },
            None => {
                assert(list_at(self.group_members, package@) == Seq::<Seq<char>>::empty());
                t
            },
        }
    }

    /// Tier 1 with `manual_signoff = true`: held until promoted by hand.
    pub fn is_manual_signoff(&self, package: &str) -> (b: bool)
        ensures
            b == (classify_spec(self.pins(), self.index(), package@) == Tier::One
                && self.pins().tier1.manual_signoff),
    {
        self.classify(package) == Tier::One && self.pins.tier1.manual_signoff
    }

    /// The explicit Tier 1 package names.
    pub fn tier1_packages(&self) -> (v: Vec<String>)
        ensures
            v@ == match self.pins().tier1.packages {
                Some(list) => list@,
                None => Seq::<String>::empty(),
            },
    {
        match &self.pins.tier1.packages {
            Some(list) => copy_strings(list),
            None => Vec::new(),
        }
    }
}

// ---------------------------------------------------------------------------
// Pinning: rewriting tier-pins.toml text
// ---------------------------------------------------------------------------

/// `"<pkg>"`.
pub open spec fn quoted(pkg: Seq<char>) -> Seq<char> {
    seq!['"'] + pkg + seq!['"']
}

/// A line that lists `pkg` as an array entry, with or without a comma.
pub open spec fn lists_package(line: Seq<char>, pkg: Seq<char>) -> bool {
    trim(line) == quoted(pkg) || trim(line) == quoted(pkg).push(',')
}

/// The lines that do not list `pkg`.
pub open spec fn without_package(ls: Seq<Seq<char>>, pkg: Seq<char>) -> Seq<Seq<char>>
    decreases ls.len(),
{
    if ls.len() == 0 {
        seq![]
    } else {
        let r = without_package(ls.drop_last(), pkg);
        if lists_package(ls.last(), pkg) {
            r
        } else {
            r.push(ls.last())
        }
    }
}

/// Index of the first `packages = [` line at or after the first line whose
/// trimmed text is `section`, scanning from `i`.
pub open spec fn packages_line(ls: Seq<Seq<char>>, section: Seq<char>, i: int, in_section: bool) -> Option<
    int,
>
    decreases ls.len() - i,
{
    if i < 0 || i >= ls.len() {
        None
    } else {
        let now_in = in_section || trim(ls[i]) == section;
        if now_in && starts_with(trim(ls[i]), "packages"@) && ls[i].contains('[') {
            Some(i)
        } else {
            packages_line(ls, section, i + 1, now_in)
        }
    }
}

/// The new `tier-pins.toml` text after pinning `pkg` to `tier`, or the
/// error message: the package is removed from every tier list, then added
/// at the top of the `[tier1]` or `[tier2]` list (Tier 3 needs no entry).
pub open spec fn pin_spec(contents: Seq<char>, pkg: Seq<char>, tier: u8) -> Result<Seq<char>, Seq<char>> {
    let ls = without_package(lines(contents), pkg);
    if tier == 3 {
        Ok(join(ls, "\n"@) + "\n"@)
    } else if tier != 1 && tier != 2 {
        Err("Invalid tier: "@ + decimal(tier as nat) + ". Must be 1, 2, or 3."@)
    } else {
        let section = if tier == 1 {
            "[tier1]"@
        } else {
            "[tier2]"@
        };
        match packages_line(ls, section, 0, false) {
            Some(i) => Ok(join(ls.insert(i + 1, "    "@ + quoted(pkg) + ","@), "\n"@) + "\n"@),
            None => Err("Could not find packages list for tier "@ + decimal(tier as nat)),
        }
    }
}

fn quoted_chars(pkg: &Vec<char>) -> (r: Vec<char>)
    ensures
        r@ == quoted(pkg@),
{
    let mut r: Vec<char> = Vec::new();
    r.push('"');
    push_all(&mut r, pkg);
    r.push('"');
    assert(r@ =~= quoted(pkg@));
    r
}

/// Rewrite the text of `tier-pins.toml` so that `package` is pinned to
/// `tier`. Writing the file is the caller's business.
pub fn pinned_contents(contents: &str, package: &str, tier: u8) -> (r: Result<String, String>)
    ensures
        match r {
            Ok(s) => pin_spec(contents@, package@, tier) == Ok::<Seq<char>, Seq<char>>(s@),
            Err(e) => pin_spec(contents@, package@, tier) == Err::<Seq<char>, Seq<char>>(e@),
        },
{
    let text = chars_of(contents);
    let pkg = chars_of(package);
    let all = lines_of(&text);
    let q = quoted_chars(&pkg);
    let mut qc = quoted_chars(&pkg);
    qc.push(',');
    let ghost src = cviews(all@);
    let mut kept: Vec<Vec<char>> = Vec::new();
    let mut i: usize = 0;
    while i < all.len()
        invariant
            i <= all.len(),
            src == cviews(all@),
            q@ == quoted(pkg@),
            qc@ == quoted(pkg@).push(','),
            pkg@ == package@,
            cviews(kept@) == without_package(src.take(i as int), pkg@),
        decreases all.len() - i,
    {
        assert(src.take(i + 1).drop_last() =~= src.take(i as int));
        assert(src.take(i + 1).last() == all@[i as int]@);
        let t = trim_chars(&all[i]);
        if !(crate::text::same(&t, &q) || crate::text::same(&t, &qc)) {
            let ghost before = cviews(kept@);
            let line = crate::text::slice(&all[i], 0, all[i].len());
            assert(line@ =~= all@[i as int]@);
            kept.push(line);
            assert(cviews(kept@) =~= before.push(all@[i as int]@));
        }
        i += 1;
    }
    assert(src.take(i as int) =~= src);
    let ghost ls = cviews(kept@);
    assert(ls == without_package(lines(contents@), package@));
    if tier == 3 {
        let mut out = join_chars(&kept, "\n");
        push_str(&mut out, "\n");
        return Ok(string_of(&out));
    }
    if tier != 1 && tier != 2 {
        let mut msg: Vec<char> = Vec::new();
        push_str(&mut msg, "Invalid tier: ");
        let digits = decimal_chars(tier as u64);
        push_all(&mut msg, &digits);
        push_str(&mut msg, ". Must be 1, 2, or 3.");
        return Err(string_of(&msg));
    }
    let section = if tier == 1 {
        chars_of("[tier1]")
    } else {
        chars_of("[tier2]")
    };
    let mut in_section = false;
    let mut j: usize = 0;
    while j < kept.len()
        invariant
            j <= kept.len(),
            ls == cviews(kept@),
            ls == without_package(lines(contents@), package@),
            packages_line(ls, section@, 0, false) == packages_line(ls, section@, j as int, in_section),
            section@ == if tier == 1 {
                "[tier1]"@
            } else {
                "[tier2]"@
            },
            (tier == 1 || tier == 2),
            q@ == quoted(pkg@),
            pkg@ == package@,
        decreases kept.len() - j,
    {
        let t = trim_chars(&kept[j]);
        assert(t@ == trim(ls[j as int]));
        let ghost was_in = in_section;
        if crate::text::same(&t, &section) {
            in_section = true;
        }
        if in_section && starts_with_str(&t, "packages") && contains_char(&kept[j], '[') {
            let mut entry: Vec<char> = Vec::new();
            push_str(&mut entry, "    ");
            push_all(&mut entry, &q);
            push_str(&mut entry, ",");
            let ghost e = entry@;
            assert(e =~= "    "@ + quoted(package@) + ","@);
            assert(packages_line(ls, section@, j as int, was_in) == Some(j as int));
            kept.insert(j + 1, entry);
            assert(cviews(kept@) =~= ls.insert(j + 1, e));
            let mut out = join_chars(&kept, "\n");
            push_str(&mut out, "\n");
            assert(ls == without_package(lines(contents@), package@));
            assert(packages_line(ls, section@, 0, false) == Some(j as int));
            assert(out@ == join(ls.insert(j + 1, "    "@ + quoted(package@) + ","@), "\n"@) + "\n"@);
            return Ok(string_of(&out));
        }
        j += 1;
    }
    let mut msg: Vec<char> = Vec::new();
    push_str(&mut msg, "Could not find packages list for tier ");
    let digits = decimal_chars(tier as u64);
    push_all(&mut msg, &digits);
    Err(string_of(&msg))
}

// ---------------------------------------------------------------------------
// Laws of pinning
// ---------------------------------------------------------------------------

/// The lines of a text hold no line break.
proof fn lemma_lines_hold_no_break(s: Seq<char>)
    ensures
        forall|i: int| 0 <= i < lines(s).len() ==> !(#[trigger] lines(s)[i]).contains('\n'),
{
    crate::text::lemma_join_split(s, '\n', '\n');
    crate::text::lemma_split_nonempty(s, '\n');
    let p = split(s, '\n');
    let ls = lines(s);
    assert forall|i: int| 0 <= i < ls.len() implies !(#[trigger] ls[i]).contains('\n') by {
        assert(!p[i].contains('\n'));
        if ls[i].contains('\n') {
            let k = choose|k: int| 0 <= k < ls[i].len() && ls[i][k] == '\n';
            if i < p.len() - 1 {
                assert(ls[i] == crate::text::strip_cr(p[i]));
                assert(p[i][k] == '\n');
            } else {
                assert(ls[i] == p.last());
                assert(p[p.len() - 1][k] == '\n');
            }
        }
    }
}

/// Dropping the lines that list `pkg` leaves no line whose trimmed text is
/// `"pkg"` or `"pkg",`, and brings in no line break.
proof fn lemma_without_package_entries(ls: Seq<Seq<char>>, pkg: Seq<char>)
    ensures
        forall|i: int|
            0 <= i < without_package(ls, pkg).len() ==> {
                let l = trim(#[trigger] without_package(ls, pkg)[i]);
                l != seq!['"'] + pkg + seq!['"'] && l != seq!['"'] + pkg + seq!['"', ',']
            },
        (forall|j: int| 0 <= j < ls.len() ==> !(#[trigger] ls[j]).contains('\n')) ==> forall|i: int|
            0 <= i < without_package(ls, pkg).len() ==> !(#[trigger] without_package(ls, pkg)[i]).contains(
                '\n',
            ),
    decreases ls.len(),
{
    if ls.len() > 0 {
        let pre = ls.drop_last();
        lemma_without_package_entries(pre, pkg);
        let w = without_package(ls, pkg);
        let r = without_package(pre, pkg);
        assert(quoted(pkg).push(',') =~= seq!['"'] + pkg + seq!['"', ',']);
        assert(quoted(pkg) =~= seq!['"'] + pkg + seq!['"']);
        assert forall|i: int| 0 <= i < w.len() implies {
            let l = trim(#[trigger] w[i]);
            l != seq!['"'] + pkg + seq!['"'] && l != seq!['"'] + pkg + seq!['"', ',']
        } by {
            if i < r.len() {
                assert(w[i] == r[i]);
            }
        }
        if forall|j: int| 0 <= j < ls.len() ==> !(#[trigger] ls[j]).contains('\n') {
            assert forall|j: int| 0 <= j < pre.len() implies !(#[trigger] pre[j]).contains('\n') by {
                assert(pre[j] == ls[j]);
            }
            assert forall|i: int| 0 <= i < w.len() implies !(#[trigger] w[i]).contains('\n') by {
                if i < r.len() {
                    assert(w[i] == r[i]);
                } else {
                    assert(w[i] == ls[ls.len() - 1]);
                }
            }
        }
    }
}

/// A `packages = [` line found from `j` on lies at or after `j` and inside
/// the lines.
proof fn lemma_packages_line_in_range(ls: Seq<Seq<char>>, section: Seq<char>, j: int, in_section: bool)
    ensures
        packages_line(ls, section, j, in_section) matches Some(i) ==> j <= i < ls.len(),
    decreases ls.len() - j,
{
    if 0 <= j < ls.len() {
        lemma_packages_line_in_range(ls, section, j + 1, in_section || trim(ls[j]) == section);
    }
}

/// Lines without breaks, joined and ended with a break, split back into the
/// same lines and an empty tail.
proof fn lemma_split_ended_join(xs: Seq<Seq<char>>)
    requires
        xs.len() > 0,
        forall|i: int| 0 <= i < xs.len() ==> !(#[trigger] xs[i]).contains('\n'),
    ensures
        split(join(xs, "\n"@) + "\n"@, '\n') == xs.push(Seq::<char>::empty()),
{
    reveal_strlit("\n");
    assert("\n"@ =~= seq!['\n']);
    crate::text::lemma_split_join(xs, '\n');
    let a = join(xs, seq!['\n']) + seq!['\n'];
    assert(a.drop_last() =~= join(xs, seq!['\n']));
    assert(a.last() == '\n');
}

/// After a pin, the only line of the new text that lists `pkg` (`"pkg"` or
/// `"pkg",` once trimmed) is the one entry added to the `[tier1]` or
/// `[tier2]` list; after a Tier 3 pin no line lists it, so no tier list
/// holds it any more.
pub proof fn lemma_pin_leaves_one_entry(contents: Seq<char>, pkg: Seq<char>, tier: u8, t: Seq<char>)
    requires
        pin_spec(contents, pkg, tier) == Ok::<Seq<char>, Seq<char>>(t),
        !pkg.contains('\n'),
    ensures
        tier == 3 ==> forall|k: int|
            0 <= k < split(t, '\n').len() ==> {
                let l = trim(#[trigger] split(t, '\n')[k]);
                l != seq!['"'] + pkg + seq!['"'] && l != seq!['"'] + pkg + seq!['"', ',']
            },
        tier != 3 ==> exists|e: int|
            0 <= e < split(t, '\n').len() && #[trigger] split(t, '\n')[e] == "    "@ + seq!['"'] + pkg
                + seq!['"', ','] && forall|k: int|
                0 <= k < split(t, '\n').len() && k != e ==> {
                    let l = trim(#[trigger] split(t, '\n')[k]);
                    l != seq!['"'] + pkg + seq!['"'] && l != seq!['"'] + pkg + seq!['"', ',']
                },
{
    let src = lines(contents);
    let ls = without_package(src, pkg);
    lemma_lines_hold_no_break(contents);
    lemma_without_package_entries(src, pkg);
    reveal_strlit("\n");
    assert(trim(Seq::<char>::empty()) =~= Seq::<char>::empty());
    if tier == 3 {
        assert(t == join(ls, "\n"@) + "\n"@);
        if ls.len() == 0 {
            assert(join(ls, "\n"@) =~= Seq::<char>::empty());
            assert(t =~= seq!['\n']);
            assert(t.drop_last() =~= Seq::<char>::empty());
            assert(split(Seq::<char>::empty(), '\n') == seq![Seq::<char>::empty()]);
            assert(t.last() == '\n');
            assert(split(t, '\n') == split(t.drop_last(), '\n').push(Seq::<char>::empty()));
            assert(split(t, '\n') =~= seq![Seq::<char>::empty(), Seq::<char>::empty()]);
        } else {
            lemma_split_ended_join(ls);
            let sp = split(t, '\n');
            assert forall|k: int| 0 <= k < sp.len() implies {
                let l = trim(#[trigger] sp[k]);
                l != seq!['"'] + pkg + seq!['"'] && l != seq!['"'] + pkg + seq!['"', ',']
            } by {
                if k < ls.len() {
                    assert(sp[k] == ls[k]);
                }
            }
        }
    } else {
        let section = if tier == 1 {
            "[tier1]"@
        } else {
            "[tier2]"@
        };
        let i = packages_line(ls, section, 0, false)->0;
        lemma_packages_line_in_range(ls, section, 0, false);
        reveal_strlit("    ");
        reveal_strlit(",");
        let entry = "    "@ + seq!['"'] + pkg + seq!['"', ','];
        assert("    "@ + quoted(pkg) + ","@ =~= entry);
        let xs = ls.insert(i + 1, entry);
        assert(t == join(xs, "\n"@) + "\n"@);
        assert(!entry.contains('\n')) by {
            if entry.contains('\n') {
                let k = choose|k: int| 0 <= k < entry.len() && entry[k] == '\n';
                if 5 <= k < 5 + pkg.len() {
                    assert(entry[k] == pkg[k - 5]);
                }
            }
        }
        assert forall|k: int| 0 <= k < xs.len() implies !(#[trigger] xs[k]).contains('\n') by {
            if k <= i {
                assert(xs[k] == ls[k]);
            } else if k > i + 1 {
                assert(xs[k] == ls[k - 1]);
            }
        }
        lemma_split_ended_join(xs);
        let sp = split(t, '\n');
        assert(sp[i + 1] == entry);
        assert forall|k: int| 0 <= k < sp.len() && k != i + 1 implies {
            let l = trim(#[trigger] sp[k]);
            l != seq!['"'] + pkg + seq!['"'] && l != seq!['"'] + pkg + seq!['"', ',']
        } by {
            if k <= i {
                assert(sp[k] == ls[k]);
            } else if k < xs.len() {
                assert(sp[k] == ls[k - 1]);
            }
        }
    }
}

// ---------------------------------------------------------------------------
// Laws of classification
// ---------------------------------------------------------------------------

/// A `<X>-headers` package of a Tier 1 kernel `<X>` is Tier 1, unless it is
/// itself pinned to Tier 2.
pub proof fn lemma_headers_follow_kernel(pins: TierPins, idx: PkgbaseIndex, p: Seq<char>)
    requires
        ends_with(p, "-headers"@),
        listed(pins.tier1, headers_base(p)),
        !listed(pins.tier2, p),
    ensures
        classify_spec(pins, idx, p) == Tier::One,
{
}

/// `lib32-<X>` is at least as strict as `<X>` when `<X>` is Tier 1 or 2,
/// unless it is itself pinned; without a `[groups]` entry it takes exactly
/// that tier.
pub proof fn lemma_lib32_follows_base(pins: TierPins, idx: PkgbaseIndex, p: Seq<char>)
    requires
        starts_with(p, "lib32-"@),
        classify_direct(pins, lib32_base(p)) != Tier::Three,
        !listed(pins.tier1, p),
        !listed(pins.tier2, p),
        !(ends_with(p, "-headers"@) && listed(pins.tier1, headers_base(p))),
    ensures
        classify_no_groups(pins, idx, p) == classify_direct(pins, lib32_base(p)),
        tier_rank(classify_spec(pins, idx, p)) <= tier_rank(classify_direct(pins, lib32_base(p))),
{
}

proof fn lemma_members_min_le(pins: TierPins, idx: PkgbaseIndex, ms: Seq<Seq<char>>, p: Seq<char>, m: Seq<char>)
    requires
        ms.contains(m),
        m != p,
    ensures
        tier_rank(members_min(pins, idx, ms, p)) <= tier_rank(classify_no_groups(pins, idx, m)),
    decreases ms.len(),
{
    let pre = ms.drop_last();
    if ms.last() != m {
        let j = choose|j: int| 0 <= j < ms.len() && ms[j] == m;
        assert(j < ms.len() - 1);
        assert(pre[j] == m);
        lemma_members_min_le(pins, idx, pre, p, m);
    }
}

proof fn lemma_group_tier_le(
    pins: TierPins,
    idx: PkgbaseIndex,
    groups: Seq<(String, Vec<String>)>,
    p: Seq<char>,
    gi: int,
    m: Seq<char>,
)
    requires
        0 <= gi < groups.len(),
        views(groups[gi].1@).contains(p),
        views(groups[gi].1@).contains(m),
        m != p,
    ensures
        tier_rank(group_tier(pins, idx, groups, p)) <= tier_rank(classify_no_groups(pins, idx, m)),
    decreases groups.len(),
{
    if gi == groups.len() - 1 {
        lemma_members_min_le(pins, idx, views(groups.last().1@), p, m);
    } else {
        assert(groups.drop_last()[gi] == groups[gi]);
        lemma_group_tier_le(pins, idx, groups.drop_last(), p, gi, m);
    }
}

/// Every member of a `[groups]` entry has a tier at least as strict as
/// that of every other member of the group, whatever its own pin.
pub proof fn lemma_group_inherits_strictest(pins: TierPins, idx: PkgbaseIndex, p: Seq<char>, gi: int, m: Seq<char>)
    requires
        0 <= gi < pins.groups@.len(),
        views(pins.groups@[gi].1@).contains(p),
        views(pins.groups@[gi].1@).contains(m),
        m != p,
    ensures
        tier_rank(classify_spec(pins, idx, p)) <= tier_rank(classify_no_groups(pins, idx, m)),
{
    lemma_group_tier_le(pins, idx, pins.groups@, p, gi, m);
}

} // verus!
