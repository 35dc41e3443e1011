use nog::sync_db::PackageDesc;
use nog::table::NameTable;
use nog::tiers::{pinned_contents, PkgbaseIndex, Tier, TierConfig, TierManager, TierPins};

fn config(packages: Option<&[&str]>) -> TierConfig {
    TierConfig {
        manual_signoff: false,
        packages: packages.map(|p| p.iter().map(|s| s.to_string()).collect()),
    }
}

/// The pins of a tier-pins file with the given `[tier1]` and `[tier2]`
/// package lists and `[groups]` entries; `[tier3]` lists nothing.
fn pins(tier1: &[&str], tier2: &[&str], groups: &[(&str, &[&str])]) -> TierPins {
    TierPins {
        tier1: config(Some(tier1)),
        tier2: config(Some(tier2)),
        tier3: config(None),
        groups: groups
            .iter()
            .map(|(g, ms)| (g.to_string(), ms.iter().map(|s| s.to_string()).collect()))
            .collect(),
    }
}

/// `[tier1]` linux, linux-zen, linux-lts, glibc, systemd, mesa;
/// `[tier2]` firefox, plasma-desktop, pipewire, pipewire-pulse.
fn base_pins() -> TierPins {
    pins(
        &["linux", "linux-zen", "linux-lts", "glibc", "systemd", "mesa"],
        &["firefox", "plasma-desktop", "pipewire", "pipewire-pulse"],
        &[],
    )
}

fn make_manager(pins: TierPins) -> TierManager {
    TierManager::from_pins(pins)
}

fn make_manager_with_pkgbases(pins: TierPins, pkgbases: &[(&str, &str)]) -> TierManager {
    let mut pkgs: NameTable<PackageDesc> = NameTable::new();
    for (name, base) in pkgbases {
        pkgs.insert(name.to_string(), PackageDesc {
            builddate: 0,
            pkgbase: Some(base.to_string()),
            version: None,
            provides: Vec::new(),
        });
    }
    let idx = PkgbaseIndex::from_packages(&pkgs);
    TierManager::from_pins(pins).with_pkgbase_index(idx)
}

// ── v1.0.3 baseline behavior preserved ──────────────────────────────────

#[test]
fn direct_tier_lookup_unchanged() {
    let tm = make_manager(base_pins());
    assert_eq!(tm.classify("linux"), Tier::One);
    assert_eq!(tm.classify("firefox"), Tier::Two);
    assert_eq!(tm.classify("htop"), Tier::Three);
}

#[test]
fn headers_auto_couple_to_tier1_kernel() {
    let tm = make_manager(base_pins());
    assert_eq!(tm.classify("linux-headers"), Tier::One);
    assert_eq!(tm.classify("linux-zen-headers"), Tier::One);
    assert_eq!(tm.classify("linux-lts-headers"), Tier::One);
}

#[test]
fn headers_for_non_tier1_falls_through() {
    let tm = make_manager(base_pins());
    assert_eq!(tm.classify("firefox-headers"), Tier::Three);
    assert_eq!(tm.classify("htop-headers"), Tier::Three);
}

#[test]
fn unrelated_headers_pattern_is_tier3() {
    let tm = make_manager(base_pins());
    assert_eq!(tm.classify("ghost-headers"), Tier::Three);
}

#[test]
fn group_inherits_highest_tier_among_members() {
    let tm = make_manager(pins(
        &["linux-cachyos"],
        &[],
        &[("cachyos-bundle", &["linux-cachyos", "linux-cachyos-cacule-headers", "cachyos-tools"])],
    ));
    assert_eq!(tm.classify("linux-cachyos"), Tier::One);
    assert_eq!(tm.classify("linux-cachyos-cacule-headers"), Tier::One);
    assert_eq!(tm.classify("cachyos-tools"), Tier::One);
}

#[test]
fn group_with_no_tier1_member_stays_tier3() {
    let tm = make_manager(pins(
        &[],
        &["firefox"],
        &[("browser-bundle", &["firefox", "firefox-extension-mailvelope"])],
    ));
    assert_eq!(tm.classify("firefox"), Tier::Two);
    assert_eq!(tm.classify("firefox-extension-mailvelope"), Tier::Two);
}

#[test]
fn empty_groups_table_is_fine() {
    let tm = make_manager(base_pins());
    assert_eq!(tm.classify("linux"), Tier::One);
}

#[test]
fn tier1_packages_exposes_the_explicit_list() {
    let tm = make_manager(base_pins());
    let names = tm.tier1_packages();
    assert!(names.contains(&"linux".to_string()));
    assert!(names.contains(&"glibc".to_string()));
    assert!(names.contains(&"mesa".to_string()));
    assert_eq!(names.len(), 6);
}

// ── v1.0.4 Layer B — lib32- prefix auto-coupling ───────────────────────

#[test]
fn lib32_inherits_tier1_when_base_is_tier1() {
    // mesa is Tier 1; lib32-mesa should bucket as Tier 1.
    // This covers the multilib lockstep case where the lib32- PKGBUILD is
    // separate (different pkgbase) but Arch ships them version-pinned.
    let tm = make_manager(base_pins());
    assert_eq!(tm.classify("lib32-mesa"), Tier::One);
}

#[test]
fn lib32_inherits_tier2_when_base_is_tier2() {
    let tm = make_manager(base_pins());
    assert_eq!(tm.classify("lib32-firefox"), Tier::Two);
}

#[test]
fn lib32_of_tier3_stays_tier3() {
    let tm = make_manager(base_pins());
    assert_eq!(tm.classify("lib32-htop"), Tier::Three);
}

#[test]
fn lib32_of_headers_inherits_via_inner_pattern() {
    // lib32-linux-headers → strip lib32- → "linux-headers" → strip -headers →
    // "linux" is Tier 1 → Tier 1. (Hypothetical chain — Arch doesn't ship
    // lib32 kernel headers, but the rule composes correctly.)
    let tm = make_manager(base_pins());
    assert_eq!(tm.classify("lib32-linux-headers"), Tier::One);
}

// ── v1.0.4 Layer A — pkgbase sibling coupling ─────────────────────────

#[test]
fn pkgbase_sibling_inherits_tier2_from_base() {
    // The bug that surfaced 2026-05-25: pipewire family. `pipewire` is
    // Tier 2; siblings (libpipewire, pipewire-audio, etc.) share
    // pkgbase=pipewire and should bucket with pipewire.
    let pkgbases = [
        ("pipewire",          "pipewire"),
        ("pipewire-pulse",    "pipewire"),
        ("pipewire-jack",     "pipewire"),
        ("pipewire-audio",    "pipewire"),
        ("pipewire-alsa",     "pipewire"),
        ("libpipewire",       "pipewire"),
        ("gst-plugin-pipewire", "pipewire"),
        ("alsa-card-profiles", "pipewire"),
    ];
    let tm = make_manager_with_pkgbases(base_pins(), &pkgbases);
    // pipewire / pipewire-pulse — direct lookup, already Tier 2.
    assert_eq!(tm.classify("pipewire"), Tier::Two);
    assert_eq!(tm.classify("pipewire-pulse"), Tier::Two);
    // The split-PKGBUILD siblings — Tier 2 via pkgbase coupling.
    assert_eq!(tm.classify("libpipewire"), Tier::Two);
    assert_eq!(tm.classify("pipewire-audio"), Tier::Two);
    assert_eq!(tm.classify("pipewire-alsa"), Tier::Two);
    assert_eq!(tm.classify("pipewire-jack"), Tier::Two);
    assert_eq!(tm.classify("gst-plugin-pipewire"), Tier::Two);
    assert_eq!(tm.classify("alsa-card-profiles"), Tier::Two);
}

#[test]
fn pkgbase_sibling_with_no_tier_pinned_member_stays_tier3() {
    // None of the siblings is in any tier — group classification stays
    // at default Tier 3. (Coupling only kicks in when at least one sibling
    // is explicitly pinned.)
    let pkgbases = [
        ("foo",     "foo"),
        ("foo-doc", "foo"),
    ];
    let tm = make_manager_with_pkgbases(base_pins(), &pkgbases);
    assert_eq!(tm.classify("foo-doc"), Tier::Three);
}

#[test]
fn empty_pkgbase_index_falls_through_to_tier3() {
    // No pkgbase data attached (the default) — pkgbase rule never fires,
    // classification reduces to v1.0.3 behavior.
    let tm = make_manager(base_pins());
    assert_eq!(tm.classify("libpipewire"), Tier::Three);
    assert_eq!(tm.classify("pipewire-audio"), Tier::Three);
}

// ── v1.0.4 Layer A + B compose — lib32 of a pkgbase-coupled package ───

#[test]
fn lib32_of_pkgbase_sibling_resolves_via_own_multilib_pkgbase() {
    // lib32-libpipewire (multilib build) has its own pkgbase = lib32-pipewire,
    // which produces lib32-pipewire (main) and lib32-libpipewire as siblings.
    // Coupling: lib32-libpipewire's sibling is lib32-pipewire; lib32-pipewire
    // is classified Tier 2 via Layer B (lib32- prefix → pipewire → Tier 2).
    // So lib32-libpipewire transitively gets Tier 2.
    let pkgbases = [
        ("pipewire",          "pipewire"),
        ("pipewire-pulse",    "pipewire"),
        ("libpipewire",       "pipewire"),
        ("lib32-pipewire",    "lib32-pipewire"),
        ("lib32-libpipewire", "lib32-pipewire"),
    ];
    let tm = make_manager_with_pkgbases(base_pins(), &pkgbases);
    // The multilib base: lib32-pipewire → strip lib32- → pipewire → Tier 2.
    assert_eq!(tm.classify("lib32-pipewire"), Tier::Two);
    // The interesting case: lib32-libpipewire couples to its lib32-pipewire
    // sibling via pkgbase, which itself classifies Tier 2 via the lib32 rule.
    assert_eq!(tm.classify("lib32-libpipewire"), Tier::Two);
}


const PINS: &str = "\
[tier1]
manual_signoff = false
packages = [
    \"linux\",
    \"glibc\",
]

[tier2]
packages = [
    \"firefox\",
]

[tier3]
";

#[test]
fn pinning_to_tier1_moves_the_package_to_the_top_of_its_list() {
    let got = pinned_contents(PINS, "firefox", 1).expect("pins");
    assert_eq!(
        got,
        "[tier1]\nmanual_signoff = false\npackages = [\n    \"firefox\",\n    \"linux\",\n    \"glibc\",\n]\n\n\
         [tier2]\npackages = [\n]\n\n[tier3]\n"
    );
}

#[test]
fn pinning_to_tier3_only_removes_the_package() {
    let got = pinned_contents(PINS, "glibc", 3).expect("pins");
    assert!(!got.contains("glibc"));
    assert!(got.contains("    \"linux\",\n]"));
    assert!(got.ends_with("[tier3]\n"));
}

#[test]
fn pinning_errors() {
    assert_eq!(pinned_contents(PINS, "htop", 4), Err("Invalid tier: 4. Must be 1, 2, or 3.".to_string()));
    assert_eq!(
        pinned_contents("[tier1]\npackages = [\n]\n", "htop", 2),
        Err("Could not find packages list for tier 2".to_string())
    );
}

#[test]
fn manual_signoff_applies_to_tier1_only() {
    let mut p = base_pins();
    p.tier1.manual_signoff = true;
    let tm = make_manager(p);
    assert!(tm.is_manual_signoff("linux"));
    assert!(tm.is_manual_signoff("linux-headers"));
    assert!(!tm.is_manual_signoff("firefox"));
    assert!(!make_manager(base_pins()).is_manual_signoff("linux"));
}

#[test]
fn tier_ranks_labels_and_tier1_list() {
    assert_eq!((Tier::One.rank(), Tier::Two.rank(), Tier::Three.rank()), (1, 2, 3));
    assert_eq!(Tier::Two.label(), "Tier 2");
    let tm = make_manager(base_pins());
    assert_eq!(tm.tier1_packages(), vec!["linux", "linux-zen", "linux-lts", "glibc", "systemd", "mesa"]);
}

#[test]
fn a_group_member_takes_the_groups_highest_tier_over_its_own_pin() {
    let tm = make_manager(pins(&["linux"], &["firefox"], &[("g", &["linux", "firefox"])]));
    assert_eq!(tm.classify("firefox"), Tier::One);
    assert_eq!(tm.classify("linux"), Tier::One);
    let tm = make_manager(pins(&[], &["firefox"], &[("g", &["htop", "firefox"])]));
    assert_eq!(tm.classify("htop"), Tier::Two);
    assert_eq!(tm.classify("firefox"), Tier::Two);
}

#[test]
fn every_pkgbase_listed_has_its_siblings() {
    let mut pkgs: NameTable<PackageDesc> = NameTable::new();
    for (name, base) in [("libelf", Some("elfutils")), ("elfutils", Some("elfutils")), ("loose", None)] {
        pkgs.insert(name.to_string(), PackageDesc {
            builddate: 0,
            pkgbase: base.map(|b| b.to_string()),
            version: None,
            provides: Vec::new(),
        });
    }
    let idx = PkgbaseIndex::from_packages(&pkgs);
    assert_eq!(idx.siblings_of.len(), 1);
    assert_eq!(idx.siblings_of.get("elfutils"), Some(&vec!["libelf".to_string(), "elfutils".to_string()]));
    assert_eq!(idx.pkgbase_of.get("loose"), None);
}
