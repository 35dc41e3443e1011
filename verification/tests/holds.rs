use std::collections::HashSet;
use std::time::{Duration, SystemTime, UNIX_EPOCH};

use nog::config::HoldsConfig;
use nog::holds::{
    coupling_demotions, cohort_coupling_demotions, evaluate, evaluate_candidate, foreign_fence,
    is_soname, lib32_coupling_demotions, pkgbase_coupling_demotions, pkgver, settle_coupling,
    soname_coupling_demotions, CouplingPkg, HoldStatus, SonameData, SECONDS_PER_DAY,
};
use nog::sync_db::PackageDesc;
use nog::table::NameTable;
use nog::tiers::Tier;

fn holds_default() -> HoldsConfig {
    HoldsConfig {
        tier1_days: 30,
        tier2_days: 15,
        tier3_days: 7,
    }
}

fn at_days_after_epoch(days: u64) -> SystemTime {
    UNIX_EPOCH + Duration::from_secs(days * SECONDS_PER_DAY)
}

fn pkg_map(name: &str, builddate: u64, version: Option<&str>) -> NameTable<PackageDesc> {
    let mut m = NameTable::new();
    m.insert(name.to_string(), PackageDesc {
        builddate,
        pkgbase: None,
        version: version.map(|v| v.to_string()),
        provides: Vec::new(),
    });
    m
}

fn owned(names: &[&str]) -> Vec<String> {
    names.iter().map(|s| s.to_string()).collect()
}

/// Terse constructor: `pkg("qt6-base", "6.11.1-1", "6.11.2-2", None, 1)`.
fn pkg(
    name: &str,
    old: &str,
    new: &str,
    base: Option<&str>,
    remaining: u64,
) -> CouplingPkg {
    CouplingPkg {
        name: name.to_string(),
        old_version: old.to_string(),
        new_version: new.to_string(),
        pkgbase: base.map(str::to_string),
        remaining,
    }
}

fn demoted_names(mut d: Vec<(String, String)>) -> Vec<String> {
    d.sort();
    d.into_iter().map(|(n, _)| n).collect()
}

fn sd(
    installed: &[(&str, &[&str], &[&str])],
    new: &[(&str, &[&str])],
) -> SonameData {
    let mut d = SonameData::default();
    for (n, prov, deps) in installed {
        d.installed_provides.insert(
            n.to_string(),
            prov.iter().map(|s| s.to_string()).collect(),
        );
        d.installed_depends.insert(
            n.to_string(),
            deps.iter().map(|s| s.to_string()).collect(),
        );
    }
    for (n, prov) in new {
        d.new_provides.insert(
            n.to_string(),
            prov.iter().map(|s| s.to_string()).collect(),
        );
    }
    d
}

#[test]
fn unknown_when_package_not_in_build_dates() {
    let dates: NameTable<u64> = NameTable::new();
    let got = evaluate(
        "ghost",
        Tier::Three,
        &dates,
        &holds_default(),
        at_days_after_epoch(100),
    );
    assert_eq!(got, HoldStatus::Unknown);
}

#[test]
fn expired_when_elapsed_exceeds_window() {
    // Built at day 0, checked at day 20, Tier 3 window = 7 days.
    // Elapsed 20d, past window by 13d.
    let mut dates = NameTable::new();
    dates.insert("firefox".to_string(), 0);
    let got = evaluate(
        "firefox",
        Tier::Three,
        &dates,
        &holds_default(),
        at_days_after_epoch(20),
    );
    assert_eq!(got, HoldStatus::Expired { days_past_window: 13 });
}

#[test]
fn holding_when_within_window() {
    // Built at day 10, checked at day 12, Tier 1 window = 30 days.
    // Elapsed 2d, remaining 28d.
    let mut dates = NameTable::new();
    dates.insert("linux".to_string(), 10 * SECONDS_PER_DAY);
    let got = evaluate(
        "linux",
        Tier::One,
        &dates,
        &holds_default(),
        at_days_after_epoch(12),
    );
    assert_eq!(got, HoldStatus::Holding { days_remaining: 28 });
}

#[test]
fn partial_day_rounds_up_per_spec() {
    // Built at t=0, checked at t = 4.2 days. Spec: 4.x -> 5 elapsed days.
    // Tier 2 window = 15. Remaining should be 15 - 5 = 10.
    let mut dates = NameTable::new();
    dates.insert("plasma-desktop".to_string(), 0);

    // 4.2 days = 362880 seconds
    let now = UNIX_EPOCH + Duration::from_secs(362_880);
    let got = evaluate(
        "plasma-desktop",
        Tier::Two,
        &dates,
        &holds_default(),
        now,
    );
    assert_eq!(got, HoldStatus::Holding { days_remaining: 10 });
}

#[test]
fn boundary_exactly_one_window_is_expired_not_holding() {
    // Built at day 0, checked at exactly day 7, Tier 3 window = 7.
    // elapsed_days (7) >= window_days (7) -> Expired with 0 past window.
    let mut dates = NameTable::new();
    dates.insert("htop".to_string(), 0);
    let got = evaluate(
        "htop",
        Tier::Three,
        &dates,
        &holds_default(),
        at_days_after_epoch(7),
    );
    assert_eq!(got, HoldStatus::Expired { days_past_window: 0 });
}

#[test]
fn built_in_the_future_treated_as_zero_elapsed() {
    // Package claims build at day 20, we check at day 10. Clock skew or
    // a mirror serving future-dated metadata. Should behave as day 0 elapsed.
    let mut dates = NameTable::new();
    dates.insert("weird".to_string(), 20 * SECONDS_PER_DAY);
    let got = evaluate(
        "weird",
        Tier::One,
        &dates,
        &holds_default(),
        at_days_after_epoch(10),
    );
    // Elapsed = 0, Tier 1 window = 30, remaining = 30.
    assert_eq!(got, HoldStatus::Holding { days_remaining: 30 });
}

// --- evaluate_candidate: the v1.0.5 version guard ---


#[test]
fn candidate_version_mismatch_returns_unknown() {
    // The 2026-07-06 failure shape: the DB entry is the PREDECESSOR
    // (1.1.0-1, built ~day 0 = ancient) but the pending candidate is
    // 1.2.0-2. Old behavior: Expired by ~968 days -> installed with zero
    // hold. Guarded behavior: Unknown -> per-package prompt.
    let pkgs = pkg_map("lib32-brotli", 0, Some("1.1.0-1"));
    let got = evaluate_candidate(
        "lib32-brotli",
        Tier::Three,
        "1.2.0-2",
        &pkgs,
        &holds_default(),
        at_days_after_epoch(975),
    );
    assert_eq!(got, HoldStatus::Unknown);
}

#[test]
fn candidate_version_match_evaluates_normally() {
    // Fresh DB entry IS the candidate: built at day 20, checked at day
    // 21, Tier 3 window = 7 -> Holding with 6 remaining. This is what a
    // 1-day-old package should look like.
    let pkgs = pkg_map("lib32-brotli", 20 * SECONDS_PER_DAY, Some("1.2.0-2"));
    let got = evaluate_candidate(
        "lib32-brotli",
        Tier::Three,
        "1.2.0-2",
        &pkgs,
        &holds_default(),
        at_days_after_epoch(21),
    );
    assert_eq!(got, HoldStatus::Holding { days_remaining: 6 });
}

#[test]
fn candidate_without_db_version_skips_guard() {
    // AUR helper dates carry no version — evaluate on build date alone,
    // exactly as pre-v1.0.5. Built day 0, checked day 20, Tier 3 window 7
    // -> Expired 13 past.
    let pkgs = pkg_map("fresh-editor-bin", 0, None);
    let got = evaluate_candidate(
        "fresh-editor-bin",
        Tier::Three,
        "0.4.3-1",
        &pkgs,
        &holds_default(),
        at_days_after_epoch(20),
    );
    assert_eq!(got, HoldStatus::Expired { days_past_window: 13 });
}

#[test]
fn candidate_missing_from_map_is_unknown() {
    let pkgs: NameTable<PackageDesc> = NameTable::new();
    let got = evaluate_candidate(
        "ghost",
        Tier::Three,
        "1.0-1",
        &pkgs,
        &holds_default(),
        at_days_after_epoch(10),
    );
    assert_eq!(got, HoldStatus::Unknown);
}

// --- v1.0.6 lib32/base hold coupling (issue #1) ---


#[test]
fn couples_lib32_ready_to_held_base() {
    // The reported nvidia case: lib32-nvidia-utils is Ready, nvidia-utils
    // is Held. The shim must be demoted and coupled to its base.
    let ready = owned(&["lib32-nvidia-utils", "poppler"]);
    let held = owned(&["nvidia-utils"]);
    let got = lib32_coupling_demotions(&ready, &held);
    assert_eq!(
        got,
        vec![("lib32-nvidia-utils".to_string(), "nvidia-utils".to_string())]
    );
}

#[test]
fn couples_base_ready_to_held_lib32() {
    // Mirror direction: base is Ready, the lib32 shim is Held. Upgrading the
    // base alone would break the installed shim's exact-version dependency,
    // so the base is demoted and coupled to the shim.
    let ready = owned(&["nvidia-utils"]);
    let held = owned(&["lib32-nvidia-utils"]);
    let got = lib32_coupling_demotions(&ready, &held);
    assert_eq!(
        got,
        vec![("nvidia-utils".to_string(), "lib32-nvidia-utils".to_string())]
    );
}

#[test]
fn no_coupling_when_pair_not_split() {
    // Both halves Ready (nothing Held) → the pair already moves together, so
    // there is nothing to demote.
    let ready = owned(&["lib32-mesa", "mesa"]);
    let held: Vec<String> = Vec::new();
    assert!(lib32_coupling_demotions(&ready, &held).is_empty());
}

#[test]
fn non_lib32_ready_without_shim_is_untouched() {
    // A plain package whose lib32 sibling isn't in the update set at all is
    // never demoted, even when unrelated packages are Held.
    let ready = owned(&["firefox"]);
    let held = owned(&["nvidia-utils"]);
    assert!(lib32_coupling_demotions(&ready, &held).is_empty());
}

#[test]
fn fence_replays_the_august_first_bypass() {
    // 2026-08-01: the AUR was mid-lockdown, `yay -Qua` came back empty, and
    // sparrow-wallet + fresh-editor-bin — held with 5 days remaining the
    // night before — vanished from the report and were upgraded by the
    // handoff anyway. With the fence, an empty detection clears nothing, so
    // every foreign package lands on the ignore list.
    let foreign = owned(&["sparrow-wallet", "fresh-editor-bin", "nog", "yay-bin"]);
    let cleared: Vec<String> = Vec::new(); // detection saw nothing
    let ignored: Vec<String> = Vec::new(); // so nothing was held either
    let fence = foreign_fence(&foreign, &cleared, &ignored);
    assert_eq!(fence, foreign);
}

#[test]
fn fence_lets_cleared_aur_packages_through() {
    // A healthy run: detection saw sparrow-wallet, its hold expired, nog
    // marked it Ready. The fence must not re-ignore it — only the foreign
    // packages nog did NOT clear stay fenced.
    let foreign = owned(&["sparrow-wallet", "fresh-editor-bin", "nog"]);
    let cleared = owned(&["sparrow-wallet"]);
    let ignored: Vec<String> = Vec::new();
    let fence = foreign_fence(&foreign, &cleared, &ignored);
    assert_eq!(fence, owned(&["fresh-editor-bin", "nog"]));
}

#[test]
fn fence_skips_names_already_on_the_ignore_list() {
    // A held AUR package is already ignored by the normal hold path; the
    // fence adds only what is missing, so the final list stays duplicate-free.
    let foreign = owned(&["sparrow-wallet", "fresh-editor-bin"]);
    let cleared: Vec<String> = Vec::new();
    let ignored = owned(&["sparrow-wallet"]);
    let fence = foreign_fence(&foreign, &cleared, &ignored);
    assert_eq!(fence, owned(&["fresh-editor-bin"]));
}

// ---- issue #11: family coupling at hold-release time -------------------



// ---- issue #13: soname coupling -------------------------------------
//
// Every fixture below is real data taken from the machine where the bug
// was found, on 2026-08-28. The negative cases are not invented: eleven
// soname bases genuinely coexist at two versions on that system, and a
// rule matching base names rather than whole strings would couple all of
// them and wedge the update queue.


#[test]
fn soname_rule_replays_the_libbluray_transaction_failure() {
    // pacman's own words, 2026-08-28:
    //   installing libbluray (1.5.0-1) breaks dependency
    //   'libbluray.so=3-64' required by ffmpeg4.4
    let data = sd(
        &[
            ("libbluray", &["libbluray.so=3-64"], &[]),
            ("ffmpeg4.4", &["libavcodec.so=58-64"], &["libbluray.so=3-64"]),
        ],
        &[("libbluray", &["libbluray.so=4-64"])],
    );
    let ready = vec![pkg("libbluray", "1.4.1-1", "1.5.0-1", None, 0)];
    let held = vec![pkg("ffmpeg4.4", "4.4.8-3", "4.4.8-5", None, 1)];
    assert_eq!(
        soname_coupling_demotions(&ready, &held, &data),
        vec![("libbluray".to_string(), "ffmpeg4.4".to_string())]
    );
}

#[test]
fn soname_rule_ignores_same_base_at_different_versions() {
    // ffmpeg4.4 provides libavcodec.so=58, ffmpeg-obs provides =63, and
    // both are installed side by side. Matching on the base name would
    // couple them to each other forever.
    let data = sd(
        &[
            ("ffmpeg4.4", &["libavcodec.so=58-64"], &[]),
            ("ffmpeg-obs", &["libavcodec.so=63-64"], &[]),
            ("obs-studio", &[], &["libavcodec.so=63-64"]),
        ],
        &[("ffmpeg4.4", &["libavcodec.so=58-64"])],
    );
    let ready = vec![pkg("ffmpeg4.4", "4.4.8-3", "4.4.8-5", None, 0)];
    let held = vec![pkg("ffmpeg-obs", "9.0-1", "9.0.1-1.2", None, 4)];
    assert!(soname_coupling_demotions(&ready, &held, &data).is_empty());
}

#[test]
fn soname_rule_ignores_the_32_and_64_bit_pair() {
    // 118 bases coexist as -32/-64 on the reference machine. The suffix is
    // part of the string, so they never collide.
    let data = sd(
        &[
            ("libglvnd", &["libEGL.so=1-64"], &[]),
            ("lib32-libglvnd", &["libEGL.so=1-32"], &[]),
            ("wine", &[], &["libEGL.so=1-32"]),
        ],
        &[("libglvnd", &["libEGL.so=2-64"])],
    );
    let ready = vec![pkg("libglvnd", "1.7-1", "1.8-1", None, 0)];
    let held: Vec<CouplingPkg> = vec![];
    assert!(soname_coupling_demotions(&ready, &held, &data).is_empty());
}

#[test]
fn soname_rule_lets_a_pair_move_together() {
    // The dependent is Ready too, so its new version wants the new soname.
    // Holding either would be wrong — this is the state after `nog install
    // libbluray ffmpeg4.4`, and the workaround must not be undone.
    let data = sd(
        &[
            ("libbluray", &["libbluray.so=3-64"], &[]),
            ("ffmpeg4.4", &[], &["libbluray.so=3-64"]),
        ],
        &[("libbluray", &["libbluray.so=4-64"]), ("ffmpeg4.4", &[])],
    );
    let ready = vec![
        pkg("libbluray", "1.4.1-1", "1.5.0-1", None, 0),
        pkg("ffmpeg4.4", "4.4.8-3", "4.4.8-5", None, 0),
    ];
    assert!(soname_coupling_demotions(&ready, &[], &data).is_empty());
}

#[test]
fn soname_rule_accepts_a_surviving_second_provider() {
    // Something else still provides the soname and is not moving, so the
    // dependency stays satisfiable and nothing needs holding.
    let data = sd(
        &[
            ("libxcrypt", &["libcrypt.so=2-64"], &[]),
            ("libxcrypt-compat", &["libcrypt.so=1-64"], &[]),
            ("oldapp", &[], &["libcrypt.so=1-64"]),
        ],
        &[("libxcrypt", &["libcrypt.so=3-64"])],
    );
    let ready = vec![pkg("libxcrypt", "4.4-1", "4.5-1", None, 0)];
    assert!(soname_coupling_demotions(&ready, &[], &data).is_empty());
}

#[test]
fn soname_rule_holds_for_a_foreign_package_with_no_update() {
    // The dependent is an AUR package: nothing pending, no countdown to
    // inherit, and it would break exactly the same way. It must still be
    // named, or the user cannot tell why the hold exists.
    let data = sd(
        &[
            ("libbluray", &["libbluray.so=3-64"], &[]),
            ("some-aur-thing", &[], &["libbluray.so=3-64"]),
        ],
        &[("libbluray", &["libbluray.so=4-64"])],
    );
    let ready = vec![pkg("libbluray", "1.4.1-1", "1.5.0-1", None, 0)];
    assert_eq!(
        soname_coupling_demotions(&ready, &[], &data),
        vec![("libbluray".to_string(), "some-aur-thing".to_string())]
    );
}

#[test]
fn soname_rule_prefers_a_held_partner_with_the_longest_wait() {
    // Two packages break. Name the one with the longest countdown, so the
    // row's inherited countdown is the one that actually gates the release.
    let data = sd(
        &[
            ("libbluray", &["libbluray.so=3-64"], &[]),
            ("dep-soon", &[], &["libbluray.so=3-64"]),
            ("dep-later", &[], &["libbluray.so=3-64"]),
        ],
        &[("libbluray", &["libbluray.so=4-64"])],
    );
    let ready = vec![pkg("libbluray", "1.4.1-1", "1.5.0-1", None, 0)];
    let held = vec![
        pkg("dep-soon", "1-1", "2-1", None, 1),
        pkg("dep-later", "1-1", "2-1", None, 6),
    ];
    assert_eq!(
        soname_coupling_demotions(&ready, &held, &data)[0].1,
        "dep-later"
    );
}

#[test]
fn is_soname_accepts_exact_matches_and_rejects_ranges() {
    assert!(is_soname("libbluray.so=3-64"));
    assert!(is_soname("libEGL.so=1-32"));
    // A range can be satisfied by more than one version, so a bump does
    // not necessarily break it — out of scope for this rule.
    assert!(!is_soname("libfoo.so>=3"));
    assert!(!is_soname("libfoo.so<4"));
    // Plain package names and unversioned provides are not sonames.
    assert!(!is_soname("glibc"));
    assert!(!is_soname("sh"));
    assert!(!is_soname("libfoo.so"));
}

#[test]
fn soname_rule_is_inert_without_a_local_database() {
    // load_installed() soft-fails to an empty map. nog must then behave
    // exactly as it did before v1.3.1 rather than holding everything.
    let ready = vec![pkg("libbluray", "1.4.1-1", "1.5.0-1", None, 0)];
    assert!(soname_coupling_demotions(&ready, &[], &SonameData::default()).is_empty());
}

#[test]
fn pkgver_strips_epoch_and_pkgrel() {
    assert_eq!(pkgver("6.11.2-2"), "6.11.2");
    assert_eq!(pkgver("1:3.6.4-1"), "3.6.4");
    assert_eq!(pkgver("26.04.3-1"), "26.04.3");
    // The Qt6 case turns on this: -1 and -2 are the same upstream release.
    assert_eq!(pkgver("6.11.2-1"), pkgver("6.11.2-2"));
    // Degenerate inputs must not panic or truncate wrongly.
    assert_eq!(pkgver("1.0"), "1.0");
    assert_eq!(pkgver(""), "");
}

#[test]
fn pkgbase_rule_couples_same_pkgbase_siblings() {
    // The 2026-08-23 incident: elfutils and libelf share pkgbase `elfutils`
    // and are joined by `libelf=0.196`. Holding one must hold the other.
    let ready = vec![pkg("elfutils", "0.195-1", "0.196-1", Some("elfutils"), 0)];
    let held = vec![pkg("libelf", "0.195-1", "0.196-1", Some("elfutils"), 6)];
    assert_eq!(demoted_names(pkgbase_coupling_demotions(&ready, &held)), vec!["elfutils"]);
}

#[test]
fn pkgbase_rule_ignores_packages_without_a_pkgbase() {
    // Sync-DB entries can lack %BASE%. They simply do not participate.
    let ready = vec![pkg("orphan", "1.0-1", "1.1-1", None, 0)];
    let held = vec![pkg("other", "1.0-1", "1.1-1", None, 3)];
    assert!(pkgbase_coupling_demotions(&ready, &held).is_empty());
}

#[test]
fn cohort_rule_catches_the_qt6_split() {
    // The 2026-08-25 incident, reduced. Every qt6 package is its own
    // pkgbase and the dependency on qt6-base is unversioned, so neither
    // exact rule sees anything. Only the shared 6.11.1 -> 6.11.2 move does.
    let ready = vec![
        pkg("qt6-declarative", "6.11.1-3", "6.11.2-1", Some("qt6-declarative"), 0),
        pkg("qt6-svg", "6.11.1-1", "6.11.2-1", Some("qt6-svg"), 0),
        pkg("qt6-5compat", "6.11.1-1", "6.11.2-1", Some("qt6-5compat"), 0),
    ];
    let held = vec![pkg("qt6-base", "6.11.1-1", "6.11.2-2", Some("qt6-base"), 1)];

    // The exact rules are blind to this — that is the whole point of the bug.
    assert!(pkgbase_coupling_demotions(&ready, &held).is_empty());

    assert_eq!(
        demoted_names(cohort_coupling_demotions(&ready, &held)),
        vec!["qt6-5compat", "qt6-declarative", "qt6-svg"]
    );
}

#[test]
fn cohort_rule_is_silent_on_a_uniform_cohort() {
    // Regression fixture from the 08-25 run: 67 nerd fonts all moving
    // 3.5.0 -> 3.5.1, none held. A rule that fired here would be useless.
    let ready: Vec<CouplingPkg> = (0..67)
        .map(|i| pkg(&format!("ttf-{i}-nerd"), "3.5.0-1", "3.5.1-2", None, 0))
        .collect();
    assert!(cohort_coupling_demotions(&ready, &[]).is_empty());

    // ...and the same set entirely held is equally uninteresting.
    assert!(cohort_coupling_demotions(&[], &ready).is_empty());
}

#[test]
fn cohort_rule_leaves_pairs_to_the_exact_rules() {
    // Two packages sharing a version is a coincidence often enough that the
    // heuristic stays out of it; pkgbase and lib32 handle real pairs exactly.
    let ready = vec![pkg("alpha", "1.0-1", "1.1-1", Some("alpha"), 0)];
    let held = vec![pkg("beta", "1.0-1", "1.1-1", Some("beta"), 4)];
    assert!(cohort_coupling_demotions(&ready, &held).is_empty());
}

#[test]
fn cohort_rule_requires_the_same_destination() {
    // Three packages on 1.0 but heading to different releases are not a
    // family moving in step, however alike their current versions look.
    let ready = vec![
        pkg("a", "1.0-1", "1.1-1", None, 0),
        pkg("b", "1.0-1", "1.2-1", None, 0),
    ];
    let held = vec![pkg("c", "1.0-1", "1.3-1", None, 5)];
    assert!(cohort_coupling_demotions(&ready, &held).is_empty());
}

#[test]
fn demoted_package_waits_on_the_longest_held_partner() {
    // Inheriting the *longest* countdown is what makes the group clear on a
    // single later run instead of dribbling out over several.
    let ready = vec![pkg("app", "5.0-1", "5.1-1", None, 0)];
    let held = vec![
        pkg("lib-a", "5.0-1", "5.1-1", None, 2),
        pkg("lib-b", "5.0-1", "5.1-1", None, 9),
        pkg("lib-c", "5.0-1", "5.1-1", None, 6),
    ];
    let d = cohort_coupling_demotions(&ready, &held);
    assert_eq!(d, vec![("app".to_string(), "lib-b".to_string())]);
}

#[test]
fn a_package_is_claimed_by_only_one_rule() {
    // libelf is a lib32 partner *and* a pkgbase sibling *and* a cohort
    // member. It must appear once, or it would be demoted repeatedly.
    let ready = vec![
        pkg("libelf", "0.195-1", "0.196-1", Some("elfutils"), 0),
        pkg("elfutils", "0.195-1", "0.196-1", Some("elfutils"), 0),
    ];
    let held = vec![pkg("lib32-libelf", "0.195-1", "0.196-2", Some("lib32-libelf"), 3)];

    let d = coupling_demotions(&ready, &held, &SonameData::default());
    let names = demoted_names(d.clone());
    assert_eq!(names, vec!["elfutils", "libelf"]);
    assert_eq!(d.len(), 2, "each package demoted exactly once");
    // The exact lib32 rule wins the name over the cohort heuristic.
    assert_eq!(
        d.iter().find(|(n, _)| n == "libelf").map(|(_, p)| p.as_str()),
        Some("lib32-libelf")
    );
}

#[test]
fn one_pass_is_not_enough_to_converge() {
    // The structural half of #11. `bar` is coupled to `foo` by pkgbase, but
    // on the first pass `foo` is still in Ready, so nothing links them. Only
    // after `foo` is demoted does `bar`'s coupling become visible. Versions
    // are chosen so the cohort rule cannot short-circuit the chain.
    let held = vec![pkg("lib32-foo", "1.0-1", "1.1-1", Some("lib32-foo"), 5)];
    let ready = vec![
        pkg("foo", "2.0-1", "2.1-1", Some("foo-base"), 0),
        pkg("bar", "3.0-1", "3.1-1", Some("foo-base"), 0),
    ];

    let first = coupling_demotions(&ready, &held, &SonameData::default());
    assert_eq!(demoted_names(first), vec!["foo"], "pass 1 sees only the lib32 pair");

    // Apply it, exactly as commands::update does, and look again.
    let held2 = vec![
        held[0].clone(),
        pkg("foo", "2.0-1", "2.1-1", Some("foo-base"), 5),
    ];
    let ready2 = vec![ready[1].clone()];

    let second = coupling_demotions(&ready2, &held2, &SonameData::default());
    assert_eq!(
        demoted_names(second),
        vec!["bar"],
        "pass 2 finds what the demotion in pass 1 created"
    );
}

#[test]
fn coupling_reaches_a_fixpoint() {
    // Whatever the rules do, iterating must terminate with Ready and Held
    // partitioning the original set — no package lost, none duplicated.
    let mut ready = vec![
        pkg("qt6-declarative", "6.11.1-3", "6.11.2-1", Some("qt6-declarative"), 0),
        pkg("qt6-svg", "6.11.1-1", "6.11.2-1", Some("qt6-svg"), 0),
        pkg("qt6-tools", "6.11.1-4", "6.11.2-1", Some("qt6-tools"), 0),
        pkg("unrelated", "9.9-1", "9.9-2", Some("unrelated"), 0),
    ];
    let mut held = vec![pkg("qt6-base", "6.11.1-1", "6.11.2-2", Some("qt6-base"), 1)];
    let total = ready.len() + held.len();

    let mut passes = 0;
    loop {
        let d = coupling_demotions(&ready, &held, &SonameData::default());
        if d.is_empty() {
            break;
        }
        passes += 1;
        assert!(passes < 16, "coupling failed to converge");
        let names: HashSet<&str> = d.iter().map(|(n, _)| n.as_str()).collect();
        let (move_out, keep): (Vec<_>, Vec<_>) =
            ready.drain(..).partition(|p| names.contains(p.name.as_str()));
        ready = keep;
        held.extend(move_out);
    }

    assert_eq!(ready.len() + held.len(), total, "no package lost or duplicated");
    assert_eq!(demoted_names(ready.iter().map(|p| (p.name.clone(), String::new())).collect()),
               vec!["unrelated"], "only the unrelated package still releases");
    assert_eq!(held.len(), 4, "the whole qt6 cohort moved together");
}


#[test]
fn settle_coupling_moves_the_whole_qt6_cohort() {
    let ready = vec![
        pkg("qt6-declarative", "6.11.1-3", "6.11.2-1", Some("qt6-declarative"), 0),
        pkg("qt6-svg", "6.11.1-1", "6.11.2-1", Some("qt6-svg"), 0),
        pkg("qt6-tools", "6.11.1-4", "6.11.2-1", Some("qt6-tools"), 0),
        pkg("unrelated", "9.9-1", "9.9-2", Some("unrelated"), 0),
    ];
    let held = vec![pkg("qt6-base", "6.11.1-1", "6.11.2-2", Some("qt6-base"), 1)];
    let (ready, held) = settle_coupling(ready, held, &SonameData::default());
    let names: Vec<&str> = ready.iter().map(|p| p.name.as_str()).collect();
    assert_eq!(names, vec!["unrelated"]);
    assert_eq!(held.len(), 4);
    assert_eq!(held[0].name, "qt6-base");
    assert!(coupling_demotions(&ready, &held, &SonameData::default()).is_empty());
}

#[test]
fn settle_coupling_follows_a_chain_across_passes() {
    let held = vec![pkg("lib32-foo", "1.0-1", "1.1-1", Some("lib32-foo"), 5)];
    let ready = vec![
        pkg("foo", "2.0-1", "2.1-1", Some("foo-base"), 0),
        pkg("bar", "3.0-1", "3.1-1", Some("foo-base"), 0),
    ];
    let (ready, held) = settle_coupling(ready, held, &SonameData::default());
    assert!(ready.is_empty());
    let names: Vec<&str> = held.iter().map(|p| p.name.as_str()).collect();
    assert_eq!(names, vec!["lib32-foo", "foo", "bar"]);
}

#[test]
fn a_countdown_ends_exactly_when_it_says() {
    let mut dates = NameTable::new();
    dates.insert("htop".to_string(), 0u64);
    let day = SECONDS_PER_DAY;
    let now = 2 * day + 1;
    assert_eq!(
        nog::holds::evaluate_at("htop", Tier::Three, &dates, &holds_default(), Some(now)),
        HoldStatus::Holding { days_remaining: 4 }
    );
    assert_eq!(
        nog::holds::evaluate_at("htop", Tier::Three, &dates, &holds_default(), Some(now + 4 * day)),
        HoldStatus::Expired { days_past_window: 0 }
    );
    assert_eq!(
        nog::holds::evaluate_at("htop", Tier::Three, &dates, &holds_default(), Some(now + 40 * day)),
        HoldStatus::Expired { days_past_window: 36 }
    );
}

#[test]
fn no_clock_reading_means_unknown() {
    let mut dates = NameTable::new();
    dates.insert("htop".to_string(), 0u64);
    assert_eq!(
        nog::holds::evaluate_at("htop", Tier::Three, &dates, &holds_default(), None),
        HoldStatus::Unknown
    );
}

#[test]
fn days_ceil_rounds_partial_days_up() {
    assert_eq!(nog::holds::days_ceil(0), 0);
    assert_eq!(nog::holds::days_ceil(1), 1);
    assert_eq!(nog::holds::days_ceil(SECONDS_PER_DAY), 1);
    assert_eq!(nog::holds::days_ceil(SECONDS_PER_DAY + 1), 2);
}

#[test]
fn pkgver_strips_only_the_first_epoch_and_last_pkgrel() {
    assert_eq!(pkgver("2:1.0-rc1-3"), "1.0-rc1");
}
