use nog::config::HoldsConfig;
use nog::holds::SECONDS_PER_DAY;
use nog::pacman::PendingUpdate;
use nog::holds::SonameData;
use nog::local_db::InstalledDesc;
use nog::plan::{
    add_build_dates, bucket_updates, couple_all, couple_lib32, desync_queries, fence_cleared,
    find_desyncs, ignore_list, nothing_to_install, ready_name_list, realign, skipped_unknowns,
    sort_held, soname_data, undated_names, unknown_name_list, HeldEntry, HeldReason, ReadyEntry,
    ReadyReason, RunOutcome, UnknownEntry,
};
use nog::sync_db::PackageDesc;
use nog::table::NameTable;
use nog::tiers::{Tier, TierConfig, TierManager, TierPins};

fn strings(xs: &[&str]) -> Vec<String> {
    xs.iter().map(|s| s.to_string()).collect()
}

fn update(name: &str, old: &str, new: &str) -> PendingUpdate {
    PendingUpdate { name: name.to_string(), old_version: old.to_string(), new_version: new.to_string() }
}

fn holds() -> HoldsConfig {
    HoldsConfig { tier1_days: 30, tier2_days: 15, tier3_days: 7 }
}

fn manager(signoff: bool) -> TierManager {
    TierManager::from_pins(TierPins {
        tier1: TierConfig { manual_signoff: signoff, packages: Some(strings(&["linux", "glibc"])) },
        tier2: TierConfig { manual_signoff: false, packages: Some(strings(&["firefox"])) },
        tier3: TierConfig { manual_signoff: false, packages: None },
        groups: Vec::new(),
    })
}

fn desc(builddate: u64, version: Option<&str>) -> PackageDesc {
    PackageDesc { builddate, pkgbase: None, version: version.map(|v| v.to_string()), provides: Vec::new() }
}

fn held(name: &str, new: &str, tier: Tier, remaining: u64) -> HeldEntry {
    HeldEntry { update: update(name, "0", new), tier, remaining, reason: HeldReason::Window }
}

fn ready(name: &str, tier: Tier) -> ReadyEntry {
    ReadyEntry {
        update: update(name, "0", "1"),
        tier,
        reason: ReadyReason::Expired { days_past_window: 0 },
    }
}

fn names_of_held(h: &[HeldEntry]) -> Vec<String> {
    h.iter().map(|e| e.update.name.clone()).collect()
}

/// Day 1000 in Unix seconds.
const NOW: u64 = 1000 * SECONDS_PER_DAY;

#[test]
fn updates_land_in_their_buckets_in_pending_order() {
    let mut pkgs: NameTable<PackageDesc> = NameTable::new();
    // linux built 10 days ago: Tier 1 window (30) still open, 20 days left.
    pkgs.insert("linux".to_string(), desc(NOW - 10 * SECONDS_PER_DAY, Some("6.9.2-1")));
    // htop built 9 days ago: Tier 3 window (7) passed 2 days ago.
    pkgs.insert("htop".to_string(), desc(NOW - 9 * SECONDS_PER_DAY, Some("3.3-1")));
    // firefox: the database knows another version than the candidate.
    pkgs.insert("firefox".to_string(), desc(NOW - 40 * SECONDS_PER_DAY, Some("126.0-1")));
    let pending = vec![
        update("linux", "6.9.1-1", "6.9.2-1"),
        update("htop", "3.2-1", "3.3-1"),
        update("firefox", "125.0-1", "127.0-1"),
        update("nothing-known", "1", "2"),
    ];
    let b = bucket_updates(&pending, &manager(false), &pkgs, &holds(), Some(NOW));
    assert_eq!(b.ready.len(), 1);
    assert_eq!(b.ready[0].update.name, "htop");
    assert_eq!(b.ready[0].tier, Tier::Three);
    assert_eq!(b.ready[0].reason, ReadyReason::Expired { days_past_window: 2 });
    assert_eq!(b.held.len(), 1);
    assert_eq!(b.held[0].update.name, "linux");
    assert_eq!(b.held[0].remaining, 20);
    assert_eq!(b.held[0].reason, HeldReason::Window);
    assert_eq!(b.unknown.len(), 2);
    assert_eq!(b.unknown[0].update.name, "firefox");
    assert_eq!(b.unknown[0].tier, Tier::Two);
    assert_eq!(b.unknown[1].update.name, "nothing-known");
}

#[test]
fn manual_signoff_holds_tier1_whatever_its_age() {
    let mut pkgs: NameTable<PackageDesc> = NameTable::new();
    pkgs.insert("glibc".to_string(), desc(NOW - 400 * SECONDS_PER_DAY, None));
    let pending = vec![update("glibc", "2.39-1", "2.40-1")];
    let b = bucket_updates(&pending, &manager(true), &pkgs, &holds(), Some(NOW));
    assert!(b.ready.is_empty());
    assert_eq!(b.held.len(), 1);
    assert_eq!(b.held[0].remaining, 0);
    assert_eq!(b.held[0].reason, HeldReason::ManualSignoff);
    // Without sign-off the same update is long past its window.
    let b = bucket_updates(&pending, &manager(false), &pkgs, &holds(), Some(NOW));
    assert_eq!(b.ready.len(), 1);
    assert_eq!(b.ready[0].reason, ReadyReason::Expired { days_past_window: 370 });
}

#[test]
fn an_unreadable_clock_makes_every_dated_update_unknown() {
    let mut pkgs: NameTable<PackageDesc> = NameTable::new();
    pkgs.insert("htop".to_string(), desc(0, None));
    let pending = vec![update("htop", "1", "2")];
    let b = bucket_updates(&pending, &manager(false), &pkgs, &holds(), None);
    assert!(b.ready.is_empty() && b.held.is_empty());
    assert_eq!(b.unknown.len(), 1);
}

#[test]
fn desync_queries_list_kernels_then_headers() {
    assert_eq!(
        desync_queries(&strings(&["linux", "linux-lts"])),
        strings(&["linux", "linux-lts", "linux-headers", "linux-lts-headers"])
    );
}

#[test]
fn desyncs_are_kernels_whose_headers_differ() {
    let mut installed: NameTable<String> = NameTable::new();
    installed.insert("linux".to_string(), "6.9.1-1".to_string());
    installed.insert("linux-headers".to_string(), "6.9.2-1".to_string());
    installed.insert("linux-lts".to_string(), "6.6.30-1".to_string());
    installed.insert("linux-lts-headers".to_string(), "6.6.30-1".to_string());
    installed.insert("linux-zen".to_string(), "6.9.1-1".to_string());
    let got = find_desyncs(&strings(&["linux", "linux-lts", "linux-zen", "glibc"]), &installed);
    assert_eq!(got, vec![("linux".to_string(), "6.9.1-1".to_string(), "6.9.2-1".to_string())]);
}

#[test]
fn realign_pulls_only_the_kernel_matching_its_headers() {
    let desyncs = vec![("linux".to_string(), "6.9.1-1".to_string(), "6.9.2-1".to_string())];
    let held_list = vec![
        held("linux", "6.9.2-1", Tier::One, 12),
        held("linux-lts", "6.6.31-1", Tier::One, 20),
        held("glibc", "2.40-1", Tier::One, 5),
    ];
    let (pulled, kept) = realign(held_list, &desyncs);
    assert_eq!(pulled.len(), 1);
    assert_eq!(pulled[0].update.name, "linux");
    assert_eq!(pulled[0].tier, Tier::One);
    assert_eq!(pulled[0].reason, ReadyReason::Realigned);
    assert_eq!(names_of_held(&kept), strings(&["linux-lts", "glibc"]));

    // A pending kernel at another version than the headers stays held.
    let (pulled, kept) = realign(vec![held("linux", "6.9.3-1", Tier::One, 12)], &desyncs);
    assert!(pulled.is_empty());
    assert_eq!(kept.len(), 1);
}

#[test]
fn ready_lib32_half_waits_for_its_held_partner() {
    let ready_list = vec![ready("lib32-mesa", Tier::Three), ready("htop", Tier::Three)];
    let held_list = vec![held("mesa", "24.1.1-1", Tier::One, 9)];
    let (kept, held_out) = couple_lib32(ready_list, held_list);
    assert_eq!(kept.len(), 1);
    assert_eq!(kept[0].update.name, "htop");
    assert_eq!(names_of_held(&held_out), strings(&["mesa", "lib32-mesa"]));
    assert_eq!(held_out[1].remaining, 9);
    assert_eq!(held_out[1].reason, HeldReason::CoupledTo("mesa".to_string()));
    assert_eq!(held_out[1].tier, Tier::Three);
}

#[test]
fn ready_base_waits_for_its_held_lib32_half() {
    let ready_list = vec![ready("mesa", Tier::One)];
    let held_list = vec![held("lib32-mesa", "24.1.1-1", Tier::Three, 3)];
    let (kept, held_out) = couple_lib32(ready_list, held_list);
    assert!(kept.is_empty());
    assert_eq!(names_of_held(&held_out), strings(&["lib32-mesa", "mesa"]));
    assert_eq!(held_out[1].remaining, 3);
    assert_eq!(held_out[1].reason, HeldReason::CoupledTo("lib32-mesa".to_string()));
}

#[test]
fn pairs_that_are_both_ready_stay_ready() {
    let ready_list = vec![ready("mesa", Tier::One), ready("lib32-mesa", Tier::Three)];
    let (kept, held_out) = couple_lib32(ready_list, Vec::new());
    assert_eq!(kept.len(), 2);
    assert!(held_out.is_empty());
}

#[test]
fn held_list_is_sorted_by_days_then_name_stably() {
    let mut signoff = held("glibc", "2.40-1", Tier::One, 0);
    signoff.reason = HeldReason::ManualSignoff;
    let list = vec![
        held("zsh", "1", Tier::Three, 4),
        held("bash", "1", Tier::Three, 4),
        held("linux", "1", Tier::One, 20),
        signoff,
        held("bash", "2", Tier::Three, 4),
    ];
    let sorted = sort_held(list);
    let got: Vec<(String, String, u64)> = sorted
        .iter()
        .map(|e| (e.update.name.clone(), e.update.new_version.clone(), e.remaining))
        .collect();
    assert_eq!(
        got,
        vec![
            ("glibc".to_string(), "2.40-1".to_string(), 0),
            ("bash".to_string(), "1".to_string(), 4),
            ("bash".to_string(), "2".to_string(), 4),
            ("zsh".to_string(), "1".to_string(), 4),
            ("linux".to_string(), "1".to_string(), 20),
        ]
    );
    assert_eq!(sorted[0].reason, HeldReason::ManualSignoff);
}

#[test]
fn name_lists_follow_bucket_order() {
    let r = vec![ready("htop", Tier::Three), ready("vim", Tier::Three)];
    let u = vec![
        UnknownEntry { update: update("zoom", "1", "2"), tier: Tier::Three },
        UnknownEntry { update: update("slack", "1", "2"), tier: Tier::Three },
    ];
    assert_eq!(ready_name_list(&r), strings(&["htop", "vim"]));
    assert_eq!(unknown_name_list(&u), strings(&["zoom", "slack"]));
}

#[test]
fn pacman_ignores_held_then_skipped() {
    let h = vec![held("linux", "1", Tier::One, 3), held("mesa", "1", Tier::One, 4)];
    assert_eq!(ignore_list(&h, &strings(&["zoom"])), strings(&["linux", "mesa", "zoom"]));
    assert!(ignore_list(&Vec::new(), &[]).is_empty());
}

#[test]
fn fence_clears_ready_and_unskipped_unknown() {
    let r = vec![ready("htop", Tier::Three)];
    let u = vec![
        UnknownEntry { update: update("zoom", "1", "2"), tier: Tier::Three },
        UnknownEntry { update: update("slack", "1", "2"), tier: Tier::Three },
    ];
    let ignore = strings(&["linux", "zoom"]);
    assert_eq!(fence_cleared(&r, &u, &ignore), strings(&["htop", "slack"]));
}

#[test]
fn only_names_without_an_entry_need_outside_dates() {
    let mut pkgs: NameTable<PackageDesc> = NameTable::new();
    pkgs.insert("yay".to_string(), desc(1, None));
    let names = strings(&["zoom", "yay", "slack"]);
    assert_eq!(undated_names(&names, &pkgs), strings(&["zoom", "slack"]));
}

#[test]
fn outside_dates_never_replace_sync_db_entries() {
    let mut pkgs: NameTable<PackageDesc> = NameTable::new();
    pkgs.insert("org.gimp.GIMP".to_string(), desc(5, Some("2.10-1")));
    let mut dates: NameTable<u64> = NameTable::new();
    dates.insert("org.gimp.GIMP".to_string(), 99);
    dates.insert("bitwarden".to_string(), 77);
    add_build_dates(&mut pkgs, &dates);
    assert_eq!(pkgs.len(), 2);
    let gimp = pkgs.get("org.gimp.GIMP").expect("kept");
    assert_eq!((gimp.builddate, gimp.version.as_deref()), (5, Some("2.10-1")));
    let bw = pkgs.get("bitwarden").expect("added");
    assert_eq!(bw.builddate, 77);
    assert_eq!(bw.version, None);
    assert_eq!(bw.pkgbase, None);
}

#[test]
fn a_run_with_everything_held_or_skipped_installs_nothing() {
    let none: Vec<ReadyEntry> = Vec::new();
    assert!(nothing_to_install(&none, &strings(&["linux", "zoom"]), 2));
    assert!(!nothing_to_install(&none, &strings(&["linux"]), 2));
    assert!(!nothing_to_install(&vec![ready("htop", Tier::Three)], &strings(&["linux"]), 2));
}

fn based(base: &str) -> PackageDesc {
    PackageDesc { builddate: 0, pkgbase: Some(base.to_string()), version: None, provides: Vec::new() }
}

fn ready_upd(name: &str, old: &str, new: &str) -> ReadyEntry {
    ReadyEntry { update: update(name, old, new), tier: Tier::Three, reason: ReadyReason::Expired { days_past_window: 1 } }
}

fn held_upd(name: &str, old: &str, new: &str, remaining: u64) -> HeldEntry {
    HeldEntry { update: update(name, old, new), tier: Tier::One, remaining, reason: HeldReason::Window }
}

#[test]
fn pkgbase_siblings_are_held_together_in_the_run() {
    let mut pkgs: NameTable<PackageDesc> = NameTable::new();
    pkgs.insert("libelf".to_string(), based("elfutils"));
    pkgs.insert("elfutils".to_string(), based("elfutils"));
    let ready_list = vec![ready_upd("libelf", "0.191-1", "0.192-1"), ready_upd("htop", "3.2-1", "3.3-1")];
    let held_list = vec![held_upd("elfutils", "0.191-1", "0.192-1", 6)];
    let (kept, held_out) = couple_all(ready_list, held_list, &pkgs, &SonameData::default());
    assert_eq!(kept.len(), 1);
    assert_eq!(kept[0].update.name, "htop");
    assert_eq!(names_of_held(&held_out), strings(&["elfutils", "libelf"]));
    assert_eq!(held_out[1].reason, HeldReason::CoupledTo("elfutils".to_string()));
    assert_eq!(held_out[1].remaining, 6);
}

#[test]
fn coupling_repeats_until_nothing_is_split() {
    // Pass one holds lib32-foo with foo; that splits the foo/bar pkgbase,
    // which pass two resolves.
    let mut pkgs: NameTable<PackageDesc> = NameTable::new();
    pkgs.insert("lib32-foo".to_string(), based("lib32-foo"));
    pkgs.insert("bar".to_string(), based("foo-base"));
    pkgs.insert("foo".to_string(), based("foo-base"));
    let ready_list = vec![ready_upd("foo", "2.0-1", "2.1-1"), ready_upd("bar", "5.0-1", "5.1-1")];
    let held_list = vec![held_upd("lib32-foo", "2.0-1", "2.1-1", 3)];
    let (kept, held_out) = couple_all(ready_list, held_list, &pkgs, &SonameData::default());
    assert!(kept.is_empty());
    assert_eq!(names_of_held(&held_out), strings(&["lib32-foo", "foo", "bar"]));
    assert_eq!(held_out[2].reason, HeldReason::CoupledTo("foo".to_string()));
    assert_eq!(held_out[2].remaining, 3);
}

#[test]
fn soname_dependents_hold_the_library_in_the_run() {
    let mut installed: NameTable<InstalledDesc> = NameTable::new();
    installed.insert("libbluray".to_string(), InstalledDesc { provides: strings(&["libbluray.so=3-64"]), depends: Vec::new() });
    installed.insert("ffmpeg4.4".to_string(), InstalledDesc { provides: Vec::new(), depends: strings(&["libbluray.so=3-64"]) });
    let mut pkgs: NameTable<PackageDesc> = NameTable::new();
    pkgs.insert("libbluray".to_string(), PackageDesc { builddate: 0, pkgbase: None, version: None, provides: strings(&["libbluray.so=4-64"]) });
    let pending = vec![update("libbluray", "1.4.1-1", "1.5.0-1"), update("ffmpeg4.4", "4.4.8-3", "4.4.8-5")];
    let data = soname_data(&installed, &pkgs, &pending);
    assert_eq!(data.new_provides.get("libbluray"), Some(&strings(&["libbluray.so=4-64"])));
    assert_eq!(data.new_provides.get("ffmpeg4.4"), Some(&Vec::new()));
    assert_eq!(data.installed_depends.get("ffmpeg4.4"), Some(&strings(&["libbluray.so=3-64"])));
    let ready_list = vec![ready_upd("libbluray", "1.4.1-1", "1.5.0-1")];
    let held_list = vec![held_upd("ffmpeg4.4", "4.4.8-3", "4.4.8-5", 1)];
    let (kept, held_out) = couple_all(ready_list, held_list, &pkgs, &data);
    assert!(kept.is_empty());
    assert_eq!(names_of_held(&held_out), strings(&["ffmpeg4.4", "libbluray"]));
    assert_eq!(held_out[1].reason, HeldReason::CoupledTo("ffmpeg4.4".to_string()));
}

#[test]
fn without_the_local_database_the_soname_rule_is_quiet() {
    let installed: NameTable<InstalledDesc> = NameTable::new();
    let pkgs: NameTable<PackageDesc> = NameTable::new();
    let pending = vec![update("libbluray", "1", "2")];
    let data = soname_data(&installed, &pkgs, &pending);
    assert_eq!(data.installed_provides.len(), 0);
    assert_eq!(data.new_provides.len(), 0);
    let (kept, held_out) = couple_all(vec![ready_upd("libbluray", "1", "2")], Vec::new(), &pkgs, &data);
    assert_eq!(kept.len(), 1);
    assert!(held_out.is_empty());
}

#[test]
fn unknowns_pass_only_on_a_yes_and_stop_at_lost_input() {
    let u = |n: &str| UnknownEntry { update: update(n, "1", "2"), tier: Tier::Three };
    let unknown = vec![u("a"), u("b"), u("c"), u("d"), u("e")];
    let answers = vec![Some(true), Some(false), Some(true), None];
    assert_eq!(skipped_unknowns(&unknown, &answers), strings(&["b", "d", "e"]));
    assert_eq!(skipped_unknowns(&unknown, &vec![None]), strings(&["a", "b", "c", "d", "e"]));
    let all_yes = vec![Some(true); 5];
    assert!(skipped_unknowns(&unknown, &all_yes).is_empty());
}

#[test]
fn run_outcomes_for_the_log() {
    assert_eq!(RunOutcome::UpToDate.text(), "up to date");
    assert_eq!(RunOutcome::AllHeld.text(), "all held");
    assert_eq!(RunOutcome::Cancelled.text(), "cancelled");
    assert_eq!(RunOutcome::HandoffFailed(1).text(), "handoff failed (status 1)");
    assert_eq!(RunOutcome::FlatpakFailed(-1).text(), "flatpak apply failed (status -1)");
    assert_eq!(RunOutcome::SnapFailed(2).text(), "snap apply failed (status 2)");
    assert_eq!(RunOutcome::Installed.text(), "installed");
}
