use nog::config::HoldsConfig;
use nog::holds::HoldStatus;
use nog::pacman::PendingUpdate;
use nog::plan::{HeldEntry, HeldReason, ReadyEntry, ReadyReason, UnknownEntry};
use nog::report::{
    activate, deactivate, format_table, held_note, held_rows, hold_report, install_note,
    proceed_answer, ready_note, ready_rows, runlog_rows, search_lines, split_date_time, tagged,
    unknown_answer, unknown_rows, unlock_lines, TableRow, C_GREEN, C_RED, C_RESET, C_YELLOW,
};
use nog::sources::Source;
use nog::tiers::{Tier, TierConfig, TierManager, TierPins};

#[test]
fn table_aligns_and_counts() {
    let rows = vec![
        TableRow { pkg: "libnm".into(), old: "1.56.1-1".into(), new: "1.56.1-2".into(), tier: 2, note: "9 days past window".into() },
        TableRow { pkg: "wine-staging".into(), old: "11.12-1".into(), new: "11.13-1".into(), tier: 3, note: "hold just expired".into() },
    ];
    let t = format_table("READY TO INSTALL", &rows, false);
    let lines: Vec<&str> = t.lines().collect();
    assert_eq!(lines[0], "READY TO INSTALL:");
    assert_eq!(lines[1], "-".repeat("READY TO INSTALL:".len()));
    assert_eq!(lines[2], "");
    let hdr = lines[3];
    assert!(hdr.starts_with("Package (2)"));
    for label in ["Old Version", "New Version", "Tier", "Note"] {
        assert!(hdr.contains(label), "header missing {label}");
    }
    assert_eq!(lines[4], "");
    // Alignment guarantee: every column's value begins exactly under its header.
    let (r0, r1) = (lines[5], lines[6]);
    assert!(r0.starts_with("libnm"));
    assert!(r1.starts_with("wine-staging"));
    for (label, v0, v1) in [
        ("Old Version", "1.56.1-1", "11.12-1"),
        ("New Version", "1.56.1-2", "11.13-1"),
        ("Tier", "2", "3"),
        ("Note", "9 days past window", "hold just expired"),
    ] {
        let idx = hdr.find(label).unwrap();
        assert!(r0[idx..].starts_with(v0), "row0 {label}: {:?}", &r0[idx..]);
        assert!(r1[idx..].starts_with(v1), "row1 {label}: {:?}", &r1[idx..]);
    }
}

#[test]
fn empty_table_renders_none() {
    let t = format_table("UNKNOWN", &[], false);
    assert!(t.starts_with("UNKNOWN:\n"));
    assert!(t.contains("\n\n(none)\n"));
}

#[test]
fn colored_tier_keeps_the_padding_outside_the_escape_codes() {
    let rows = vec![TableRow { pkg: "a".into(), old: "1".into(), new: "2".into(), tier: 1, note: "n".into() }];
    let plain = format_table("T", &rows, false);
    let colored = format_table("T", &rows, true);
    let stripped = colored
        .replace("\u{1b}[38;2;243;139;168m", "")
        .replace("\u{1b}[0m", "");
    assert_eq!(plain, stripped);
}

#[test]
fn notes_count_days_in_words() {
    assert_eq!(ready_note(&ReadyReason::Expired { days_past_window: 0 }), "hold just expired");
    assert_eq!(ready_note(&ReadyReason::Expired { days_past_window: 1 }), "1 day past window");
    assert_eq!(ready_note(&ReadyReason::Expired { days_past_window: 12 }), "12 days past window");
    assert_eq!(ready_note(&ReadyReason::Realigned), "realigned to match installed headers");
    assert_eq!(held_note(1, &HeldReason::Window), "1 day remaining");
    assert_eq!(held_note(5, &HeldReason::Window), "5 days remaining");
    assert_eq!(
        held_note(12, &HeldReason::CoupledTo("nvidia-utils".into())),
        "coupled to nvidia-utils · 12 days"
    );
    assert_eq!(
        held_note(0, &HeldReason::ManualSignoff),
        "manual sign-off required — run `nog unlock` to release"
    );
}

#[test]
fn rows_from_other_sources_say_where_they_come_from() {
    let fl = vec!["org.gimp.GIMP".to_string()];
    let sn = vec!["core22".to_string()];
    assert_eq!(tagged(&"org.gimp.GIMP".to_string(), "1 day remaining".into(), &fl, &sn), "1 day remaining · flatpak");
    assert_eq!(tagged(&"core22".to_string(), String::new(), &fl, &sn), "snap");
    assert_eq!(tagged(&"vlc".to_string(), "x".into(), &fl, &sn), "x");
}

fn upd(name: &str) -> PendingUpdate {
    PendingUpdate { name: name.to_string(), old_version: "1.0-1".to_string(), new_version: "1.1-1".to_string() }
}

fn manager(signoff: bool) -> TierManager {
    TierManager::from_pins(TierPins {
        tier1: TierConfig { manual_signoff: signoff, packages: Some(vec!["linux".to_string()]) },
        tier2: TierConfig { manual_signoff: false, packages: Some(vec!["firefox".to_string()]) },
        tier3: TierConfig { manual_signoff: false, packages: None },
        groups: Vec::new(),
    })
}

fn holds() -> HoldsConfig {
    HoldsConfig { tier1_days: 30, tier2_days: 15, tier3_days: 7 }
}

#[test]
fn bucket_rows_carry_tier_digits_and_tagged_notes() {
    let flatpaks = vec!["org.gimp.GIMP".to_string()];
    let snaps = vec!["bitwarden".to_string()];
    let ready = vec![
        ReadyEntry { update: upd("org.gimp.GIMP"), tier: Tier::Three, reason: ReadyReason::Expired { days_past_window: 3 } },
        ReadyEntry { update: upd("linux"), tier: Tier::One, reason: ReadyReason::Realigned },
    ];
    let rows = ready_rows(&ready, &flatpaks, &snaps);
    assert_eq!(rows.len(), 2);
    assert_eq!(rows[0].note, "3 days past window · flatpak");
    assert_eq!(rows[0].tier, 3);
    assert_eq!(rows[1].note, "realigned to match installed headers");
    assert_eq!(rows[1].tier, 1);
    assert_eq!(rows[1].old, "1.0-1");
    assert_eq!(rows[1].new, "1.1-1");

    let held = vec![HeldEntry { update: upd("bitwarden"), tier: Tier::Two, remaining: 1, reason: HeldReason::Window }];
    let rows = held_rows(&held, &flatpaks, &snaps);
    assert_eq!(rows[0].note, "1 day remaining · snap");
    assert_eq!(rows[0].tier, 2);

    let unknown = vec![UnknownEntry { update: upd("zoom"), tier: Tier::Three }];
    let rows = unknown_rows(&unknown, &flatpaks, &snaps);
    assert_eq!(rows[0].pkg, "zoom");
    assert_eq!(rows[0].note, "no build date in sync DB");
}

#[test]
fn run_log_rows_follow_ready_held_unknown() {
    let ready = vec![ReadyEntry { update: upd("htop"), tier: Tier::Three, reason: ReadyReason::Expired { days_past_window: 0 } }];
    let held = vec![HeldEntry {
        update: upd("lib32-mesa"),
        tier: Tier::Three,
        remaining: 12,
        reason: HeldReason::CoupledTo("mesa".to_string()),
    }];
    let unknown = vec![UnknownEntry { update: upd("zoom"), tier: Tier::Two }];
    let rows = runlog_rows(&ready, &held, &unknown);
    let got: Vec<(String, String, String, String)> = rows
        .iter()
        .map(|r| (r.bucket.clone(), r.package.clone(), r.tier.clone(), r.note.clone()))
        .collect();
    assert_eq!(
        got,
        vec![
            ("ready".to_string(), "htop".to_string(), "3".to_string(), "hold just expired".to_string()),
            ("held".to_string(), "lib32-mesa".to_string(), "3".to_string(), "coupled to mesa · 12 days".to_string()),
            ("unknown".to_string(), "zoom".to_string(), "2".to_string(), "no build date in sync DB".to_string()),
        ]
    );
    assert_eq!(rows[0].old_version, "1.0-1");
    assert_eq!(rows[0].new_version, "1.1-1");
}

#[test]
fn activate_and_deactivate_name_a_source() {
    assert_eq!(activate("aur"), Ok((Source::Aur, true)));
    assert_eq!(activate("snap"), Ok((Source::Snap, true)));
    assert_eq!(deactivate("chaotic-aur"), Ok((Source::ChaoticAur, false)));
    assert_eq!(deactivate("flatpak"), Ok((Source::Flatpak, false)));
    assert_eq!(
        activate("AUR"),
        Err("unknown source 'AUR'. Valid sources: aur, chaotic-aur, flatpak, snap".to_string())
    );
    assert_eq!(
        deactivate("pip"),
        Err("unknown source 'pip'. Valid sources: aur, chaotic-aur, flatpak, snap".to_string())
    );
}

#[test]
fn install_note_names_the_tier_and_its_hold() {
    assert_eq!(
        install_note("linux", Tier::One),
        "nog: 'linux' is Tier 1 — critical system package, will be protected by 30-day hold on future updates."
    );
    assert_eq!(install_note("firefox", Tier::Two), "nog: 'firefox' is Tier 2 — 15-day hold applies to future updates.");
    assert_eq!(install_note("htop", Tier::Three), "nog: 'htop' is Tier 3 — proceeding.");
}

#[test]
fn unlock_without_promote_explains_how_to_force() {
    let lines = unlock_lines("glibc", Tier::One, true);
    assert_eq!(
        lines,
        vec![
            "nog: 'glibc' is Tier 1.".to_string(),
            "     Tier 1 with `manual_signoff = true` — wholesale held until promote.".to_string(),
            "     `nog unlock` by itself does nothing — it has no per-session state to toggle.".to_string(),
            "     To force-upgrade this package now, bypassing the hold, run:".to_string(),
            "         nog unlock glibc --promote".to_string(),
        ]
    );
    assert_eq!(unlock_lines("glibc", Tier::One, false)[1], "     Tier 1 (30-day hold by default).");
    assert_eq!(unlock_lines("vim", Tier::Three, false)[1], "     Tier 3 (7-day hold by default).");
}

#[test]
fn search_results_get_tier_tags_and_keep_descriptions() {
    let out = "core/linux 6.9.2.arch1-1 [installed]\n    The Linux kernel and modules\nextra/firefox 127.0-1\n    Fast browser\nextra/htop 3.3-1\n";
    let got = search_lines(out, &manager(false), &holds());
    assert_eq!(
        got,
        vec![
            "core/linux 6.9.2.arch1-1 [installed] \x1b[31m[Tier 1 — 30d hold]\x1b[0m".to_string(),
            "    The Linux kernel and modules".to_string(),
            "extra/firefox 127.0-1 \x1b[33m[Tier 2 — 15d hold]\x1b[0m".to_string(),
            "    Fast browser".to_string(),
            "extra/htop 3.3-1 \x1b[32m[Tier 3 — 7d hold]\x1b[0m".to_string(),
        ]
    );
    let signoff = search_lines("core/linux 6.9.2-1\n", &manager(true), &holds());
    assert_eq!(signoff, vec!["core/linux 6.9.2-1 \x1b[31m[Tier 1 — manual sign-off]\x1b[0m".to_string()]);
}

#[test]
fn debug_hold_report_lines() {
    let got = hold_report("linux", Tier::One, &holds(), Some(1700000000), HoldStatus::Holding { days_remaining: 1 });
    assert_eq!(
        got,
        vec![
            "package:   linux".to_string(),
            "tier:      Tier 1".to_string(),
            "window:    30 days".to_string(),
            "built:     1700000000 (Unix timestamp)".to_string(),
            "status:    HELD (1 day remaining)".to_string(),
        ]
    );
    let got = hold_report("zoom", Tier::Three, &holds(), None, HoldStatus::Unknown);
    assert_eq!(got[2], "window:    7 days");
    assert_eq!(got[3], "built:     (unknown — not in any sync DB)");
    assert_eq!(got[4], "status:    UNKNOWN (no build date available)");
    let got = hold_report("htop", Tier::Three, &holds(), Some(5), HoldStatus::Expired { days_past_window: 4 });
    assert_eq!(got[4], "status:    READY TO INSTALL (hold expired 4 days ago)");
}

#[test]
fn prompt_answers() {
    assert_eq!(unknown_answer("y\n"), Some(true));
    assert_eq!(unknown_answer(" YES "), Some(true));
    assert_eq!(unknown_answer("\n"), Some(false));
    assert_eq!(unknown_answer("No"), Some(false));
    assert_eq!(unknown_answer("maybe"), None);
    assert!(proceed_answer("\n"));
    assert!(proceed_answer("Y"));
    assert!(proceed_answer(" yes\n"));
    assert!(!proceed_answer("n"));
    assert!(!proceed_answer("nope"));
}

#[test]
fn banner_date_and_time_split_at_the_bar() {
    assert_eq!(
        split_date_time("07/29/2026|10:15 AM\n"),
        Some(("07/29/2026".to_string(), "10:15 AM".to_string()))
    );
    assert_eq!(split_date_time("garbage\n"), None);
}

#[test]
fn colour_only_wraps_the_tier_digit() {
    let rows = vec![
        TableRow { pkg: "linux".into(), old: "6.9.1-1".into(), new: "6.9.2-1".into(), tier: 1, note: "3 days remaining".into() },
        TableRow { pkg: "firefox".into(), old: "126.0-1".into(), new: "127.0-1".into(), tier: 2, note: "".into() },
        TableRow { pkg: "htop".into(), old: "3.2-1".into(), new: "3.3-1".into(), tier: 3, note: "hold just expired".into() },
    ];
    let coloured = format_table("ON HOLD FROM INSTALL", &rows, true);
    let stripped = coloured.replace(C_RED, "").replace(C_YELLOW, "").replace(C_GREEN, "").replace(C_RESET, "");
    assert_eq!(stripped, format_table("ON HOLD FROM INSTALL", &rows, false));
    assert!(coloured.contains(C_RED) && coloured.contains(C_YELLOW) && coloured.contains(C_GREEN));
}
