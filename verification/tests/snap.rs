use nog::snap::{
    apply_list, channel_date, held_snap_windows, hold_args, hold_command_args, installed_versions,
    is_iso_date, parse_refresh_list, parse_snap_list, refresh_args, to_pending, tracked_channels,
    SnapUpdate, SNAP_HOLD_MAX_HOURS,
};
use nog::table::NameTable;

fn channels() -> NameTable<String> {
    let mut m = NameTable::new();
    m.insert("bitwarden".to_string(), "latest/stable".to_string());
    m
}

#[test]
fn parses_the_refresh_list_table() {
    let out = "Name       Version  Rev   Size   Publisher   Notes\n\
               bitwarden  2026.8.1 145   120MB  bitwarden✓  -\n\
               core22     20260801 1710  77MB   canonical✓  base\n";
    let got = parse_refresh_list(out, &channels());
    assert_eq!(got.len(), 2);
    assert_eq!(got[0].name, "bitwarden");
    assert_eq!(got[0].new_version, "2026.8.1");
    assert_eq!(got[0].channel, "latest/stable");
    // Unknown tracking falls back to the conventional default:
    assert_eq!(got[1].channel, "latest/stable");
}

#[test]
fn all_up_to_date_means_no_updates() {
    assert!(parse_refresh_list("All snaps up to date.\n", &NameTable::new()).is_empty());
    assert!(parse_refresh_list("", &NameTable::new()).is_empty());
}

#[test]
fn parses_snap_list_tracking_column() {
    let out = "Name       Version   Rev   Tracking       Publisher   Notes\n\
               bitwarden  2026.7.2  144   latest/stable  bitwarden✓  -\n";
    let got = parse_snap_list(out);
    assert_eq!(got, vec![("bitwarden".to_string(), "2026.7.2".to_string(),
                          "latest/stable".to_string())]);
}

#[test]
fn finds_the_tracked_channels_date() {
    let info = "name:      bitwarden\nchannels:\n  \
                latest/stable:    2026.8.1 2026-08-04 (145) 120MB -\n  \
                latest/candidate: 2026.8.2 2026-08-09 (146) 120MB -\n";
    assert_eq!(channel_date(info, "latest/stable").as_deref(), Some("2026-08-04"));
    assert_eq!(channel_date(info, "latest/candidate").as_deref(), Some("2026-08-09"));
    assert_eq!(channel_date(info, "latest/edge"), None);
}

#[test]
fn channel_without_a_date_is_unresolved_not_guessed() {
    // "↑" means "same as above" — no date of its own.
    let info = "channels:\n  latest/stable:    1.0 2026-01-02 (5) 1MB -\n  \
                latest/candidate: ↑\n";
    assert_eq!(channel_date(info, "latest/candidate"), None);
}

#[test]
fn apply_list_names_only_cleared_snaps() {
    let snaps = vec!["bitwarden".to_string(), "core22".to_string(), "hello".to_string()];
    let ready = vec!["bitwarden".to_string(), "vlc".to_string()]; // vlc = pacman
    let unknown = vec!["core22".to_string(), "hello".to_string()];
    let ignore = vec!["hello".to_string()]; // user skipped it
    let got = apply_list(&snaps, &ready, &unknown, &ignore);
    assert_eq!(got, vec!["bitwarden".to_string(), "core22".to_string()]);
    assert!(!got.contains(&"vlc".to_string()));
    assert!(!got.contains(&"hello".to_string()));
}

#[test]
fn nog_itself_never_refreshes_a_held_snap() {
    // Renamed from `held_snaps_can_never_be_refreshed`, which claimed far
    // more than it proved. It showed only that NOG does not refresh a held
    // snap; it never asked whether anything else would, and snapd did --
    // four times a day (issue #18). The name now matches the assertion.
    let snaps = vec!["bitwarden".to_string()];
    assert!(apply_list(&snaps, &[], &[], &[]).is_empty());
}

#[test]
fn hold_args_groups_snaps_sharing_a_window() {
    let held = vec![
        ("core20".to_string(), 1),
        ("hello".to_string(), 2),
        ("bitwarden".to_string(), 1),
    ];
    let got = hold_args(&held);
    assert_eq!(got, vec![
        (24, vec!["bitwarden".to_string(), "core20".to_string()]),
        (48, vec!["hello".to_string()]),
    ]);
}

#[test]
fn hold_args_never_emits_a_zero_length_hold() {
    // A 0-day window is Tier 1 awaiting manual signoff. `--hold=0h` is not
    // a hold, and silently placing one would reproduce issue #18 exactly:
    // nog reporting a hold that snapd does not enforce.
    let got = hold_args(&[("core20".to_string(), 0)]);
    assert_eq!(got[0].0, SNAP_HOLD_MAX_HOURS);
}

#[test]
fn hold_args_clamps_to_snapd_ceiling() {
    // snapd refuses a named hold longer than 90 days. Asking for more
    // fails the whole call, which would leave the snap UNHELD.
    let got = hold_args(&[("linux-thing".to_string(), 3650)]);
    assert_eq!(got[0].0, SNAP_HOLD_MAX_HOURS);
}

#[test]
fn held_snap_windows_ignores_held_packages_that_are_not_snaps() {
    let all_held = vec![
        ("gimp".to_string(), 1),          // pacman
        ("core20".to_string(), 2),        // snap
        ("linux-zen".to_string(), 28),    // pacman
    ];
    let snaps = vec!["core20".to_string(), "hello".to_string()];
    assert_eq!(held_snap_windows(&all_held, &snaps),
               vec![("core20".to_string(), 2)]);
}

#[test]
fn held_snap_windows_is_empty_when_no_snap_is_held() {
    // The common case, and the one that must NOT prompt for root:
    // no held snaps means no hold call at all.
    let all_held = vec![("gimp".to_string(), 1)];
    let snaps = vec!["core20".to_string()];
    assert!(held_snap_windows(&all_held, &snaps).is_empty());
    assert!(hold_args(&held_snap_windows(&all_held, &snaps)).is_empty());
}

#[test]
fn held_snap_windows_matches_by_name_and_says_so() {
    // Documents the #20 ambiguity rather than hiding it: `snapd` is both an
    // Arch package and a snap, and with no source column they are the same
    // string. Selecting it is the safe direction -- an explicit `snap
    // refresh snapd` from nog is never blocked by nog's own hold.
    let all_held = vec![("snapd".to_string(), 3)];
    let snaps = vec!["snapd".to_string()];
    assert_eq!(held_snap_windows(&all_held, &snaps).len(), 1);
}

#[test]
fn hold_args_is_deterministic() {
    let a = hold_args(&[("b".into(), 2), ("a".into(), 2)]);
    let b = hold_args(&[("a".into(), 2), ("b".into(), 2)]);
    assert_eq!(a, b);
    assert_eq!(a[0].1, vec!["a".to_string(), "b".to_string()]);
}

#[test]
fn snap_to_pending_marks_missing_versions_honestly() {
    let u = SnapUpdate { name: "hello".into(), new_version: "".into(),
                         channel: "latest/stable".into() };
    let p = to_pending(&u, &NameTable::new());
    assert_eq!(p.old_version, "?");
    assert_eq!(p.new_version, "?");
}


fn list_rows() -> Vec<(String, String, String)> {
    parse_snap_list(
        "Name       Version   Rev   Tracking       Publisher   Notes\n\
         bitwarden  2026.7.2  144   latest/stable  bitwarden✓  -\n\
         core22     20260701  1700  latest/edge    canonical✓  base\n",
    )
}

#[test]
fn snap_list_rows_give_channels_and_versions() {
    let rows = list_rows();
    let ch = tracked_channels(&rows);
    let ver = installed_versions(&rows);
    assert_eq!(ch.get("bitwarden").map(|s| s.as_str()), Some("latest/stable"));
    assert_eq!(ch.get("core22").map(|s| s.as_str()), Some("latest/edge"));
    assert_eq!(ver.get("bitwarden").map(|s| s.as_str()), Some("2026.7.2"));
    assert_eq!(ver.get("core22").map(|s| s.as_str()), Some("20260701"));
    assert_eq!(ver.get("firefox"), None);
}

#[test]
fn iso_dates_are_exactly_yyyy_mm_dd() {
    assert!(is_iso_date("2026-08-04"));
    assert!(!is_iso_date("2026-8-04"));
    assert!(!is_iso_date("2026/08/04"));
    assert!(!is_iso_date("2026-08-04T"));
    assert!(!is_iso_date("20a6-08-04"));
}

#[test]
fn snap_command_arguments() {
    let names = vec!["bitwarden".to_string(), "core22".to_string()];
    assert_eq!(
        hold_command_args(48, &names),
        vec!["snap", "refresh", "--hold=48h", "bitwarden", "core22"]
    );
    assert_eq!(refresh_args(&names), vec!["snap", "refresh", "bitwarden", "core22"]);
}
