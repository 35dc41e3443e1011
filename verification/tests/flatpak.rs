use nog::flatpak::{
    apply_list, parse_columns_output, parse_installed_versions, remote_info_date_text, to_pending,
    update_args, FlatpakUpdate,
};
use nog::table::NameTable;

#[test]
fn parses_tab_separated_updates() {
    let out = "org.gimp.GIMP\t3.0.4\tflathub\ncom.spotify.Client\t\tflathub\n";
    let got = parse_columns_output(out);
    assert_eq!(got.len(), 2);
    assert_eq!(got[0].app_id, "org.gimp.GIMP");
    assert_eq!(got[0].new_version, "3.0.4");
    assert_eq!(got[0].origin, "flathub");
    assert_eq!(got[1].new_version, ""); // versionless flatpak — common
}

#[test]
fn empty_output_means_no_updates() {
    assert!(parse_columns_output("").is_empty());
    assert!(parse_columns_output("\n\n").is_empty());
}



#[test]
fn apply_list_names_only_cleared_flatpaks() {
    let flatpaks = vec!["org.gimp.GIMP".to_string(), "com.spotify.Client".to_string(),
                        "org.kde.kate".to_string()];
    let ready = vec!["org.gimp.GIMP".to_string(), "vlc".to_string()]; // vlc = pacman
    let unknown = vec!["com.spotify.Client".to_string(), "org.kde.kate".to_string()];
    // kate was skipped by the user at the Unknown prompt:
    let ignore = vec!["org.kde.kate".to_string(), "systemd".to_string()];

    let got = apply_list(&flatpaks, &ready, &unknown, &ignore);
    assert_eq!(got, vec!["org.gimp.GIMP".to_string(), "com.spotify.Client".to_string()]);
    // Non-flatpak Ready packages never leak into the flatpak transaction:
    assert!(!got.contains(&"vlc".to_string()));
    // Skipped/held refs are never named — flatpak's only exclusion is silence:
    assert!(!got.contains(&"org.kde.kate".to_string()));
}

#[test]
fn held_flatpaks_can_never_be_applied() {
    // A held ref appears in neither `ready` nor `unknown` — the caller's
    // buckets are disjoint. Nothing to name, nothing to update.
    let flatpaks = vec!["org.gimp.GIMP".to_string()];
    let got = apply_list(&flatpaks, &[], &[], &[]);
    assert!(got.is_empty());
}

#[test]
fn flatpak_to_pending_marks_missing_versions_honestly() {
    let u = FlatpakUpdate {
        app_id: "com.spotify.Client".into(),
        origin: "flathub".into(),
        new_version: "".into(),
    };
    let p = to_pending(&u, &NameTable::new());
    assert_eq!(p.old_version, "?");
    assert_eq!(p.new_version, "?");
}


#[test]
fn remote_info_date_text_is_the_first_date_line() {
    let out = "\n        ID: org.gimp.GIMP\n    Branch: stable\n      Date: 2026-08-01 12:30:00 +0000\n";
    assert_eq!(remote_info_date_text(out).as_deref(), Some("2026-08-01 12:30:00 +0000"));
    let two = "Date: first\nDate: second\n";
    assert_eq!(remote_info_date_text(two).as_deref(), Some("first"));
}

#[test]
fn remote_info_without_date_line_has_no_date_text() {
    assert_eq!(remote_info_date_text("ID: x\nBranch: y\n"), None);
}

#[test]
fn installed_versions_map_app_ids() {
    let out = "org.gimp.GIMP\t2.10.38\ncom.spotify.Client\n\n org.kde.kate \t 24.05 \n";
    let t = parse_installed_versions(out);
    assert_eq!(t.get("org.gimp.GIMP").map(|s| s.as_str()), Some("2.10.38"));
    assert_eq!(t.get("com.spotify.Client").map(|s| s.as_str()), Some(""));
    assert_eq!(t.get("org.kde.kate").map(|s| s.as_str()), Some("24.05"));
    assert_eq!(t.len(), 3);
}

#[test]
fn flatpak_update_arguments() {
    let ids = vec!["org.gimp.GIMP".to_string()];
    assert_eq!(update_args(&ids), vec!["update", "-y", "org.gimp.GIMP"]);
}
