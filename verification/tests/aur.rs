use nog::aur::{
    choose_helper, collect_build_dates, detect_helper, info_args, install_args,
    last_modified_entries, parse_epoch, pending_from_query, resolve_helper, Helper,
};

fn strings(xs: &[&str]) -> Vec<String> {
    xs.iter().map(|s| s.to_string()).collect()
}

#[test]
fn helper_binaries() {
    assert_eq!(Helper::Yay.binary(), "yay");
    assert_eq!(Helper::Paru.binary(), "paru");
}

#[test]
fn auto_prefers_yay_then_paru_then_nothing() {
    assert_eq!(choose_helper("auto", true, true), Ok(Some(Helper::Yay)));
    assert_eq!(choose_helper("auto", false, true), Ok(Some(Helper::Paru)));
    assert_eq!(choose_helper("auto", false, false), Ok(None));
}

#[test]
fn none_disables_the_aur_even_with_helpers_present() {
    assert_eq!(choose_helper("none", true, true), Ok(None));
}

#[test]
fn explicit_helper_must_be_on_path() {
    assert_eq!(choose_helper("paru", true, true), Ok(Some(Helper::Paru)));
    assert_eq!(
        choose_helper("yay", false, true),
        Err("nog.conf requests `helper = \"yay\"` but yay is not on PATH".to_string())
    );
    assert_eq!(
        choose_helper("paru", true, false),
        Err("nog.conf requests `helper = \"paru\"` but paru is not on PATH".to_string())
    );
}

#[test]
fn unknown_helper_value_is_rejected() {
    assert_eq!(
        choose_helper("pikaur", true, true),
        Err("invalid `[aur] helper` value 'pikaur'. Expected one of: auto, yay, paru, none".to_string())
    );
}

#[test]
fn helper_preference_is_trimmed_and_lowercased() {
    assert_eq!(detect_helper("  YAY ", true, false), Ok(Some(Helper::Yay)));
    assert_eq!(detect_helper("Paru", false, true), Ok(Some(Helper::Paru)));
    assert_eq!(detect_helper(" None", true, true), Ok(None));
    assert_eq!(
        detect_helper(" Pikaur ", true, true),
        Err("invalid `[aur] helper` value 'pikaur'. Expected one of: auto, yay, paru, none".to_string())
    );
}

#[test]
fn blank_query_output_means_no_aur_updates() {
    let got = pending_from_query(Helper::Yay, false, "exit status: 1", "  \n", "");
    assert_eq!(got.map(|v| v.len()), Ok(0));
}

#[test]
fn failed_query_reports_stderr_or_status() {
    let got = pending_from_query(Helper::Paru, false, "exit status: 1", "x 1 -> 2\n", " boom \n");
    assert_eq!(got.map(|v| v.len()), Err("boom".to_string()));
    let got = pending_from_query(Helper::Paru, false, "exit status: 1", "x 1 -> 2\n", "");
    assert_eq!(got.map(|v| v.len()), Err("paru -Qua exited with status exit status: 1".to_string()));
}

#[test]
fn successful_query_lists_the_updates() {
    let got = pending_from_query(Helper::Yay, true, "exit status: 0", "zoom 6.0-1 -> 6.1-1\n", "")
        .expect("success");
    assert_eq!(got.len(), 1);
    assert_eq!(got[0].name, "zoom");
    assert_eq!(got[0].old_version, "6.0-1");
    assert_eq!(got[0].new_version, "6.1-1");
}

#[test]
fn aur_command_arguments() {
    let pkgs = strings(&["zoom", "slack-desktop"]);
    assert_eq!(install_args(&pkgs), strings(&["-S", "zoom", "slack-desktop"]));
    assert_eq!(info_args(&pkgs), strings(&["-Sai", "zoom", "slack-desktop"]));
}

#[test]
fn last_modified_is_read_per_package_block() {
    let out = "Repository      : aur\nName            : zoom\nVersion         : 6.1-1\n\
Last Modified   : Mon 01 Jul 2026 10:00:00 AM UTC\n\n\
Name            : slack-desktop\nLast Modified   : Tue 02 Jul 2026 11:00:00 AM UTC\n\n\
Last Modified   : orphaned line\n";
    let got = last_modified_entries(out);
    assert_eq!(
        got,
        vec![
            ("zoom".to_string(), "Mon 01 Jul 2026 10:00:00 AM UTC".to_string()),
            ("slack-desktop".to_string(), "Tue 02 Jul 2026 11:00:00 AM UTC".to_string()),
        ]
    );
}

#[test]
fn epoch_output_is_a_trimmed_integer() {
    assert_eq!(parse_epoch("1751364000\n"), Some(1751364000));
    assert_eq!(parse_epoch("  42 "), Some(42));
    assert_eq!(parse_epoch("date: invalid date"), None);
    assert_eq!(parse_epoch(""), None);
}

#[test]
fn build_dates_skip_unconvertible_entries_and_later_entries_win() {
    let entries = vec![
        ("zoom".to_string(), "a".to_string()),
        ("slack".to_string(), "b".to_string()),
        ("zoom".to_string(), "c".to_string()),
    ];
    let stamps = vec![Some(100), None, Some(300)];
    let t = collect_build_dates(&entries, &stamps);
    assert_eq!(t.get("zoom"), Some(&300));
    assert_eq!(t.get("slack"), None);
    assert_eq!(t.len(), 1);
}

#[test]
fn the_kill_switch_outranks_the_configured_helper() {
    assert_eq!(resolve_helper(false, "yay", true, true), Ok(None));
    assert_eq!(resolve_helper(false, "garbage", false, false), Ok(None));
    assert_eq!(resolve_helper(true, " Yay", true, true), Ok(Some(Helper::Yay)));
    assert_eq!(
        resolve_helper(true, "paru", true, false),
        Err("nog.conf requests `helper = \"paru\"` but paru is not on PATH".to_string())
    );
}
