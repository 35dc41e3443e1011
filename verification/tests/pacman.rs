use nog::pacman::{
    install_args, interpret_checkupdates, parse_name_lines, parse_pending_lines, remove_args,
    update_excluding_args, CheckUpdatesError,
};

fn strings(xs: &[&str]) -> Vec<String> {
    xs.iter().map(|s| s.to_string()).collect()
}

#[test]
fn pending_lines_are_split_into_name_and_versions() {
    let out = "linux 6.9.1.arch1-1 -> 6.9.2.arch1-1\n\n  mesa 24.1.0-1 -> 24.1.1-1  \n";
    let got = parse_pending_lines(out);
    assert_eq!(got.len(), 2);
    assert_eq!(got[0].name, "linux");
    assert_eq!(got[0].old_version, "6.9.1.arch1-1");
    assert_eq!(got[0].new_version, "6.9.2.arch1-1");
    assert_eq!(got[1].name, "mesa");
    assert_eq!(got[1].old_version, "24.1.0-1");
    assert_eq!(got[1].new_version, "24.1.1-1");
}

#[test]
fn short_pending_lines_leave_missing_versions_empty() {
    let got = parse_pending_lines("lonely\nhalf 1.0-1\n");
    assert_eq!(got.len(), 2);
    assert_eq!(got[0].name, "lonely");
    assert_eq!(got[0].old_version, "");
    assert_eq!(got[0].new_version, "");
    assert_eq!(got[1].name, "half");
    assert_eq!(got[1].old_version, "1.0-1");
    assert_eq!(got[1].new_version, "");
}

#[test]
fn checkupdates_status_two_means_nothing_pending() {
    match interpret_checkupdates(Some(2), "ignored 1 -> 2\n", "") {
        Ok(v) => assert!(v.is_empty()),
        Err(_) => panic!("status 2 is not a failure"),
    }
}

#[test]
fn checkupdates_success_parses_stdout() {
    for code in [Some(0), None] {
        match interpret_checkupdates(code, "vim 9.1-1 -> 9.1-2\n", "") {
            Ok(v) => {
                assert_eq!(v.len(), 1);
                assert_eq!(v[0].name, "vim");
                assert_eq!(v[0].new_version, "9.1-2");
            }
            Err(_) => panic!("status {:?} is a success", code),
        }
    }
}

#[test]
fn checkupdates_failure_reports_trimmed_stderr() {
    match interpret_checkupdates(Some(1), "", "  ==> ERROR: Cannot fetch updates\n") {
        Err(CheckUpdatesError::Other(m)) => assert_eq!(m, "==> ERROR: Cannot fetch updates"),
        _ => panic!("status 1 is a failure"),
    }
}

#[test]
fn checkupdates_failure_without_stderr_names_the_status() {
    match interpret_checkupdates(Some(1), "", "  \n") {
        Err(CheckUpdatesError::Other(m)) => assert_eq!(m, "checkupdates exited with status 1"),
        _ => panic!("status 1 is a failure"),
    }
    match interpret_checkupdates(Some(-3), "", "") {
        Err(CheckUpdatesError::Other(m)) => assert_eq!(m, "checkupdates exited with status -3"),
        _ => panic!("status -3 is a failure"),
    }
}

#[test]
fn install_and_remove_arguments() {
    let pkgs = strings(&["firefox", "vlc"]);
    assert_eq!(install_args(&pkgs), strings(&["-S", "--noconfirm", "firefox", "vlc"]));
    assert_eq!(remove_args(&pkgs), strings(&["-Rs", "--noconfirm", "firefox", "vlc"]));
    assert_eq!(install_args(&[]), strings(&["-S", "--noconfirm"]));
}

#[test]
fn update_excluding_joins_the_ignore_list() {
    assert_eq!(update_excluding_args(&[]), strings(&["-Syu"]));
    assert_eq!(
        update_excluding_args(&strings(&["linux", "linux-headers", "nvidia"])),
        strings(&["-Syu", "--ignore", "linux,linux-headers,nvidia"])
    );
}

#[test]
fn foreign_package_names_are_trimmed_lines() {
    assert_eq!(parse_name_lines("yay\n  paru-bin \n\nzoom\n"), strings(&["yay", "paru-bin", "zoom"]));
    assert!(parse_name_lines("").is_empty());
}
