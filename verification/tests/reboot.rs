use nog::reboot::{
    assess, classify, is_kernel, is_nvidia, parse_installed, parse_nvidia_running,
    parse_systemd_running, render, strip_distro_suffix, updated_clause, version_without_pkgrel,
    Basis, Restart, SystemProbe,
};
use nog::table::NameTable;

fn tier1() -> Vec<String> {
    ["linux", "linux-zen", "systemd", "systemd-libs", "glibc", "mesa", "grub", "mkinitcpio"]
        .iter()
        .map(|s| s.to_string())
        .collect()
}

fn cleared(pairs: &[(&str, &str)]) -> Vec<(String, String)> {
    pairs.iter().map(|(n, v)| (n.to_string(), v.to_string())).collect()
}

/// A probe that confirms every named package reached the given version.
fn installed(pairs: &[(&str, &str)]) -> NameTable<String> {
    let mut t = NameTable::new();
    for (n, v) in pairs {
        t.insert(n.to_string(), v.to_string());
    }
    t
}

// ---- classification -------------------------------------------------

#[test]
fn tier1_packages_call_for_a_reboot() {
    assert_eq!(classify("glibc", &tier1()), Some(Restart::Reboot));
    assert_eq!(classify("linux-zen", &tier1()), Some(Restart::Reboot));
}

#[test]
fn headers_are_never_worth_mentioning() {
    // They ride along with every kernel and are never loaded into one.
    assert_eq!(classify("linux-headers", &tier1()), None);
    assert_eq!(classify("linux-zen-headers", &tier1()), None);
}

#[test]
fn nvidia_and_dkms_are_reboot_even_though_tier1_omits_them() {
    assert_eq!(classify("nvidia-utils", &tier1()), Some(Restart::Reboot));
    assert_eq!(classify("lib32-nvidia-utils", &tier1()), Some(Restart::Reboot));
    assert_eq!(classify("nvidia-open-dkms", &tier1()), Some(Restart::Reboot));
    assert_eq!(classify("v4l2loopback-dkms", &tier1()), Some(Restart::Reboot));
}

#[test]
fn session_components_do_not_ask_for_a_reboot() {
    assert_eq!(classify("xorg-server", &tier1()), Some(Restart::Session));
    assert_eq!(classify("wayland", &tier1()), Some(Restart::Session));
    assert_eq!(classify("dbus", &tier1()), Some(Restart::Session));
    // mesa is pinned Tier 1 but a logout is genuinely enough.
    assert_eq!(classify("mesa", &tier1()), Some(Restart::Session));
}

#[test]
fn ordinary_packages_say_nothing() {
    assert_eq!(classify("firefox", &tier1()), None);
    assert_eq!(classify("libnvidia-container", &tier1()), None);
}

#[test]
fn nvidia_matching_is_by_name_not_substring() {
    assert!(is_nvidia("nvidia"));
    assert!(is_nvidia("nvidia-utils"));
    assert!(is_nvidia("lib32-nvidia-utils"));
    assert!(!is_nvidia("libnvidia-container"));
    assert!(!is_nvidia("nvidiafoo"));
}

// ---- parsing --------------------------------------------------------

#[test]
fn nvidia_version_is_found_by_shape_in_the_open_module_banner() {
    let text = "NVRM version: NVIDIA UNIX Open Kernel Module for x86_64  610.57.04  \
                Release Build  (root@)\nGCC version:  gcc version 16.1.1 20260728 (GCC)\n";
    assert_eq!(parse_nvidia_running(text), Some("610.57.04".to_string()));
}

#[test]
fn nvidia_version_is_found_in_the_proprietary_banner_too() {
    let text = "NVRM version: NVIDIA UNIX x86_64 Kernel Module  550.120  \
                Fri Sep 13 10:10:00 UTC 2026\n";
    assert_eq!(parse_nvidia_running(text), Some("550.120".to_string()));
}

#[test]
fn nvidia_parse_refuses_text_it_does_not_recognise() {
    assert_eq!(parse_nvidia_running(""), None);
    assert_eq!(parse_nvidia_running("something else entirely\n"), None);
}

#[test]
fn systemd_version_comes_from_the_parenthesised_token() {
    assert_eq!(
        parse_systemd_running("systemd 261 (261.2-1-arch)\n+PAM +AUDIT\n"),
        Some("261.2-1".to_string())
    );
}

#[test]
fn systemd_parse_refuses_output_without_parentheses() {
    assert_eq!(parse_systemd_running("systemd 261\n"), None);
    assert_eq!(parse_systemd_running(""), None);
}

#[test]
fn distro_suffix_is_dropped_but_pkgrel_is_kept() {
    assert_eq!(strip_distro_suffix("261.2-1-arch"), "261.2-1");
    assert_eq!(strip_distro_suffix("261.2-1"), "261.2-1");
    assert_eq!(strip_distro_suffix("1.0"), "1.0");
}

#[test]
fn pkgrel_is_dropped_for_the_nvidia_comparison() {
    // The running driver never reports a pkgrel, so comparing against one
    // would report a difference on every rebuild.
    assert_eq!(version_without_pkgrel("610.57.04-1"), "610.57.04");
    assert_eq!(version_without_pkgrel("610.57.04"), "610.57.04");
}

// ---- the silences, which are the point ------------------------------

#[test]
fn a_kernel_update_that_left_the_running_kernel_installed_says_nothing() {
    // /usr/lib/modules/<running> still exists — nothing stale in memory.
    let probe = SystemProbe {
        running_kernel_present: Some(true),
        running_kernel: Some("7.0.5-zen1-1-zen".into()),
        installed_now: installed(&[("linux-zen", "7.0.6.zen1-1")]),
        ..Default::default()
    };
    assert!(assess(&cleared(&[("linux-zen", "7.0.6.zen1-1")]), &tier1(), &probe).is_empty());
}

#[test]
fn nvidia_already_matching_in_memory_says_nothing() {
    let probe = SystemProbe {
        nvidia_running: Some("610.57.04".into()),
        installed_now: installed(&[("nvidia-utils", "610.57.04-1")]),
        ..Default::default()
    };
    assert!(assess(&cleared(&[("nvidia-utils", "610.57.04-1")]), &tier1(), &probe).is_empty());
}

#[test]
fn a_package_the_user_declined_at_pacmans_prompt_says_nothing() {
    // nog cleared it, but pacman still reports the OLD version, so it was
    // never installed. Announcing here is the false alarm that would teach
    // the user to ignore the notice.
    let probe = SystemProbe {
        installed_now: installed(&[("glibc", "2.43-1")]), // old; nog asked for 2.44-1
        ..Default::default()
    };
    assert!(assess(&cleared(&[("glibc", "2.44-1")]), &tier1(), &probe).is_empty());
}

#[test]
fn a_package_pacman_does_not_know_at_all_says_nothing() {
    let probe = SystemProbe::default(); // installed_now empty
    assert!(assess(&cleared(&[("glibc", "2.44-1")]), &tier1(), &probe).is_empty());
}

#[test]
fn an_ordinary_run_says_nothing() {
    let probe = SystemProbe {
        installed_now: installed(&[("firefox", "141.0-1")]),
        ..Default::default()
    };
    assert!(assess(&cleared(&[("firefox", "141.0-1")]), &tier1(), &probe).is_empty());
    assert!(render(&[]).is_empty());
}

// ---- the findings ---------------------------------------------------

#[test]
fn a_replaced_running_kernel_is_reported_as_verified() {
    let probe = SystemProbe {
        running_kernel_present: Some(false),
        running_kernel: Some("7.0.5-zen1-1-zen".into()),
        installed_now: installed(&[("linux-zen", "7.0.6.zen1-1")]),
        ..Default::default()
    };
    let out = assess(&cleared(&[("linux-zen", "7.0.6.zen1-1")]), &tier1(), &probe);
    assert_eq!(out.len(), 1);
    assert!(out[0].is_verified());
    assert_eq!(out[0].restart, Restart::Reboot);
}

#[test]
fn the_original_incident_is_reported_with_both_versions() {
    // 2026-08-10: nvidia-utils 610.43.03 -> 610.57.04, old module still loaded.
    let probe = SystemProbe {
        nvidia_running: Some("610.43.03".into()),
        installed_now: installed(&[("nvidia-utils", "610.57.04-1")]),
        ..Default::default()
    };
    let out = assess(&cleared(&[("nvidia-utils", "610.57.04-1")]), &tier1(), &probe);
    assert_eq!(out.len(), 1);
    assert_eq!(
        out[0].basis,
        Basis::Verified { running: "610.43.03".into(), installed: "610.57.04".into() }
    );
    let text = render(&out).join("\n");
    assert!(text.contains("610.43.03"), "the running version must be shown: {}", text);
    assert!(text.contains("610.57.04"), "the installed version must be shown: {}", text);
    assert!(text.contains("verified"));
}

#[test]
fn systemd_running_behind_what_is_installed_is_verified() {
    let probe = SystemProbe {
        systemd_running: Some("260.4-1".into()),
        installed_now: installed(&[("systemd", "261.2-1")]),
        ..Default::default()
    };
    let out = assess(&cleared(&[("systemd", "261.2-1")]), &tier1(), &probe);
    assert_eq!(out.len(), 1);
    assert!(out[0].is_verified());
}

#[test]
fn an_unprobeable_package_is_announced_not_claimed() {
    let probe = SystemProbe {
        installed_now: installed(&[("mkinitcpio", "40-1")]),
        ..Default::default()
    };
    let out = assess(&cleared(&[("mkinitcpio", "40-1")]), &tier1(), &probe);
    assert_eq!(out.len(), 1);
    assert_eq!(out[0].basis, Basis::Installed);
    let text = render(&out).join("\n");
    assert!(text.contains("advice, not a finding"), "must not claim a finding: {}", text);
}

#[test]
fn nvidia_with_no_module_loaded_falls_back_to_announcing() {
    // nvidia_running is None — nog cannot see the running driver, so it must
    // not claim anything about it.
    let probe = SystemProbe {
        installed_now: installed(&[("nvidia-utils", "610.57.04-1")]),
        ..Default::default()
    };
    let out = assess(&cleared(&[("nvidia-utils", "610.57.04-1")]), &tier1(), &probe);
    assert_eq!(out.len(), 1);
    assert_eq!(out[0].basis, Basis::Installed);
}

#[test]
fn a_kernel_that_could_not_be_probed_is_announced() {
    let probe = SystemProbe {
        running_kernel_present: None,
        installed_now: installed(&[("linux", "7.0.6-1")]),
        ..Default::default()
    };
    let out = assess(&cleared(&[("linux", "7.0.6-1")]), &tier1(), &probe);
    assert_eq!(out.len(), 1);
    assert_eq!(out[0].basis, Basis::Installed);
}

// ---- the live half --------------------------------------------------



// ---- rendering ------------------------------------------------------

#[test]
fn the_banner_is_the_wording_javier_asked_for() {
    let probe = SystemProbe {
        installed_now: installed(&[("glibc", "2.44-1")]),
        ..Default::default()
    };
    let out = assess(&cleared(&[("glibc", "2.44-1")]), &tier1(), &probe);
    assert_eq!(
        render(&out)[0],
        "IMPORTANT: It is highly recommended to reboot the system!"
    );
}

#[test]
fn the_verb_agrees_with_the_number_of_packages() {
    let one = SystemProbe {
        installed_now: installed(&[("glibc", "2.44-1")]),
        ..Default::default()
    };
    let text = render(&assess(&cleared(&[("glibc", "2.44-1")]), &tier1(), &one)).join("\n");
    assert!(text.contains("glibc was updated"), "{}", text);

    let two = SystemProbe {
        installed_now: installed(&[("glibc", "2.44-1"), ("mkinitcpio", "40-1")]),
        ..Default::default()
    };
    let text = render(&assess(
        &cleared(&[("glibc", "2.44-1"), ("mkinitcpio", "40-1")]),
        &tier1(),
        &two,
    ))
    .join("\n");
    assert!(text.contains("glibc and mkinitcpio were updated"), "{}", text);
}

#[test]
fn a_session_only_update_never_says_reboot() {
    let probe = SystemProbe {
        installed_now: installed(&[("xorg-server", "21.1.19-1")]),
        ..Default::default()
    };
    let out = assess(&cleared(&[("xorg-server", "21.1.19-1")]), &tier1(), &probe);
    let text = render(&out).join("\n");
    assert!(text.contains("Log out and back in"), "{}", text);
    assert!(!text.contains("reboot the system"), "must not demand a reboot: {}", text);
}

#[test]
fn reboot_and_session_advice_can_appear_together_without_merging() {
    let probe = SystemProbe {
        installed_now: installed(&[("glibc", "2.44-1"), ("wayland", "1.25-1")]),
        ..Default::default()
    };
    let out = assess(&cleared(&[("glibc", "2.44-1"), ("wayland", "1.25-1")]), &tier1(), &probe);
    let text = render(&out).join("\n");
    assert!(text.contains("IMPORTANT:"));
    assert!(text.contains("NOTE:"));
    assert!(text.contains("glibc was updated"), "{}", text);
    assert!(text.contains("wayland was updated"), "{}", text);
}


#[test]
fn kernels_are_tier1_linux_packages_but_not_headers() {
    let t1 = tier1();
    assert!(is_kernel("linux", &t1));
    assert!(is_kernel("linux-zen", &t1));
    assert!(!is_kernel("linux-headers", &t1));
    assert!(!is_kernel("linux-lts", &t1)); // not pinned in this tier-1 list
    assert!(!is_kernel("glibc", &t1));
}

#[test]
fn installed_versions_split_at_the_first_space() {
    let t = parse_installed("linux 6.9.2.arch1-1\nlinux-headers 6.9.2.arch1-1\nbroken\n\nlinux 6.9.3.arch1-1\n");
    assert_eq!(t.get("linux").map(|s| s.as_str()), Some("6.9.3.arch1-1"));
    assert_eq!(t.get("linux-headers").map(|s| s.as_str()), Some("6.9.2.arch1-1"));
    assert_eq!(t.get("broken"), None);
    assert_eq!(t.len(), 2);
}

#[test]
fn updated_clause_agrees_in_number() {
    let v = |xs: &[&str]| -> Vec<Vec<char>> { xs.iter().map(|s| s.chars().collect()).collect() };
    let s = |c: Vec<char>| -> String { c.into_iter().collect() };
    assert_eq!(s(updated_clause(&v(&[]))), "");
    assert_eq!(s(updated_clause(&v(&["glibc"]))), "glibc was updated this run.");
    assert_eq!(s(updated_clause(&v(&["glibc", "mesa"]))), "glibc and mesa were updated this run.");
    assert_eq!(
        s(updated_clause(&v(&["glibc", "mesa", "systemd"]))),
        "glibc, mesa and systemd were updated this run."
    );
}
