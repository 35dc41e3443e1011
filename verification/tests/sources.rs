use nog::sources::{render, resolve_loaded, toggle_repo_section, RepoToggle, Source, SourceState, REPO_MARKER};




const CONF: &str = "\
[options]
HoldPkg = pacman glibc

[core]
Include = /etc/pacman.d/mirrorlist

[chaotic-aur]
Include = /etc/pacman.d/chaotic-mirrorlist

[multilib]
Include = /etc/pacman.d/mirrorlist
";

#[test]
fn deactivate_comments_exactly_the_chaotic_section() {
    let got = toggle_repo_section(CONF, "chaotic-aur", false);
    let RepoToggle::Changed(new) = got else { panic!("expected Changed, got {:?}", got) };
    assert!(new.contains("#nog# [chaotic-aur]"));
    assert!(new.contains("#nog# Include = /etc/pacman.d/chaotic-mirrorlist"));
    // Neighbors untouched:
    assert!(new.contains("\n[core]\n"));
    assert!(new.contains("\n[multilib]\n"));
    assert!(new.contains("HoldPkg = pacman glibc"));
}

#[test]
fn activate_restores_the_original_bytes() {
    let RepoToggle::Changed(disabled) = toggle_repo_section(CONF, "chaotic-aur", false)
        else { panic!() };
    let RepoToggle::Changed(restored) = toggle_repo_section(&disabled, "chaotic-aur", true)
        else { panic!() };
    assert_eq!(restored, CONF);
}

#[test]
fn toggle_is_idempotent_per_direction() {
    assert_eq!(toggle_repo_section(CONF, "chaotic-aur", true), RepoToggle::AlreadyInState);
    let RepoToggle::Changed(disabled) = toggle_repo_section(CONF, "chaotic-aur", false)
        else { panic!() };
    assert_eq!(toggle_repo_section(&disabled, "chaotic-aur", false), RepoToggle::AlreadyInState);
}

#[test]
fn missing_section_is_not_found() {
    assert_eq!(toggle_repo_section(CONF, "ghost-repo", false), RepoToggle::NotFound);
}

#[test]
fn section_at_end_of_file_and_user_comments_survive() {
    let conf = "[core]\nInclude = /etc/pacman.d/mirrorlist\n\n# my note\n[chaotic-aur]\n# user comment inside\nInclude = /etc/pacman.d/chaotic-mirrorlist\n";
    let RepoToggle::Changed(disabled) = toggle_repo_section(conf, "chaotic-aur", false)
        else { panic!() };
    // The user's note ABOVE the section is untouched; the comment INSIDE
    // the section gets the marker (and is restored on activate).
    assert!(disabled.contains("\n# my note\n"));
    assert!(disabled.contains("#nog# # user comment inside"));
    let RepoToggle::Changed(restored) = toggle_repo_section(&disabled, "chaotic-aur", true)
        else { panic!() };
    assert_eq!(restored, conf);
}



#[test]
fn loading_fails_closed_and_defaults_open() {
    let all_on = SourceState { aur: true, chaotic_aur: true, flatpak: true, snap: true };
    let all_off = SourceState { aur: false, chaotic_aur: false, flatpak: false, snap: false };
    assert_eq!(resolve_loaded(None), all_on);
    assert_eq!(SourceState::default(), all_on);
    assert_eq!(resolve_loaded(Some(Err("could not parse sources.toml".to_string()))), all_off);
    let partial = SourceState { aur: false, chaotic_aur: true, flatpak: true, snap: false };
    assert_eq!(resolve_loaded(Some(Ok(partial))), partial);
}

#[test]
fn one_switch_flips_and_the_others_stay() {
    let s = SourceState::default().with_flag(Source::Aur, false);
    assert!(!s.flag(Source::Aur));
    assert!(s.flag(Source::ChaoticAur) && s.flag(Source::Flatpak) && s.flag(Source::Snap));
    let back = s.with_flag(Source::Aur, true);
    assert_eq!(back, SourceState::default());
    let snap_off = SourceState::default().with_flag(Source::Snap, false);
    assert_eq!(snap_off, SourceState { aur: true, chaotic_aur: true, flatpak: true, snap: false });
}

#[test]
fn render_writes_the_canonical_file() {
    let s = SourceState { aur: false, chaotic_aur: true, flatpak: true, snap: false };
    assert_eq!(
        render(&s),
        "# Managed by `nog activate <source>` / `nog deactivate <source>`.\n\
         # A missing file or missing key means the source is ACTIVE.\n\
         [sources]\n\
         aur = false\n\
         \"chaotic-aur\" = true\n\
         flatpak = true\n\
         snap = false\n"
    );
}

#[test]
fn disabling_then_enabling_restores_a_section_with_blank_lines() {
    let conf = "[options]\nA = 1\n\n[chaotic-aur]\nInclude = /etc/pacman.d/chaotic-mirrorlist\n\nServer = x\n[extra]\nInclude = y\n";
    let disabled = match toggle_repo_section(conf, "chaotic-aur", false) {
        RepoToggle::Changed(d) => d,
        other => panic!("expected a change, got {:?}", other),
    };
    assert!(disabled.contains(&format!("{}[chaotic-aur]", REPO_MARKER)));
    assert!(disabled.contains("\n\n#nog# Server = x\n[extra]\n"));
    assert_eq!(toggle_repo_section(&disabled, "chaotic-aur", true), RepoToggle::Changed(conf.to_string()));
}

#[test]
fn line_endings_outside_and_inside_the_section_are_kept() {
    let conf = "[options]\r\nA = 1\r\n\r\n[chaotic-aur]\r\nInclude = x\r\n[extra]\r\nInclude = y";
    let disabled = match toggle_repo_section(conf, "chaotic-aur", false) {
        RepoToggle::Changed(d) => d,
        other => panic!("expected a change, got {:?}", other),
    };
    assert_eq!(
        disabled,
        "[options]\r\nA = 1\r\n\r\n#nog# [chaotic-aur]\r\n#nog# Include = x\r\n[extra]\r\nInclude = y"
    );
    assert_eq!(toggle_repo_section(&disabled, "chaotic-aur", true), RepoToggle::Changed(conf.to_string()));
}
