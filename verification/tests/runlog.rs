use nog::runlog::{
    csv_field, cutoff_date_arg, date_stamp_from, expand_home_with, filename_for, log_date,
    prune_candidates, render_run, run_log_body, RunRecord, RunRow, CSV_HEADER, RETENTION_DAYS,
};

fn record(rows: Vec<RunRow>, outcome: &str) -> RunRecord {
    RunRecord {
        date: "07/29/2026".into(),
        time: "10:15 AM".into(),
        user: "jetomev".into(),
        rows,
        outcome: outcome.into(),
    }
}

#[test]
fn csv_field_quotes_only_when_needed() {
    assert_eq!(csv_field("plain-1.2.3"), "plain-1.2.3");
    assert_eq!(csv_field("has,comma"), "\"has,comma\"");
    assert_eq!(csv_field("has \"quote\""), "\"has \"\"quote\"\"\"");
    assert_eq!(csv_field("line\nbreak"), "\"line\nbreak\"");
}

#[test]
fn render_run_mirrors_table_columns() {
    let rec = record(vec![
        RunRow {
            bucket: "ready".into(),
            package: "libnm".into(),
            old_version: "1.56.1-1".into(),
            new_version: "1.56.1-2".into(),
            tier: "2".into(),
            note: "9 days past window".into(),
        },
        RunRow {
            bucket: "held".into(),
            package: "lib32-nvidia-utils".into(),
            old_version: "580.65-1".into(),
            new_version: "580.76-1".into(),
            tier: "1".into(),
            note: "coupled to nvidia-utils · 12 days".into(),
        },
    ], "installed");
    let csv = render_run(&rec);
    let lines: Vec<&str> = csv.lines().collect();
    assert_eq!(lines.len(), 2);
    assert_eq!(
        lines[0],
        "07/29/2026,10:15 AM,jetomev,ready,libnm,1.56.1-1,1.56.1-2,2,9 days past window,installed"
    );
    // Every line carries the full run context and the outcome last.
    assert!(lines[1].starts_with("07/29/2026,10:15 AM,jetomev,held,lib32-nvidia-utils,"));
    assert!(lines[1].ends_with(",installed"));
    // Field count survives the note's interpunct (no stray commas).
    assert_eq!(lines[0].split(',').count(), 10);
}

#[test]
fn render_run_empty_emits_marker_line() {
    let csv = render_run(&record(vec![], "up to date"));
    assert_eq!(csv, "07/29/2026,10:15 AM,jetomev,,,,,,,up to date\n");
}

#[test]
fn render_run_quotes_comma_notes() {
    let rec = record(vec![RunRow {
        bucket: "held".into(),
        package: "systemd".into(),
        old_version: "257.7-1".into(),
        new_version: "258.1-1".into(),
        tier: "1".into(),
        note: "manual sign-off required, run `nog unlock` to release".into(),
    }], "cancelled");
    let csv = render_run(&rec);
    assert!(csv.contains("\"manual sign-off required, run `nog unlock` to release\""));
    // The quoted comma must not change the parsed field count. Cheap
    // check: splitting on `","` boundaries is overkill here; instead
    // confirm exactly one quoted region exists.
    assert_eq!(csv.matches('"').count(), 2);
}

#[test]
fn filename_matches_roadmap_convention() {
    assert_eq!(filename_for("20260729"), "20260729 nog-update.log");
}

#[test]
fn prune_selects_only_expired_run_logs() {
    let names: Vec<String> = vec![
        "20260401 nog-update.log".into(), // before cutoff — prune
        "20260430 nog-update.log".into(), // day before cutoff — prune
        "20260501 nog-update.log".into(), // exactly cutoff — keep
        "20260729 nog-update.log".into(), // fresh — keep
        "notes.txt".into(),               // foreign file — never touch
        "2026 nog-update.log".into(),     // malformed stamp — never touch
        "20260401 something-else.log".into(), // wrong suffix — never touch
    ];
    let pruned = prune_candidates(&names, "20260501");
    assert_eq!(pruned, vec!["20260401 nog-update.log", "20260430 nog-update.log"]);
}



#[test]
fn expand_home_only_touches_tilde_prefix() {
    let home = Some("/home/testuser");
    assert_eq!(expand_home_with("~/.local/share/nog/logs", home), "/home/testuser/.local/share/nog/logs");
    assert_eq!(expand_home_with("/var/tmp/logs", home), "/var/tmp/logs");
}

#[test]
fn tilde_stays_when_home_is_unknown() {
    assert_eq!(expand_home_with("~/logs", None), "~/logs");
    assert_eq!(expand_home_with("~user/logs", Some("/home/x")), "~user/logs");
}

#[test]
fn a_new_file_starts_with_the_header() {
    let rec = record(vec![], "declined");
    let body = run_log_body(true, &rec);
    assert_eq!(body, format!("{}\n07/29/2026,10:15 AM,jetomev,,,,,,,declined\n", CSV_HEADER));
    assert_eq!(run_log_body(false, &rec), "07/29/2026,10:15 AM,jetomev,,,,,,,declined\n");
    assert_eq!(CSV_HEADER.split(',').count(), 10);
}

#[test]
fn log_file_names_carry_their_date() {
    assert_eq!(log_date("20260729 nog-update.log"), Some("20260729".to_string()));
    assert_eq!(log_date("2026072 nog-update.log"), None);
    assert_eq!(log_date("2026o729 nog-update.log"), None);
    assert_eq!(log_date("20260729 nog-update.log.bak"), None);
    assert_eq!(log_date("notes.txt"), None);
}

#[test]
fn retention_cutoff_asks_date_for_ninety_days_ago() {
    assert_eq!(RETENTION_DAYS, 90);
    assert_eq!(cutoff_date_arg(), "90 days ago");
}

#[test]
fn date_replies_must_be_eight_digits() {
    assert_eq!(date_stamp_from("20260729\n"), Some("20260729".to_string()));
    assert_eq!(date_stamp_from("  20260729  "), Some("20260729".to_string()));
    assert_eq!(date_stamp_from("2026-07-29\n"), None);
    assert_eq!(date_stamp_from(""), None);
    assert_eq!(date_stamp_from("202607291"), None);
}
