use nog::sync_db::{
    copy_desc, detect_compression, enabled_repos, fallback_repos_from_disk, load_build_dates, merge_repo,
    parse_desc, read_repo, repo_packages, Compression, PackageDesc,
};
use nog::table::NameTable;
use std::io::Write;

const DESC: &str = "\
%NAME%
lib32-brotli

%VERSION%
1.2.0-2

%BASE%
lib32-brotli

%BUILDDATE%
1783600000
";

#[test]
fn parse_desc_reads_all_fields() {
    let (name, desc) = parse_desc(DESC).expect("desc should parse");
    assert_eq!(name, "lib32-brotli");
    assert_eq!(desc.builddate, 1783600000);
    assert_eq!(desc.pkgbase.as_deref(), Some("lib32-brotli"));
    assert_eq!(desc.version.as_deref(), Some("1.2.0-2"));
}

#[test]
fn parse_desc_tolerates_missing_version_and_base() {
    let contents = "%NAME%\nghost\n\n%BUILDDATE%\n1000\n";
    let (name, desc) = parse_desc(contents).expect("desc should parse");
    assert_eq!(name, "ghost");
    assert_eq!(desc.builddate, 1000);
    assert_eq!(desc.pkgbase, None);
    assert_eq!(desc.version, None);
}

#[test]
fn parse_desc_requires_name_and_builddate() {
    assert!(parse_desc("%NAME%\nonly-name\n").is_none());
    assert!(parse_desc("%BUILDDATE%\n1000\n").is_none());
}


// ── Sniffing, unpacking and merging ─────────────────────────────────────


fn desc_text(name: &str, version: &str, builddate: u64) -> String {
    format!("%NAME%\n{}\n\n%VERSION%\n{}\n\n%BUILDDATE%\n{}\n", name, version, builddate)
}

/// A tar archive holding the given `(path, contents)` members.
fn tar_of(members: &[(&str, &[u8])]) -> Vec<u8> {
    let mut builder = tar::Builder::new(Vec::new());
    for (path, contents) in members {
        let mut header = tar::Header::new_gnu();
        header.set_size(contents.len() as u64);
        header.set_mode(0o644);
        header.set_cksum();
        builder.append_data(&mut header, path, *contents).expect("append");
    }
    builder.into_inner().expect("finish tar")
}

fn gzip(bytes: &[u8]) -> Vec<u8> {
    let mut enc = flate2::write::GzEncoder::new(Vec::new(), flate2::Compression::default());
    enc.write_all(bytes).expect("gzip");
    enc.finish().expect("gzip finish")
}

fn sample_archive() -> Vec<u8> {
    let a = desc_text("vim", "9.1-1", 1700000000);
    let b = desc_text("htop", "3.3-1", 1700000100);
    tar_of(&[
        ("vim-9.1-1/desc", a.as_bytes()),
        ("vim-9.1-1/files", b"%FILES%\nusr/bin/vim\n"),
        ("htop-3.3-1/desc", b.as_bytes()),
        ("htop-3.3-1/descr", b"not a desc"),
    ])
}

#[test]
fn compression_is_sniffed_from_magic_bytes() {
    assert_eq!(detect_compression(&[0x1f, 0x8b, 0x08, 0x00, 0x00]), Ok(Compression::Gzip));
    assert_eq!(detect_compression(&[0x28, 0xb5, 0x2f, 0xfd]), Ok(Compression::Zstd));
}

#[test]
fn unknown_magic_is_reported_in_hex() {
    assert_eq!(
        detect_compression(b"PK\x03\x04rest"),
        Err("unrecognized compression (magic bytes: 50 4b 03 04)".to_string())
    );
    assert_eq!(
        detect_compression(&[0x1f]),
        Err("could not read magic bytes: failed to fill whole buffer".to_string())
    );
}

#[test]
fn gzip_database_is_read_into_a_package_table() {
    let db = gzip(&sample_archive());
    let t = read_repo(&db).expect("gzip db reads");
    assert_eq!(t.len(), 2);
    let vim = t.get("vim").expect("vim present");
    assert_eq!(vim.builddate, 1700000000);
    assert_eq!(vim.version.as_deref(), Some("9.1-1"));
    assert_eq!(t.get("htop").map(|d| d.builddate), Some(1700000100));
}

#[test]
fn zstd_database_is_read_into_a_package_table() {
    let db = zstd::stream::encode_all(&sample_archive()[..], 3).expect("zstd");
    let t = read_repo(&db).expect("zstd db reads");
    assert_eq!(t.len(), 2);
    assert_eq!(t.get("vim").map(|d| d.builddate), Some(1700000000));
}

#[test]
fn corrupt_database_fails_with_archive_error() {
    let mut db = vec![0x1f, 0x8b];
    db.extend_from_slice(b"definitely not deflate data");
    match read_repo(&db) {
        Err(e) => assert!(
            e.starts_with("entry read failed: ") || e.starts_with("archive read failed: "),
            "{}",
            e
        ),
        Ok(_) => panic!("corrupt gzip must fail"),
    }
    match read_repo(b"plain text") {
        Err(e) => assert_eq!(e, "unrecognized compression (magic bytes: 70 6c 61 69)"),
        Ok(_) => panic!("unknown format must fail"),
    }
}

#[test]
fn only_readable_desc_members_count_and_later_ones_win() {
    let first = desc_text("vim", "9.0-1", 1);
    let second = desc_text("vim", "9.1-1", 2);
    let members: Vec<(Vec<u8>, Option<Vec<u8>>)> = vec![
        (b"vim-9.0-1/desc".to_vec(), Some(first.into_bytes())),
        (b"vim-9.1-1/desc/".to_vec(), Some(second.into_bytes())),
        (b"broken/desc".to_vec(), None),
        (b"bad-utf8/desc".to_vec(), Some(vec![0xff, 0xfe])),
        (b"x/notdesc".to_vec(), Some(desc_text("x", "1", 3).into_bytes())),
    ];
    let t = repo_packages(&members);
    assert_eq!(t.len(), 1);
    assert_eq!(t.get("vim").map(|d| d.builddate), Some(2));
}

#[test]
fn enabled_repos_skip_options_in_file_order() {
    let conf = "[options]\nHoldPkg = pacman\n\n  [core]  \nInclude = x\n#[testing]\n[extra]\n[]\n[multilib]\n";
    assert_eq!(enabled_repos(conf), vec!["core".to_string(), "extra".to_string(), "multilib".to_string()]);
}

#[test]
fn fallback_repos_are_the_db_files() {
    let names: Vec<String> = ["core.db", "core.db.sig", "extra.db", "lock"].iter().map(|s| s.to_string()).collect();
    assert_eq!(fallback_repos_from_disk(&names), vec!["core".to_string(), "extra".to_string()]);
}

fn desc(builddate: u64) -> PackageDesc {
    PackageDesc { builddate, pkgbase: Some("base".to_string()), version: None, provides: vec!["p".to_string()] }
}

#[test]
fn first_repository_carrying_a_package_wins() {
    let mut all: NameTable<PackageDesc> = NameTable::new();
    all.insert("vim".to_string(), desc(1));
    let mut repo: NameTable<PackageDesc> = NameTable::new();
    repo.insert("vim".to_string(), desc(2));
    repo.insert("htop".to_string(), desc(3));
    merge_repo(&mut all, &repo);
    assert_eq!(all.len(), 2);
    assert_eq!(all.get("vim").map(|d| d.builddate), Some(1));
    assert_eq!(all.get("htop").map(|d| d.builddate), Some(3));
}

#[test]
fn copied_descriptions_keep_every_field() {
    let d = desc(7);
    let c = copy_desc(&d);
    assert_eq!(c.builddate, 7);
    assert_eq!(c.pkgbase.as_deref(), Some("base"));
    assert_eq!(c.version, None);
    assert_eq!(c.provides, vec!["p".to_string()]);
}

#[test]
fn build_dates_are_read_off_the_package_table() {
    let mut all: NameTable<PackageDesc> = NameTable::new();
    all.insert("vim".to_string(), desc(11));
    all.insert("htop".to_string(), desc(22));
    let dates = load_build_dates(&all);
    assert_eq!(dates.len(), 2);
    assert_eq!(dates.get("vim"), Some(&11));
    assert_eq!(dates.get("htop"), Some(&22));
    assert_eq!(dates.get("zsh"), None);
}

#[test]
fn desc_is_the_last_named_path_component() {
    let entry = |p: &str, name: &str| (p.as_bytes().to_vec(), Some(desc_text(name, "1-1", 9).into_bytes()));
    let members: Vec<(Vec<u8>, Option<Vec<u8>>)> = vec![
        entry("a-1-1/desc/./", "a"),
        entry("./b-1-1//desc", "b"),
        entry("desc", "c"),
        entry("d-1-1/desc/..", "d"),
        entry("e-1-1/xdesc", "e"),
        entry(".", "f"),
    ];
    let t = repo_packages(&members);
    assert_eq!(t.len(), 3);
    assert!(t.contains_key("a") && t.contains_key("b") && t.contains_key("c"));
}

#[test]
fn parse_desc_reads_the_providers() {
    let contents = "%NAME%\nlibbluray\n\n%PROVIDES%\nlibbluray.so=4-64\nbluray\n\n%BUILDDATE%\n5\n";
    let (name, desc) = parse_desc(contents).expect("desc should parse");
    assert_eq!(name, "libbluray");
    assert_eq!(desc.provides, vec!["libbluray.so=4-64".to_string(), "bluray".to_string()]);
    assert_eq!(desc.builddate, 5);
}

#[test]
fn trailing_bytes_after_the_archive_are_never_read() {
    // The walk stops at the archive's end marker, as the decoder streams it;
    // what follows the compressed stream is not looked at.
    let mut db = gzip(&sample_archive());
    db.extend_from_slice(b"garbage after the stream");
    let t = read_repo(&db).expect("the archive itself is intact");
    assert_eq!(t.len(), 2);
}

#[test]
fn zstd_garbage_is_a_walk_error() {
    let mut db = vec![0x28, 0xb5, 0x2f, 0xfd];
    db.extend_from_slice(b"not a zstd frame at all");
    match read_repo(&db) {
        Err(e) => assert!(
            e.starts_with("zstd decoder init failed: ")
                || e.starts_with("archive read failed: ")
                || e.starts_with("entry read failed: "),
            "{}",
            e
        ),
        Ok(_) => panic!("corrupt zstd must fail"),
    }
}
