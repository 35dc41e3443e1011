//! Package metadata from pacman's sync databases.
//!
//! A sync database is a gzip- or zstd-compressed tar archive with one
//! directory per package; each directory holds a `desc` file of `%KEY%`
//! blocks. This module sniffs the compression, unpacks the archive through
//! the `flate2`, `zstd` and `tar` crates, and parses every `desc` entry into
//! a [`PackageDesc`]. Reading the files from disk is left to the caller.
use crate::local_db::local_scan;
use crate::table::NameTable;
use crate::text::{
    chars_of, cviews, ends_with, lines, lines_of, parse_u64, parse_u64_spec, push_str, same_str, slice,
    starts_with, string_of, strip_suffix_str, trim, trim_chars, views,
};
use vstd::prelude::*;

verus! {

/// Per-package metadata from a sync-database `desc` entry.
#[derive(Debug, Clone)]
pub struct PackageDesc {
    /// `%BUILDDATE%`, Unix seconds.
    pub builddate: u64,
    /// `%BASE%`: the PKGBUILD the package was built from.
    pub pkgbase: Option<String>,
    /// `%VERSION%` (`epoch:pkgver-pkgrel`) of this entry.
    pub version: Option<String>,
    /// `%PROVIDES%`: what this version provides (sonames among them).
    pub provides: Vec<String>,
}

pub open spec fn opt_view(o: Option<String>) -> Option<Seq<char>> {
    match o {
        Some(s) => Some(s@),
        None => None,
    }
}

/// The fields of a desc entry that the parser reads: build date, base,
/// version, providers.
pub type DescFields = (u64, Option<Seq<char>>, Option<Seq<char>>, Seq<Seq<char>>);

pub open spec fn desc_fields(d: PackageDesc) -> DescFields {
    (d.builddate, opt_view(d.pkgbase), opt_view(d.version), views(d.provides@))
}

// ---------------------------------------------------------------------------
// desc parsing
// ---------------------------------------------------------------------------

/// Which value the next line holds: 0 none, 1 `%NAME%`, 2 `%VERSION%`,
/// 3 `%BUILDDATE%`, 4 `%BASE%`.
pub open spec fn desc_key(t: Seq<char>) -> int {
    if t == "%NAME%"@ {
        1
    } else if t == "%VERSION%"@ {
        2
    } else if t == "%BUILDDATE%"@ {
        3
    } else if t == "%BASE%"@ {
        4
    } else {
        0
    }
}

/// Scanning state: (pending key, name, build date, base, version).
pub type DescScan = (int, Option<Seq<char>>, Option<u64>, Option<Seq<char>>, Option<Seq<char>>);

/// One line of a desc file. A key line makes the next line its value,
/// whatever that line holds; a `%VERSION%` or `%BASE%` value that trims to
/// nothing, or a `%BUILDDATE%` value that is not a `u64`, leaves the field
/// as it was.
pub open spec fn desc_step(st: DescScan, line: Seq<char>) -> DescScan {
    let v = trim(line);
    if st.0 == 1 {
        (0, Some(v), st.2, st.3, st.4)
    } else if st.0 == 2 {
        (0, st.1, st.2, st.3, if v.len() > 0 {
            Some(v)
        } else {
            st.4
        })
    } else if st.0 == 3 {
        (0, st.1, match parse_u64_spec(v) {
            Some(n) => Some(n),
            None => st.2,
        }, st.3, st.4)
    } else if st.0 == 4 {
        (0, st.1, st.2, if v.len() > 0 {
            Some(v)
        } else {
            st.3
        }, st.4)
    } else {
        (desc_key(v), st.1, st.2, st.3, st.4)
    }
}

pub open spec fn desc_scan(ls: Seq<Seq<char>>) -> DescScan
    decreases ls.len(),
{
    if ls.len() == 0 {
        (0, None, None, None, None)
    } else {
        desc_step(desc_scan(ls.drop_last()), ls.last())
    }
}

/// The `%PROVIDES%` block of a desc file, read as the local database's
/// desc files are; empty when that reading finds no `%NAME%`.
pub open spec fn provides_of(contents: Seq<char>) -> Seq<Seq<char>> {
    let st = local_scan(lines(contents));
    if st.1 is Some {
        st.2
    } else {
        seq![]
    }
}

/// What `parse_desc` finds in a desc file: the name and the fields, when
/// both `%NAME%` and a valid `%BUILDDATE%` were present.
pub open spec fn parse_desc_spec(contents: Seq<char>) -> Option<(Seq<char>, DescFields)> {
    let st = desc_scan(lines(contents));
    match (st.1, st.2) {
        (Some(n), Some(d)) => Some((n, (d, st.3, st.4, provides_of(contents)))),
        _ => None,
    }
}

fn opt_string(o: &Option<Vec<char>>) -> (r: Option<String>)
    ensures
        opt_view(r) == match o {
            Some(v) => Some(v@),
            None => None::<Seq<char>>,
        },
{
    match o {
        Some(v) => Some(string_of(v)),
        None => None,
    }
}

/// Parse the `%NAME%`, `%VERSION%`, `%BUILDDATE%`, `%BASE%` and
/// `%PROVIDES%` fields of a sync-database desc file. `None` without a name
/// or a valid build date; the others are optional.
pub fn parse_desc(contents: &str) -> (r: Option<(String, PackageDesc)>)
    ensures
        match r {
            Some((n, d)) => parse_desc_spec(contents@) == Some((n@, desc_fields(d))),
            None => parse_desc_spec(contents@) is None,
        },
{
    let text = chars_of(contents);
    let ls = lines_of(&text);
    let ghost lv = cviews(ls@);
    let mut pending: u8 = 0;
    let mut name: Option<Vec<char>> = None;
    let mut date: Option<u64> = None;
    let mut base: Option<Vec<char>> = None;
    let mut version: Option<Vec<char>> = None;
    let mut i: usize = 0;
    while i < ls.len()
        invariant
            i <= ls.len(),
            lv == cviews(ls@),
            lv == lines(contents@),
            desc_scan(lv.take(i as int)) == (
                pending as int,
                match name {
                    Some(v) => Some(v@),
                    None => None::<Seq<char>>,
                },
                date,
                match base {
                    Some(v) => Some(v@),
                    None => None::<Seq<char>>,
                },
                match version {
                    Some(v) => Some(v@),
                    None => None::<Seq<char>>,
                },
            ),
        decreases ls.len() - i,
    {
        assert(lv.take(i + 1).drop_last() =~= lv.take(i as int));
        assert(lv.take(i + 1).last() == ls@[i as int]@);
        let v = trim_chars(&ls[i]);
        if pending == 1 {
            name = Some(v);
            pending = 0;
        } else if pending == 2 {
            if v.len() > 0 {
                version = Some(v);
            }
            pending = 0;
        } else if pending == 3 {
            match parse_u64(&v) {
                Some(n) => {
                    date = Some(n);
                },
                None => {},
            }
            pending = 0;
        } else if pending == 4 {
            if v.len() > 0 {
                base = Some(v);
            }
            pending = 0;
        } else if same_str(&v, "%NAME%") {
            pending = 1;
        } else if same_str(&v, "%VERSION%") {
            pending = 2;
        } else if same_str(&v, "%BUILDDATE%") {
            pending = 3;
        } else if same_str(&v, "%BASE%") {
            pending = 4;
        }
        i += 1;
    }
    assert(lv.take(i as int) =~= lv);
    let provides = match crate::local_db::parse_desc(contents) {
        Some((_, d)) => d.provides,
        None => Vec::new(),
    };
    match (name, date) {
        (Some(n), Some(d)) => {
            let desc = PackageDesc {
                builddate: d,
                pkgbase: opt_string(&base),
                version: opt_string(&version),
                provides,
            };
            Some((string_of(&n), desc))
        },
        _ => None,
    }
}

// ---------------------------------------------------------------------------
// pacman.conf
// ---------------------------------------------------------------------------

/// The repository named by a trimmed `pacman.conf` line, if it is a section
/// header other than `[options]`.
pub open spec fn section_repo(t: Seq<char>) -> Option<Seq<char>> {
    if t.len() >= 2 && t[0] == '[' && t.last() == ']' {
        let name = t.subrange(1, t.len() - 1);
        if name.len() > 0 && name != "options"@ {
            Some(name)
        } else {
            None
        }
    } else {
        None
    }
}

pub open spec fn repos_in(ls: Seq<Seq<char>>) -> Seq<Seq<char>>
    decreases ls.len(),
{
    if ls.len() == 0 {
        seq![]
    } else {
        match section_repo(trim(ls.last())) {
            Some(n) => repos_in(ls.drop_last()).push(n),
            None => repos_in(ls.drop_last()),
        }
    }
}

/// The enabled repositories of a `pacman.conf`, in file order: every
/// `[section]` header except `[options]`.
pub fn enabled_repos(conf: &str) -> (r: Vec<String>)
    ensures
        views(r@) == repos_in(lines(conf@)),
{
    let text = chars_of(conf);
    let ls = lines_of(&text);
    let ghost lv = cviews(ls@);
    let mut out: Vec<String> = Vec::new();
    let mut i: usize = 0;
    while i < ls.len()
        invariant
            i <= ls.len(),
            lv == cviews(ls@),
            lv == lines(conf@),
            views(out@) == repos_in(lv.take(i as int)),
        decreases ls.len() - i,
    {
        assert(lv.take(i + 1).drop_last() =~= lv.take(i as int));
        assert(lv.take(i + 1).last() == ls@[i as int]@);
        let t = trim_chars(&ls[i]);
        if t.len() >= 2 && t[0] == '[' && t[t.len() - 1] == ']' {
            let name = slice(&t, 1, t.len() - 1);
            if name.len() > 0 && !same_str(&name, "options") {
                let ghost before = views(out@);
                out.push(string_of(&name));
                assert(views(out@) =~= before.push(name@));
            }
        }
        i += 1;
    }
    assert(lv.take(i as int) =~= lv);
    out
}

pub open spec fn db_repos(names: Seq<Seq<char>>) -> Seq<Seq<char>>
    decreases names.len(),
{
    if names.len() == 0 {
        seq![]
    } else {
        let n = names.last();
        if ends_with(n, ".db"@) {
            db_repos(names.drop_last()).push(n.take(n.len() - ".db"@.len()))
        } else {
            db_repos(names.drop_last())
        }
    }
}

/// The repositories of a sync directory listing: every `<repo>.db` file name,
/// suffix removed, in listing order.
pub fn fallback_repos_from_disk(file_names: &[String]) -> (r: Vec<String>)
    ensures
        views(r@) == db_repos(views(file_names@)),
{
    let ghost nv = views(file_names@);
    let mut out: Vec<String> = Vec::new();
    let mut i: usize = 0;
    while i < file_names.len()
        invariant
            i <= file_names.len(),
            nv == views(file_names@),
            views(out@) == db_repos(nv.take(i as int)),
        decreases file_names.len() - i,
    {
        assert(nv.take(i + 1).drop_last() =~= nv.take(i as int));
        let n = chars_of(file_names[i].as_str());
        match strip_suffix_str(&n, ".db") {
            Some(repo) => {
                let ghost before = views(out@);
                out.push(string_of(&repo));
                assert(views(out@) =~= before.push(repo@));
            },
            None => {},
        }
        i += 1;
    }
    assert(nv.take(i as int) =~= nv);
    out
}

// ---------------------------------------------------------------------------
// Compression
// ---------------------------------------------------------------------------

/// Compression of a sync database.
#[derive(Debug, Clone, Copy, PartialEq, Eq, Structural)]
pub enum Compression {
    Gzip,
    Zstd,
}

/// Gzip starts with `1f 8b`, zstd with `28 b5 2f fd`.
pub open spec fn compression_of(magic: Seq<u8>) -> Option<Compression> {
    if magic.len() < 4 {
        None
    } else if magic[0] == 0x1f && magic[1] == 0x8b {
        Some(Compression::Gzip)
    } else if magic[0] == 0x28 && magic[1] == 0xb5 && magic[2] == 0x2f && magic[3] == 0xfd {
        Some(Compression::Zstd)
    } else {
        None
    }
}

pub open spec fn hex_digit(d: int) -> char {
    if d < 10 {
        (48 + d) as char
    } else {
        (87 + d) as char
    }
}

/// Two lowercase hex digits, as `{:02x}` prints a byte.
pub open spec fn hex2(b: u8) -> Seq<char> {
    seq![hex_digit(b as int / 16), hex_digit(b as int % 16)]
}

pub open spec fn magic_error(magic: Seq<u8>) -> Seq<char> {
    "unrecognized compression (magic bytes: "@ + hex2(magic[0]) + seq![' '] + hex2(magic[1]) + seq![
        ' ',
    ] + hex2(magic[2]) + seq![' '] + hex2(magic[3]) + ")"@
}

fn push_hex2(out: &mut Vec<char>, b: u8)
    ensures
        final(out)@ == old(out)@ + hex2(b),
{
    let hi = b / 16;
    let lo = b % 16;
    let ch = if hi < 10 {
        (48 + hi) as char
    } else {
        (87 + hi) as char
    };
    let cl = if lo < 10 {
        (48 + lo) as char
    } else {
        (87 + lo) as char
    };
    out.push(ch);
    out.push(cl);
    assert(out@ =~= old(out)@ + hex2(b));
}

/// The message of a database whose compression cannot be sniffed.
pub open spec fn sniff_error(data: Seq<u8>, e: Seq<char>) -> bool {
    &&& data.len() < 4 ==> e == "could not read magic bytes: failed to fill whole buffer"@
    &&& data.len() >= 4 ==> e == magic_error(data)
}

/// Sniff the compression of a database from its first four bytes.
pub fn detect_compression(data: &[u8]) -> (r: Result<Compression, String>)
    ensures
        match r {
            Ok(c) => compression_of(data@) == Some(c),
            Err(e) => compression_of(data@) is None && sniff_error(data@, e@),
        },
{
    if data.len() < 4 {
        return Err("could not read magic bytes: failed to fill whole buffer".to_string());
    }
    if data[0] == 0x1f && data[1] == 0x8b {
        Ok(Compression::Gzip)
    } else if data[0] == 0x28 && data[1] == 0xb5 && data[2] == 0x2f && data[3] == 0xfd {
        Ok(Compression::Zstd)
    } else {
        let mut out: Vec<char> = Vec::new();
        push_str(&mut out, "unrecognized compression (magic bytes: ");
        push_hex2(&mut out, data[0]);
        out.push(' ');
        push_hex2(&mut out, data[1]);
        out.push(' ');
        push_hex2(&mut out, data[2]);
        out.push(' ');
        push_hex2(&mut out, data[3]);
        push_str(&mut out, ")");
        assert(out@ =~= magic_error(data@));
        Err(string_of(&out))
    }
}

// ---------------------------------------------------------------------------
// Archive contents (outside crates)
// ---------------------------------------------------------------------------

/// The members that `tar::Archive::entries` walks in the archive that
/// `flate2::read::GzDecoder` streams out of a byte string: each member's raw
/// path bytes and its contents (`None` where reading them failed); `None`
/// where the walk reports an error.
pub uninterp spec fn gz_archive_members(data: Seq<u8>) -> Option<Seq<(Seq<u8>, Option<Seq<u8>>)>>;

/// The same walk over the archive that `zstd::stream::Decoder` streams out
/// of a byte string; `None` where the decoder cannot start or the walk
/// reports an error.
pub uninterp spec fn zstd_archive_members(data: Seq<u8>) -> Option<Seq<(Seq<u8>, Option<Seq<u8>>)>>;

/// `std::str::from_utf8`: the characters of a byte string that is valid
/// UTF-8, `None` otherwise.
pub uninterp spec fn utf8_text(bytes: Seq<u8>) -> Option<Seq<char>>;

pub open spec fn member_views(m: Seq<(Vec<u8>, Option<Vec<u8>>)>) -> Seq<(Seq<u8>, Option<Seq<u8>>)> {
    m.map_values(
        |e: (Vec<u8>, Option<Vec<u8>>)|
            (
                e.0@,
                match e.1 {
                    Some(b) => Some(b@),
                    None => None,
                },
            ),
    )
}

/// Where a streamed archive walk stopped: the decoder could not start, the
/// archive could not be opened, or an entry could not be read.
pub enum WalkError {
    DecoderInit(String),
    Archive(String),
    Entry(String),
}

/// Walks `tar::Archive::new(GzDecoder::new(data)).entries()`, taking each
/// entry's `path_bytes()` and reading its contents with `read_to_end`, as
/// the decoder streams them. Claims only that the list is the walk's
/// result, named `gz_archive_members`; the text of an error is not stated.
#[verifier::external_body]
fn gz_members(data: &[u8]) -> (r: Result<Vec<(Vec<u8>, Option<Vec<u8>>)>, WalkError>)
    ensures
        match r {
            Ok(m) => gz_archive_members(data@) == Some(member_views(m@)),
            Err(e) => gz_archive_members(data@) is None && !(e is DecoderInit),
        },
{
    let mut archive = tar::Archive::new(flate2::read::GzDecoder::new(data));
    let mut out: Vec<(Vec<u8>, Option<Vec<u8>>)> = Vec::new();
    for entry in archive.entries().map_err(|e| WalkError::Archive(e.to_string()))? {
        let mut entry = entry.map_err(|e| WalkError::Entry(e.to_string()))?;
        let path = entry.path_bytes().into_owned();
        let mut buf: Vec<u8> = Vec::new();
        let contents = std::io::Read::read_to_end(&mut entry, &mut buf).ok().map(|_| buf);
        out.push((path, contents));
    }
    Ok(out)
}

/// Walks `tar::Archive::new(zstd::stream::Decoder::new(data)?).entries()`
/// the same way. Claims only that the list is the walk's result, named
/// `zstd_archive_members`; the text of an error is not stated.
#[verifier::external_body]
fn zstd_members(data: &[u8]) -> (r: Result<Vec<(Vec<u8>, Option<Vec<u8>>)>, WalkError>)
    ensures
        match r {
            Ok(m) => zstd_archive_members(data@) == Some(member_views(m@)),
            Err(_) => zstd_archive_members(data@) is None,
        },
{
    let decoder = zstd::stream::Decoder::new(data).map_err(|e| WalkError::DecoderInit(e.to_string()))?;
    let mut archive = tar::Archive::new(decoder);
    let mut out: Vec<(Vec<u8>, Option<Vec<u8>>)> = Vec::new();
    for entry in archive.entries().map_err(|e| WalkError::Archive(e.to_string()))? {
        let mut entry = entry.map_err(|e| WalkError::Entry(e.to_string()))?;
        let path = entry.path_bytes().into_owned();
        let mut buf: Vec<u8> = Vec::new();
        let contents = std::io::Read::read_to_end(&mut entry, &mut buf).ok().map(|_| buf);
        out.push((path, contents));
    }
    Ok(out)
}

/// Calls `std::str::from_utf8(bytes)` and copies the text. Claims only that
/// the result is named `utf8_text`.
#[verifier::external_body]
fn decode_utf8(bytes: &[u8]) -> (r: Option<String>)
    ensures
        match r {
            Some(s) => utf8_text(bytes@) == Some(s@),
            None => utf8_text(bytes@) is None,
        },
{
    std::str::from_utf8(bytes).ok().map(|s| s.to_string())
}

// ---------------------------------------------------------------------------
// One repository
// ---------------------------------------------------------------------------

/// A path with its trailing empty and `.` components removed: what is
/// left ends in the path's last named component (or is empty, or `.`).
pub open spec fn trim_slashes(p: Seq<u8>) -> Seq<u8>
    decreases p.len(),
{
    if p.len() > 0 && p.last() == 0x2f {
        trim_slashes(p.drop_last())
    } else if p.len() >= 2 && p.last() == 0x2e && p[p.len() - 2] == 0x2f {
        trim_slashes(p.take(p.len() - 2))
    } else {
        p
    }
}

/// Is the last named component of a member path `desc`? This is
/// `Path::file_name() == Some("desc")`: empty and `.` components do not
/// count, and a trailing `..` names nothing.
pub open spec fn is_desc_path(p: Seq<u8>) -> bool {
    let t = trim_slashes(p);
    t.len() >= 4 && t.skip(t.len() - 4) == seq![0x64u8, 0x65u8, 0x73u8, 0x63u8] && (t.len() == 4
        || t[t.len() - 5] == 0x2f)
}

/// The desc entry a member contributes, if any.
pub open spec fn member_desc(m: (Seq<u8>, Option<Seq<u8>>)) -> Option<
    (Seq<char>, DescFields),
> {
    if is_desc_path(m.0) {
        match m.1 {
            Some(bytes) => match utf8_text(bytes) {
                Some(text) => parse_desc_spec(text),
                None => None,
            },
            None => None,
        }
    } else {
        None
    }
}

/// The package map of a repository's members: later entries of a name
/// replace earlier ones.
pub open spec fn repo_map(ms: Seq<(Seq<u8>, Option<Seq<u8>>)>) -> Map<
    Seq<char>,
    DescFields,
>
    decreases ms.len(),
{
    if ms.len() == 0 {
        Map::empty()
    } else {
        match member_desc(ms.last()) {
            Some((n, f)) => repo_map(ms.drop_last()).insert(n, f),
            None => repo_map(ms.drop_last()),
        }
    }
}

/// A package table whose entries carry exactly the given fields.
pub open spec fn table_holds(
    t: Map<Seq<char>, PackageDesc>,
    m: Map<Seq<char>, DescFields>,
) -> bool {
    &&& t.dom() == m.dom()
    &&& forall|k: Seq<char>| #[trigger] t.contains_key(k) ==> desc_fields(t[k]) == m[k]
}

/// The members of a database file's archive, streamed through the
/// decoder its magic bytes name.
pub open spec fn db_members(data: Seq<u8>) -> Option<Seq<(Seq<u8>, Option<Seq<u8>>)>> {
    match compression_of(data) {
        Some(Compression::Gzip) => gz_archive_members(data),
        Some(Compression::Zstd) => zstd_archive_members(data),
        None => None,
    }
}

/// The message of a failed walk.
pub open spec fn walk_error_text(e: Seq<char>) -> bool {
    ||| starts_with(e, "zstd decoder init failed: "@)
    ||| starts_with(e, "archive read failed: "@)
    ||| starts_with(e, "entry read failed: "@)
}

fn is_desc_member(p: &Vec<u8>) -> (b: bool)
    ensures
        b == is_desc_path(p@),
{
    let mut n = p.len();
    assert(p@.take(n as int) =~= p@);
    loop
        invariant
            n <= p.len(),
            trim_slashes(p@) == trim_slashes(p@.take(n as int)),
        ensures
            n <= p.len(),
            trim_slashes(p@) == trim_slashes(p@.take(n as int)),
            !(n > 0 && p@[n - 1] == 0x2f),
            !(n >= 2 && p@[n - 1] == 0x2e && p@[n - 2] == 0x2f),
        decreases n,
    {
        if n > 0 && p[n - 1] == 0x2f {
            assert(p@.take(n as int).drop_last() =~= p@.take(n - 1));
            n -= 1;
        } else if n >= 2 && p[n - 1] == 0x2e && p[n - 2] == 0x2f {
            assert(p@.take(n as int).take(n - 2) =~= p@.take(n - 2));
            n -= 2;
        } else {
            break;
        }
    }
    let ghost t = p@.take(n as int);
    assert(trim_slashes(t) == t);
    if n < 4 {
        return false;
    }
    let ok = p[n - 4] == 0x64 && p[n - 3] == 0x65 && p[n - 2] == 0x73 && p[n - 1] == 0x63 && (n
        == 4 || p[n - 5] == 0x2f);
    assert(ok ==> t.skip(t.len() - 4) =~= seq![0x64u8, 0x65u8, 0x73u8, 0x63u8]);
    assert(t.skip(t.len() - 4) == seq![0x64u8, 0x65u8, 0x73u8, 0x63u8] ==> t.skip(t.len() - 4)[0]
        == 0x64u8 && t.skip(t.len() - 4)[1] == 0x65u8 && t.skip(t.len() - 4)[2] == 0x73u8 && t.skip(
        t.len() - 4,
    )[3] == 0x63u8);
    ok
}

/// Parse the desc entries of an unpacked repository archive into a package
/// table; a later entry of the same name replaces an earlier one.
pub fn repo_packages(members: &Vec<(Vec<u8>, Option<Vec<u8>>)>) -> (t: NameTable<PackageDesc>)
    ensures
        table_holds(t@, repo_map(member_views(members@))),
{
    let ghost mv = member_views(members@);
    let mut t: NameTable<PackageDesc> = NameTable::new();
    let mut i: usize = 0;
    while i < members.len()
        invariant
            i <= members.len(),
            mv == member_views(members@),
            table_holds(t@, repo_map(mv.take(i as int))),
        decreases members.len() - i,
    {
        assert(mv.take(i + 1).drop_last() =~= mv.take(i as int));
        assert(mv.take(i + 1).last() == mv[i as int]);
        let ghost before = t@;
        let ghost bm = repo_map(mv.take(i as int));
        let (path, contents) = &members[i];
        if is_desc_member(path) {
            match contents {
                Some(bytes) => match decode_utf8(bytes.as_slice()) {
                    Some(text) => match parse_desc(text.as_str()) {
                        Some((n, d)) => {
                            let ghost nv = n@;
                            t.insert(n, d);
                            assert(t@.dom() =~= bm.insert(nv, desc_fields(d)).dom());
                        },
                        None => {},
                    },
                    None => {},
                },
                None => {},
            }
        }
        i += 1;
    }
    assert(mv.take(i as int) =~= mv);
    t
}

/// Read one repository database: sniff its compression, walk the archive
/// as the decoder streams it, and parse every desc entry. Fails with the
/// sniffing error, or with `zstd decoder init failed: ...`,
/// `archive read failed: ...` or `entry read failed: ...` when the walk
/// stops.
pub fn read_repo(data: &[u8]) -> (r: Result<NameTable<PackageDesc>, String>)
    ensures
        match r {
            Ok(t) => db_members(data@) is Some && table_holds(t@, repo_map(db_members(data@)->0)),
            Err(e) => {
                &&& db_members(data@) is None
                &&& compression_of(data@) is None ==> sniff_error(data@, e@)
                &&& compression_of(data@) is Some ==> walk_error_text(e@)
            },
        },
{
    let c = match detect_compression(data) {
        Ok(c) => c,
        Err(e) => {
            return Err(e);
        },
    };
    let walked = match c {
        Compression::Gzip => gz_members(data),
        Compression::Zstd => zstd_members(data),
    };
    match walked {
        Ok(members) => Ok(repo_packages(&members)),
        Err(WalkError::DecoderInit(d)) => Err(prefixed("zstd decoder init failed: ", d.as_str())),
        Err(WalkError::Archive(d)) => Err(prefixed("archive read failed: ", d.as_str())),
        Err(WalkError::Entry(d)) => Err(prefixed("entry read failed: ", d.as_str())),
    }
}

/// `<head><detail>`.
fn prefixed(head: &str, detail: &str) -> (r: String)
    ensures
        r@ == head@ + detail@,
        starts_with(r@, head@),
{
    let mut msg: Vec<char> = Vec::new();
    push_str(&mut msg, head);
    let ghost h = msg@;
    push_str(&mut msg, detail);
    assert(msg@.take(h.len() as int) =~= h);
    string_of(&msg)
}

// ---------------------------------------------------------------------------
// Several repositories
// ---------------------------------------------------------------------------

fn copy_strings(v: &Vec<String>) -> (r: Vec<String>)
    ensures
        r@ == v@,
{
    let mut out: Vec<String> = Vec::new();
    let mut i: usize = 0;
    while i < v.len()
        invariant
            i <= v.len(),
            out@ == v@.take(i as int),
        decreases v.len() - i,
    {
        out.push(v[i].clone());
        assert(out@ =~= v@.take(i + 1));
        i += 1;
    }
    assert(v@.take(i as int) =~= v@);
    out
}

/// Two descriptions with the same fields and providers.
pub open spec fn desc_same(a: PackageDesc, b: PackageDesc) -> bool {
    desc_fields(a) == desc_fields(b) && a.provides@ == b.provides@
}

/// A copy of a package description.
pub fn copy_desc(d: &PackageDesc) -> (r: PackageDesc)
    ensures
        desc_same(r, *d),
{
    PackageDesc {
        builddate: d.builddate,
        pkgbase: match &d.pkgbase {
            Some(b) => Some(b.clone()),
            None => None,
        },
        version: match &d.version {
            Some(v) => Some(v.clone()),
            None => None,
        },
        provides: copy_strings(&d.provides),
    }
}

/// Fold one repository into the packages gathered so far. Repositories are
/// read in `pacman.conf` order, so a name already present keeps its entry:
/// the first repository that carries a package wins.
pub fn merge_repo(into: &mut NameTable<PackageDesc>, repo: &NameTable<PackageDesc>)
    ensures
        forall|k: Seq<char>| #[trigger]
            final(into)@.contains_key(k) <==> old(into)@.contains_key(k) || repo@.contains_key(k),
        forall|k: Seq<char>| #[trigger]
            old(into)@.contains_key(k) ==> final(into)@[k] == old(into)@[k],
        forall|k: Seq<char>|
            !old(into)@.contains_key(k) && #[trigger] repo@.contains_key(k) ==> desc_same(
                final(into)@[k],
                repo@[k],
            ),
{
    let n = repo.len();
    let mut i: usize = 0;
    while i < n
        invariant
            i <= n,
            n == repo.key_seq().len(),
            forall|k: Seq<char>| #[trigger] repo@.contains_key(k) <==> repo.key_seq().contains(k),
            forall|k: Seq<char>| #[trigger]
                into@.contains_key(k) <==> old(into)@.contains_key(k) || repo.key_seq().take(
                    i as int,
                ).contains(k),
            forall|k: Seq<char>| #[trigger]
                old(into)@.contains_key(k) ==> into@[k] == old(into)@[k],
            forall|k: Seq<char>|
                !old(into)@.contains_key(k) && #[trigger] into@.contains_key(k) ==> repo@.contains_key(k)
                    && desc_same(into@[k], repo@[k]),
        decreases n - i,
    {
        let k = repo.key_at(i);
        let ghost kv = k@;
        let ghost pre = repo.key_seq().take(i as int);
        assert(repo.key_seq().take(i + 1) =~= pre.push(kv));
        assert forall|x: Seq<char>| pre.push(kv).contains(x) <==> (pre.contains(x) || x == kv) by {
            if pre.push(kv).contains(x) {
                let j = choose|j: int| 0 <= j < pre.push(kv).len() && pre.push(kv)[j] == x;
                if j < pre.len() {
                    assert(pre[j] == x);
                }
            }
            if pre.contains(x) {
                let j = choose|j: int| 0 <= j < pre.len() && pre[j] == x;
                assert(pre.push(kv)[j] == x);
            }
            if x == kv {
                assert(pre.push(kv)[pre.len() as int] == x);
            }
        }
        match repo.get(k.as_str()) {
            Some(d) => {
                let copy = copy_desc(d);
                into.insert_if_absent(k.clone(), copy);
            },
            None => {},
        }
        i += 1;
    }
    assert(repo.key_seq().take(n as int) =~= repo.key_seq());
    assert forall|k: Seq<char>|
        !old(into)@.contains_key(k) && #[trigger] repo@.contains_key(k) implies desc_same(
            into@[k],
            repo@[k],
        ) by {
        assert(into@.contains_key(k));
    }
}

/// The build date of every package in a table, by name.
pub fn load_build_dates(packages: &NameTable<PackageDesc>) -> (t: NameTable<u64>)
    ensures
        forall|k: Seq<char>| #[trigger] t@.contains_key(k) <==> packages@.contains_key(k),
        forall|k: Seq<char>| #[trigger] t@.contains_key(k) ==> t@[k] == packages@[k].builddate,
{
    let n = packages.len();
    let mut t: NameTable<u64> = NameTable::new();
    let mut i: usize = 0;
    while i < n
        invariant
            i <= n,
            n == packages.key_seq().len(),
            forall|k: Seq<char>| #[trigger] packages@.contains_key(k) <==> packages.key_seq().contains(k),
            forall|k: Seq<char>| #[trigger] t@.contains_key(k) <==> packages.key_seq().take(i as int).contains(k),
            forall|k: Seq<char>| #[trigger] t@.contains_key(k) ==> packages@.contains_key(k) && t@[k] == packages@[k].builddate,
        decreases n - i,
    {
        let k = packages.key_at(i);
        let ghost kv = k@;
        let ghost pre = packages.key_seq().take(i as int);
        assert(packages.key_seq().take(i + 1) =~= pre.push(kv));
        assert forall|x: Seq<char>| pre.push(kv).contains(x) <==> (pre.contains(x) || x == kv) by {
            if pre.push(kv).contains(x) {
                let j = choose|j: int| 0 <= j < pre.push(kv).len() && pre.push(kv)[j] == x;
                if j < pre.len() {
                    assert(pre[j] == x);
                }
            }
            if pre.contains(x) {
                let j = choose|j: int| 0 <= j < pre.len() && pre[j] == x;
                assert(pre.push(kv)[j] == x);
            }
            if x == kv {
                assert(pre.push(kv)[pre.len() as int] == x);
            }
        }
        match packages.get(k.as_str()) {
            Some(d) => {
                t.insert(k.clone(), d.builddate);
            },
            None => {},
        }
        i += 1;
    }
    assert(packages.key_seq().take(n as int) =~= packages.key_seq());
    t
}

} // verus!
