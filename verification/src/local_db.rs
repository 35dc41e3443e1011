//! The pacman local database: what is installed right now.
//!
//! Each installed package has a plain `desc` file in the same `%KEY%` format
//! as the sync databases. Only `%NAME%`, `%PROVIDES%` and `%DEPENDS%` are
//! kept: the soname coupling rule needs to know who provides a soname today
//! and who still depends on it. Reading the directory is left to the caller.
use crate::text::{chars_of, cviews, lines, lines_of, same_str, string_of, trim, trim_chars, views};
use vstd::prelude::*;

verus! {

/// The two dependency-graph fields of one installed package.
#[derive(Debug, Clone, Default)]
pub struct InstalledDesc {
    /// `%PROVIDES%`, verbatim: sonames such as `libbluray.so=3-64` beside
    /// plain virtual names such as `sh`.
    pub provides: Vec<String>,
    /// `%DEPENDS%`, same shape.
    pub depends: Vec<String>,
}

/// The block a value line belongs to: 0 none, 1 `%NAME%`, 2 `%PROVIDES%`,
/// 3 `%DEPENDS%`, 4 any other key.
pub open spec fn local_key(t: Seq<char>) -> int {
    if t == "%NAME%"@ {
        1
    } else if t == "%PROVIDES%"@ {
        2
    } else if t == "%DEPENDS%"@ {
        3
    } else {
        4
    }
}

/// Scanning state: (current block, name, provides, depends).
pub type LocalScan = (int, Option<Seq<char>>, Seq<Seq<char>>, Seq<Seq<char>>);

/// One line of a local desc file. A blank line ends a block; a line that
/// starts and ends with `%` opens one; any other line is a value of the
/// open block. Only the first `%NAME%` value counts.
pub open spec fn local_step(st: LocalScan, line: Seq<char>) -> LocalScan {
    let t = trim(line);
    if t.len() == 0 {
        (0, st.1, st.2, st.3)
    } else if t[0] == '%' && t.last() == '%' {
        (local_key(t), st.1, st.2, st.3)
    } else if st.0 == 1 && st.1 is None {
        (st.0, Some(t), st.2, st.3)
    } else if st.0 == 2 {
        (st.0, st.1, st.2.push(t), st.3)
    } else if st.0 == 3 {
        (st.0, st.1, st.2, st.3.push(t))
    } else {
        st
    }
}

pub open spec fn local_scan(ls: Seq<Seq<char>>) -> LocalScan
    decreases ls.len(),
{
    if ls.len() == 0 {
        (0, None, seq![], seq![])
    } else {
        local_step(local_scan(ls.drop_last()), ls.last())
    }
}

/// Pull `%NAME%`, `%PROVIDES%` and `%DEPENDS%` out of a local desc file.
/// The two lists run from their key line to the next blank line or key.
/// `None` without a name.
pub fn parse_desc(contents: &str) -> (r: Option<(String, InstalledDesc)>)
    ensures
        match r {
            Some((n, d)) => {
                let st = local_scan(lines(contents@));
                &&& st.1 == Some(n@)
                &&& views(d.provides@) == st.2
                &&& views(d.depends@) == st.3
            },
            None => local_scan(lines(contents@)).1 is None,
        },
{
    let text = chars_of(contents);
    let ls = lines_of(&text);
    let ghost lv = cviews(ls@);
    let mut key: u8 = 0;
    let mut name: Option<Vec<char>> = None;
    let mut provides: Vec<String> = Vec::new();
    let mut depends: Vec<String> = Vec::new();
    let mut i: usize = 0;
    while i < ls.len()
        invariant
            i <= ls.len(),
            lv == cviews(ls@),
            lv == lines(contents@),
            local_scan(lv.take(i as int)) == (
                key as int,
                match name {
                    Some(v) => Some(v@),
                    None => None::<Seq<char>>,
                },
                views(provides@),
                views(depends@),
            ),
        decreases ls.len() - i,
    {
        assert(lv.take(i + 1).drop_last() =~= lv.take(i as int));
        assert(lv.take(i + 1).last() == ls@[i as int]@);
        let t = trim_chars(&ls[i]);
        let ghost p0 = views(provides@);
        let ghost d0 = views(depends@);
        if t.len() == 0 {
            key = 0;
        } else if t[0] == '%' && t[t.len() - 1] == '%' {
            key = if same_str(&t, "%NAME%") {
                1
            } else if same_str(&t, "%PROVIDES%") {
                2
            } else if same_str(&t, "%DEPENDS%") {
                3
            } else {
                4
            };
        } else if key == 1 && name.is_none() {
            name = Some(t);
        } else if key == 2 {
            provides.push(string_of(&t));
            assert(views(provides@) =~= p0.push(t@));
        } else if key == 3 {
            depends.push(string_of(&t));
            assert(views(depends@) =~= d0.push(t@));
        }
        i += 1;
    }
    assert(lv.take(i as int) =~= lv);
    match name {
        Some(n) => Some((string_of(&n), InstalledDesc { provides, depends })),
        None => None,
    }
}

} // verus!
