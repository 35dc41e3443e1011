//! Character-level text handling shared by every parser and renderer.
//!
//! Inputs arrive as `&str`; they are turned into `Vec<char>` once and all
//! scanning happens on character vectors, whose views are the same
//! `Seq<char>` the specifications talk about. The spec functions here state
//! what the corresponding `str` operations of the standard library compute
//! (`trim`, `lines`, `split_whitespace`, `split`, `split_once`, ...).
use vstd::prelude::*;

verus! {

// ---------------------------------------------------------------------------
// Specifications
// ---------------------------------------------------------------------------

/// Unicode `White_Space`, the property behind `char::is_whitespace`.
pub open spec fn is_ws(c: char) -> bool {
    let u = c as int;
    (9 <= u && u <= 13) || u == 32 || u == 0x85 || u == 0xA0 || u == 0x1680 || (0x2000 <= u && u
        <= 0x200A) || u == 0x2028 || u == 0x2029 || u == 0x202F || u == 0x205F || u == 0x3000
}

pub open spec fn is_digit(c: char) -> bool {
    '0' <= c && c <= '9'
}

/// `str::trim_start`.
pub open spec fn trim_start(s: Seq<char>) -> Seq<char>
    decreases s.len(),
{
    if s.len() > 0 && is_ws(s[0]) {
        trim_start(s.drop_first())
    } else {
        s
    }
}

/// `str::trim_end`.
pub open spec fn trim_end(s: Seq<char>) -> Seq<char>
    decreases s.len(),
{
    if s.len() > 0 && is_ws(s.last()) {
        trim_end(s.drop_last())
    } else {
        s
    }
}

/// `str::trim`.
pub open spec fn trim(s: Seq<char>) -> Seq<char> {
    trim_end(trim_start(s))
}

pub open spec fn starts_with(s: Seq<char>, p: Seq<char>) -> bool {
    p.len() <= s.len() && s.take(p.len() as int) == p
}

pub open spec fn ends_with(s: Seq<char>, p: Seq<char>) -> bool {
    p.len() <= s.len() && s.skip(s.len() - p.len()) == p
}

/// Does `p` occur in `s` as a contiguous run?
pub open spec fn contains_seq(s: Seq<char>, p: Seq<char>) -> bool {
    exists|i: int| 0 <= i && i + p.len() <= s.len() && #[trigger] s.subrange(i, i + p.len()) == p
}

/// First index of `c` in `s`.
pub open spec fn find_first(s: Seq<char>, c: char) -> Option<int>
    decreases s.len(),
{
    if s.len() == 0 {
        None
    } else {
        match find_first(s.drop_last(), c) {
            Some(i) => Some(i),
            None => if s.last() == c {
                Some(s.len() - 1)
            } else {
                None
            },
        }
    }
}

/// Last index of `c` in `s`.
pub open spec fn find_last(s: Seq<char>, c: char) -> Option<int>
    decreases s.len(),
{
    if s.len() == 0 {
        None
    } else if s.last() == c {
        Some(s.len() - 1)
    } else {
        find_last(s.drop_last(), c)
    }
}

/// `str::split_once(c)`.
pub open spec fn split_once(s: Seq<char>, c: char) -> Option<(Seq<char>, Seq<char>)> {
    match find_first(s, c) {
        Some(i) => Some((s.take(i), s.skip(i + 1))),
        None => None,
    }
}

/// `str::rsplit_once(c)`.
pub open spec fn rsplit_once(s: Seq<char>, c: char) -> Option<(Seq<char>, Seq<char>)> {
    match find_last(s, c) {
        Some(i) => Some((s.take(i), s.skip(i + 1))),
        None => None,
    }
}

/// `str::split(c)`: the pieces between separators; never empty.
pub open spec fn split(s: Seq<char>, c: char) -> Seq<Seq<char>>
    decreases s.len(),
{
    if s.len() == 0 {
        seq![Seq::<char>::empty()]
    } else {
        let p = split(s.drop_last(), c);
        if s.last() == c {
            p.push(Seq::<char>::empty())
        } else {
            p.update(p.len() - 1, p.last().push(s.last()))
        }
    }
}

/// Drop the `\r` of a `\r\n` line ending.
pub open spec fn strip_cr(l: Seq<char>) -> Seq<char> {
    if l.len() > 0 && l.last() == '\r' {
        l.drop_last()
    } else {
        l
    }
}

/// `str::lines`: split at `\n`, drop the `\r` of `\r\n` endings, and no final
/// empty line after a trailing newline.
pub open spec fn lines(s: Seq<char>) -> Seq<Seq<char>> {
    let p = split(s, '\n');
    let ended = p.drop_last().map_values(|l: Seq<char>| strip_cr(l));
    if p.last().len() == 0 {
        ended
    } else {
        ended.push(p.last())
    }
}

/// The lines of a text with their own line breaks kept (`split_inclusive`
/// on `\n`): every piece but the last ends with `\n`; a text that ends with
/// a line break has no empty last piece.
pub open spec fn pieces(s: Seq<char>) -> Seq<Seq<char>> {
    let p = split(s, '\n');
    let ended = p.drop_last().map_values(|l: Seq<char>| l.push('\n'));
    if p.last().len() == 0 {
        ended
    } else {
        ended.push(p.last())
    }
}

/// The pieces put back together.
pub open spec fn concat(ps: Seq<Seq<char>>) -> Seq<char>
    decreases ps.len(),
{
    if ps.len() == 0 {
        seq![]
    } else {
        concat(ps.drop_last()) + ps.last()
    }
}

/// Pieces as `pieces` makes them: none empty, a line break only at the end
/// of a piece, and at the end of every piece but the last.
pub open spec fn well_pieced(ps: Seq<Seq<char>>) -> bool {
    forall|i: int|
        0 <= i < ps.len() ==> {
            &&& (#[trigger] ps[i]).len() > 0
            &&& !ps[i].drop_last().contains('\n')
            &&& (i < ps.len() - 1 ==> ps[i].last() == '\n')
        }
}

/// Left-to-right scanning state of `split_whitespace`: finished tokens and
/// the token in progress.
pub open spec fn ws_scan(s: Seq<char>) -> (Seq<Seq<char>>, Seq<char>)
    decreases s.len(),
{
    if s.len() == 0 {
        (seq![], seq![])
    } else {
        let (t, c) = ws_scan(s.drop_last());
        if is_ws(s.last()) {
            if c.len() > 0 {
                (t.push(c), seq![])
            } else {
                (t, seq![])
            }
        } else {
            (t, c.push(s.last()))
        }
    }
}

/// `str::split_whitespace`.
pub open spec fn words(s: Seq<char>) -> Seq<Seq<char>> {
    let (t, c) = ws_scan(s);
    if c.len() > 0 {
        t.push(c)
    } else {
        t
    }
}

/// `pieces.join(sep)`.
pub open spec fn join(pieces: Seq<Seq<char>>, sep: Seq<char>) -> Seq<char>
    decreases pieces.len(),
{
    if pieces.len() == 0 {
        seq![]
    } else if pieces.len() == 1 {
        pieces[0]
    } else {
        join(pieces.drop_last(), sep) + sep + pieces.last()
    }
}

/// Lexicographic order on character sequences: the order of `String`'s
/// `Ord`, since UTF-8 preserves code-point order.
pub open spec fn seq_lt(a: Seq<char>, b: Seq<char>) -> bool
    decreases a.len(),
{
    if a.len() == 0 {
        b.len() > 0
    } else if b.len() == 0 {
        false
    } else if a[0] != b[0] {
        (a[0] as int) < (b[0] as int)
    } else {
        seq_lt(a.drop_first(), b.drop_first())
    }
}

pub open spec fn digit_char(d: nat) -> char {
    ((d % 10) + 48) as char
}

/// Decimal representation of a natural number, as `u64::to_string` prints it.
pub open spec fn decimal(n: nat) -> Seq<char>
    decreases n,
{
    if n < 10 {
        seq![digit_char(n)]
    } else {
        decimal(n / 10).push(digit_char(n % 10))
    }
}

/// Value of a run of decimal digits.
pub open spec fn digits_value(s: Seq<char>) -> nat
    decreases s.len(),
{
    if s.len() == 0 {
        0
    } else {
        digits_value(s.drop_last()) * 10 + ((s.last() as int - 48) as nat)
    }
}

pub open spec fn all_digits(s: Seq<char>) -> bool {
    forall|i: int| 0 <= i < s.len() ==> is_digit(#[trigger] s[i])
}

/// `str::parse::<u64>`: an optional `+`, then at least one decimal digit,
/// and a value that fits.
pub open spec fn parse_u64_spec(s: Seq<char>) -> Option<u64> {
    let d = if s.len() > 0 && s[0] == '+' {
        s.drop_first()
    } else {
        s
    };
    if d.len() > 0 && all_digits(d) && digits_value(d) <= u64::MAX {
        Some(digits_value(d) as u64)
    } else {
        None
    }
}

/// Decimal representation of an integer, with a leading `-` when negative.
pub open spec fn signed_decimal(n: int) -> Seq<char> {
    if n < 0 {
        seq!['-'] + decimal((-n) as nat)
    } else {
        decimal(n as nat)
    }
}

/// What `str::to_lowercase` returns for a string.
pub uninterp spec fn lowercased(s: Seq<char>) -> Seq<char>;

/// Views of a sequence of strings.
pub open spec fn views(v: Seq<String>) -> Seq<Seq<char>> {
    v.map_values(|s: String| s@)
}

/// Views of a sequence of character vectors.
pub open spec fn cviews(v: Seq<Vec<char>>) -> Seq<Seq<char>> {
    v.map_values(|s: Vec<char>| s@)
}

// ---------------------------------------------------------------------------
// Lemmas
// ---------------------------------------------------------------------------

pub proof fn lemma_seq_lt_irreflexive(a: Seq<char>)
    ensures
        !seq_lt(a, a),
    decreases a.len(),
{
    if a.len() > 0 {
        lemma_seq_lt_irreflexive(a.drop_first());
    }
}

pub proof fn lemma_seq_lt_asymmetric(a: Seq<char>, b: Seq<char>)
    ensures
        seq_lt(a, b) ==> !seq_lt(b, a),
    decreases a.len(),
{
    if a.len() > 0 && b.len() > 0 && a[0] == b[0] {
        lemma_seq_lt_asymmetric(a.drop_first(), b.drop_first());
    }
}

pub proof fn lemma_seq_lt_transitive(a: Seq<char>, b: Seq<char>, c: Seq<char>)
    requires
        seq_lt(a, b),
        seq_lt(b, c),
    ensures
        seq_lt(a, c),
    decreases a.len(),
{
    if a.len() > 0 && b.len() > 0 && c.len() > 0 && a[0] == b[0] && b[0] == c[0] {
        lemma_seq_lt_transitive(a.drop_first(), b.drop_first(), c.drop_first());
    }
}

pub proof fn lemma_seq_lt_total(a: Seq<char>, b: Seq<char>)
    requires
        a != b,
    ensures
        seq_lt(a, b) || seq_lt(b, a),
    decreases a.len(),
{
    if a.len() > 0 && b.len() > 0 && a[0] == b[0] {
        if a.drop_first() == b.drop_first() {
            assert(a =~= seq![a[0]] + a.drop_first());
            assert(b =~= seq![b[0]] + b.drop_first());
        }
        lemma_seq_lt_total(a.drop_first(), b.drop_first());
    } else if a.len() == 0 && b.len() == 0 {
        assert(a =~= b);
    } else if a.len() > 0 && b.len() > 0 {
        assert((a[0] as int) != (b[0] as int));
    }
}

pub proof fn lemma_find_first_bounds(s: Seq<char>, c: char)
    ensures
        match find_first(s, c) {
            Some(i) => 0 <= i < s.len() && s[i] == c && forall|j: int| 0 <= j < i ==> s[j] != c,
            None => forall|j: int| 0 <= j < s.len() ==> s[j] != c,
        },
    decreases s.len(),
{
    if s.len() > 0 {
        lemma_find_first_bounds(s.drop_last(), c);
        assert forall|j: int| 0 <= j < s.len() - 1 implies s.drop_last()[j] == s[j] by {}
    }
}

pub proof fn lemma_find_last_bounds(s: Seq<char>, c: char)
    ensures
        match find_last(s, c) {
            Some(i) => 0 <= i < s.len() && s[i] == c && forall|j: int| i < j < s.len() ==> s[j] != c,
            None => forall|j: int| 0 <= j < s.len() ==> s[j] != c,
        },
    decreases s.len(),
{
    if s.len() > 0 {
        lemma_find_last_bounds(s.drop_last(), c);
        assert forall|j: int| 0 <= j < s.len() - 1 implies s.drop_last()[j] == s[j] by {}
    }
}

proof fn lemma_digits_value_grows(s: Seq<char>, j: int, k: int)
    requires
        0 <= j <= k <= s.len(),
        all_digits(s),
    ensures
        digits_value(s.take(j)) <= digits_value(s.take(k)),
    decreases k - j,
{
    if j < k {
        lemma_digits_value_grows(s, j, k - 1);
        assert(s.take(k).drop_last() =~= s.take(k - 1));
        assert(is_digit(s[k - 1]));
    }
}

// ---------------------------------------------------------------------------
// Lemmas on trimming and line splitting
// ---------------------------------------------------------------------------

/// A trimmed start, when not empty, begins with a non-space.
pub proof fn lemma_trim_start_head(x: Seq<char>)
    ensures
        trim_start(x).len() > 0 ==> !is_ws(trim_start(x)[0]),
        trim_start(x).len() <= x.len(),
    decreases x.len(),
{
    if x.len() > 0 && is_ws(x[0]) {
        lemma_trim_start_head(x.drop_first());
    }
}

/// A sequence that starts with a non-space keeps something after trimming
/// its end.
pub proof fn lemma_trim_end_keeps_head(y: Seq<char>)
    requires
        y.len() > 0,
        !is_ws(y[0]),
    ensures
        trim_end(y).len() > 0,
    decreases y.len(),
{
    if is_ws(y.last()) {
        assert(y.len() > 1);
        lemma_trim_end_keeps_head(y.drop_last());
    }
}

/// Trimming the end of `a + b` only touches `b`, while `b` keeps something.
pub proof fn lemma_trim_end_concat(a: Seq<char>, b: Seq<char>)
    requires
        trim_end(b).len() > 0,
    ensures
        trim_end(a + b) == a + trim_end(b),
    decreases b.len(),
{
    assert(b.len() > 0);
    if is_ws(b.last()) {
        assert((a + b).drop_last() =~= a + b.drop_last());
        lemma_trim_end_concat(a, b.drop_last());
    } else {
        assert((a + b).last() == b.last());
    }
}

/// Dropping a trailing space before trimming the start changes the result
/// only by that space.
proof fn lemma_trim_start_drop_ws(x: Seq<char>)
    requires
        x.len() > 0,
        is_ws(x.last()),
    ensures
        trim_start(x).len() == 0 ==> trim_start(x.drop_last()).len() == 0,
        trim_start(x).len() > 0 ==> trim_start(x.drop_last()) == trim_start(x).drop_last(),
    decreases x.len(),
{
    if x.len() == 1 {
        assert(x.drop_last().len() == 0);
        assert(trim_start(x) == trim_start(x.drop_first()));
        assert(x.drop_first().len() == 0);
    } else if is_ws(x[0]) {
        assert(x.drop_last().drop_first() =~= x.drop_first().drop_last());
        assert(x.drop_last()[0] == x[0]);
        lemma_trim_start_drop_ws(x.drop_first());
    } else {
        assert(x.drop_last()[0] == x[0]);
    }
}

/// A trailing space does not change `trim`.
proof fn lemma_trim_drop_ws(x: Seq<char>)
    requires
        x.len() > 0,
        is_ws(x.last()),
    ensures
        trim(x) == trim(x.drop_last()),
{
    lemma_trim_start_drop_ws(x);
    lemma_trim_start_head(x);
    if trim_start(x).len() > 0 {
        let t = trim_start(x);
        assert(t.last() == x.last()) by {
            lemma_trim_start_suffix(x);
        }
    }
}

/// `trim_start` keeps a suffix of its input.
pub proof fn lemma_trim_start_suffix(x: Seq<char>)
    ensures
        trim_start(x) == x.skip(x.len() - trim_start(x).len()),
        trim_start(x).len() <= x.len(),
    decreases x.len(),
{
    if x.len() > 0 && is_ws(x[0]) {
        lemma_trim_start_suffix(x.drop_first());
        assert(x.drop_first().skip(x.drop_first().len() - trim_start(x).len()) =~= x.skip(
            x.len() - trim_start(x).len(),
        ));
    } else {
        assert(x.skip(0) =~= x);
    }
}

/// Trimming the end first does not change `trim`.
pub proof fn lemma_trim_of_trim_end(x: Seq<char>)
    ensures
        trim(trim_end(x)) == trim(x),
    decreases x.len(),
{
    if x.len() > 0 && is_ws(x.last()) {
        lemma_trim_of_trim_end(x.drop_last());
        lemma_trim_drop_ws(x);
    }
}

/// `trim` is idempotent.
pub proof fn lemma_trim_idempotent(x: Seq<char>)
    ensures
        trim(trim(x)) == trim(x),
{
    let t = trim_start(x);
    lemma_trim_start_head(x);
    lemma_trim_of_trim_end(t);
    if t.len() > 0 {
        assert(trim_start(t) == t);
    } else {
        assert(trim_end(t) =~= t);
    }
    lemma_trim_end_idempotent(t);
    lemma_trim_start_of_trim_end(t);
}

proof fn lemma_trim_end_idempotent(x: Seq<char>)
    ensures
        trim_end(trim_end(x)) == trim_end(x),
    decreases x.len(),
{
    if x.len() > 0 && is_ws(x.last()) {
        lemma_trim_end_idempotent(x.drop_last());
    }
}

/// Trimming the end of a sequence that starts with a non-space leaves a
/// sequence that still starts with it.
proof fn lemma_trim_start_of_trim_end(t: Seq<char>)
    requires
        t.len() == 0 || !is_ws(t[0]),
    ensures
        trim_start(trim_end(t)) == trim_end(t),
{
    if t.len() > 0 {
        lemma_trim_end_keeps_head(t);
        lemma_trim_end_prefix(t);
        assert(trim_end(t)[0] == t[0]);
    } else {
        assert(trim_end(t).len() == 0);
    }
}

/// `trim_end` keeps a prefix of its input.
pub proof fn lemma_trim_end_prefix(x: Seq<char>)
    ensures
        trim_end(x) == x.take(trim_end(x).len() as int),
        trim_end(x).len() <= x.len(),
    decreases x.len(),
{
    if x.len() > 0 && is_ws(x.last()) {
        lemma_trim_end_prefix(x.drop_last());
        assert(x.drop_last().take(trim_end(x).len() as int) =~= x.take(trim_end(x).len() as int));
    } else {
        assert(x.take(x.len() as int) =~= x);
    }
}

/// Splitting `s + b` where `b` holds no separator extends the last piece.
proof fn lemma_split_append(s: Seq<char>, b: Seq<char>, c: char)
    requires
        !b.contains(c),
    ensures
        split(s + b, c) == split(s, c).update(
            split(s, c).len() - 1,
            split(s, c).last() + b,
        ),
        split(s, c).len() >= 1,
    decreases b.len(),
{
    lemma_split_nonempty(s, c);
    if b.len() == 0 {
        assert(s + b =~= s);
        assert(split(s, c).last() + b =~= split(s, c).last());
        assert(split(s, c).update(split(s, c).len() - 1, split(s, c).last()) =~= split(s, c));
    } else {
        let b0 = b.drop_last();
        assert(!b0.contains(c)) by {
            if b0.contains(c) {
                let k = choose|k: int| 0 <= k < b0.len() && b0[k] == c;
                assert(b[k] == c);
            }
        }
        assert(b.last() != c) by {
            assert(b[b.len() - 1] == b.last());
        }
        lemma_split_append(s, b0, c);
        assert((s + b).drop_last() =~= s + b0);
        assert((s + b).last() == b.last());
        lemma_split_nonempty(s + b0, c);
        assert(split(s, c).last() + b =~= (split(s, c).last() + b0).push(b.last()));
    }
}

pub proof fn lemma_split_nonempty(s: Seq<char>, c: char)
    ensures
        split(s, c).len() >= 1,
    decreases s.len(),
{
    if s.len() > 0 {
        lemma_split_nonempty(s.drop_last(), c);
    }
}

/// Splitting the join of pieces without the separator gives the pieces.
proof fn lemma_concat_ended(q: Seq<Seq<char>>)
    requires
        q.len() > 0,
    ensures
        concat(q.drop_last().map_values(|l: Seq<char>| l.push('\n'))) + q.last() == join(q, seq!['\n']),
    decreases q.len(),
{
    let a = q.drop_last().map_values(|l: Seq<char>| l.push('\n'));
    if q.len() == 1 {
        assert(a =~= Seq::<Seq<char>>::empty());
        assert(concat(a) + q.last() =~= q[0]);
    } else {
        let r = q.drop_last();
        lemma_concat_ended(r);
        assert(a.drop_last() =~= r.drop_last().map_values(|l: Seq<char>| l.push('\n')));
        assert(a.last() == r.last().push('\n'));
        let c = concat(r.drop_last().map_values(|l: Seq<char>| l.push('\n')));
        assert(concat(a) == c + r.last().push('\n'));
        assert(c + r.last().push('\n') =~= (c + r.last()) + seq!['\n']);
        assert(r.last() == q[q.len() - 2]);
    }
}

/// The pieces of a text put back together give the text.
pub proof fn lemma_concat_pieces(s: Seq<char>)
    ensures
        concat(pieces(s)) == s,
        well_pieced(pieces(s)),
{
    lemma_split_nonempty(s, '\n');
    lemma_join_split(s, '\n', '\n');
    let p = split(s, '\n');
    lemma_concat_ended(p);
    let ended = p.drop_last().map_values(|l: Seq<char>| l.push('\n'));
    if p.last().len() == 0 {
        assert(concat(ended) + p.last() =~= concat(ended));
    } else {
        assert(ended.push(p.last()).drop_last() =~= ended);
    }
    let ps = pieces(s);
    assert forall|i: int| 0 <= i < ps.len() implies {
        &&& (#[trigger] ps[i]).len() > 0
        &&& !ps[i].drop_last().contains('\n')
        &&& (i < ps.len() - 1 ==> ps[i].last() == '\n')
    } by {
        if i < p.len() - 1 {
            assert(ps[i] == p[i].push('\n'));
            assert(ps[i].drop_last() =~= p[i]);
        } else {
            assert(ps[i] == p.last());
            assert(!p[p.len() - 1].contains('\n'));
            if ps[i].drop_last().contains('\n') {
                let k = choose|k: int| 0 <= k < ps[i].drop_last().len() && ps[i].drop_last()[k] == '\n';
                assert(p.last()[k] == '\n');
            }
        }
    }
}

/// Well-formed pieces, put together, come apart into the same pieces.
pub proof fn lemma_pieces_of_concat(ps: Seq<Seq<char>>)
    requires
        well_pieced(ps),
    ensures
        pieces(concat(ps)) == ps,
{
    let n = ps.len();
    if n == 0 {
        assert(split(Seq::<char>::empty(), '\n') == seq![Seq::<char>::empty()]);
        assert(pieces(concat(ps)) =~= ps);
        return;
    }
    let q = if ps.last().last() == '\n' {
        ps.map_values(|l: Seq<char>| l.drop_last()).push(Seq::<char>::empty())
    } else {
        ps.drop_last().map_values(|l: Seq<char>| l.drop_last()).push(ps.last())
    };
    assert(q.len() > 0);
    assert(q.drop_last().map_values(|l: Seq<char>| l.push('\n')) =~= if ps.last().last() == '\n' {
        ps
    } else {
        ps.drop_last()
    }) by {
        assert forall|i: int| 0 <= i < q.len() - 1 implies #[trigger] q[i].push('\n') == ps[i] by {
            assert(q[i] == ps[i].drop_last());
            assert(ps[i].last() == '\n');
            assert(ps[i].drop_last().push('\n') =~= ps[i]);
        }
    }
    lemma_concat_ended(q);
    if ps.last().last() == '\n' {
        assert(concat(ps) + Seq::<char>::empty() =~= concat(ps));
    } else {
        assert(concat(ps) == concat(ps.drop_last()) + ps.last());
    }
    assert(concat(ps) == join(q, seq!['\n']));
    assert forall|i: int| 0 <= i < q.len() implies !(#[trigger] q[i]).contains('\n') by {
        if i < n && (i < n - 1 || ps.last().last() == '\n') {
            assert(q[i] == ps[i].drop_last());
        } else if i == n - 1 {
            assert(q[i] == ps.last());
            if ps.last().contains('\n') {
                let k = choose|k: int| 0 <= k < ps.last().len() && ps.last()[k] == '\n';
                if k < ps.last().len() - 1 {
                    assert(ps[n - 1].drop_last()[k] == '\n');
                }
            }
        } else {
            assert(q[i] =~= Seq::<char>::empty());
        }
    }
    lemma_split_join(q, '\n');
    assert(split(concat(ps), '\n') == q);
    if ps.last().last() == '\n' {
        assert(pieces(concat(ps)) =~= ps);
    } else {
        assert(q.last() == ps.last());
        assert(ps.drop_last().push(ps.last()) =~= ps);
        assert(pieces(concat(ps)) =~= ps);
    }
}

pub proof fn lemma_split_join(xs: Seq<Seq<char>>, c: char)
    requires
        xs.len() > 0,
        forall|i: int| 0 <= i < xs.len() ==> !(#[trigger] xs[i]).contains(c),
    ensures
        split(join(xs, seq![c]), c) == xs,
    decreases xs.len(),
{
    if xs.len() == 1 {
        lemma_split_append(Seq::<char>::empty(), xs[0], c);
        assert(Seq::<char>::empty() + xs[0] =~= xs[0]);
        assert(split(Seq::<char>::empty(), c) == seq![Seq::<char>::empty()]);
        assert(seq![Seq::<char>::empty()].update(0, Seq::<char>::empty() + xs[0]) =~= xs);
    } else {
        let pre = xs.drop_last();
        assert forall|i: int| 0 <= i < pre.len() implies !(#[trigger] pre[i]).contains(c) by {
            assert(pre[i] == xs[i]);
        }
        lemma_split_join(pre, c);
        let a = join(pre, seq![c]) + seq![c];
        assert(a.drop_last() =~= join(pre, seq![c]));
        assert(a.last() == c);
        assert(split(a, c) == pre.push(Seq::<char>::empty()));
        assert(!xs.last().contains(c)) by {
            assert(xs[xs.len() - 1] == xs.last());
        }
        lemma_split_append(a, xs.last(), c);
        assert(Seq::<char>::empty() + xs.last() =~= xs.last());
        assert(pre.push(Seq::<char>::empty()).update(pre.len() as int, xs.last()) =~= xs);
    }
}


/// Joining the split pieces gives the text back; the pieces hold no
/// separator, and no character the text lacks.
pub proof fn lemma_join_split(s: Seq<char>, c: char, x: char)
    ensures
        join(split(s, c), seq![c]) == s,
        forall|i: int| 0 <= i < split(s, c).len() ==> !(#[trigger] split(s, c)[i]).contains(c),
        !s.contains(x) ==> forall|i: int|
            0 <= i < split(s, c).len() ==> !(#[trigger] split(s, c)[i]).contains(x),
    decreases s.len(),
{
    lemma_split_nonempty(s, c);
    if s.len() == 0 {
        assert(split(s, c)[0].len() == 0);
    } else {
        let s0 = s.drop_last();
        let p = split(s0, c);
        lemma_join_split(s0, c, x);
        lemma_split_nonempty(s0, c);
        assert(s0.contains(x) ==> s.contains(x)) by {
            if s0.contains(x) {
                let k = choose|k: int| 0 <= k < s0.len() && s0[k] == x;
                assert(s[k] == x);
            }
        }
        assert(s.contains(s.last())) by {
            assert(s[s.len() - 1] == s.last());
        }
        if s.last() == c {
            let q = p.push(Seq::<char>::empty());
            assert(q.drop_last() =~= p);
            assert(q.last() == Seq::<char>::empty());
            assert(join(q, seq![c]) == join(p, seq![c]) + seq![c] + Seq::<char>::empty());
            assert(s =~= s0 + seq![c]);
            assert forall|i: int| 0 <= i < q.len() implies !(#[trigger] q[i]).contains(c) by {
                if i < p.len() {
                    assert(q[i] == p[i]);
                }
            }
            assert forall|i: int| !s.contains(x) && 0 <= i < q.len() implies !(#[trigger] q[i]).contains(x) by {
                if i < p.len() {
                    assert(q[i] == p[i]);
                }
            }
        } else {
            let y = p.last().push(s.last());
            let q = p.update(p.len() - 1, y);
            if p.len() == 1 {
                assert(join(q, seq![c]) == q[0]);
                assert(join(p, seq![c]) == p[0]);
            } else {
                assert(q.drop_last() =~= p.drop_last());
                assert(join(q, seq![c]) == join(p.drop_last(), seq![c]) + seq![c] + y);
                assert(join(p, seq![c]) == join(p.drop_last(), seq![c]) + seq![c] + p.last());
            }
            assert(join(q, seq![c]) =~= join(p, seq![c]).push(s.last()));
            assert(s =~= s0.push(s.last()));
            assert forall|i: int| 0 <= i < q.len() implies !(#[trigger] q[i]).contains(c) by {
                if i < p.len() - 1 {
                    assert(q[i] == p[i]);
                } else {
                    if y.contains(c) {
                        let k = choose|k: int| 0 <= k < y.len() && y[k] == c;
                        if k < p.last().len() {
                            assert(p[p.len() - 1][k] == c);
                            assert(p[p.len() - 1].contains(c));
                        }
                    }
                }
            }
            assert forall|i: int| !s.contains(x) && 0 <= i < q.len() implies !(#[trigger] q[i]).contains(x) by {
                if i < p.len() - 1 {
                    assert(q[i] == p[i]);
                } else {
                    if y.contains(x) {
                        let k = choose|k: int| 0 <= k < y.len() && y[k] == x;
                        if k < p.last().len() {
                            assert(p[p.len() - 1][k] == x);
                            assert(p[p.len() - 1].contains(x));
                        } else {
                            assert(y[k] == s.last());
                        }
                    }
                }
            }
        }
    }
}


// ---------------------------------------------------------------------------
// Executable helpers
// ---------------------------------------------------------------------------

/// `String::push`: appends one character.
#[verifier::external_body]
fn push_char(s: &mut String, c: char)
    ensures
        final(s)@ == old(s)@.push(c),
{
    s.push(c)
}

/// The characters of a string slice, in order.
pub fn chars_of(s: &str) -> (v: Vec<char>)
    ensures
        v@ == s@,
{
    let mut v: Vec<char> = Vec::new();
    for c in it: s.chars()
        invariant
            v@ == it.seq().take(it.index() as int),
            it.seq() == s@,
    {
        v.push(c);
    }
    v
}

/// A `String` holding exactly the given characters.
pub fn string_of(v: &Vec<char>) -> (s: String)
    ensures
        s@ == v@,
{
    let mut s = String::new();
    let mut i: usize = 0;
    while i < v.len()
        invariant
            i <= v.len(),
            s@ == v@.take(i as int),
        decreases v.len() - i,
    {
        push_char(&mut s, v[i]);
        assert(v@.take(i + 1) =~= v@.take(i as int).push(v@[i as int]));
        i += 1;
    }
    assert(v@.take(v.len() as int) =~= v@);
    s
}

pub fn is_whitespace(c: char) -> (b: bool)
    ensures
        b == is_ws(c),
{
    let u = c as u32;
    (9 <= u && u <= 13) || u == 32 || u == 0x85 || u == 0xA0 || u == 0x1680 || (0x2000 <= u && u
        <= 0x200A) || u == 0x2028 || u == 0x2029 || u == 0x202F || u == 0x205F || u == 0x3000
}

pub fn is_ascii_digit(c: char) -> (b: bool)
    ensures
        b == is_digit(c),
{
    '0' <= c && c <= '9'
}

/// `v[lo..hi]`, copied.
pub fn slice(v: &Vec<char>, lo: usize, hi: usize) -> (r: Vec<char>)
    requires
        lo <= hi <= v.len(),
    ensures
        r@ == v@.subrange(lo as int, hi as int),
{
    let mut r: Vec<char> = Vec::new();
    let mut i = lo;
    while i < hi
        invariant
            lo <= i <= hi <= v.len(),
            r@ == v@.subrange(lo as int, i as int),
        decreases hi - i,
    {
        r.push(v[i]);
        assert(v@.subrange(lo as int, i + 1) =~= v@.subrange(lo as int, i as int).push(v@[i as int]));
        i += 1;
    }
    r
}

/// Append every character of `s` to `out`.
pub fn push_all(out: &mut Vec<char>, s: &Vec<char>)
    ensures
        final(out)@ == old(out)@ + s@,
{
    let mut i: usize = 0;
    while i < s.len()
        invariant
            i <= s.len(),
            out@ == old(out)@ + s@.take(i as int),
        decreases s.len() - i,
    {
        out.push(s[i]);
        assert(s@.take(i + 1) =~= s@.take(i as int).push(s@[i as int]));
        i += 1;
    }
    assert(s@.take(s.len() as int) =~= s@);
}

/// Append the characters of a string slice.
pub fn push_str(out: &mut Vec<char>, s: &str)
    ensures
        final(out)@ == old(out)@ + s@,
{
    let v = chars_of(s);
    push_all(out, &v);
}

/// Equality of character vectors.
pub fn same(a: &Vec<char>, b: &Vec<char>) -> (r: bool)
    ensures
        r == (a@ == b@),
{
    if a.len() != b.len() {
        return false;
    }
    let mut i: usize = 0;
    while i < a.len()
        invariant
            i <= a.len() == b.len(),
            a@.take(i as int) == b@.take(i as int),
        decreases a.len() - i,
    {
        if a[i] != b[i] {
            return false;
        }
        assert(a@.take(i + 1) =~= a@.take(i as int).push(a@[i as int]));
        assert(b@.take(i + 1) =~= b@.take(i as int).push(b@[i as int]));
        i += 1;
    }
    assert(a@ =~= a@.take(i as int));
    assert(b@ =~= b@.take(i as int));
    true
}

/// Equality of a character vector and a string slice.
pub fn same_str(a: &Vec<char>, b: &str) -> (r: bool)
    ensures
        r == (a@ == b@),
{
    let bv = chars_of(b);
    same(a, &bv)
}

/// Equality of two string slices.
pub fn str_eq(a: &str, b: &str) -> (r: bool)
    ensures
        r == (a@ == b@),
{
    let av = chars_of(a);
    same_str(&av, b)
}

pub fn starts_with_chars(s: &Vec<char>, p: &Vec<char>) -> (r: bool)
    ensures
        r == starts_with(s@, p@),
{
    if p.len() > s.len() {
        return false;
    }
    let head = slice(s, 0, p.len());
    assert(head@ =~= s@.take(p.len() as int));
    same(&head, p)
}

pub fn starts_with_str(s: &Vec<char>, p: &str) -> (r: bool)
    ensures
        r == starts_with(s@, p@),
{
    let pv = chars_of(p);
    starts_with_chars(s, &pv)
}

pub fn ends_with_chars(s: &Vec<char>, p: &Vec<char>) -> (r: bool)
    ensures
        r == ends_with(s@, p@),
{
    if p.len() > s.len() {
        return false;
    }
    let tail = slice(s, s.len() - p.len(), s.len());
    assert(tail@ =~= s@.skip(s.len() - p.len()));
    same(&tail, p)
}

pub fn ends_with_str(s: &Vec<char>, p: &str) -> (r: bool)
    ensures
        r == ends_with(s@, p@),
{
    let pv = chars_of(p);
    ends_with_chars(s, &pv)
}

/// `s.strip_prefix(p)`.
pub fn strip_prefix_str(s: &Vec<char>, p: &str) -> (r: Option<Vec<char>>)
    ensures
        match r {
            Some(rest) => starts_with(s@, p@) && rest@ == s@.skip(p@.len() as int),
            None => !starts_with(s@, p@),
        },
{
    let pv = chars_of(p);
    if starts_with_chars(s, &pv) {
        let rest = slice(s, pv.len(), s.len());
        assert(rest@ =~= s@.skip(p@.len() as int));
        Some(rest)
    } else {
        None
    }
}

/// `s.strip_suffix(p)`.
pub fn strip_suffix_str(s: &Vec<char>, p: &str) -> (r: Option<Vec<char>>)
    ensures
        match r {
            Some(rest) => ends_with(s@, p@) && rest@ == s@.take(s@.len() - p@.len()),
            None => !ends_with(s@, p@),
        },
{
    let pv = chars_of(p);
    if ends_with_chars(s, &pv) {
        let rest = slice(s, 0, s.len() - pv.len());
        assert(rest@ =~= s@.take(s@.len() - p@.len()));
        Some(rest)
    } else {
        None
    }
}

pub fn contains_char(s: &Vec<char>, c: char) -> (r: bool)
    ensures
        r == s@.contains(c),
{
    let mut i: usize = 0;
    while i < s.len()
        invariant
            i <= s.len(),
            forall|j: int| 0 <= j < i ==> s@[j] != c,
        decreases s.len() - i,
    {
        if s[i] == c {
            assert(s@[i as int] == c);
            return true;
        }
        i += 1;
    }
    false
}

/// Does the literal `p` occur in `s`?
pub fn contains_str(s: &Vec<char>, p: &str) -> (r: bool)
    ensures
        r == contains_seq(s@, p@),
{
    let pv = chars_of(p);
    if pv.len() > s.len() {
        assert forall|i: int| 0 <= i && i + p@.len() <= s@.len() implies #[trigger] s@.subrange(
            i,
            i + p@.len(),
        ) != p@ by {}
        return false;
    }
    let last = s.len() - pv.len();
    let mut i: usize = 0;
    loop
        invariant
            pv@ == p@,
            pv.len() <= s.len(),
            last == s.len() - pv.len(),
            i <= last,
            forall|j: int| 0 <= j < i ==> #[trigger] s@.subrange(j, j + p@.len()) != p@,
        decreases last - i,
    {
        let piece = slice(s, i, i + pv.len());
        if same(&piece, &pv) {
            return true;
        }
        if i == last {
            return false;
        }
        i += 1;
    }
}

pub fn find_first_char(s: &Vec<char>, c: char) -> (r: Option<usize>)
    ensures
        match r {
            Some(i) => find_first(s@, c) == Some(i as int),
            None => find_first(s@, c) is None,
        },
{
    let mut i: usize = 0;
    while i < s.len()
        invariant
            i <= s.len(),
            find_first(s@.take(i as int), c) is None,
        decreases s.len() - i,
    {
        assert(s@.take(i + 1).drop_last() =~= s@.take(i as int));
        if s[i] == c {
            proof {
                lemma_find_first_prefix(s@, c, i + 1);
            }
            return Some(i);
        }
        i += 1;
    }
    assert(s@.take(i as int) =~= s@);
    None
}

/// The first occurrence in a prefix is the first occurrence in the whole.
proof fn lemma_find_first_prefix(s: Seq<char>, c: char, n: int)
    requires
        0 <= n <= s.len(),
        find_first(s.take(n), c) is Some,
    ensures
        find_first(s, c) == find_first(s.take(n), c),
    decreases s.len() - n,
{
    if n < s.len() {
        assert(s.take(n + 1).drop_last() =~= s.take(n));
        lemma_find_first_prefix(s, c, n + 1);
    } else {
        assert(s.take(n) =~= s);
    }
}

pub fn find_last_char(s: &Vec<char>, c: char) -> (r: Option<usize>)
    ensures
        match r {
            Some(i) => find_last(s@, c) == Some(i as int),
            None => find_last(s@, c) is None,
        },
{
    let mut n: usize = s.len();
    assert(s@.take(n as int) =~= s@);
    while n > 0
        invariant
            n <= s.len(),
            find_last(s@, c) == find_last(s@.take(n as int), c),
        decreases n,
    {
        assert(s@.take(n as int).drop_last() =~= s@.take(n - 1));
        if s[n - 1] == c {
            return Some(n - 1);
        }
        n -= 1;
    }
    None
}

/// `s.split_once(c)`.
pub fn split_once_char(s: &Vec<char>, c: char) -> (r: Option<(Vec<char>, Vec<char>)>)
    ensures
        match r {
            Some((a, b)) => split_once(s@, c) == Some((a@, b@)),
            None => split_once(s@, c) is None,
        },
{
    proof {
        lemma_find_first_bounds(s@, c);
    }
    match find_first_char(s, c) {
        Some(i) => {
            let a = slice(s, 0, i);
            let b = slice(s, i + 1, s.len());
            assert(a@ =~= s@.take(i as int));
            assert(b@ =~= s@.skip(i + 1));
            Some((a, b))
        },
        None => None,
    }
}

/// `s.rsplit_once(c)`.
pub fn rsplit_once_char(s: &Vec<char>, c: char) -> (r: Option<(Vec<char>, Vec<char>)>)
    ensures
        match r {
            Some((a, b)) => rsplit_once(s@, c) == Some((a@, b@)),
            None => rsplit_once(s@, c) is None,
        },
{
    proof {
        lemma_find_last_bounds(s@, c);
    }
    match find_last_char(s, c) {
        Some(i) => {
            let a = slice(s, 0, i);
            let b = slice(s, i + 1, s.len());
            assert(a@ =~= s@.take(i as int));
            assert(b@ =~= s@.skip(i + 1));
            Some((a, b))
        },
        None => None,
    }
}

pub fn trim_start_chars(s: &Vec<char>) -> (r: Vec<char>)
    ensures
        r@ == trim_start(s@),
{
    let mut i: usize = 0;
    assert(s@.skip(0) =~= s@);
    while i < s.len() && is_whitespace(s[i])
        invariant
            i <= s.len(),
            trim_start(s@) == trim_start(s@.skip(i as int)),
        decreases s.len() - i,
    {
        assert(s@.skip(i as int).drop_first() =~= s@.skip(i + 1));
        i += 1;
    }
    let r = slice(s, i, s.len());
    assert(r@ =~= s@.skip(i as int));
    r
}

pub fn trim_end_chars(s: &Vec<char>) -> (r: Vec<char>)
    ensures
        r@ == trim_end(s@),
{
    let mut n: usize = s.len();
    assert(s@.take(n as int) =~= s@);
    while n > 0 && is_whitespace(s[n - 1])
        invariant
            n <= s.len(),
            trim_end(s@) == trim_end(s@.take(n as int)),
        decreases n,
    {
        assert(s@.take(n as int).drop_last() =~= s@.take(n - 1));
        n -= 1;
    }
    let r = slice(s, 0, n);
    assert(r@ =~= s@.take(n as int));
    r
}

pub fn trim_chars(s: &Vec<char>) -> (r: Vec<char>)
    ensures
        r@ == trim(s@),
{
    let a = trim_start_chars(s);
    trim_end_chars(&a)
}

/// `s.split(c)`.
pub fn split_char(s: &Vec<char>, c: char) -> (r: Vec<Vec<char>>)
    ensures
        cviews(r@) == split(s@, c),
        r@.len() >= 1,
{
    let mut done: Vec<Vec<char>> = Vec::new();
    let mut cur: Vec<char> = Vec::new();
    let mut i: usize = 0;
    while i < s.len()
        invariant
            i <= s.len(),
            cviews(done@).push(cur@) == split(s@.take(i as int), c),
        decreases s.len() - i,
    {
        assert(s@.take(i + 1).drop_last() =~= s@.take(i as int));
        let ghost before = cviews(done@).push(cur@);
        if s[i] == c {
            let piece = cur;
            done.push(piece);
            cur = Vec::new();
            assert(cviews(done@).push(cur@) =~= before.push(Seq::<char>::empty()));
        } else {
            cur.push(s[i]);
            assert(cviews(done@).push(cur@) =~= before.update(
                before.len() - 1,
                before.last().push(s@[i as int]),
            ));
        }
        i += 1;
    }
    assert(s@.take(i as int) =~= s@);
    done.push(cur);
    done
}

/// `s.lines()`.
pub fn lines_of(s: &Vec<char>) -> (r: Vec<Vec<char>>)
    ensures
        cviews(r@) == lines(s@),
{
    let pieces = split_char(s, '\n');
    let ghost p = split(s@, '\n');
    let n = pieces.len();
    let mut out: Vec<Vec<char>> = Vec::new();
    let mut i: usize = 0;
    while i + 1 < n
        invariant
            n == pieces@.len() >= 1,
            cviews(pieces@) == p,
            i <= n - 1,
            cviews(out@) == p.take(i as int).map_values(|l: Seq<char>| strip_cr(l)),
        decreases n - i,
    {
        let l = &pieces[i];
        let piece = if l.len() > 0 && l[l.len() - 1] == '\r' {
            slice(l, 0, l.len() - 1)
        } else {
            slice(l, 0, l.len())
        };
        proof {
            assert(p[i as int] == l@);
            assert(l@.take(l@.len() as int) =~= l@);
            assert(l@.len() > 0 ==> l@.subrange(0, l@.len() - 1) =~= l@.drop_last());
        }
        out.push(piece);
        assert(p.take(i + 1).map_values(|l: Seq<char>| strip_cr(l)) =~= p.take(i as int).map_values(
            |l: Seq<char>| strip_cr(l),
        ).push(strip_cr(p[i as int])));
        i += 1;
    }
    assert(p.take(i as int) =~= p.drop_last());
    let last = &pieces[n - 1];
    assert(last@ == p.last());
    if last.len() > 0 {
        let copy = slice(last, 0, last.len());
        assert(copy@ =~= last@);
        out.push(copy);
    }
    out
}

/// `s.split_inclusive('\n')`: the lines with their line breaks.
pub fn pieces_of(s: &Vec<char>) -> (r: Vec<Vec<char>>)
    ensures
        cviews(r@) == pieces(s@),
{
    let parts = split_char(s, '\n');
    let ghost p = split(s@, '\n');
    let n = parts.len();
    let mut out: Vec<Vec<char>> = Vec::new();
    let mut i: usize = 0;
    while i + 1 < n
        invariant
            n == parts@.len() >= 1,
            cviews(parts@) == p,
            i <= n - 1,
            cviews(out@) == p.take(i as int).map_values(|l: Seq<char>| l.push('\n')),
        decreases n - i,
    {
        let mut piece: Vec<char> = Vec::new();
        push_all(&mut piece, &parts[i]);
        piece.push('\n');
        assert(p[i as int] == parts@[i as int]@);
        out.push(piece);
        assert(p.take(i + 1).map_values(|l: Seq<char>| l.push('\n')) =~= p.take(i as int).map_values(
            |l: Seq<char>| l.push('\n'),
        ).push(p[i as int].push('\n')));
        i += 1;
    }
    assert(p.take(i as int) =~= p.drop_last());
    let last = &parts[n - 1];
    assert(last@ == p.last());
    if last.len() > 0 {
        let mut copy: Vec<char> = Vec::new();
        push_all(&mut copy, last);
        out.push(copy);
    }
    out
}

/// The pieces put back together.
pub fn concat_chars(ps: &Vec<Vec<char>>) -> (r: Vec<char>)
    ensures
        r@ == concat(cviews(ps@)),
{
    let ghost v = cviews(ps@);
    let mut out: Vec<char> = Vec::new();
    let mut i: usize = 0;
    while i < ps.len()
        invariant
            i <= ps.len(),
            v == cviews(ps@),
            out@ == concat(v.take(i as int)),
        decreases ps.len() - i,
    {
        assert(v.take(i + 1).drop_last() =~= v.take(i as int));
        push_all(&mut out, &ps[i]);
        i += 1;
    }
    assert(v.take(i as int) =~= v);
    out
}

/// `s.split_whitespace()`.
pub fn words_of(s: &Vec<char>) -> (r: Vec<Vec<char>>)
    ensures
        cviews(r@) == words(s@),
{
    let mut done: Vec<Vec<char>> = Vec::new();
    let mut cur: Vec<char> = Vec::new();
    let mut i: usize = 0;
    while i < s.len()
        invariant
            i <= s.len(),
            ws_scan(s@.take(i as int)) == (cviews(done@), cur@),
        decreases s.len() - i,
    {
        assert(s@.take(i + 1).drop_last() =~= s@.take(i as int));
        let ghost before = cviews(done@);
        if is_whitespace(s[i]) {
            if cur.len() > 0 {
                let piece = cur;
                done.push(piece);
                cur = Vec::new();
                assert(cviews(done@) =~= before.push(piece@));
            }
        } else {
            cur.push(s[i]);
        }
        i += 1;
    }
    assert(s@.take(i as int) =~= s@);
    if cur.len() > 0 {
        let ghost before = cviews(done@);
        let piece = cur;
        done.push(piece);
        assert(cviews(done@) =~= before.push(piece@));
    }
    done
}

/// `pieces.join(sep)`.
pub fn join_chars(pieces: &Vec<Vec<char>>, sep: &str) -> (r: Vec<char>)
    ensures
        r@ == join(cviews(pieces@), sep@),
{
    let sv = chars_of(sep);
    let mut out: Vec<char> = Vec::new();
    let mut i: usize = 0;
    while i < pieces.len()
        invariant
            i <= pieces.len(),
            sv@ == sep@,
            out@ == join(cviews(pieces@).take(i as int), sep@),
        decreases pieces.len() - i,
    {
        let ghost t = cviews(pieces@).take(i + 1);
        assert(t.drop_last() =~= cviews(pieces@).take(i as int));
        if i > 0 {
            push_all(&mut out, &sv);
        }
        push_all(&mut out, &pieces[i]);
        proof {
            if i == 0 {
                assert(out@ =~= t[0]);
            }
        }
        i += 1;
    }
    assert(cviews(pieces@).take(i as int) =~= cviews(pieces@));
    out
}

/// Decimal digits of `n`, as `n.to_string()` prints them.
pub fn decimal_chars(n: u64) -> (r: Vec<char>)
    ensures
        r@ == decimal(n as nat),
    decreases n,
{
    let d = (n % 10) as u8;
    let c = (48u8 + d) as char;
    if n < 10 {
        let mut v: Vec<char> = Vec::new();
        v.push(c);
        v
    } else {
        let mut v = decimal_chars(n / 10);
        v.push(c);
        v
    }
}

/// `a < b` in `String` order.
pub fn lt_chars(a: &Vec<char>, b: &Vec<char>) -> (r: bool)
    ensures
        r == seq_lt(a@, b@),
{
    let mut i: usize = 0;
    assert(a@.skip(0) =~= a@);
    assert(b@.skip(0) =~= b@);
    loop
        invariant
            i <= a.len(),
            i <= b.len(),
            seq_lt(a@, b@) == seq_lt(a@.skip(i as int), b@.skip(i as int)),
        decreases a.len() - i,
    {
        if i == a.len() {
            return i < b.len();
        }
        if i == b.len() {
            return false;
        }
        if a[i] != b[i] {
            return a[i] < b[i];
        }
        assert(a@.skip(i as int).drop_first() =~= a@.skip(i + 1));
        assert(b@.skip(i as int).drop_first() =~= b@.skip(i + 1));
        i += 1;
    }
}

/// `a < b` for strings.
pub fn lt_strings(a: &String, b: &String) -> (r: bool)
    ensures
        r == seq_lt(a@, b@),
{
    let av = chars_of(a.as_str());
    let bv = chars_of(b.as_str());
    lt_chars(&av, &bv)
}

/// `s.parse::<u64>()`, with `None` for every error.
pub fn parse_u64(s: &Vec<char>) -> (r: Option<u64>)
    ensures
        r == parse_u64_spec(s@),
{
    let start: usize = if s.len() > 0 && s[0] == '+' {
        1
    } else {
        0
    };
    let ghost d = if s@.len() > 0 && s@[0] == '+' {
        s@.drop_first()
    } else {
        s@
    };
    assert(d =~= s@.skip(start as int));
    if start == s.len() {
        return None;
    }
    let mut v: u64 = 0;
    let mut i: usize = start;
    while i < s.len()
        invariant
            start <= i <= s.len(),
            d == s@.skip(start as int),
            d == (if s@.len() > 0 && s@[0] == '+' {
                s@.drop_first()
            } else {
                s@
            }),
            all_digits(d.take(i - start)),
            v == digits_value(d.take(i - start)),
        decreases s.len() - i,
    {
        let c = s[i];
        assert(d[i - start] == c);
        if !is_ascii_digit(c) {
            assert(!all_digits(d));
            return None;
        }
        let ghost k = (i - start) as int;
        assert(d.take(k + 1).drop_last() =~= d.take(k));
        assert(d.take(k + 1).last() == c);
        assert(all_digits(d.take(k + 1))) by {
            assert forall|j: int| 0 <= j < k + 1 implies is_digit(#[trigger] d.take(k + 1)[j]) by {
                if j < k {
                    assert(d.take(k + 1)[j] == d.take(k)[j]);
                }
            }
        }
        let digit = ((c as u32) - 48) as u64;
        let next = match v.checked_mul(10) {
            Some(m) => m.checked_add(digit),
            None => None,
        };
        match next {
            Some(n) => {
                v = n;
            },
            None => {
                proof {
                    if all_digits(d) {
                        lemma_digits_value_grows(d, k + 1, d.len() as int);
                        assert(d.take(d.len() as int) =~= d);
                    }
                }
                return None;
            },
        }
        i += 1;
    }
    assert(d.take(i - start) =~= d);
    Some(v)
}

/// Decimal digits of a signed number, as `n.to_string()` prints them.
pub fn i32_chars(n: i32) -> (r: Vec<char>)
    ensures
        r@ == signed_decimal(n as int),
{
    if n < 0 {
        let m: u64 = (-(n as i64)) as u64;
        let mut out: Vec<char> = Vec::new();
        out.push('-');
        let d = decimal_chars(m);
        push_all(&mut out, &d);
        out
    } else {
        decimal_chars(n as u64)
    }
}

/// `v.join(sep)` for strings.
pub fn join_strings(v: &[String], sep: &str) -> (r: String)
    ensures
        r@ == join(views(v@), sep@),
{
    let mut pieces: Vec<Vec<char>> = Vec::new();
    let mut i: usize = 0;
    while i < v.len()
        invariant
            i <= v.len(),
            cviews(pieces@) == views(v@).take(i as int),
        decreases v.len() - i,
    {
        let ghost before = cviews(pieces@);
        let item = chars_of(v[i].as_str());
        pieces.push(item);
        assert(cviews(pieces@) =~= before.push(item@));
        assert(views(v@).take(i + 1) =~= views(v@).take(i as int).push(v@[i as int]@));
        i += 1;
    }
    assert(views(v@).take(i as int) =~= views(v@));
    let out = join_chars(&pieces, sep);
    string_of(&out)
}

/// Calls `str::to_lowercase`. Claims only that the result is named
/// `lowercased`.
#[verifier::external_body]
pub(crate) fn lowercase(s: &str) -> (r: String)
    ensures
        r@ == lowercased(s@),
{
    s.to_lowercase()
}

} // verus!
