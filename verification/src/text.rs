//! Character-level text model shared by the other modules: whitespace,
//! trimming, line splitting and decimal numbers, stated over `Seq<char>`
//! with the behaviour that `str::trim`, `str::lines` and `u64::from_str`
//! document.
use vstd::prelude::*;

verus! {

broadcast use vstd::string::group_string_axioms;

/// `char::is_whitespace`: the Unicode `White_Space` property.
pub open spec fn is_ws(c: char) -> bool {
    ||| c == '\t'
    ||| c == '\n'
    ||| c == '\u{0B}'
    ||| c == '\u{0C}'
    ||| c == '\r'
    ||| c == ' '
    ||| c == '\u{85}'
    ||| c == '\u{A0}'
    ||| c == '\u{1680}'
    ||| ('\u{2000}' <= c && c <= '\u{200A}')
    ||| c == '\u{2028}'
    ||| c == '\u{2029}'
    ||| c == '\u{202F}'
    ||| c == '\u{205F}'
    ||| c == '\u{3000}'
}

/// Leading whitespace removed.
pub open spec fn trim_start(s: Seq<char>) -> Seq<char>
    decreases s.len(),
{
    if s.len() > 0 && is_ws(s[0]) {
        trim_start(s.drop_first())
    } else {
        s
    }
}

/// Trailing whitespace removed.
pub open spec fn trim_end(s: Seq<char>) -> Seq<char>
    decreases s.len(),
{
    if s.len() > 0 && is_ws(s.last()) {
        trim_end(s.drop_last())
    } else {
        s
    }
}

/// `str::trim`: leading and trailing whitespace removed.
pub open spec fn trim(s: Seq<char>) -> Seq<char> {
    trim_end(trim_start(s))
}

/// `s` begins with `p`.
pub open spec fn starts_with(s: Seq<char>, p: Seq<char>) -> bool {
    p.len() <= s.len() && s.subrange(0, p.len() as int) == p
}

/// `s` ends with `p`.
pub open spec fn ends_with(s: Seq<char>, p: Seq<char>) -> bool {
    p.len() <= s.len() && s.subrange(s.len() - p.len(), s.len() as int) == p
}

/// `str::trim_end_matches` with a `char` pattern: every trailing `c` removed.
pub open spec fn trim_end_char(s: Seq<char>, c: char) -> Seq<char>
    decreases s.len(),
{
    if s.len() > 0 && s.last() == c {
        trim_end_char(s.drop_last(), c)
    } else {
        s
    }
}

/// `str::trim_end_matches` with a non-empty string pattern: the suffix `p`
/// removed as long as it is there.
pub open spec fn trim_end_seq(s: Seq<char>, p: Seq<char>) -> Seq<char>
    decreases s.len(),
{
    if p.len() > 0 && ends_with(s, p) {
        trim_end_seq(s.subrange(0, s.len() - p.len()), p)
    } else {
        s
    }
}

/// `str::trim_start_matches` with a non-empty string pattern: the prefix
/// `p` removed as long as it is there.
pub open spec fn trim_start_seq(s: Seq<char>, p: Seq<char>) -> Seq<char>
    decreases s.len(),
{
    if p.len() > 0 && starts_with(s, p) {
        trim_start_seq(s.skip(p.len() as int), p)
    } else {
        s
    }
}

/// The pieces of `s` between `sep` characters (as `str::split` with a
/// `char`): always at least one piece.
pub open spec fn split_on(s: Seq<char>, sep: char) -> Seq<Seq<char>>
    decreases s.len(),
{
    if s.len() == 0 {
        seq![Seq::empty()]
    } else {
        let prev = split_on(s.drop_last(), sep);
        if s.last() == sep {
            prev.push(Seq::empty())
        } else {
            prev.update(prev.len() - 1, prev.last().push(s.last()))
        }
    }
}

/// One trailing carriage return removed.
pub open spec fn strip_cr(l: Seq<char>) -> Seq<char> {
    if l.len() > 0 && l.last() == '\r' {
        l.drop_last()
    } else {
        l
    }
}

/// `str::lines`: pieces between `'\n'`, a `'\r'` right before a `'\n'`
/// removed, and no empty last line after a final line ending.
pub open spec fn lines(s: Seq<char>) -> Seq<Seq<char>> {
    let g = split_on(s, '\n');
    let body = g.drop_last().map_values(|l: Seq<char>| strip_cr(l));
    if g.last().len() == 0 {
        body
    } else {
        body.push(g.last())
    }
}

/// Lines each followed by `'\n'`, concatenated.
pub open spec fn join_lines(ls: Seq<Seq<char>>) -> Seq<char>
    decreases ls.len(),
{
    if ls.len() == 0 {
        Seq::empty()
    } else {
        join_lines(ls.drop_last()) + ls.last() + seq!['\n']
    }
}

/// ASCII decimal digit.
pub open spec fn is_digit(c: char) -> bool {
    '0' <= c && c <= '9'
}

/// Value of a sequence of decimal digits.
pub open spec fn digits_value(s: Seq<char>) -> nat
    decreases s.len(),
{
    if s.len() == 0 {
        0
    } else {
        digits_value(s.drop_last()) * 10 + ((s.last() as u32) - ('0' as u32)) as nat
    }
}

/// The digits of a `u64` literal as `u64::from_str` accepts it: an optional
/// leading `'+'`, then one or more digits.
pub open spec fn decimal_digits(s: Seq<char>) -> Seq<char> {
    if s.len() > 0 && s[0] == '+' {
        s.drop_first()
    } else {
        s
    }
}

/// `u64::from_str`: `Some` exactly when `s` is an optional `'+'` followed by
/// at least one ASCII digit and nothing else, and the value fits in a `u64`.
pub open spec fn parse_u64_spec(s: Seq<char>) -> Option<u64> {
    let d = decimal_digits(s);
    if d.len() > 0 && (forall|i: int| 0 <= i < d.len() ==> is_digit(#[trigger] d[i]))
        && digits_value(d) <= u64::MAX {
        Some(digits_value(d) as u64)
    } else {
        None
    }
}


// ---------------------------------------------------------------------------
// Lemmas on splitting and joining
// ---------------------------------------------------------------------------

/// `l` holds no line feed.
pub open spec fn no_newline(l: Seq<char>) -> bool {
    forall|i: int| 0 <= i < l.len() ==> l[i] != '\n'
}

/// Splitting always gives at least one piece.
pub proof fn lemma_split_len(s: Seq<char>, sep: char)
    ensures
        split_on(s, sep).len() >= 1,
    decreases s.len(),
{
    if s.len() > 0 {
        lemma_split_len(s.drop_last(), sep);
    }
}

/// No piece holds the separator.
pub proof fn lemma_split_pieces(s: Seq<char>, sep: char)
    ensures
        forall|j: int, i: int|
            0 <= j < split_on(s, sep).len() && 0 <= i < split_on(s, sep)[j].len() ==> #[trigger] split_on(
                s,
                sep,
            )[j][i] != sep,
    decreases s.len(),
{
    if s.len() > 0 {
        lemma_split_pieces(s.drop_last(), sep);
        lemma_split_len(s.drop_last(), sep);
        let prev = split_on(s.drop_last(), sep);
        assert forall|j: int, i: int|
            0 <= j < split_on(s, sep).len() && 0 <= i < split_on(s, sep)[j].len() implies #[trigger] split_on(
            s,
            sep,
        )[j][i] != sep by {
            if s.last() != sep && j == prev.len() - 1 {
                if i < prev.last().len() {
                    assert(split_on(s, sep)[j][i] == prev[j][i]);
                }
            } else if j < prev.len() {
                assert(split_on(s, sep)[j] == prev[j]);
            }
        }
    }
}

/// Appending text without a separator extends the last piece.
pub proof fn lemma_split_append_plain(a: Seq<char>, b: Seq<char>, sep: char)
    requires
        forall|i: int| 0 <= i < b.len() ==> b[i] != sep,
    ensures
        split_on(a + b, sep) == split_on(a, sep).update(
            split_on(a, sep).len() - 1,
            split_on(a, sep).last() + b,
        ),
    decreases b.len(),
{
    lemma_split_len(a, sep);
    let g = split_on(a, sep);
    if b.len() == 0 {
        assert(a + b =~= a);
        assert(g.last() + b =~= g.last());
        assert(g.update(g.len() - 1, g.last() + b) =~= g);
    } else {
        let b0 = b.drop_last();
        lemma_split_append_plain(a, b0, sep);
        assert((a + b).drop_last() =~= a + b0);
        assert((a + b).last() == b.last());
        let p = g.update(g.len() - 1, g.last() + b0);
        assert(p.last().push(b.last()) =~= g.last() + b);
        assert(p.update(p.len() - 1, g.last() + b) =~= g.update(g.len() - 1, g.last() + b));
    }
}

/// Text without a separator is one piece.
pub proof fn lemma_split_single(l: Seq<char>, sep: char)
    requires
        forall|i: int| 0 <= i < l.len() ==> l[i] != sep,
    ensures
        split_on(l, sep) == seq![l],
{
    lemma_split_append_plain(Seq::empty(), l, sep);
    assert(Seq::<char>::empty() + l =~= l);
    assert(split_on(Seq::<char>::empty(), sep).update(0, Seq::<char>::empty() + l) =~= seq![l]);
}

/// Splitting at a separator splits the two sides apart.
pub proof fn lemma_split_append_sep(a: Seq<char>, b: Seq<char>, sep: char)
    ensures
        split_on(a + seq![sep] + b, sep) == split_on(a, sep) + split_on(b, sep),
    decreases b.len(),
{
    lemma_split_len(a, sep);
    lemma_split_len(b, sep);
    if b.len() == 0 {
        assert(a + seq![sep] + b =~= a + seq![sep]);
        assert((a + seq![sep]).drop_last() =~= a);
        assert(split_on(a, sep) + split_on(b, sep) =~= split_on(a, sep).push(Seq::empty()));
    } else {
        let b0 = b.drop_last();
        lemma_split_append_sep(a, b0, sep);
        lemma_split_len(b0, sep);
        assert((a + seq![sep] + b).drop_last() =~= a + seq![sep] + b0);
        assert((a + seq![sep] + b).last() == b.last());
        let p = split_on(a, sep) + split_on(b0, sep);
        if b.last() == sep {
            assert(split_on(a, sep) + split_on(b, sep) =~= p.push(Seq::empty()));
        } else {
            assert(split_on(a, sep) + split_on(b, sep) =~= p.update(
                p.len() - 1,
                p.last().push(b.last()),
            ));
        }
    }
}

/// Joined lines split back into themselves.
pub proof fn lemma_split_join(ks: Seq<Seq<char>>, b: Seq<char>)
    requires
        forall|j: int| 0 <= j < ks.len() ==> no_newline(#[trigger] ks[j]),
    ensures
        split_on(join_lines(ks) + b, '\n') == ks + split_on(b, '\n'),
    decreases ks.len(),
{
    if ks.len() == 0 {
        assert(join_lines(ks) + b =~= b);
        assert(ks + split_on(b, '\n') =~= split_on(b, '\n'));
    } else {
        let k0 = ks.drop_last();
        let l = ks.last();
        assert(no_newline(ks[ks.len() - 1]));
        assert forall|j: int| 0 <= j < k0.len() implies no_newline(#[trigger] k0[j]) by {
            assert(no_newline(ks[j]));
        }
        assert(join_lines(ks) + b =~= join_lines(k0) + (l + seq!['\n'] + b));
        lemma_split_join(k0, l + seq!['\n'] + b);
        lemma_split_append_sep(l, b, '\n');
        lemma_split_single(l, '\n');
        assert(k0 + (seq![l] + split_on(b, '\n')) =~= ks + split_on(b, '\n'));
    }
}

/// Joined lines end with a line feed, unless there are none.
pub proof fn lemma_join_ends(ks: Seq<Seq<char>>)
    ensures
        join_lines(ks).len() > 0 <==> ks.len() > 0,
        ks.len() > 0 ==> join_lines(ks).last() == '\n',
{
}

/// The lines of text that ends with a line feed are its pieces, each with
/// a final carriage return removed.
pub proof fn lemma_lines_terminated(a: Seq<char>)
    ensures
        lines(a + seq!['\n']) == split_on(a, '\n').map_values(|l: Seq<char>| strip_cr(l)),
{
    lemma_split_append_sep(a, Seq::empty(), '\n');
    assert(a + seq!['\n'] + Seq::<char>::empty() =~= a + seq!['\n']);
    let g = split_on(a + seq!['\n'], '\n');
    assert(g.drop_last() =~= split_on(a, '\n'));
}

/// Text without line feeds, joined, has none.
pub proof fn lemma_no_newline_concat(a: Seq<char>, b: Seq<char>)
    requires
        no_newline(a),
        no_newline(b),
    ensures
        no_newline(a + b),
{
    assert forall|i: int| 0 <= i < (a + b).len() implies (a + b)[i] != '\n' by {
        if i < a.len() {
            assert((a + b)[i] == a[i]);
        } else {
            assert((a + b)[i] == b[i - a.len()]);
        }
    }
}

/// Trimming keeps a first character that is not whitespace.
pub proof fn lemma_trim_keeps_first(s: Seq<char>)
    requires
        s.len() > 0,
        !is_ws(s[0]),
    ensures
        trim(s).len() > 0,
        trim(s)[0] == s[0],
{
    assert(trim_start(s) == s);
    lemma_trim_end_keeps_first(s);
}

proof fn lemma_trim_end_keeps_first(s: Seq<char>)
    requires
        s.len() > 0,
        !is_ws(s[0]),
    ensures
        trim_end(s).len() > 0,
        trim_end(s)[0] == s[0],
    decreases s.len(),
{
    if is_ws(s.last()) {
        assert(s.len() >= 2);
        assert(s.drop_last()[0] == s[0]);
        lemma_trim_end_keeps_first(s.drop_last());
    }
}

/// Where piece `j` of `split_on(s, sep)` ends in `s`: at the separator
/// that follows it, or at the end of `s` for the last piece.
pub open spec fn split_end(s: Seq<char>, sep: char, j: int) -> int
    decreases s.len(),
{
    if s.len() == 0 {
        0
    } else {
        let n0 = split_on(s.drop_last(), sep).len();
        if j < n0 - 1 {
            split_end(s.drop_last(), sep, j)
        } else if j == n0 - 1 && s.last() == sep {
            s.len() - 1
        } else {
            s.len() as int
        }
    }
}

/// Each piece ends where `split_end` says: every piece but the last right
/// before a separator, the last at the end of the text, and a non-empty
/// piece's last character is the one just before that point.
pub proof fn lemma_split_ends(s: Seq<char>, sep: char)
    ensures
        forall|j: int|
            #![trigger split_end(s, sep, j)]
            0 <= j < split_on(s, sep).len() ==> {
                let e = split_end(s, sep, j);
                let n = split_on(s, sep).len();
                let piece = split_on(s, sep)[j];
                &&& piece.len() <= e <= s.len()
                &&& j < n - 1 ==> e < s.len() && s[e] == sep
                &&& j == n - 1 ==> e == s.len()
                &&& piece.len() > 0 ==> s[e - 1] == piece.last()
            },
    decreases s.len(),
{
    if s.len() > 0 {
        let s0 = s.drop_last();
        lemma_split_ends(s0, sep);
        lemma_split_len(s0, sep);
        let prev = split_on(s0, sep);
        let g = split_on(s, sep);
        assert forall|j: int| #![trigger split_end(s, sep, j)] 0 <= j < g.len() implies {
            let e = split_end(s, sep, j);
            let n = g.len();
            let piece = g[j];
            &&& piece.len() <= e <= s.len()
            &&& j < n - 1 ==> e < s.len() && s[e] == sep
            &&& j == n - 1 ==> e == s.len()
            &&& piece.len() > 0 ==> s[e - 1] == piece.last()
        } by {
            if j < prev.len() - 1 {
                let e0 = split_end(s0, sep, j);
                assert(g[j] == prev[j]);
                if e0 < s0.len() {
                    assert(s[e0] == s0[e0]);
                }
                if prev[j].len() > 0 {
                    assert(s[e0 - 1] == s0[e0 - 1]);
                }
            } else if j == prev.len() - 1 {
                let e0 = split_end(s0, sep, j);
                if s.last() == sep {
                    assert(g[j] == prev[j]);
                    if prev[j].len() > 0 {
                        assert(s[e0 - 1] == s0[e0 - 1]);
                    }
                } else {
                    assert(g[j] == prev.last().push(s.last()));
                }
            }
        }
    }
}

/// Joining the pieces of `a` gives `a` with a final line feed.
pub proof fn lemma_join_split(a: Seq<char>)
    ensures
        join_lines(split_on(a, '\n')) == a.push('\n'),
    decreases a.len(),
{
    if a.len() == 0 {
        assert(split_on(a, '\n').drop_last() =~= Seq::<Seq<char>>::empty());
        assert(join_lines(Seq::<Seq<char>>::empty()) =~= Seq::<char>::empty());
        assert(Seq::<char>::empty() + Seq::<char>::empty() + seq!['\n'] =~= a.push('\n'));
    } else {
        let a0 = a.drop_last();
        lemma_join_split(a0);
        lemma_split_len(a0, '\n');
        let g0 = split_on(a0, '\n');
        let g = split_on(a, '\n');
        if a.last() == '\n' {
            assert(g.drop_last() =~= g0);
            assert(join_lines(g) == join_lines(g0) + Seq::<char>::empty() + seq!['\n']);
            assert(a0.push('\n') + Seq::<char>::empty() + seq!['\n'] =~= a.push('\n'));
        } else {
            assert(g.drop_last() =~= g0.drop_last());
            assert(join_lines(g0) == join_lines(g0.drop_last()) + g0.last() + seq!['\n']);
            let x = join_lines(g0.drop_last()) + g0.last();
            assert(x =~= a0) by {
                assert((x + seq!['\n']).drop_last() =~= x);
                assert(a0.push('\n').drop_last() =~= a0);
            }
            assert(g.last() == g0.last().push(a.last()));
            assert(join_lines(g) == join_lines(g.drop_last()) + g.last() + seq!['\n']);
            assert(join_lines(g0.drop_last()) + g0.last().push(a.last()) =~= x.push(a.last()));
            assert(a0.push(a.last()) =~= a);
        }
    }
}

/// Every line is free of line feeds.
pub proof fn lemma_lines_no_newline(s: Seq<char>)
    ensures
        forall|j: int| 0 <= j < lines(s).len() ==> no_newline(#[trigger] lines(s)[j]),
{
    lemma_split_pieces(s, '\n');
    lemma_split_len(s, '\n');
    let g = split_on(s, '\n');
    assert forall|j: int| 0 <= j < lines(s).len() implies no_newline(#[trigger] lines(s)[j]) by {
        if j < g.len() - 1 {
            assert(lines(s)[j] == strip_cr(g[j]));
            assert forall|i: int| 0 <= i < strip_cr(g[j]).len() implies strip_cr(g[j])[i] != '\n' by {
                assert(strip_cr(g[j])[i] == g[j][i]);
            }
        } else {
            assert(lines(s)[j] == g[j]);
            assert forall|i: int| 0 <= i < g[j].len() implies g[j][i] != '\n' by {
                assert(g[j][i] != '\n');
            }
        }
    }
}

// ---------------------------------------------------------------------------
// Executable helpers
// ---------------------------------------------------------------------------

/// `String::push`: the string afterwards is the string before with `c`
/// appended.
#[verifier::external_body]
pub(crate) fn push_char(s: &mut String, c: char)
    ensures
        final(s)@ == old(s)@.push(c),
{
    s.push(c);
}

/// The characters of `s`, in order.
pub fn chars_of(s: &str) -> (v: Vec<char>)
    ensures
        v@ == s@,
{
    let mut v: Vec<char> = Vec::new();
    for c in it: s.chars()
        invariant
            it.seq() == s@,
            v@ == it.seq().take(it.index()),
    {
        v.push(c);
    }
    v
}

/// `char::is_whitespace`.
pub fn is_whitespace(c: char) -> (r: bool)
    ensures
        r == is_ws(c),
{
    c == '\t' || c == '\n' || c == '\u{0B}' || c == '\u{0C}' || c == '\r' || c == ' ' || c
        == '\u{85}' || c == '\u{A0}' || c == '\u{1680}' || ('\u{2000}' <= c && c <= '\u{200A}')
        || c == '\u{2028}' || c == '\u{2029}' || c == '\u{202F}' || c == '\u{205F}' || c
        == '\u{3000}'
}


/// Bounds of `v[start..end]` with its leading and trailing whitespace removed.
pub fn trim_bounds(v: &Vec<char>, start: usize, end: usize) -> (r: (usize, usize))
    requires
        start <= end <= v@.len(),
    ensures
        start <= r.0 <= r.1 <= end,
        v@.subrange(r.0 as int, r.1 as int) == trim(v@.subrange(start as int, end as int)),
{
    let mut lo = start;
    while lo < end && is_whitespace(v[lo])
        invariant
            start <= lo <= end <= v@.len(),
            trim_start(v@.subrange(start as int, end as int)) == trim_start(
                v@.subrange(lo as int, end as int),
            ),
        decreases end - lo,
    {
        assert(v@.subrange(lo as int, end as int).drop_first() =~= v@.subrange(
            lo + 1,
            end as int,
        ));
        lo = lo + 1;
    }
    assert(trim_start(v@.subrange(lo as int, end as int)) == v@.subrange(lo as int, end as int));
    let mut hi = end;
    while hi > lo && is_whitespace(v[hi - 1])
        invariant
            start <= lo <= hi <= end <= v@.len(),
            trim_end(v@.subrange(lo as int, end as int)) == trim_end(
                v@.subrange(lo as int, hi as int),
            ),
        decreases hi - lo,
    {
        assert(v@.subrange(lo as int, hi as int).drop_last() =~= v@.subrange(
            lo as int,
            hi - 1,
        ));
        hi = hi - 1;
    }
    assert(trim_end(v@.subrange(lo as int, hi as int)) == v@.subrange(lo as int, hi as int));
    (lo, hi)
}

/// Whether `v[lo..hi]` equals `m`.
pub fn range_eq(v: &Vec<char>, lo: usize, hi: usize, m: &Vec<char>) -> (r: bool)
    requires
        lo <= hi <= v@.len(),
    ensures
        r == (v@.subrange(lo as int, hi as int) == m@),
{
    if hi - lo != m.len() {
        assert(v@.subrange(lo as int, hi as int).len() != m@.len());
        return false;
    }
    let mut i: usize = 0;
    while i < m.len()
        invariant
            hi - lo == m@.len(),
            lo <= hi <= v@.len(),
            0 <= i <= m@.len(),
            forall|j: int| 0 <= j < i ==> v@[lo + j] == m@[j],
        decreases m@.len() - i,
    {
        if v[lo + i] != m[i] {
            assert(v@.subrange(lo as int, hi as int)[i as int] != m@[i as int]);
            return false;
        }
        i = i + 1;
    }
    assert(v@.subrange(lo as int, hi as int) =~= m@);
    true
}

/// Whether `v[lo..hi]` begins with `p`.
pub fn range_starts_with(v: &Vec<char>, lo: usize, hi: usize, p: &Vec<char>) -> (r: bool)
    requires
        lo <= hi <= v@.len(),
    ensures
        r == starts_with(v@.subrange(lo as int, hi as int), p@),
{
    if p.len() > hi - lo {
        return false;
    }
    let r = range_eq(v, lo, lo + p.len(), p);
    assert(v@.subrange(lo as int, hi as int).subrange(0, p@.len() as int) =~= v@.subrange(
        lo as int,
        lo + p@.len(),
    ));
    r
}

/// Whether `v[lo..hi]` ends with `p`.
pub fn range_ends_with(v: &Vec<char>, lo: usize, hi: usize, p: &Vec<char>) -> (r: bool)
    requires
        lo <= hi <= v@.len(),
    ensures
        r == ends_with(v@.subrange(lo as int, hi as int), p@),
{
    if p.len() > hi - lo {
        return false;
    }
    let r = range_eq(v, hi - p.len(), hi, p);
    let ghost s = v@.subrange(lo as int, hi as int);
    assert(s.subrange(s.len() - p@.len(), s.len() as int) =~= v@.subrange(
        hi - p@.len(),
        hi as int,
    ));
    r
}

/// Appends `v[lo..hi]` to `out`.
pub fn push_range(out: &mut String, v: &Vec<char>, lo: usize, hi: usize)
    requires
        lo <= hi <= v@.len(),
    ensures
        final(out)@ == old(out)@ + v@.subrange(lo as int, hi as int),
{
    let mut i = lo;
    while i < hi
        invariant
            lo <= i <= hi <= v@.len(),
            out@ == old(out)@ + v@.subrange(lo as int, i as int),
        decreases hi - i,
    {
        push_char(out, v[i]);
        assert(v@.subrange(lo as int, i + 1) =~= v@.subrange(lo as int, i as int).push(v@[i as int]));
        i = i + 1;
    }
}

/// Ranges of `v` holding its lines, as `str::lines` yields them.
pub fn line_ranges(v: &Vec<char>) -> (rs: Vec<(usize, usize)>)
    ensures
        rs@.len() == lines(v@).len(),
        forall|k: int|
            #![trigger rs@[k]]
            0 <= k < rs@.len() ==> rs@[k].0 <= rs@[k].1 <= v@.len() && v@.subrange(
                rs@[k].0 as int,
                rs@[k].1 as int,
            ) == lines(v@)[k],
{
    let mut rs: Vec<(usize, usize)> = Vec::new();
    let mut cur: usize = 0;
    let mut i: usize = 0;
    assert(v@.take(0) =~= Seq::<char>::empty());
    assert(v@.subrange(0, 0) =~= Seq::<char>::empty());
    while i < v.len()
        invariant
            0 <= cur <= i <= v@.len(),
            split_on(v@.take(i as int), '\n').len() == rs@.len() + 1,
            split_on(v@.take(i as int), '\n').last() == v@.subrange(cur as int, i as int),
            forall|k: int|
            #![trigger rs@[k]]
                0 <= k < rs@.len() ==> rs@[k].0 <= rs@[k].1 <= v@.len() && v@.subrange(
                    rs@[k].0 as int,
                    rs@[k].1 as int,
                ) == strip_cr(split_on(v@.take(i as int), '\n')[k]),
        decreases v@.len() - i,
    {
        let ghost prev = split_on(v@.take(i as int), '\n');
        assert(v@.take(i + 1).drop_last() =~= v@.take(i as int));
        assert(v@.take(i + 1).last() == v@[i as int]);
        let ghost next = split_on(v@.take(i + 1), '\n');
        let ghost old_rs = rs@;
        if v[i] == '\n' {
            assert(next == prev.push(Seq::<char>::empty()));
            let mut e = i;
            if e > cur && v[e - 1] == '\r' {
                e = e - 1;
                assert(v@.subrange(cur as int, i as int).drop_last() =~= v@.subrange(
                    cur as int,
                    e as int,
                ));
            }
            assert(v@.subrange(cur as int, e as int) == strip_cr(prev.last()));
            rs.push((cur, e));
            cur = i + 1;
            assert(v@.subrange(cur as int, i + 1) =~= Seq::<char>::empty());
            assert forall|k: int| #![trigger rs@[k]] 0 <= k < rs@.len() implies rs@[k].0 <= rs@[k].1 <= v@.len()
                && v@.subrange(rs@[k].0 as int, rs@[k].1 as int) == strip_cr(next[k]) by {
                if k < old_rs.len() {
                    assert(rs@[k] == old_rs[k]);
                    assert(next[k] == prev[k]);
                    assert(v@.subrange(old_rs[k].0 as int, old_rs[k].1 as int) == strip_cr(
                        prev[k],
                    ));
                }
            }
        } else {
            assert(next == prev.update(prev.len() - 1, prev.last().push(v@[i as int])));
            assert(v@.subrange(cur as int, i + 1) =~= v@.subrange(cur as int, i as int).push(
                v@[i as int],
            ));
            assert forall|k: int| #![trigger rs@[k]] 0 <= k < rs@.len() implies rs@[k].0 <= rs@[k].1 <= v@.len()
                && v@.subrange(rs@[k].0 as int, rs@[k].1 as int) == strip_cr(next[k]) by {
                assert(rs@ == old_rs);
                assert(next[k] == prev[k]);
                assert(v@.subrange(old_rs[k].0 as int, old_rs[k].1 as int) == strip_cr(prev[k]));
            }
        }
        i = i + 1;
    }
    let ghost g = split_on(v@, '\n');
    assert(v@.take(v@.len() as int) =~= v@);
    let ghost done = rs@;
    assert(g.len() == done.len() + 1);
    if cur < v.len() {
        rs.push((cur, v.len()));
    }
    assert forall|k: int| #![trigger rs@[k]] 0 <= k < rs@.len() implies rs@[k].0 <= rs@[k].1 <= v@.len()
        && v@.subrange(rs@[k].0 as int, rs@[k].1 as int) == lines(v@)[k] by {
        if k < g.len() - 1 {
            assert(rs@[k] == done[k]);
            assert(v@.subrange(done[k].0 as int, done[k].1 as int) == strip_cr(g[k]));
            assert(lines(v@)[k] == strip_cr(g[k]));
        } else {
            assert(lines(v@)[k] == g.last());
        }
    }
    rs
}

/// `u64::from_str` applied to `v[lo..hi]`.
pub fn parse_u64_range(v: &Vec<char>, lo: usize, hi: usize) -> (r: Option<u64>)
    requires
        lo <= hi <= v@.len(),
    ensures
        r == parse_u64_spec(v@.subrange(lo as int, hi as int)),
{
    let ghost s = v@.subrange(lo as int, hi as int);
    let mut start = lo;
    if start < hi && v[start] == '+' {
        start = start + 1;
    }
    assert(decimal_digits(s) =~= v@.subrange(start as int, hi as int));
    if start == hi {
        return None;
    }
    let mut acc: u64 = 0;
    let mut overflow = false;
    let mut j = start;
    assert(v@.subrange(start as int, start as int) =~= Seq::<char>::empty());
    while j < hi
        invariant
            lo <= start <= j <= hi <= v@.len(),
            s == v@.subrange(lo as int, hi as int),
            decimal_digits(s) == v@.subrange(start as int, hi as int),
            forall|k: int| start <= k < j ==> is_digit(#[trigger] v@[k]),
            !overflow ==> acc == digits_value(v@.subrange(start as int, j as int)),
            overflow ==> digits_value(v@.subrange(start as int, j as int)) > u64::MAX,
        decreases hi - j,
    {
        let c = v[j];
        if !('0' <= c && c <= '9') {
            assert(!is_digit(decimal_digits(s)[j - start]));
            return None;
        }
        let d = (c as u32 - '0' as u32) as u64;
        assert(v@.subrange(start as int, j + 1).drop_last() =~= v@.subrange(start as int, j as int));
        if !overflow {
            let next: u128 = acc as u128 * 10 + d as u128;
            if next > u64::MAX as u128 {
                overflow = true;
            } else {
                acc = next as u64;
            }
        }
        j = j + 1;
    }
    assert forall|i: int| 0 <= i < decimal_digits(s).len() implies is_digit(
        #[trigger] decimal_digits(s)[i],
    ) by {
        assert(decimal_digits(s)[i] == v@[start + i]);
    }
    if overflow {
        None
    } else {
        Some(acc)
    }
}

} // verus!
