//! Character-sequence utilities shared by the parser, the segmenter and the
//! grammar synthesizer: conversion between strings and character vectors,
//! substring search, replacement, trimming and a lexicographic order.

use vstd::prelude::*;

verus! {

broadcast use vstd::seq::group_seq_axioms, vstd::std_specs::vec::group_vec_axioms;

/// The whitespace characters recognized when trimming: space, tab, newline
/// and carriage return.
pub open spec fn is_space(c: char) -> bool {
    c == ' ' || c == '\t' || c == '\n' || c == '\r'
}

/// The characters of `s`, as a vector.
pub fn chars_of(s: &str) -> (r: Vec<char>)
    ensures
        r@ == s@,
{
    let n = s.unicode_len();
    let mut r: Vec<char> = Vec::new();
    let mut i: usize = 0;
    while i < n
        invariant
            n == s@.len(),
            i <= n,
            r@ == s@.subrange(0, i as int),
        decreases n - i,
    {
        r.push(s.get_char(i));
        assert(r@ =~= s@.subrange(0, i + 1 as int));
        i = i + 1;
    }
    assert(r@ =~= s@);
    r
}

/// Relies on `String: FromIterator<char>`: collecting an iterator of
/// characters yields the string of exactly those characters, in order.
#[verifier::external_body]
pub fn string_from_chars(v: &Vec<char>) -> (r: String)
    ensures
        r@ == v@,
{
    v.iter().collect()
}

/// A copy of `v[a..b]`.
pub fn subvec(v: &Vec<char>, a: usize, b: usize) -> (r: Vec<char>)
    requires
        a <= b <= v@.len(),
    ensures
        r@ == v@.subrange(a as int, b as int),
{
    let mut r: Vec<char> = Vec::new();
    let mut i: usize = a;
    while i < b
        invariant
            a <= i <= b <= v@.len(),
            r@ == v@.subrange(a as int, i as int),
        decreases b - i,
    {
        r.push(v[i]);
        assert(r@ =~= v@.subrange(a as int, i + 1 as int));
        i = i + 1;
    }
    r
}

/// The two vectors hold the same characters.
pub fn chars_eq(a: &Vec<char>, b: &Vec<char>) -> (r: bool)
    ensures
        r == (a@ == b@),
{
    if a.len() != b.len() {
        assert(a@ != b@);
        return false;
    }
    let n = a.len();
    let mut i: usize = 0;
    while i < n
        invariant
            n == a@.len() == b@.len(),
            i <= n,
            forall|j: int| 0 <= j < i ==> a@[j] == b@[j],
        decreases n - i,
    {
        if a[i] != b[i] {
            return false;
        }
        i = i + 1;
    }
    assert(a@ =~= b@);
    true
}

/// The strings hold the same characters.
pub fn str_eq(a: &str, b: &str) -> (r: bool)
    ensures
        r == (a@ == b@),
{
    let av = chars_of(a);
    let bv = chars_of(b);
    chars_eq(&av, &bv)
}

/// Pattern `p` occurs in `s` at position `i`.
pub open spec fn match_at(s: Seq<char>, p: Seq<char>, i: int) -> bool {
    0 <= i && i + p.len() <= s.len() && s.subrange(i, i + p.len()) == p
}

/// Some occurrence of `p` starts at or after `from`.
pub open spec fn has_match_from(s: Seq<char>, p: Seq<char>, from: int) -> bool {
    exists|i: int| from <= i && match_at(s, p, i)
}

/// `p` occurs somewhere in `s`.
pub open spec fn contains_pat(s: Seq<char>, p: Seq<char>) -> bool {
    has_match_from(s, p, 0)
}

/// The first occurrence of `p` in `s` at or after position `from`.
pub open spec fn find_from(s: Seq<char>, p: Seq<char>, from: int) -> Option<int>
    decreases s.len() - from,
{
    if from + p.len() > s.len() || from > s.len() {
        None
    } else if match_at(s, p, from) {
        Some(from)
    } else if from < s.len() {
        find_from(s, p, from + 1)
    } else {
        None
    }
}

/// What `find_from` returns: the first occurrence at or after `from`, or
/// `None` when there is none.
pub proof fn lemma_find_from(s: Seq<char>, p: Seq<char>, from: int)
    ensures
        match find_from(s, p, from) {
            Some(i) => from <= i && match_at(s, p, i) && forall|j: int|
                from <= j < i ==> !match_at(s, p, j),
            None => forall|j: int| from <= j ==> !match_at(s, p, j),
        },
    decreases s.len() - from,
{
    if from + p.len() > s.len() || from > s.len() {
        assert forall|j: int| from <= j implies !match_at(s, p, j) by {}
    } else if match_at(s, p, from) {
    } else if from < s.len() {
        lemma_find_from(s, p, from + 1);
    }
}

/// `has_match_from` holds exactly when `find_from` finds an occurrence.
pub proof fn lemma_find_has_match(s: Seq<char>, p: Seq<char>, from: int)
    ensures
        has_match_from(s, p, from) <==> find_from(s, p, from) is Some,
{
    lemma_find_from(s, p, from);
    if find_from(s, p, from) is Some {
        let i = find_from(s, p, from)->Some_0;
        assert(from <= i && match_at(s, p, i));
    }
}

/// `p` matches at `i` in `s`.
pub fn is_match_at(v: &Vec<char>, p: &Vec<char>, i: usize) -> (r: bool)
    requires
        i + p@.len() <= v@.len(),
    ensures
        r == match_at(v@, p@, i as int),
{
    let n = p.len();
    let vlen = v.len();
    let mut j: usize = 0;
    while j < n
        invariant
            n == p@.len(),
            vlen == v@.len(),
            i + n <= vlen,
            j <= n,
            forall|k: int| 0 <= k < j ==> v@[i + k] == p@[k],
        decreases n - j,
    {
        if v[i + j] != p[j] {
            assert(v@.subrange(i as int, i + p@.len()) != p@) by {
                assert(v@.subrange(i as int, i + p@.len())[j as int] != p@[j as int]);
            }
            return false;
        }
        j = j + 1;
    }
    assert(v@.subrange(i as int, i + p@.len()) =~= p@);
    true
}

/// The first occurrence of `p` in `v` at or after `from`.
pub fn find_in(v: &Vec<char>, p: &Vec<char>, from: usize) -> (r: Option<usize>)
    requires
        from <= v@.len(),
    ensures
        match r {
            Some(i) => Some(i as int) == find_from(v@, p@, from as int),
            None => find_from(v@, p@, from as int) is None,
        },
{
    if p.len() > v.len() {
        return None;
    }
    let last = v.len() - p.len();
    if from > last {
        return None;
    }
    let mut i: usize = from;
    loop
        invariant
            p@.len() <= v@.len(),
            last == v@.len() - p@.len(),
            from <= i <= last,
            find_from(v@, p@, from as int) == find_from(v@, p@, i as int),
        decreases last - i,
    {
        if is_match_at(v, p, i) {
            return Some(i);
        }
        assert(find_from(v@, p@, i as int) == find_from(v@, p@, i + 1 as int));
        if i == last {
            assert(find_from(v@, p@, i + 1 as int) is None);
            return None;
        }
        i = i + 1;
    }
}

/// Index of the first non-space character at or after `i`.
pub open spec fn skip_spaces(s: Seq<char>, i: int) -> int
    decreases s.len() - i,
{
    if 0 <= i < s.len() && is_space(s[i]) {
        skip_spaces(s, i + 1)
    } else {
        i
    }
}

/// Index just after the last non-space character at or before `j`.
pub open spec fn rskip_spaces(s: Seq<char>, j: int) -> int
    decreases j,
{
    if 0 < j <= s.len() && is_space(s[j - 1]) {
        rskip_spaces(s, j - 1)
    } else {
        j
    }
}

/// `s` with leading and trailing whitespace removed.
pub open spec fn trim_sp(s: Seq<char>) -> Seq<char> {
    let a = skip_spaces(s, 0);
    if a == s.len() {
        Seq::empty()
    } else {
        s.subrange(a, rskip_spaces(s, s.len() as int))
    }
}

proof fn lemma_skip_spaces(s: Seq<char>, i: int)
    requires
        0 <= i <= s.len(),
    ensures
        i <= skip_spaces(s, i) <= s.len(),
        forall|k: int| i <= k < skip_spaces(s, i) ==> is_space(s[k]),
        skip_spaces(s, i) < s.len() ==> !is_space(s[skip_spaces(s, i)]),
    decreases s.len() - i,
{
    if i < s.len() && is_space(s[i]) {
        lemma_skip_spaces(s, i + 1);
    }
}

proof fn lemma_rskip_spaces(s: Seq<char>, j: int)
    requires
        0 <= j <= s.len(),
    ensures
        0 <= rskip_spaces(s, j) <= j,
        forall|k: int| rskip_spaces(s, j) <= k < j ==> is_space(s[k]),
        rskip_spaces(s, j) > 0 ==> !is_space(s[rskip_spaces(s, j) - 1]),
    decreases j,
{
    if 0 < j && is_space(s[j - 1]) {
        lemma_rskip_spaces(s, j - 1);
    }
}

/// Trimming properties: the result carries no whitespace at either end, and
/// a string with none to begin with is unchanged.
pub proof fn lemma_trim_sp(s: Seq<char>)
    ensures
        trim_sp(s).len() <= s.len(),
        trim_sp(s).len() > 0 ==> !is_space(trim_sp(s)[0]) && !is_space(
            trim_sp(s)[trim_sp(s).len() - 1],
        ),
        s.len() > 0 && !is_space(s[0]) && !is_space(s[s.len() - 1]) ==> trim_sp(s) == s,
{
    lemma_skip_spaces(s, 0);
    lemma_rskip_spaces(s, s.len() as int);
    let a = skip_spaces(s, 0);
    let b = rskip_spaces(s, s.len() as int);
    if a < s.len() {
        assert(!is_space(s[a]));
        assert(a < b) by {
            if b <= a {
                assert(is_space(s[a]));
            }
        }
    }
    if s.len() > 0 && !is_space(s[0]) && !is_space(s[s.len() - 1]) {
        assert(a == 0);
        assert(b == s.len());
        assert(s.subrange(0, s.len() as int) =~= s);
    }
}

/// `v` with leading and trailing whitespace removed.
pub fn trim_vec(v: &Vec<char>) -> (r: Vec<char>)
    ensures
        r@ == trim_sp(v@),
{
    let n = v.len();
    let mut a: usize = 0;
    while a < n && (v[a] == ' ' || v[a] == '\t' || v[a] == '\n' || v[a] == '\r')
        invariant
            n == v@.len(),
            0 <= a <= n,
            skip_spaces(v@, 0) == skip_spaces(v@, a as int),
        decreases n - a,
    {
        a = a + 1;
    }
    assert(skip_spaces(v@, a as int) == a);
    if a == n {
        let r: Vec<char> = Vec::new();
        assert(r@ =~= trim_sp(v@));
        return r;
    }
    let mut b: usize = n;
    while b > 0 && (v[b - 1] == ' ' || v[b - 1] == '\t' || v[b - 1] == '\n' || v[b - 1] == '\r')
        invariant
            n == v@.len(),
            0 <= b <= n,
            rskip_spaces(v@, n as int) == rskip_spaces(v@, b as int),
        decreases b,
    {
        b = b - 1;
    }
    assert(rskip_spaces(v@, b as int) == b);
    proof {
        lemma_skip_spaces(v@, 0);
        lemma_rskip_spaces(v@, n as int);
        assert(a < b) by {
            if b <= a {
                assert(is_space(v@[a as int]));
            }
        }
    }
    subvec(v, a, b)
}

/// Append all characters of `src` to `dst`.
pub fn push_all(dst: &mut Vec<char>, src: &Vec<char>)
    ensures
        final(dst)@ == old(dst)@ + src@,
{
    let n = src.len();
    let mut i: usize = 0;
    while i < n
        invariant
            n == src@.len(),
            i <= n,
            dst@ == old(dst)@ + src@.subrange(0, i as int),
        decreases n - i,
    {
        dst.push(src[i]);
        assert(dst@ =~= old(dst)@ + src@.subrange(0, i + 1 as int));
        i = i + 1;
    }
    assert(dst@ =~= old(dst)@ + src@);
}

/// `s` with every occurrence of the character `c` removed.
pub open spec fn strip_char(s: Seq<char>, c: char) -> Seq<char>
    decreases s,
{
    if s.len() == 0 {
        Seq::empty()
    } else if s[0] == c {
        strip_char(s.drop_first(), c)
    } else {
        seq![s[0]] + strip_char(s.drop_first(), c)
    }
}

proof fn lemma_strip_char_push(s: Seq<char>, c: char, x: char)
    ensures
        strip_char(s.push(x), c) == if x == c {
            strip_char(s, c)
        } else {
            strip_char(s, c).push(x)
        },
    decreases s,
{
    assert(s.push(x).len() == s.len() + 1);
    assert(s.push(x)[s.len() as int] == x);
    if s.len() == 0 {
        assert(s.push(x)[0] == x);
        assert(strip_char(Seq::<char>::empty(), c) =~= Seq::<char>::empty());
        assert(s.push(x).drop_first() =~= Seq::<char>::empty());
        if x != c {
            assert(strip_char(s.push(x), c) =~= strip_char(s, c).push(x));
        }
    } else {
        assert(s.push(x)[0] == s[0]);
        assert(s.push(x).drop_first() =~= s.drop_first().push(x));
        lemma_strip_char_push(s.drop_first(), c, x);
        if x != c {
            assert(strip_char(s.push(x), c) =~= strip_char(s, c).push(x));
        }
    }
}

/// `v` with every occurrence of `c` removed.
pub fn strip_char_vec(v: &Vec<char>, c: char) -> (r: Vec<char>)
    ensures
        r@ == strip_char(v@, c),
{
    let n = v.len();
    let mut r: Vec<char> = Vec::new();
    let mut i: usize = 0;
    while i < n
        invariant
            n == v@.len(),
            i <= n,
            r@ == strip_char(v@.subrange(0, i as int), c),
        decreases n - i,
    {
        proof {
            assert(v@.subrange(0, i + 1 as int) =~= v@.subrange(0, i as int).push(v@[i as int]));
            lemma_strip_char_push(v@.subrange(0, i as int), c, v@[i as int]);
        }
        if v[i] != c {
            r.push(v[i]);
        }
        i = i + 1;
    }
    assert(v@.subrange(0, n as int) =~= v@);
    r
}

/// `s` with every occurrence of `p` replaced by `t`, scanning left to right.
pub open spec fn replace_sp(s: Seq<char>, p: Seq<char>, t: Seq<char>) -> Seq<char>
    decreases s.len(),
{
    if p.len() == 0 {
        s
    } else {
        match find_from(s, p, 0) {
            None => s,
            Some(i) => if 0 <= i && i + p.len() <= s.len() {
                s.subrange(0, i) + t + replace_sp(
                    s.subrange(i + p.len(), s.len() as int),
                    p,
                    t,
                )
            } else {
                s
            },
        }
    }
}

/// Occurrences of `p` in the suffix of `s` from `d` on correspond to
/// occurrences in `s` shifted by `d`.
proof fn lemma_find_shift(s: Seq<char>, p: Seq<char>, d: int, from: int)
    requires
        0 <= d <= s.len(),
        0 <= from,
    ensures
        match find_from(s.subrange(d, s.len() as int), p, from) {
            Some(i) => find_from(s, p, d + from) == Some(d + i),
            None => find_from(s, p, d + from) is None || find_from(s, p, d + from)->Some_0
                >= s.len(),
        },
    decreases s.len() - from,
{
    let suf = s.subrange(d, s.len() as int);
    assert forall|j: int| 0 <= j implies match_at(suf, p, j) == match_at(s, p, d + j) by {
        if 0 <= j && j + p.len() <= suf.len() {
            assert(suf.subrange(j, j + p.len()) =~= s.subrange(d + j, d + j + p.len()));
        }
    }
    lemma_find_from(suf, p, from);
    lemma_find_from(s, p, d + from);
    match find_from(suf, p, from) {
        Some(i) => {
            assert(match_at(s, p, d + i));
            match find_from(s, p, d + from) {
                Some(k) => {
                    assert(match_at(suf, p, k - d));
                    if k < d + i {
                        assert(!match_at(suf, p, k - d));
                    }
                    if k > d + i {
                        assert(!match_at(s, p, d + i));
                    }
                },
                None => {
                    assert(!match_at(s, p, d + i));
                },
            }
        },
        None => {
            match find_from(s, p, d + from) {
                Some(k) => {
                    if k < s.len() {
                        assert(k - d + p.len() <= suf.len());
                        assert(!match_at(suf, p, k - d));
                    }
                },
                None => {},
            }
        },
    }
}

/// `v` with every occurrence of `p` replaced by `t`.
pub fn replace_in(v: &Vec<char>, p: &Vec<char>, t: &Vec<char>) -> (r: Vec<char>)
    requires
        p@.len() > 0,
    ensures
        r@ == replace_sp(v@, p@, t@),
{
    let n = v.len();
    let mut out: Vec<char> = Vec::new();
    let mut pos: usize = 0;
    assert(v@.subrange(0, n as int) =~= v@);
    loop
        invariant
            n == v@.len(),
            p@.len() > 0,
            0 <= pos <= n,
            replace_sp(v@, p@, t@) == out@ + replace_sp(
                v@.subrange(pos as int, n as int),
                p@,
                t@,
            ),
        decreases n - pos,
    {
        let ghost suf = v@.subrange(pos as int, n as int);
        match find_in(v, p, pos) {
            None => {
                proof {
                    lemma_find_from(v@, p@, pos as int);
                    lemma_find_shift(v@, p@, pos as int, 0);
                    if find_from(suf, p@, 0) is Some {
                        let i = find_from(suf, p@, 0)->Some_0;
                        lemma_find_from(suf, p@, 0);
                    }
                    assert(find_from(suf, p@, 0) is None);
                    assert(replace_sp(suf, p@, t@) == suf);
                }
                let rest = subvec(v, pos, n);
                let mut out2 = out;
                push_all(&mut out2, &rest);
                assert(out2@ =~= replace_sp(v@, p@, t@));
                return out2;
            },
            Some(i) => {
                proof {
                    lemma_find_from(v@, p@, pos as int);
                    lemma_find_shift(v@, p@, pos as int, 0);
                    if find_from(suf, p@, 0) is None {
                        assert(false);
                    }
                    let si = find_from(suf, p@, 0)->Some_0;
                    assert(i as int == pos + si);
                    assert(replace_sp(suf, p@, t@) == suf.subrange(0, si) + t@ + replace_sp(
                        suf.subrange(si + p@.len(), suf.len() as int),
                        p@,
                        t@,
                    ));
                    assert(suf.subrange(0, si) =~= v@.subrange(pos as int, i as int));
                    assert(suf.subrange(si + p@.len(), suf.len() as int) =~= v@.subrange(
                        i + p@.len(),
                        n as int,
                    ));
                }
                let pre = subvec(v, pos, i);
                push_all(&mut out, &pre);
                push_all(&mut out, t);
                pos = i + p.len();
                assert(replace_sp(v@, p@, t@) == out@ + replace_sp(
                    v@.subrange(pos as int, n as int),
                    p@,
                    t@,
                ));
            },
        }
    }
}

/// Strict lexicographic order on character sequences, by code point.
pub open spec fn lex_lt(a: Seq<char>, b: Seq<char>) -> bool
    decreases a.len(),
{
    b.len() > 0 && (a.len() == 0 || (a[0] as u32) < (b[0] as u32) || (a[0] == b[0] && lex_lt(
        a.drop_first(),
        b.drop_first(),
    )))
}

/// `lex_lt` is irreflexive.
pub proof fn lemma_lex_irrefl(a: Seq<char>)
    ensures
        !lex_lt(a, a),
    decreases a.len(),
{
    if a.len() > 0 {
        lemma_lex_irrefl(a.drop_first());
    }
}

/// `lex_lt` is total: two distinct sequences are ordered one way or the other.
pub proof fn lemma_lex_total(a: Seq<char>, b: Seq<char>)
    ensures
        a != b ==> lex_lt(a, b) || lex_lt(b, a),
    decreases a.len(),
{
    if a != b && a.len() > 0 && b.len() > 0 && a[0] == b[0] {
        assert(a.drop_first() != b.drop_first()) by {
            if a.drop_first() == b.drop_first() {
                assert(a.drop_first().len() == b.drop_first().len());
                assert(a.len() == b.len());
                assert(a =~= b) by {
                    assert forall|i: int| 0 <= i < a.len() implies a[i] == b[i] by {
                        if i > 0 {
                            assert(a[i] == a.drop_first()[i - 1]);
                            assert(b[i] == b.drop_first()[i - 1]);
                        }
                    }
                }
            }
        }
        lemma_lex_total(a.drop_first(), b.drop_first());
    } else if a != b && a.len() > 0 && b.len() > 0 {
        vstd::utf8::char_u32_cast(a[0], a[0] as u32);
        vstd::utf8::char_u32_cast(b[0], b[0] as u32);
        assert((a[0] as u32) != (b[0] as u32));
    } else if a.len() == 0 && b.len() == 0 {
        assert(a =~= b);
    }
}

/// `lex_lt` is transitive.
pub proof fn lemma_lex_trans(a: Seq<char>, b: Seq<char>, c: Seq<char>)
    requires
        lex_lt(a, b),
        lex_lt(b, c),
    ensures
        lex_lt(a, c),
    decreases a.len() + b.len() + c.len(),
{
    if a.len() > 0 && b.len() > 0 && c.len() > 0 && a[0] == b[0] && b[0] == c[0] {
        lemma_lex_trans(a.drop_first(), b.drop_first(), c.drop_first());
    }
}

/// Compare two character vectors lexicographically.
pub fn lex_lt_vec(a: &Vec<char>, b: &Vec<char>) -> (r: bool)
    ensures
        r == lex_lt(a@, b@),
{
    let alen = a.len();
    let blen = b.len();
    let mut i: usize = 0;
    assert(a@.skip(0) =~= a@);
    assert(b@.skip(0) =~= b@);
    loop
        invariant
            alen == a@.len(),
            blen == b@.len(),
            i <= alen,
            i <= blen,
            lex_lt(a@, b@) == lex_lt(a@.skip(i as int), b@.skip(i as int)),
        decreases alen - i,
    {
        let ghost sa = a@.skip(i as int);
        let ghost sb = b@.skip(i as int);
        if i == blen {
            assert(sb.len() == 0);
            return false;
        }
        if i == alen {
            assert(sa.len() == 0 && sb.len() > 0);
            return true;
        }
        assert(sa[0] == a@[i as int] && sb[0] == b@[i as int]);
        if (a[i] as u32) < (b[i] as u32) {
            return true;
        }
        if (a[i] as u32) > (b[i] as u32) {
            assert(!lex_lt(sa, sb));
            return false;
        }
        assert((a@[i as int] as u32) == (b@[i as int] as u32));
        proof {
            vstd::utf8::char_u32_cast(a@[i as int], a@[i as int] as u32);
            vstd::utf8::char_u32_cast(b@[i as int], b@[i as int] as u32);
        }
        assert(a@[i as int] == b@[i as int]);
        proof {
            assert(sa.drop_first() =~= a@.skip(i + 1 as int));
            assert(sb.drop_first() =~= b@.skip(i + 1 as int));
        }
        i = i + 1;
    }
}

/// Compare two strings lexicographically by their characters.
pub fn str_lt(a: &String, b: &String) -> (r: bool)
    ensures
        r == lex_lt(a@, b@),
{
    let av = chars_of(a.as_str());
    let bv = chars_of(b.as_str());
    lex_lt_vec(&av, &bv)
}

/// The strings are strictly sorted in `lex_lt` order (hence duplicate-free).
pub open spec fn sorted_strings(v: Seq<String>) -> bool {
    forall|i: int, j: int| 0 <= i < j < v.len() ==> lex_lt(v[i]@, v[j]@)
}

/// Some string of `v` has exactly the characters `x`.
pub open spec fn has_view(v: Seq<String>, x: Seq<char>) -> bool {
    exists|k: int| 0 <= k < v.len() && v[k]@ == x
}

/// The views of the strings, as a sequence of character sequences.
pub open spec fn view_seq(v: Seq<String>) -> Seq<Seq<char>> {
    Seq::new(v.len(), |i: int| v[i]@)
}

/// Strictly sorted sequence of character sequences.
pub open spec fn strictly_sorted_seqs(v: Seq<Seq<char>>) -> bool {
    forall|i: int, j: int| 0 <= i < j < v.len() ==> lex_lt(v[i], v[j])
}

/// Insert `x` into the sorted sequence `v`, keeping it sorted and
/// duplicate-free.
pub open spec fn insert_sorted(v: Seq<Seq<char>>, x: Seq<char>) -> Seq<Seq<char>>
    decreases v,
{
    if v.len() == 0 {
        seq![x]
    } else if x == v[0] {
        v
    } else if lex_lt(x, v[0]) {
        seq![x] + v
    } else {
        seq![v[0]] + insert_sorted(v.drop_first(), x)
    }
}

/// The strictly sorted, duplicate-free arrangement of the elements of `xs`.
pub open spec fn sort_unique(xs: Seq<Seq<char>>) -> Seq<Seq<char>>
    decreases xs,
{
    if xs.len() == 0 {
        Seq::empty()
    } else {
        insert_sorted(sort_unique(xs.drop_first()), xs[0])
    }
}

/// `insert_sorted` keeps strict sortedness and adds exactly `x` to the
/// elements.
pub proof fn lemma_insert_sorted(v: Seq<Seq<char>>, x: Seq<char>)
    requires
        strictly_sorted_seqs(v),
    ensures
        strictly_sorted_seqs(insert_sorted(v, x)),
        forall|y: Seq<char>|
            #[trigger] insert_sorted(v, x).contains(y) <==> (v.contains(y) || y == x),
    decreases v,
{
    let r = insert_sorted(v, x);
    if v.len() == 0 {
        assert(r =~= seq![x]);
        assert(r[0] == x);
        assert forall|y: Seq<char>| #[trigger] r.contains(y) <==> (v.contains(y) || y == x) by {
            if y == x {
                assert(r[0] == y);
            }
        }
    } else if x == v[0] {
        assert forall|y: Seq<char>| #[trigger] r.contains(y) <==> (v.contains(y) || y == x) by {
            if y == x {
                assert(r[0] == y);
            }
        }
    } else if lex_lt(x, v[0]) {
        assert(r == seq![x] + v);
        assert forall|i: int, j: int| 0 <= i < j < r.len() implies lex_lt(r[i], r[j]) by {
            if i == 0 {
                assert(r[0] == x);
                assert(r[j] == v[j - 1]);
                if j == 1 {
                } else {
                    assert(lex_lt(v[0], v[j - 1]));
                    lemma_lex_trans(x, v[0], v[j - 1]);
                }
            } else {
                assert(r[i] == v[i - 1] && r[j] == v[j - 1]);
            }
        }
        assert forall|y: Seq<char>| #[trigger] r.contains(y) <==> (v.contains(y) || y == x) by {
            if r.contains(y) {
                let m = choose|m: int| 0 <= m < r.len() && r[m] == y;
                if m == 0 {
                    assert(y == x);
                } else {
                    assert(v[m - 1] == y);
                }
            }
            if y == x {
                assert(r[0] == y);
            }
            if v.contains(y) {
                let m = choose|m: int| 0 <= m < v.len() && v[m] == y;
                assert(r[m + 1] == y);
            }
        }
    } else {
        let tail = v.drop_first();
        assert(strictly_sorted_seqs(tail)) by {
            assert(forall|i: int, j: int|
                0 <= i < j < tail.len() ==> tail[i] == v[i + 1] && tail[j] == v[j + 1]);
        }
        lemma_insert_sorted(tail, x);
        let rt = insert_sorted(tail, x);
        assert(r == seq![v[0]] + rt);
        lemma_lex_total(x, v[0]);
        assert(lex_lt(v[0], x));
        assert forall|i: int, j: int| 0 <= i < j < r.len() implies lex_lt(r[i], r[j]) by {
            if i == 0 {
                assert(r[j] == rt[j - 1]);
                assert(rt.contains(rt[j - 1]));
                if rt[j - 1] == x {
                    assert(lex_lt(v[0], x));
                } else {
                    assert(tail.contains(rt[j - 1]));
                    let m = choose|m: int| 0 <= m < tail.len() && tail[m] == rt[j - 1];
                    assert(tail[m] == v[m + 1]);
                    assert(lex_lt(v[0], v[m + 1]));
                }
            } else {
                assert(r[i] == rt[i - 1] && r[j] == rt[j - 1]);
            }
        }
        assert forall|y: Seq<char>| #[trigger] r.contains(y) <==> (v.contains(y) || y == x) by {
            if r.contains(y) {
                let m = choose|m: int| 0 <= m < r.len() && r[m] == y;
                if m == 0 {
                    assert(v[0] == y);
                } else {
                    assert(rt[m - 1] == y);
                    assert(rt.contains(y));
                    if y != x {
                        assert(tail.contains(y));
                        let w = choose|w: int| 0 <= w < tail.len() && tail[w] == y;
                        assert(v[w + 1] == y);
                    }
                }
            }
            if y == x {
                assert(rt.contains(y));
                let w = choose|w: int| 0 <= w < rt.len() && rt[w] == y;
                assert(r[w + 1] == y);
            }
            if v.contains(y) {
                let m = choose|m: int| 0 <= m < v.len() && v[m] == y;
                if m == 0 {
                    assert(r[0] == y);
                } else {
                    assert(tail[m - 1] == y);
                    assert(rt.contains(y));
                    let w = choose|w: int| 0 <= w < rt.len() && rt[w] == y;
                    assert(r[w + 1] == y);
                }
            }
        }
    }
}

/// `sort_unique` is strictly sorted and holds exactly the elements of its
/// input.
pub proof fn lemma_sort_unique(xs: Seq<Seq<char>>)
    ensures
        strictly_sorted_seqs(sort_unique(xs)),
        forall|y: Seq<char>| #[trigger] sort_unique(xs).contains(y) <==> xs.contains(y),
    decreases xs,
{
    if xs.len() == 0 {
    } else {
        lemma_sort_unique(xs.drop_first());
        lemma_insert_sorted(sort_unique(xs.drop_first()), xs[0]);
        let tail = xs.drop_first();
        assert forall|y: Seq<char>| #[trigger] sort_unique(xs).contains(y) <==> xs.contains(
            y,
        ) by {
            if sort_unique(xs).contains(y) {
                if y == xs[0] {
                    assert(xs.contains(y)) by {
                        assert(xs[0] == y);
                    }
                } else {
                    assert(tail.contains(y));
                    let m = choose|m: int| 0 <= m < tail.len() && tail[m] == y;
                    assert(xs[m + 1] == y);
                }
            }
            if xs.contains(y) {
                let m = choose|m: int| 0 <= m < xs.len() && xs[m] == y;
                if m == 0 {
                } else {
                    assert(tail[m - 1] == y);
                    assert(tail.contains(y));
                }
            }
        }
    }
}

/// Deduplicating never lengthens: `sort_unique` is at most as long as its
/// input.
pub proof fn lemma_sort_unique_len(xs: Seq<Seq<char>>)
    ensures
        sort_unique(xs).len() <= xs.len(),
    decreases xs,
{
    if xs.len() > 0 {
        lemma_sort_unique_len(xs.drop_first());
        lemma_insert_sorted_len(sort_unique(xs.drop_first()), xs[0]);
    }
}

proof fn lemma_insert_sorted_len(v: Seq<Seq<char>>, x: Seq<char>)
    ensures
        insert_sorted(v, x).len() <= v.len() + 1,
    decreases v,
{
    if v.len() > 0 && x != v[0] && !lex_lt(x, v[0]) {
        lemma_insert_sorted_len(v.drop_first(), x);
    }
}

/// Two strictly sorted sequences with the same elements are equal.
pub proof fn lemma_sorted_seqs_unique(a: Seq<Seq<char>>, b: Seq<Seq<char>>)
    requires
        strictly_sorted_seqs(a),
        strictly_sorted_seqs(b),
        forall|y: Seq<char>| #[trigger] a.contains(y) <==> b.contains(y),
    ensures
        a == b,
    decreases a.len(),
{
    if a.len() == 0 {
        if b.len() > 0 {
            assert(b.contains(b[0]));
            assert(a.contains(b[0]));
            assert(false);
        }
        assert(a =~= b);
    } else {
        assert(a.contains(a[0]));
        assert(b.contains(a[0]));
        if b.len() == 0 {
            assert(false);
        }
        assert(b.contains(b[0]));
        assert(a.contains(b[0]));
        let ka = choose|k: int| 0 <= k < b.len() && b[k] == a[0];
        let kb = choose|k: int| 0 <= k < a.len() && a[k] == b[0];
        assert(a[0] == b[0]) by {
            if ka > 0 && kb > 0 {
                assert(lex_lt(b[0], b[ka]));
                assert(lex_lt(a[0], a[kb]));
                lemma_lex_trans(a[0], b[0], a[0]);
                lemma_lex_irrefl(a[0]);
            } else if ka == 0 {
            } else {
                assert(kb == 0);
            }
        }
        let ta = a.drop_first();
        let tb = b.drop_first();
        assert(strictly_sorted_seqs(ta)) by {
            assert(forall|i: int, j: int|
                0 <= i < j < ta.len() ==> ta[i] == a[i + 1] && ta[j] == a[j + 1]);
        }
        assert(strictly_sorted_seqs(tb)) by {
            assert(forall|i: int, j: int|
                0 <= i < j < tb.len() ==> tb[i] == b[i + 1] && tb[j] == b[j + 1]);
        }
        assert forall|y: Seq<char>| #[trigger] ta.contains(y) <==> tb.contains(y) by {
            if ta.contains(y) {
                let m = choose|m: int| 0 <= m < ta.len() && ta[m] == y;
                assert(a[m + 1] == y);
                assert(lex_lt(a[0], y));
                assert(a.contains(y)) by {
                    assert(a[m + 1] == y);
                }
                assert(b.contains(y));
                let w = choose|w: int| 0 <= w < b.len() && b[w] == y;
                assert(w != 0) by {
                    if w == 0 {
                        lemma_lex_irrefl(y);
                    }
                }
                assert(tb[w - 1] == y);
                assert(tb.contains(y));
            }
            if tb.contains(y) {
                let m = choose|m: int| 0 <= m < tb.len() && tb[m] == y;
                assert(b[m + 1] == y);
                assert(lex_lt(b[0], y));
                assert(b.contains(y)) by {
                    assert(b[m + 1] == y);
                }
                assert(a.contains(y));
                let w = choose|w: int| 0 <= w < a.len() && a[w] == y;
                assert(w != 0) by {
                    if w == 0 {
                        lemma_lex_irrefl(y);
                    }
                }
                assert(ta[w - 1] == y);
                assert(ta.contains(y));
            }
        }
        lemma_sorted_seqs_unique(ta, tb);
        assert(a =~= b) by {
            assert forall|i: int| 0 <= i < a.len() implies a[i] == b[i] by {
                if i > 0 {
                    assert(ta[i - 1] == tb[i - 1]);
                }
            }
        }
    }
}

/// Sort the strings lexicographically and drop duplicates: the result is
/// strictly sorted and holds exactly the character sequences of the input.
pub fn sort_dedup_strings(input: Vec<String>) -> (r: Vec<String>)
    ensures
        sorted_strings(r@),
        forall|x: Seq<char>| has_view(r@, x) <==> has_view(input@, x),
{
    let n = input.len();
    let mut out: Vec<String> = Vec::new();
    let mut k: usize = 0;
    while k < n
        invariant
            n == input@.len(),
            k <= n,
            sorted_strings(out@),
            forall|x: Seq<char>| has_view(out@, x) <==> has_view(input@.subrange(0, k as int), x),
        decreases n - k,
    {
        let ghost pre_out = out@;
        let item = input[k].clone();
        assert(item@ == input@[k as int]@);
        let olen = out.len();
        let mut idx: usize = 0;
        while idx < olen && str_lt(&out[idx], &item)
            invariant
                olen == out@.len(),
                out@ == pre_out,
                item@ == input@[k as int]@,
                idx <= olen,
                forall|j: int| 0 <= j < idx ==> lex_lt(out@[j]@, item@),
            decreases olen - idx,
    {
            idx = idx + 1;
        }
        let is_dup = idx < olen && str_eq(out[idx].as_str(), item.as_str());
        if !is_dup {
            proof {
                if idx < pre_out.len() {
                    lemma_lex_total(pre_out[idx as int]@, item@);
                    assert(lex_lt(item@, pre_out[idx as int]@));
                }
            }
            let ghost elem = item@;
            out.insert(idx, item);
            proof {
                let new_out = out@;
                pre_out.insert_ensures(idx as int, new_out[idx as int]);
                assert(new_out == pre_out.insert(idx as int, new_out[idx as int]));
                assert(new_out[idx as int]@ == elem);
                assert forall|i: int, j: int| 0 <= i < j < new_out.len() implies lex_lt(
                    new_out[i]@,
                    new_out[j]@,
                ) by {
                    if j < idx {
                        assert(new_out[i] == pre_out[i] && new_out[j] == pre_out[j]);
                    } else if i < idx && j == idx {
                        assert(new_out[i] == pre_out[i]);
                    } else if i < idx && j > idx {
                        assert(new_out[i] == pre_out[i] && new_out[j] == pre_out[j - 1]);
                        assert(i < j - 1);
                    } else if i == idx && j > idx {
                        assert(new_out[j] == pre_out[j - 1]);
                        if j - 1 == idx {
                            assert(lex_lt(elem, pre_out[idx as int]@));
                        } else {
                            assert(lex_lt(elem, pre_out[idx as int]@));
                            assert(lex_lt(pre_out[idx as int]@, pre_out[j - 1]@));
                            lemma_lex_trans(elem, pre_out[idx as int]@, pre_out[j - 1]@);
                        }
                    } else {
                        assert(i > idx);
                        assert(new_out[i] == pre_out[i - 1] && new_out[j] == pre_out[j - 1]);
                    }
                }
            }
        }
        proof {
            let prefix0 = input@.subrange(0, k as int);
            let prefix1 = input@.subrange(0, k + 1 as int);
            assert(forall|m: int| 0 <= m < prefix0.len() ==> prefix1[m] == #[trigger] prefix0[m]);
            assert(prefix1[k as int] == input@[k as int]);
            assert forall|x: Seq<char>| has_view(out@, x) <==> has_view(prefix1, x) by {
                if is_dup {
                    assert(out@ == pre_out);
                    if has_view(prefix1, x) {
                        let m = choose|m: int| 0 <= m < prefix1.len() && prefix1[m]@ == x;
                        if m < k {
                            assert(prefix0[m]@ == x);
                            assert(has_view(prefix0, x));
                        } else {
                            assert(x == input@[k as int]@);
                            assert(out@[idx as int]@ == x);
                        }
                        assert(has_view(out@, x));
                    }
                    if has_view(out@, x) {
                        assert(has_view(prefix0, x));
                        let m = choose|m: int| 0 <= m < prefix0.len() && prefix0[m]@ == x;
                        assert(prefix1[m]@ == x);
                        assert(has_view(prefix1, x));
                    }
                } else {
                    let new_out = out@;
                    pre_out.insert_ensures(idx as int, new_out[idx as int]);
                    if has_view(prefix1, x) {
                        let m = choose|m: int| 0 <= m < prefix1.len() && prefix1[m]@ == x;
                        if m < k {
                            assert(prefix0[m]@ == x);
                            assert(has_view(prefix0, x));
                            assert(has_view(pre_out, x));
                            let w = choose|w: int| 0 <= w < pre_out.len() && pre_out[w]@ == x;
                            if w < idx {
                                assert(new_out[w]@ == x);
                            } else {
                                assert(new_out[w + 1]@ == x);
                            }
                        } else {
                            assert(new_out[idx as int]@ == x);
                        }
                        assert(has_view(new_out, x));
                    }
                    if has_view(new_out, x) {
                        let m = choose|m: int| 0 <= m < new_out.len() && new_out[m]@ == x;
                        if m == idx {
                            assert(prefix1[k as int]@ == x);
                            assert(has_view(prefix1, x));
                        } else {
                            let w: int = if m < idx {
                                m
                            } else {
                                m - 1
                            };
                            assert(pre_out[w]@ == x);
                            assert(has_view(pre_out, x));
                            assert(has_view(prefix0, x));
                            let u = choose|u: int| 0 <= u < prefix0.len() && prefix0[u]@ == x;
                            assert(prefix1[u]@ == x);
                            assert(has_view(prefix1, x));
                        }
                    }
                }
            }
        }
        k = k + 1;
    }
    assert(input@.subrange(0, n as int) =~= input@);
    out
}

} // verus!
