//! Chunk segmentation of a document body. The literal markers
//! `%trsltx-split` (with its newline), `%trsltx-begin-ignore` and
//! `%trsltx-end-ignore` divide the body into ordered chunks. An ignore
//! region is implicitly bracketed by split boundaries and becomes its own
//! `Unchanged` chunk, markers included; everything else becomes `Translate`
//! chunks. An ignore region may not contain a split marker or a nested
//! begin marker, and the begin/end markers must balance: imbalance is a
//! fault for the whole document.

use vstd::prelude::*;

use crate::strutil::chars_of;
use crate::strutil::find_from;
use crate::strutil::find_in;
use crate::strutil::lemma_find_from;
use crate::strutil::string_from_chars;
use crate::strutil::subvec;
use crate::strutil::trim_sp;
use crate::strutil::trim_vec;

verus! {

broadcast use vstd::seq::group_seq_axioms, vstd::std_specs::vec::group_vec_axioms;

/// The kind of a chunk: translated through the oracle, or copied verbatim.
#[derive(Debug, Clone, Copy, PartialEq, Eq)]
pub enum ChunkType {
    Translate,
    Unchanged,
}

/// A structural fault of the marker structure: an ignore marker without
/// its counterpart (a split or nested begin inside an ignore region counts
/// as an unmatched begin).
#[derive(Debug, Clone, Copy, PartialEq, Eq)]
pub enum ChunkFault {
    UnbalancedBegin,
    UnbalancedEnd,
}

/// The begin-ignore marker.
pub open spec fn begin_marker() -> Seq<char> {
    "%trsltx-begin-ignore"@
}

/// The end-ignore marker.
pub open spec fn end_marker() -> Seq<char> {
    "%trsltx-end-ignore"@
}

/// The split marker, with the newline that ends its line.
pub open spec fn split_marker() -> Seq<char> {
    "%trsltx-split\n"@
}

/// Segment a body into chunks.
///
/// The earliest marker decides: a stray end marker is a fault; a begin
/// marker opens an ignore region that must be closed by an end marker
/// before any split or nested begin marker, and the region becomes an
/// `Unchanged` chunk holding exactly the region text, markers included;
/// a split marker ends a `Translate` chunk. `Translate` chunk contents
/// are trimmed of surrounding whitespace.
pub open spec fn segment_sp(s: Seq<char>) -> Result<Seq<(Seq<char>, ChunkType)>, ChunkFault>
    decreases s.len(),
{
    let fb = find_from(s, begin_marker(), 0);
    let fe = find_from(s, end_marker(), 0);
    let fs = find_from(s, split_marker(), 0);
    if fe is Some && (fb is None || fe->Some_0 < fb->Some_0) {
        Err(ChunkFault::UnbalancedEnd)
    } else if fb is Some && (fs is None || fb->Some_0 < fs->Some_0) {
        let i = fb->Some_0;
        let after = i + begin_marker().len();
        if 0 <= i && after <= s.len() {
            let fe2 = find_from(s, end_marker(), after);
            let fs2 = find_from(s, split_marker(), after);
            let fb2 = find_from(s, begin_marker(), after);
            if fe2 is None {
                Err(ChunkFault::UnbalancedBegin)
            } else if fs2 is Some && fs2->Some_0 < fe2->Some_0 {
                Err(ChunkFault::UnbalancedBegin)
            } else if fb2 is Some && fb2->Some_0 < fe2->Some_0 {
                Err(ChunkFault::UnbalancedBegin)
            } else {
                let j = fe2->Some_0 + end_marker().len();
                if 0 < j && after <= j <= s.len() {
                    match segment_sp(s.subrange(j, s.len() as int)) {
                        Err(f) => Err(f),
                        Ok(chunks) => Ok(
                            seq![
                                (trim_sp(s.subrange(0, i)), ChunkType::Translate),
                                (s.subrange(i, j), ChunkType::Unchanged),
                            ] + chunks,
                        ),
                    }
                } else {
                    Err(ChunkFault::UnbalancedBegin)
                }
            }
        } else {
            Err(ChunkFault::UnbalancedBegin)
        }
    } else if fs is Some {
        let i = fs->Some_0;
        let next = i + split_marker().len();
        if 0 <= i && 0 < next <= s.len() {
            match segment_sp(s.subrange(next, s.len() as int)) {
                Err(f) => Err(f),
                Ok(chunks) => Ok(
                    seq![(trim_sp(s.subrange(0, i)), ChunkType::Translate)] + chunks,
                ),
            }
        } else {
            Ok(seq![(trim_sp(s), ChunkType::Translate)])
        }
    } else {
        Ok(seq![(trim_sp(s), ChunkType::Translate)])
    }
}

/// A match pins the first character: where a nonempty pattern matches, the
/// text carries the pattern's head.
proof fn lemma_match_head(s: Seq<char>, p: Seq<char>, q: int)
    requires
        crate::strutil::match_at(s, p, q),
        p.len() > 0,
    ensures
        s[q] == p[0],
{
    assert(s.subrange(q, q + p.len())[0] == s[q]);
}

/// Matches shift across a subrange cut: a pattern matches in the suffix
/// from `d` exactly where it matches in the whole, `d` later.
proof fn lemma_match_shift(s: Seq<char>, p: Seq<char>, d: int, j: int)
    requires
        0 <= d <= s.len(),
        0 <= j,
    ensures
        crate::strutil::match_at(s.subrange(d, s.len() as int), p, j) == crate::strutil::match_at(
            s,
            p,
            d + j,
        ),
{
    let suf = s.subrange(d, s.len() as int);
    if j + p.len() <= suf.len() {
        assert(suf.subrange(j, j + p.len()) =~= s.subrange(d + j, d + j + p.len()));
    }
}

/// The three markers all start with `%` and carry no further `%`, and they
/// differ pairwise at offset eight.
proof fn lemma_marker_shapes()
    ensures
        begin_marker().len() == 20,
        end_marker().len() == 18,
        split_marker().len() == 14,
        begin_marker()[0] == '%',
        end_marker()[0] == '%',
        split_marker()[0] == '%',
        forall|k: int| 1 <= k < 20 ==> begin_marker()[k] != '%',
        forall|k: int| 1 <= k < 18 ==> end_marker()[k] != '%',
        forall|k: int| 1 <= k < 14 ==> split_marker()[k] != '%',
        begin_marker()[8] != end_marker()[8],
        begin_marker()[8] != split_marker()[8],
        end_marker()[8] != split_marker()[8],
{
    reveal_strlit("%trsltx-begin-ignore");
    reveal_strlit("%trsltx-end-ignore");
    reveal_strlit("%trsltx-split\n");
}

/// The body carries no `%` at all.
pub open spec fn pct_free(p: Seq<char>) -> bool {
    forall|k: int| 0 <= k < p.len() ==> p[k] != '%'
}

/// A body holding a begin-ignore marker and no end-ignore marker cannot be
/// segmented: the segmentation reports a fault, never a chunk sequence.
pub proof fn lemma_unbalanced_begin_fails(s: Seq<char>)
    requires
        crate::strutil::contains_pat(s, begin_marker()),
        !crate::strutil::contains_pat(s, end_marker()),
    ensures
        segment_sp(s) is Err,
    decreases s.len(),
{
    lemma_marker_shapes();
    crate::strutil::lemma_find_has_match(s, begin_marker(), 0);
    crate::strutil::lemma_find_has_match(s, end_marker(), 0);
    crate::strutil::lemma_find_has_match(s, split_marker(), 0);
    lemma_find_from(s, begin_marker(), 0);
    lemma_find_from(s, split_marker(), 0);
    let fb = find_from(s, begin_marker(), 0);
    let fe = find_from(s, end_marker(), 0);
    let fs = find_from(s, split_marker(), 0);
    assert(fb is Some);
    assert(fe is None);
    let bpos = fb->Some_0;
    if fs is None || bpos < fs->Some_0 {
        let after = bpos + begin_marker().len();
        assert(after <= s.len());
        crate::strutil::lemma_find_has_match(s, end_marker(), after);
        if find_from(s, end_marker(), after) is Some {
            let q = find_from(s, end_marker(), after)->Some_0;
            crate::strutil::lemma_find_from(s, end_marker(), after);
            assert(crate::strutil::match_at(s, end_marker(), q));
            assert(crate::strutil::has_match_from(s, end_marker(), 0));
        }
        assert(segment_sp(s) is Err);
    } else {
        let spos = fs->Some_0;
        assert(spos <= bpos);
        assert(spos != bpos) by {
            if spos == bpos {
                assert(s.subrange(spos, spos + 14)[8] == s[spos + 8]);
                assert(s.subrange(bpos, bpos + 20)[8] == s[bpos + 8]);
            }
        }
        let next = spos + split_marker().len();
        assert(next <= s.len());
        let suf = s.subrange(next as int, s.len() as int);
        assert(bpos >= next) by {
            if bpos < next {
                lemma_match_head(s, begin_marker(), bpos);
                assert(s[bpos] == '%');
                assert(s.subrange(spos, spos + 14)[bpos - spos] == s[bpos]);
                assert(split_marker()[bpos - spos] != '%');
            }
        }
        assert(crate::strutil::contains_pat(suf, begin_marker())) by {
            lemma_match_shift(s, begin_marker(), next, bpos - next);
            assert(crate::strutil::match_at(suf, begin_marker(), bpos - next));
        }
        assert(!crate::strutil::contains_pat(suf, end_marker())) by {
            if crate::strutil::contains_pat(suf, end_marker()) {
                let q = choose|q: int| 0 <= q && crate::strutil::match_at(suf, end_marker(), q);
                lemma_match_shift(s, end_marker(), next, q);
                assert(crate::strutil::match_at(s, end_marker(), next + q));
                assert(crate::strutil::has_match_from(s, end_marker(), 0));
            }
        }
        lemma_unbalanced_begin_fails(suf);
        assert(segment_sp(s) is Err);
    }
}

/// The parts joined by split-marker lines: the body whose segmentation
/// should give back exactly these parts.
pub open spec fn join_split(parts: Seq<Seq<char>>) -> Seq<char>
    decreases parts,
{
    if parts.len() == 0 {
        Seq::empty()
    } else if parts.len() == 1 {
        parts[0]
    } else {
        parts[0] + split_marker() + join_split(parts.drop_first())
    }
}

/// In a join of `%`-free parts there is no ignore marker at all, and the
/// first split marker stands exactly at the end of the first part.
proof fn lemma_join_markers(parts: Seq<Seq<char>>)
    requires
        parts.len() >= 1,
        forall|i: int| 0 <= i < parts.len() ==> pct_free(#[trigger] parts[i]),
    ensures
        !crate::strutil::contains_pat(join_split(parts), begin_marker()),
        !crate::strutil::contains_pat(join_split(parts), end_marker()),
        parts.len() == 1 ==> find_from(join_split(parts), split_marker(), 0) is None,
        parts.len() > 1 ==> find_from(join_split(parts), split_marker(), 0) == Some(
            parts[0].len() as int,
        ),
    decreases parts.len(),
{
    lemma_marker_shapes();
    let s = join_split(parts);
    if parts.len() == 1 {
        assert forall|q: int| 0 <= q implies !crate::strutil::match_at(s, begin_marker(), q) by {
            if crate::strutil::match_at(s, begin_marker(), q) {
                lemma_match_head(s, begin_marker(), q);
            }
        }
        assert forall|q: int| 0 <= q implies !crate::strutil::match_at(s, end_marker(), q) by {
            if crate::strutil::match_at(s, end_marker(), q) {
                lemma_match_head(s, end_marker(), q);
            }
        }
        assert forall|q: int| 0 <= q implies !crate::strutil::match_at(s, split_marker(), q) by {
            if crate::strutil::match_at(s, split_marker(), q) {
                lemma_match_head(s, split_marker(), q);
            }
        }
        crate::strutil::lemma_find_has_match(s, split_marker(), 0);
    } else {
        let tail = parts.drop_first();
        assert(forall|i: int| 0 <= i < tail.len() ==> pct_free(#[trigger] tail[i])) by {
            assert(forall|i: int| 0 <= i < tail.len() ==> tail[i] == parts[i + 1]);
        }
        lemma_join_markers(tail);
        let n0 = parts[0].len() as int;
        let rest = join_split(tail);
        assert(s == parts[0] + split_marker() + rest);
        assert(s.len() == n0 + 14 + rest.len());
        // where the `%` characters of `s` can stand
        assert forall|q: int| 0 <= q < s.len() && s[q] == '%' implies (q == n0 || q >= n0
            + 14) by {
            if q < n0 {
                assert(s[q] == parts[0][q]);
            } else if n0 < q < n0 + 14 {
                assert(s[q] == split_marker()[q - n0]);
            }
        }
        assert(crate::strutil::match_at(s, split_marker(), n0)) by {
            assert(s.subrange(n0, n0 + 14) =~= split_marker());
        }
        assert forall|q: int|
            0 <= q < n0 implies !crate::strutil::match_at(s, split_marker(), q) by {
            if crate::strutil::match_at(s, split_marker(), q) {
                lemma_match_head(s, split_marker(), q);
            }
        }
        lemma_find_from(s, split_marker(), 0);
        crate::strutil::lemma_find_has_match(s, split_marker(), 0);
        assert(find_from(s, split_marker(), 0) == Some(n0)) by {
            assert(crate::strutil::has_match_from(s, split_marker(), 0));
            let f = find_from(s, split_marker(), 0)->Some_0;
            if f > n0 {
                assert(!crate::strutil::match_at(s, split_marker(), n0));
            }
        }
        assert forall|q: int| 0 <= q implies !crate::strutil::match_at(s, begin_marker(), q) by {
            if crate::strutil::match_at(s, begin_marker(), q) {
                lemma_match_head(s, begin_marker(), q);
                assert(s[q] == '%');
                if q == n0 {
                    assert(s.subrange(q, q + 20)[8] == s[q + 8]);
                    assert(s.subrange(n0, n0 + 14)[8] == s[n0 + 8]);
                } else {
                    assert(q >= n0 + 14);
                    lemma_match_shift(s, begin_marker(), n0 + 14, q - (n0 + 14));
                    assert(s.subrange(n0 + 14, s.len() as int) =~= rest);
                    assert(crate::strutil::match_at(rest, begin_marker(), q - (n0 + 14)));
                    assert(crate::strutil::has_match_from(rest, begin_marker(), 0));
                }
            }
        }
        assert forall|q: int| 0 <= q implies !crate::strutil::match_at(s, end_marker(), q) by {
            if crate::strutil::match_at(s, end_marker(), q) {
                lemma_match_head(s, end_marker(), q);
                assert(s[q] == '%');
                if q == n0 {
                    assert(s.subrange(q, q + 18)[8] == s[q + 8]);
                    assert(s.subrange(n0, n0 + 14)[8] == s[n0 + 8]);
                } else {
                    assert(q >= n0 + 14);
                    lemma_match_shift(s, end_marker(), n0 + 14, q - (n0 + 14));
                    assert(s.subrange(n0 + 14, s.len() as int) =~= rest);
                    assert(crate::strutil::match_at(rest, end_marker(), q - (n0 + 14)));
                    assert(crate::strutil::has_match_from(rest, end_marker(), 0));
                }
            }
        }
    }
}

/// Round trip of manual segmentation: a body written as `%`-free parts
/// joined by split-marker lines segments without fault into exactly one
/// `Translate` chunk per part, holding that part trimmed; parts that carry
/// no surrounding whitespace come back verbatim, so the chunk sequence
/// reconstructs the body up to the marker lines themselves.
pub proof fn lemma_split_round_trip(parts: Seq<Seq<char>>)
    requires
        parts.len() >= 1,
        forall|i: int| 0 <= i < parts.len() ==> pct_free(#[trigger] parts[i]),
    ensures
        segment_sp(join_split(parts)) matches Ok(chunks) && chunks.len() == parts.len() && (
        forall|i: int|
            0 <= i < parts.len() ==> #[trigger] chunks[i] == (
                trim_sp(parts[i]),
                ChunkType::Translate,
            )),
    decreases parts.len(),
{
    lemma_marker_shapes();
    lemma_join_markers(parts);
    let s = join_split(parts);
    crate::strutil::lemma_find_has_match(s, begin_marker(), 0);
    crate::strutil::lemma_find_has_match(s, end_marker(), 0);
    if parts.len() == 1 {
        assert(trim_sp(s) == trim_sp(parts[0]));
    } else {
        let n0 = parts[0].len() as int;
        let tail = parts.drop_first();
        assert(forall|i: int| 0 <= i < tail.len() ==> tail[i] == parts[i + 1]);
        lemma_split_round_trip(tail);
        let rest = join_split(tail);
        assert(s == parts[0] + split_marker() + rest);
        lemma_find_from(s, split_marker(), 0);
        assert(s.subrange(0, n0) =~= parts[0]);
        assert(s.subrange(n0 + 14, s.len() as int) =~= rest);
        let chunks = segment_sp(s)->Ok_0;
        let tail_chunks = segment_sp(rest)->Ok_0;
        assert(chunks == seq![(trim_sp(parts[0]), ChunkType::Translate)] + tail_chunks);
        assert forall|i: int| 0 <= i < parts.len() implies #[trigger] chunks[i] == (
            trim_sp(parts[i]),
            ChunkType::Translate,
        ) by {
            if i > 0 {
                assert(chunks[i] == tail_chunks[i - 1]);
                assert(tail_chunks[i - 1] == (trim_sp(tail[i - 1]), ChunkType::Translate));
            }
        }
    }
}

/// An ignore region as a whole: the begin marker, the ignored text on its
/// own lines, and the end marker.
pub open spec fn ignore_region(foo: Seq<char>) -> Seq<char> {
    begin_marker() + seq!['\n'] + foo + seq!['\n'] + end_marker()
}

/// An ignore region embedded in a body always becomes a standalone
/// `Unchanged` chunk holding exactly the region text, whatever `Translate`
/// material surrounds it: the text before it (here free of `%`) becomes a
/// `Translate` chunk, and the rest of the body is segmented on its own
/// behind it.
pub proof fn lemma_ignore_region_chunk(a: Seq<char>, foo: Seq<char>, b: Seq<char>)
    requires
        pct_free(a),
        pct_free(foo),
    ensures
        ({
            let s = a + ignore_region(foo) + b;
            match segment_sp(b) {
                Ok(tail) => segment_sp(s) == Ok::<Seq<(Seq<char>, ChunkType)>, ChunkFault>(
                    seq![
                        (trim_sp(a), ChunkType::Translate),
                        (ignore_region(foo), ChunkType::Unchanged),
                    ] + tail,
                ),
                Err(f) => segment_sp(s) == Err::<Seq<(Seq<char>, ChunkType)>, ChunkFault>(f),
            }
        }),
{
    lemma_marker_shapes();
    let region = ignore_region(foo);
    let s = a + region + b;
    let na = a.len() as int;
    let f = foo.len() as int;
    let e0 = na + 20 + 1 + f + 1;
    let j = e0 + 18;
    assert(s.len() == j + b.len());
    // the characters of the prefix of `s` up to the end marker
    assert(s[na] == '%');
    assert forall|q: int| 0 <= q < e0 && s[q] == '%' implies (q == na) by {
        if q < na {
            assert(s[q] == a[q]);
        } else if q < na + 20 {
            assert(s[q] == begin_marker()[q - na]);
        } else if q == na + 20 {
            assert(s[q] == '\n');
        } else if q < na + 21 + f {
            assert(s[q] == foo[q - na - 21]);
        } else {
            assert(s[q] == '\n');
        }
    }
    assert(crate::strutil::match_at(s, begin_marker(), na)) by {
        assert(s.subrange(na, na + 20) =~= begin_marker());
    }
    assert(crate::strutil::match_at(s, end_marker(), e0)) by {
        assert(s.subrange(e0, e0 + 18) =~= end_marker());
    }
    // the begin marker at `na` is the first marker of any kind
    assert forall|q: int|
        0 <= q < na + 1 && q != na implies !crate::strutil::match_at(s, begin_marker(), q)
        && !crate::strutil::match_at(s, end_marker(), q) && !crate::strutil::match_at(
        s,
        split_marker(),
        q,
    ) by {
        if crate::strutil::match_at(s, begin_marker(), q) {
            lemma_match_head(s, begin_marker(), q);
        }
        if crate::strutil::match_at(s, end_marker(), q) {
            lemma_match_head(s, end_marker(), q);
        }
        if crate::strutil::match_at(s, split_marker(), q) {
            lemma_match_head(s, split_marker(), q);
        }
    }
    assert(!crate::strutil::match_at(s, end_marker(), na)) by {
        if crate::strutil::match_at(s, end_marker(), na) {
            assert(s.subrange(na, na + 18)[8] == s[na + 8]);
            assert(s.subrange(na, na + 20)[8] == s[na + 8]);
        }
    }
    assert(!crate::strutil::match_at(s, split_marker(), na)) by {
        if crate::strutil::match_at(s, split_marker(), na) {
            assert(s.subrange(na, na + 14)[8] == s[na + 8]);
            assert(s.subrange(na, na + 20)[8] == s[na + 8]);
        }
    }
    lemma_find_from(s, begin_marker(), 0);
    lemma_find_from(s, end_marker(), 0);
    lemma_find_from(s, split_marker(), 0);
    crate::strutil::lemma_find_has_match(s, begin_marker(), 0);
    crate::strutil::lemma_find_has_match(s, end_marker(), 0);
    let fb = find_from(s, begin_marker(), 0);
    assert(fb == Some(na)) by {
        assert(crate::strutil::has_match_from(s, begin_marker(), 0));
        let w = fb->Some_0;
        if w > na {
            assert(!crate::strutil::match_at(s, begin_marker(), na));
        }
    }
    let fe = find_from(s, end_marker(), 0);
    assert(fe is Some && fe->Some_0 > na) by {
        assert(crate::strutil::has_match_from(s, end_marker(), 0));
        let w = fe->Some_0;
        assert(crate::strutil::match_at(s, end_marker(), w));
    }
    let fs = find_from(s, split_marker(), 0);
    assert(fs is Some ==> fs->Some_0 > na) by {
        if fs is Some {
            assert(crate::strutil::match_at(s, split_marker(), fs->Some_0));
        }
    }
    // inside the region, the end marker at `e0` comes before any other marker
    let after = na + 20;
    assert forall|q: int|
        after <= q < e0 + 1 && q != e0 implies !crate::strutil::match_at(s, begin_marker(), q)
        && !crate::strutil::match_at(s, end_marker(), q) && !crate::strutil::match_at(
        s,
        split_marker(),
        q,
    ) by {
        if crate::strutil::match_at(s, begin_marker(), q) {
            lemma_match_head(s, begin_marker(), q);
        }
        if crate::strutil::match_at(s, end_marker(), q) {
            lemma_match_head(s, end_marker(), q);
        }
        if crate::strutil::match_at(s, split_marker(), q) {
            lemma_match_head(s, split_marker(), q);
        }
    }
    assert(!crate::strutil::match_at(s, begin_marker(), e0)) by {
        if crate::strutil::match_at(s, begin_marker(), e0) {
            assert(s.subrange(e0, e0 + 20)[8] == s[e0 + 8]);
            assert(s.subrange(e0, e0 + 18)[8] == s[e0 + 8]);
        }
    }
    assert(!crate::strutil::match_at(s, split_marker(), e0)) by {
        if crate::strutil::match_at(s, split_marker(), e0) {
            assert(s.subrange(e0, e0 + 14)[8] == s[e0 + 8]);
            assert(s.subrange(e0, e0 + 18)[8] == s[e0 + 8]);
        }
    }
    lemma_find_from(s, end_marker(), after);
    lemma_find_from(s, begin_marker(), after);
    lemma_find_from(s, split_marker(), after);
    let fe2 = find_from(s, end_marker(), after);
    assert(fe2 == Some(e0)) by {
        crate::strutil::lemma_find_has_match(s, end_marker(), after);
        assert(crate::strutil::has_match_from(s, end_marker(), after)) by {
            assert(crate::strutil::match_at(s, end_marker(), e0));
        }
        let w = fe2->Some_0;
        if w > e0 {
            assert(!crate::strutil::match_at(s, end_marker(), e0));
        }
    }
    let fb2 = find_from(s, begin_marker(), after);
    assert(fb2 is Some ==> fb2->Some_0 > e0) by {
        if fb2 is Some {
            assert(crate::strutil::match_at(s, begin_marker(), fb2->Some_0));
        }
    }
    let fs2 = find_from(s, split_marker(), after);
    assert(fs2 is Some ==> fs2->Some_0 > e0) by {
        if fs2 is Some {
            assert(crate::strutil::match_at(s, split_marker(), fs2->Some_0));
        }
    }
    assert(s.subrange(0, na) =~= a);
    assert(s.subrange(na, j) =~= region);
    assert(s.subrange(j, s.len() as int) =~= b);
}

/// A match that lies wholly inside the prefix of a concatenation is a
/// match in the prefix.
proof fn lemma_match_in_prefix(a: Seq<char>, rest: Seq<char>, p: Seq<char>, q: int)
    requires
        0 <= q,
        q + p.len() <= a.len(),
    ensures
        crate::strutil::match_at(a + rest, p, q) == crate::strutil::match_at(a, p, q),
{
    let s = a + rest;
    assert(s.subrange(q, q + p.len()) =~= a.subrange(q, q + p.len()));
}

/// An ignore region embedded in a body always becomes a standalone
/// `Unchanged` chunk holding exactly the region text, whatever surrounds
/// it: the text before it may hold split markers and stray `%` characters,
/// as long as it holds no ignore marker of its own, and the text after it
/// is arbitrary. Segmentation succeeds exactly when the rest of the body
/// segments, and the region is then one of the chunks.
#[verifier::rlimit(100)]
pub proof fn lemma_ignore_region_somewhere(a: Seq<char>, foo: Seq<char>, b: Seq<char>)
    requires
        !crate::strutil::contains_pat(a, begin_marker()),
        !crate::strutil::contains_pat(a, end_marker()),
        pct_free(foo),
    ensures
        ({
            let s = a + ignore_region(foo) + b;
            match segment_sp(b) {
                Ok(tail) => segment_sp(s) is Ok && (exists|k: int|
                    0 <= k < segment_sp(s)->Ok_0.len() && segment_sp(s)->Ok_0[k] == (
                        ignore_region(foo),
                        ChunkType::Unchanged,
                    )),
                Err(f) => segment_sp(s) == Err::<Seq<(Seq<char>, ChunkType)>, ChunkFault>(f),
            }
        }),
    decreases a.len(),
{
    lemma_marker_shapes();
    let region = ignore_region(foo);
    let s = a + region + b;
    let na = a.len() as int;
    let f = foo.len() as int;
    let e0 = na + 20 + 1 + f + 1;
    let j = e0 + 18;
    assert(s.len() == j + b.len());
    assert(s =~= a + (region + b));
    assert(s.subrange(0, na) =~= a);
    assert(s[na] == '%');
    assert(s[e0] == '%');
    // the only `%` characters of the region are its two marker heads
    assert forall|q: int| na <= q < j && s[q] == '%' implies (q == na || q == e0) by {
        if q < na + 20 {
            assert(s[q] == begin_marker()[q - na]);
        } else if q == na + 20 {
            assert(s[q] == '\n');
        } else if q < na + 21 + f {
            assert(s[q] == foo[q - na - 21]);
        } else if q < e0 {
            assert(s[q] == '\n');
        } else {
            assert(s[q] == end_marker()[q - e0]);
        }
    }
    // no ignore marker stands before the region, and no split marker
    // stands inside it
    assert forall|q: int|
        0 <= q < na implies !crate::strutil::match_at(s, begin_marker(), q)
        && !crate::strutil::match_at(s, end_marker(), q) by {
        if crate::strutil::match_at(s, begin_marker(), q) {
            if q + 20 <= na {
                lemma_match_in_prefix(a, region + b, begin_marker(), q);
                assert(crate::strutil::match_at(a, begin_marker(), q));
                assert(crate::strutil::has_match_from(a, begin_marker(), 0));
            } else {
                assert(s.subrange(q, q + 20)[na - q] == s[na]);
                assert(begin_marker()[na - q] != '%');
            }
        }
        if crate::strutil::match_at(s, end_marker(), q) {
            if q + 18 <= na {
                lemma_match_in_prefix(a, region + b, end_marker(), q);
                assert(crate::strutil::match_at(a, end_marker(), q));
                assert(crate::strutil::has_match_from(a, end_marker(), 0));
            } else {
                assert(s.subrange(q, q + 18)[na - q] == s[na]);
                assert(end_marker()[na - q] != '%');
            }
        }
    }
    assert(crate::strutil::match_at(s, begin_marker(), na)) by {
        assert(s.subrange(na, na + 20) =~= begin_marker());
    }
    assert(crate::strutil::match_at(s, end_marker(), e0)) by {
        assert(s.subrange(e0, e0 + 18) =~= end_marker());
    }
    assert forall|q: int|
        na <= q < e0 implies !crate::strutil::match_at(s, end_marker(), q)
        && !crate::strutil::match_at(s, split_marker(), q) && (q != na
        ==> !crate::strutil::match_at(s, begin_marker(), q)) by {
        if crate::strutil::match_at(s, end_marker(), q) {
            lemma_match_head(s, end_marker(), q);
            assert(q == na || q == e0);
            if q == na {
                assert(s.subrange(na, na + 18)[8] == s[na + 8]);
                assert(s.subrange(na, na + 20)[8] == s[na + 8]);
            }
        }
        if crate::strutil::match_at(s, split_marker(), q) {
            lemma_match_head(s, split_marker(), q);
            assert(q == na || q == e0);
            if q == na {
                assert(s.subrange(na, na + 14)[8] == s[na + 8]);
                assert(s.subrange(na, na + 20)[8] == s[na + 8]);
            }
            if q == e0 {
                assert(s.subrange(e0, e0 + 14)[8] == s[e0 + 8]);
                assert(s.subrange(e0, e0 + 18)[8] == s[e0 + 8]);
            }
        }
        if q != na && crate::strutil::match_at(s, begin_marker(), q) {
            lemma_match_head(s, begin_marker(), q);
            assert(q == e0);
            assert(s.subrange(e0, e0 + 20)[8] == s[e0 + 8]);
            assert(s.subrange(e0, e0 + 18)[8] == s[e0 + 8]);
        }
    }
    assert(!crate::strutil::match_at(s, split_marker(), e0)) by {
        if crate::strutil::match_at(s, split_marker(), e0) {
            assert(s.subrange(e0, e0 + 14)[8] == s[e0 + 8]);
            assert(s.subrange(e0, e0 + 18)[8] == s[e0 + 8]);
        }
    }
    lemma_find_from(s, begin_marker(), 0);
    lemma_find_from(s, end_marker(), 0);
    lemma_find_from(s, split_marker(), 0);
    crate::strutil::lemma_find_has_match(s, begin_marker(), 0);
    crate::strutil::lemma_find_has_match(s, end_marker(), 0);
    let fb = find_from(s, begin_marker(), 0);
    assert(fb == Some(na)) by {
        assert(crate::strutil::has_match_from(s, begin_marker(), 0));
        let w = fb->Some_0;
        if w > na {
            assert(!crate::strutil::match_at(s, begin_marker(), na));
        }
    }
    let fe = find_from(s, end_marker(), 0);
    assert(fe is Some && fe->Some_0 >= e0) by {
        assert(crate::strutil::has_match_from(s, end_marker(), 0));
        let w = fe->Some_0;
        assert(crate::strutil::match_at(s, end_marker(), w));
    }
    let fs = find_from(s, split_marker(), 0);
    if fs is Some && fs->Some_0 < na {
        // a split marker inside the leading text comes first: it ends a
        // chunk there, and the region is found in the remainder
        let i = fs->Some_0;
        assert(crate::strutil::match_at(s, split_marker(), i));
        assert(i + 14 <= na) by {
            if i + 14 > na {
                assert(s.subrange(i, i + 14)[na - i] == s[na]);
                assert(split_marker()[na - i] != '%');
            }
        }
        let next = i + 14;
        let a2 = a.subrange(next, na);
        let suf = s.subrange(next, s.len() as int);
        assert(suf =~= a2 + region + b);
        assert(!crate::strutil::contains_pat(a2, begin_marker())) by {
            if crate::strutil::contains_pat(a2, begin_marker()) {
                let q = choose|q: int|
                    0 <= q && crate::strutil::match_at(a2, begin_marker(), q);
                assert(a2.subrange(q, q + 20) =~= a.subrange(next + q, next + q + 20));
                assert(crate::strutil::match_at(a, begin_marker(), next + q));
                assert(crate::strutil::has_match_from(a, begin_marker(), 0));
            }
        }
        assert(!crate::strutil::contains_pat(a2, end_marker())) by {
            if crate::strutil::contains_pat(a2, end_marker()) {
                let q = choose|q: int| 0 <= q && crate::strutil::match_at(a2, end_marker(), q);
                assert(a2.subrange(q, q + 18) =~= a.subrange(next + q, next + q + 18));
                assert(crate::strutil::match_at(a, end_marker(), next + q));
                assert(crate::strutil::has_match_from(a, end_marker(), 0));
            }
        }
        lemma_ignore_region_somewhere(a2, foo, b);
        match segment_sp(b) {
            Ok(tail) => {
                let sub_chunks = segment_sp(suf)->Ok_0;
                let k = choose|k: int|
                    0 <= k < sub_chunks.len() && sub_chunks[k] == (
                        region,
                        ChunkType::Unchanged,
                    );
                let chunks = segment_sp(s)->Ok_0;
                assert(chunks == seq![(trim_sp(s.subrange(0, i)), ChunkType::Translate)]
                    + sub_chunks);
                assert(chunks[k + 1] == (region, ChunkType::Unchanged));
            },
            Err(ff) => {},
        }
    } else {
        // the begin marker comes first: the region itself is the next
        // chunk, and the rest of the body follows on its own
        let after = na + 20;
        lemma_find_from(s, end_marker(), after);
        lemma_find_from(s, begin_marker(), after);
        lemma_find_from(s, split_marker(), after);
        let fe2 = find_from(s, end_marker(), after);
        assert(fe2 == Some(e0)) by {
            crate::strutil::lemma_find_has_match(s, end_marker(), after);
            assert(crate::strutil::has_match_from(s, end_marker(), after)) by {
                assert(crate::strutil::match_at(s, end_marker(), e0));
            }
            let w = fe2->Some_0;
            if w > e0 {
                assert(!crate::strutil::match_at(s, end_marker(), e0));
            }
        }
        let fb2 = find_from(s, begin_marker(), after);
        assert(fb2 is Some ==> fb2->Some_0 > e0) by {
            if fb2 is Some {
                assert(crate::strutil::match_at(s, begin_marker(), fb2->Some_0));
            }
        }
        let fs2 = find_from(s, split_marker(), after);
        assert(fs2 is Some ==> fs2->Some_0 > e0) by {
            if fs2 is Some {
                assert(crate::strutil::match_at(s, split_marker(), fs2->Some_0));
            }
        }
        assert(s.subrange(na, j) =~= region);
        assert(s.subrange(j, s.len() as int) =~= b);
        match segment_sp(b) {
            Ok(tail) => {
                let chunks = segment_sp(s)->Ok_0;
                assert(chunks[1] == (region, ChunkType::Unchanged));
            },
            Err(ff) => {},
        }
    }
}

/// The executable chunks carry exactly the spec chunk contents and kinds.
pub open spec fn chunks_match(
    r: Seq<(String, ChunkType)>,
    m: Seq<(Seq<char>, ChunkType)>,
) -> bool {
    r.len() == m.len() && forall|i: int|
        0 <= i < r.len() ==> (#[trigger] r[i]).0@ == m[i].0 && r[i].1 == m[i].1
}

/// Append copies of all chunks of `src` to `dst`.
fn append_chunks(dst: &mut Vec<(String, ChunkType)>, src: &Vec<(String, ChunkType)>)
    ensures
        final(dst)@.len() == old(dst)@.len() + src@.len(),
        forall|i: int| 0 <= i < old(dst)@.len() ==> final(dst)@[i] == old(dst)@[i],
        forall|i: int|
            0 <= i < src@.len() ==> (#[trigger] final(dst)@[old(dst)@.len() + i]).0@
                == src@[i].0@ && final(dst)@[old(dst)@.len() + i].1 == src@[i].1,
{
    let n = src.len();
    let mut k: usize = 0;
    while k < n
        invariant
            n == src@.len(),
            k <= n,
            dst@.len() == old(dst)@.len() + k,
            forall|i: int| 0 <= i < old(dst)@.len() ==> dst@[i] == old(dst)@[i],
            forall|i: int|
                0 <= i < k ==> (#[trigger] dst@[old(dst)@.len() + i]).0@ == src@[i].0@
                    && dst@[old(dst)@.len() + i].1 == src@[i].1,
        decreases n - k,
    {
        let c = src[k].0.clone();
        let t = src[k].1;
        dst.push((c, t));
        k = k + 1;
    }
}

/// Segment a body into chunks, or report the marker fault.
pub fn segment_chunks(v: &Vec<char>) -> (r: Result<Vec<(String, ChunkType)>, ChunkFault>)
    ensures
        match r {
            Ok(chunks) => segment_sp(v@) matches Ok(m) && chunks_match(chunks@, m),
            Err(f) => segment_sp(v@) == Err::<Seq<(Seq<char>, ChunkType)>, ChunkFault>(f),
        },
    decreases v@.len(),
{
    proof {
        reveal_strlit("%trsltx-begin-ignore");
        reveal_strlit("%trsltx-end-ignore");
        reveal_strlit("%trsltx-split\n");
    }
    let begin_m = chars_of("%trsltx-begin-ignore");
    let end_m = chars_of("%trsltx-end-ignore");
    let split_m = chars_of("%trsltx-split\n");
    let n = v.len();
    let fb = find_in(v, &begin_m, 0);
    let fe = find_in(v, &end_m, 0);
    let fs = find_in(v, &split_m, 0);
    proof {
        lemma_find_from(v@, begin_marker(), 0);
        lemma_find_from(v@, end_marker(), 0);
        lemma_find_from(v@, split_marker(), 0);
    }
    if fe.is_some() && (fb.is_none() || fe.unwrap() < fb.unwrap()) {
        return Err(ChunkFault::UnbalancedEnd);
    }
    if fb.is_some() && (fs.is_none() || fb.unwrap() < fs.unwrap()) {
        let i = fb.unwrap();
        let after = i + begin_m.len();
        let fe2 = find_in(v, &end_m, after);
        let fs2 = find_in(v, &split_m, after);
        let fb2 = find_in(v, &begin_m, after);
        proof {
            lemma_find_from(v@, end_marker(), after as int);
        }
        if fe2.is_none() {
            return Err(ChunkFault::UnbalancedBegin);
        }
        if fs2.is_some() && fs2.unwrap() < fe2.unwrap() {
            return Err(ChunkFault::UnbalancedBegin);
        }
        if fb2.is_some() && fb2.unwrap() < fe2.unwrap() {
            return Err(ChunkFault::UnbalancedBegin);
        }
        let j = fe2.unwrap() + end_m.len();
        let pre = trim_vec(&subvec(v, 0, i));
        let region = subvec(v, i, j);
        let rest = subvec(v, j, n);
        match segment_chunks(&rest) {
            Err(f) => Err(f),
            Ok(tail_chunks) => {
                let ghost m = segment_sp(v@)->Ok_0;
                let mut chunks: Vec<(String, ChunkType)> = Vec::new();
                chunks.push((string_from_chars(&pre), ChunkType::Translate));
                chunks.push((string_from_chars(&region), ChunkType::Unchanged));
                proof {
                    assert(m[0].0 == trim_sp(v@.subrange(0, i as int)) && m[0].1
                        == ChunkType::Translate);
                    assert(m[1].0 == v@.subrange(i as int, j as int) && m[1].1
                        == ChunkType::Unchanged);
                    assert(forall|w: int|
                        0 <= w < tail_chunks@.len() ==> m[w + 2]
                            == segment_sp(rest@)->Ok_0[w]);
                }
                let ghost pre_chunks = chunks@;
                append_chunks(&mut chunks, &tail_chunks);
                proof {
                    let rm = segment_sp(rest@)->Ok_0;
                    assert(chunks@.len() == m.len());
                    assert forall|w: int|
                        0 <= w < chunks@.len() implies (#[trigger] chunks@[w]).0@ == m[w].0
                        && chunks@[w].1 == m[w].1 by {
                        if w < 2 {
                            assert(chunks@[w] == pre_chunks[w]);
                        } else {
                            assert(chunks@[pre_chunks.len() + (w - 2)].0@ == tail_chunks@[w
                                - 2].0@);
                            assert(chunks@[pre_chunks.len() + (w - 2)].1 == tail_chunks@[w
                                - 2].1);
                            assert(tail_chunks@[w - 2].0@ == rm[w - 2].0);
                            assert(tail_chunks@[w - 2].1 == rm[w - 2].1);
                            assert(m[w] == rm[w - 2]);
                        }
                    }
                }
                Ok(chunks)
            },
        }
    } else if fs.is_some() {
        let i = fs.unwrap();
        let next = i + split_m.len();
        let pre = trim_vec(&subvec(v, 0, i));
        let rest = subvec(v, next, n);
        match segment_chunks(&rest) {
            Err(f) => Err(f),
            Ok(tail_chunks) => {
                let ghost m = segment_sp(v@)->Ok_0;
                let mut chunks: Vec<(String, ChunkType)> = Vec::new();
                chunks.push((string_from_chars(&pre), ChunkType::Translate));
                proof {
                    assert(m[0].0 == trim_sp(v@.subrange(0, i as int)) && m[0].1
                        == ChunkType::Translate);
                    assert(forall|w: int|
                        0 <= w < tail_chunks@.len() ==> m[w + 1]
                            == segment_sp(rest@)->Ok_0[w]);
                }
                let ghost pre_chunks = chunks@;
                append_chunks(&mut chunks, &tail_chunks);
                proof {
                    let rm = segment_sp(rest@)->Ok_0;
                    assert(chunks@.len() == m.len());
                    assert forall|w: int|
                        0 <= w < chunks@.len() implies (#[trigger] chunks@[w]).0@ == m[w].0
                        && chunks@[w].1 == m[w].1 by {
                        if w < 1 {
                            assert(chunks@[w] == pre_chunks[w]);
                        } else {
                            assert(chunks@[pre_chunks.len() + (w - 1)].0@ == tail_chunks@[w
                                - 1].0@);
                            assert(chunks@[pre_chunks.len() + (w - 1)].1 == tail_chunks@[w
                                - 1].1);
                            assert(tail_chunks@[w - 1].0@ == rm[w - 1].0);
                            assert(tail_chunks@[w - 1].1 == rm[w - 1].1);
                            assert(m[w] == rm[w - 1]);
                        }
                    }
                }
                Ok(chunks)
            },
        }
    } else {
        let pre = trim_vec(v);
        let mut chunks: Vec<(String, ChunkType)> = Vec::new();
        chunks.push((string_from_chars(&pre), ChunkType::Translate));
        Ok(chunks)
    }
}

} // verus!
