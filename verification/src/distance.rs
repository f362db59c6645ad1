//! Structural distance between two trees: the symmetric difference of
//! their extracted vocabularies (commands, labels, references, each
//! deduplicated), one point per missing or extra token, plus a shape
//! penalty of the node-count difference scaled down by a constant. The
//! score is zero on identical trees and grows with structural mismatch.

use vstd::prelude::*;

use crate::ast::AstView;
use crate::ast::LtxNode;
use crate::extract::VocabKind;
use crate::extract::lemma_extracted_is_sort_unique;
use crate::extract::lemma_vocab_le_count;
use crate::extract::vocab_of;
use crate::strutil::sort_unique;
use crate::strutil::str_eq;
use crate::strutil::view_seq;

verus! {

broadcast use vstd::seq::group_seq_axioms, vstd::std_specs::vec::group_vec_axioms;

/// Scale factor of the shape penalty: one point per ten nodes of
/// difference in tree size.
pub const SHAPE_SCALE: usize = 10;

/// How many elements of `x` are missing from `y`.
pub open spec fn count_missing(x: Seq<Seq<char>>, y: Seq<Seq<char>>) -> int
    decreases x,
{
    if x.len() == 0 {
        0
    } else {
        (if y.contains(x[0]) {
            0int
        } else {
            1int
        }) + count_missing(x.drop_first(), y)
    }
}

/// Size of the symmetric difference between the two vocabularies of kind
/// `k`, after deduplication.
pub open spec fn vocab_diff(a: AstView, b: AstView, k: VocabKind) -> int {
    let va = sort_unique(vocab_of(a, k));
    let vb = sort_unique(vocab_of(b, k));
    count_missing(va, vb) + count_missing(vb, va)
}

/// The structural distance between two trees.
pub open spec fn dist_sp(a: AstView, b: AstView) -> int {
    vocab_diff(a, b, VocabKind::Commands) + vocab_diff(a, b, VocabKind::Labels) + vocab_diff(
        a,
        b,
        VocabKind::References,
    ) + (if a.count() >= b.count() {
        a.count() - b.count()
    } else {
        b.count() - a.count()
    }) / (SHAPE_SCALE as int)
}

/// `count_missing` is bounded by the length of its first argument.
proof fn lemma_count_missing_bounds(x: Seq<Seq<char>>, y: Seq<Seq<char>>)
    ensures
        0 <= count_missing(x, y) <= x.len(),
    decreases x,
{
    if x.len() > 0 {
        lemma_count_missing_bounds(x.drop_first(), y);
    }
}

/// When every element of `x` occurs in `y`, nothing is missing.
proof fn lemma_count_missing_zero(x: Seq<Seq<char>>, y: Seq<Seq<char>>)
    requires
        forall|i: int| 0 <= i < x.len() ==> y.contains(#[trigger] x[i]),
    ensures
        count_missing(x, y) == 0,
    decreases x,
{
    if x.len() > 0 {
        assert(forall|i: int|
            0 <= i < x.drop_first().len() ==> #[trigger] x.drop_first()[i] == x[i + 1]);
        lemma_count_missing_zero(x.drop_first(), y);
        assert(y.contains(x[0]));
    }
}

/// The distance of any tree to itself is zero.
pub proof fn lemma_distance_reflexive(a: AstView)
    ensures
        dist_sp(a, a) == 0,
{
    assert forall|k: VocabKind| vocab_diff(a, a, k) == 0 by {
        let va = sort_unique(vocab_of(a, k));
        assert(forall|i: int| 0 <= i < va.len() ==> va.contains(#[trigger] va[i]));
        lemma_count_missing_zero(va, va);
    }
    assert(vocab_diff(a, a, VocabKind::Commands) == 0);
    assert(vocab_diff(a, a, VocabKind::Labels) == 0);
    assert(vocab_diff(a, a, VocabKind::References) == 0);
}

/// Whether some string of `v` has exactly the characters of `s`.
fn contains_str(v: &Vec<String>, s: &String) -> (r: bool)
    ensures
        r == view_seq(v@).contains(s@),
{
    let n = v.len();
    let mut i: usize = 0;
    while i < n
        invariant
            n == v@.len(),
            i <= n,
            forall|j: int| 0 <= j < i ==> view_seq(v@)[j] != s@,
        decreases n - i,
    {
        if str_eq(v[i].as_str(), s.as_str()) {
            assert(view_seq(v@)[i as int] == s@);
            return true;
        }
        i = i + 1;
    }
    assert forall|j: int| 0 <= j < v@.len() implies view_seq(v@)[j] != s@ by {}
    false
}

/// Count how many strings of `x` have no counterpart in `y`.
fn missing_count(x: &Vec<String>, y: &Vec<String>) -> (r: usize)
    ensures
        r as int == count_missing(view_seq(x@), view_seq(y@)),
        r <= x@.len(),
{
    let n = x.len();
    let ghost xs = view_seq(x@);
    let ghost ys = view_seq(y@);
    let mut cnt: usize = 0;
    proof {
        assert(xs.subrange(0, 0) =~= Seq::<Seq<char>>::empty());
        lemma_count_missing_bounds(xs.subrange(0, 0), ys);
    }
    let mut i: usize = 0;
    while i < n
        invariant
            n == x@.len(),
            xs == view_seq(x@),
            ys == view_seq(y@),
            i <= n,
            cnt <= i,
            cnt as int == count_missing(xs.subrange(0, i as int), ys),
        decreases n - i,
    {
        proof {
            lemma_count_missing_push(xs.subrange(0, i as int), ys, xs[i as int]);
            assert(xs.subrange(0, i + 1 as int) =~= xs.subrange(0, i as int).push(
                xs[i as int],
            ));
        }
        if !contains_str(y, &x[i]) {
            assert(xs[i as int] == x@[i as int]@);
            cnt = cnt + 1;
        } else {
            assert(ys.contains(xs[i as int]));
        }
        i = i + 1;
    }
    assert(xs.subrange(0, n as int) =~= xs);
    cnt
}

/// `count_missing` distributes over `push`.
proof fn lemma_count_missing_push(x: Seq<Seq<char>>, y: Seq<Seq<char>>, e: Seq<char>)
    ensures
        count_missing(x.push(e), y) == count_missing(x, y) + (if y.contains(e) {
            0int
        } else {
            1int
        }),
    decreases x,
{
    assert(x.push(e).len() == x.len() + 1);
    if x.len() == 0 {
        assert(x.push(e)[0] == e);
        assert(x.push(e).drop_first() =~= Seq::<Seq<char>>::empty());
        assert(count_missing(Seq::<Seq<char>>::empty(), y) == 0);
    } else {
        assert(x.push(e)[0] == x[0]);
        assert(x.push(e).drop_first() =~= x.drop_first().push(e));
        lemma_count_missing_push(x.drop_first(), y, e);
    }
}

impl LtxNode {
    /// Number of nodes in this tree.
    pub fn node_count(&self) -> (r: usize)
        requires
            self.model().count() <= usize::MAX,
        ensures
            r as int == self.model().count(),
        decreases self,
    {
        match self {
            LtxNode::Text(_) => 1,
            LtxNode::Comment(_) => 1,
            LtxNode::Label(_) => 1,
            LtxNode::Reference(_) => 1,
            LtxNode::Command(_) => 1,
            LtxNode::Group(v) => 1 + count_nodes(v),
            LtxNode::Math(v) => 1 + count_nodes(v),
            LtxNode::DisplayMath(v) => 1 + count_nodes(v),
        }
    }

    /// The structural distance from this tree (the reference) to another
    /// (the candidate). Zero means structurally identical vocabulary and
    /// size; each missing or extra command, label or reference adds one
    /// point, and every ten nodes of size difference add one more.
    pub fn distance(&self, other: &LtxNode) -> (r: usize)
        requires
            4 * (self.model().count() + other.model().count()) <= usize::MAX,
        ensures
            r as int == dist_sp(self.model(), other.model()),
    {
        let ma = self;
        let mb = other;
        let a_cmds = ma.extracts_commands();
        let a_lbls = ma.extracts_labels();
        let a_refs = ma.extracts_references();
        let b_cmds = mb.extracts_commands();
        let b_lbls = mb.extracts_labels();
        let b_refs = mb.extracts_references();
        proof {
            lemma_extracted_is_sort_unique(
                a_cmds@,
                vocab_of(self.model(), VocabKind::Commands),
            );
            lemma_extracted_is_sort_unique(a_lbls@, vocab_of(self.model(), VocabKind::Labels));
            lemma_extracted_is_sort_unique(
                a_refs@,
                vocab_of(self.model(), VocabKind::References),
            );
            lemma_extracted_is_sort_unique(
                b_cmds@,
                vocab_of(other.model(), VocabKind::Commands),
            );
            lemma_extracted_is_sort_unique(b_lbls@, vocab_of(other.model(), VocabKind::Labels));
            lemma_extracted_is_sort_unique(
                b_refs@,
                vocab_of(other.model(), VocabKind::References),
            );
            lemma_all_vocab_bounds(self.model());
            lemma_all_vocab_bounds(other.model());
        }
        let d1 = missing_count(&a_cmds, &b_cmds);
        let d2 = missing_count(&b_cmds, &a_cmds);
        let d3 = missing_count(&a_lbls, &b_lbls);
        let d4 = missing_count(&b_lbls, &a_lbls);
        let d5 = missing_count(&a_refs, &b_refs);
        let d6 = missing_count(&b_refs, &a_refs);
        let ca = self.node_count();
        let cb = other.node_count();
        let shape = if ca >= cb {
            (ca - cb) / SHAPE_SCALE
        } else {
            (cb - ca) / SHAPE_SCALE
        };
        d1 + d2 + d3 + d4 + d5 + d6 + shape
    }
}

/// Each deduplicated vocabulary list is bounded by the node count.
proof fn lemma_all_vocab_bounds(m: AstView)
    ensures
        forall|k: VocabKind| #[trigger] sort_unique(vocab_of(m, k)).len() <= m.count(),
{
    assert forall|k: VocabKind| #[trigger] sort_unique(vocab_of(m, k)).len() <= m.count() by {
        crate::strutil::lemma_sort_unique_len(vocab_of(m, k));
        lemma_vocab_le_count(m, k);
    }
}

/// Total node count of the trees in `v`.
fn count_nodes(v: &Vec<LtxNode>) -> (r: usize)
    requires
        AstView::count_all(LtxNode::model_all(v@)) < usize::MAX,
    ensures
        r as int == AstView::count_all(LtxNode::model_all(v@)),
    decreases v,
{
    let n = v.len();
    let mut total: usize = 0;
    proof {
        crate::ast::lemma_model_all(v@);
        assert(LtxNode::model_all(v@.subrange(0, 0)) =~= Seq::<AstView>::empty());
    }
    let mut i: usize = 0;
    while i < n
        invariant
            n == v@.len(),
            i <= n,
            AstView::count_all(LtxNode::model_all(v@)) < usize::MAX,
            total as int == AstView::count_all(LtxNode::model_all(v@.subrange(0, i as int))),
        decreases n - i,
    {
        proof {
            crate::ast::lemma_model_all(v@.subrange(0, i as int));
            crate::ast::lemma_model_all(v@.subrange(0, i + 1 as int));
            crate::ast::lemma_model_all(v@);
            assert(LtxNode::model_all(v@.subrange(0, i + 1 as int)) =~= LtxNode::model_all(
                v@.subrange(0, i as int),
            ).push(v@[i as int].model()));
            AstView::lemma_count_all_push(
                LtxNode::model_all(v@.subrange(0, i as int)),
                v@[i as int].model(),
            );
            lemma_count_all_prefix_le(LtxNode::model_all(v@), i + 1 as int);
            assert(LtxNode::model_all(v@).subrange(0, i + 1 as int) =~= LtxNode::model_all(
                v@.subrange(0, i + 1 as int),
            ));
        }
        let c = v[i].node_count();
        total = total + c;
        i = i + 1;
    }
    proof {
        assert(v@.subrange(0, n as int) =~= v@);
    }
    total
}

/// A prefix never counts more nodes than the whole sequence.
proof fn lemma_count_all_prefix_le(v: Seq<AstView>, i: int)
    requires
        0 <= i <= v.len(),
    ensures
        AstView::count_all(v.subrange(0, i)) <= AstView::count_all(v),
    decreases v.len() - i,
{
    if i < v.len() {
        AstView::lemma_count_all_push(v.subrange(0, i), v[i]);
        assert(v.subrange(0, i + 1) =~= v.subrange(0, i).push(v[i]));
        lemma_count_all_prefix_le(v, i + 1);
    } else {
        assert(v.subrange(0, i) =~= v);
    }
}

} // verus!
