//! Extraction of the vocabulary of a tree: the command names, labels and
//! references occurring anywhere in the subtree, deduplicated and in
//! lexicographic order, so the output is deterministic.

use vstd::prelude::*;

use crate::ast::AstView;
use crate::ast::LtxNode;
use crate::strutil::has_view;
use crate::strutil::lex_lt;
use crate::strutil::sort_dedup_strings;
use crate::strutil::sorted_strings;

verus! {

broadcast use vstd::seq::group_seq_axioms, vstd::std_specs::vec::group_vec_axioms;

/// Which vocabulary a traversal collects.
#[derive(Clone, Copy, PartialEq, Eq, Debug)]
pub enum VocabKind {
    Commands,
    Labels,
    References,
}

/// The vocabulary of kind `k` in the tree, in depth-first order, with
/// duplicates.
pub open spec fn vocab_of(m: AstView, k: VocabKind) -> Seq<Seq<char>>
    decreases m,
{
    match m {
        AstView::Text(_) => Seq::empty(),
        AstView::Comment(_) => Seq::empty(),
        AstView::Label(s) => if k is Labels {
            seq![s]
        } else {
            Seq::empty()
        },
        AstView::Reference(s) => if k is References {
            seq![s]
        } else {
            Seq::empty()
        },
        AstView::Command(s) => if k is Commands {
            seq![s]
        } else {
            Seq::empty()
        },
        AstView::Group(v) => vocab_all(v, k),
        AstView::Math(v) => vocab_all(v, k),
        AstView::DisplayMath(v) => vocab_all(v, k),
    }
}

/// The vocabulary of kind `k` over a sequence of trees.
pub open spec fn vocab_all(v: Seq<AstView>, k: VocabKind) -> Seq<Seq<char>>
    decreases v,
{
    if v.len() == 0 {
        Seq::empty()
    } else {
        vocab_of(v[0], k) + vocab_all(v.drop_first(), k)
    }
}

/// `vocab_all` distributes over `push`.
proof fn lemma_vocab_all_push(v: Seq<AstView>, k: VocabKind, m: AstView)
    ensures
        vocab_all(v.push(m), k) == vocab_all(v, k) + vocab_of(m, k),
    decreases v,
{
    if v.len() == 0 {
        assert(v.push(m).drop_first() =~= Seq::<AstView>::empty());
        assert(v.push(m)[0] == m);
        assert(vocab_all(Seq::<AstView>::empty(), k) =~= Seq::<Seq<char>>::empty());
        assert(vocab_all(v.push(m), k) =~= vocab_all(v, k) + vocab_of(m, k));
    } else {
        assert(v.push(m).drop_first() =~= v.drop_first().push(m));
        assert(v.push(m)[0] == v[0]);
        lemma_vocab_all_push(v.drop_first(), k, m);
        assert(vocab_all(v.push(m), k) =~= vocab_all(v, k) + vocab_of(m, k));
    }
}

/// Collect the vocabulary of kind `k` of the subtree at `n`, appending to
/// `out` in depth-first order.
fn collect_vocab(n: &LtxNode, k: VocabKind, out: &mut Vec<String>)
    ensures
        final(out)@.len() == old(out)@.len() + vocab_of(n.model(), k).len(),
        forall|i: int| 0 <= i < old(out)@.len() ==> final(out)@[i] == old(out)@[i],
        forall|j: int|
            0 <= j < vocab_of(n.model(), k).len() ==> final(out)@[old(out)@.len() + j]@
                == vocab_of(n.model(), k)[j],
    decreases n,
{
    match n {
        LtxNode::Text(_) => {},
        LtxNode::Comment(_) => {},
        LtxNode::Label(s) => {
            if matches!(k, VocabKind::Labels) {
                out.push(s.clone());
            }
        },
        LtxNode::Reference(s) => {
            if matches!(k, VocabKind::References) {
                out.push(s.clone());
            }
        },
        LtxNode::Command(s) => {
            if matches!(k, VocabKind::Commands) {
                out.push(s.clone());
            }
        },
        LtxNode::Group(v) => collect_vocab_all(v, k, out),
        LtxNode::Math(v) => collect_vocab_all(v, k, out),
        LtxNode::DisplayMath(v) => collect_vocab_all(v, k, out),
    }
}

/// Collect the vocabulary of kind `k` of every tree in `v`, in order.
fn collect_vocab_all(v: &Vec<LtxNode>, k: VocabKind, out: &mut Vec<String>)
    ensures
        final(out)@.len() == old(out)@.len() + vocab_all(LtxNode::model_all(v@), k).len(),
        forall|i: int| 0 <= i < old(out)@.len() ==> final(out)@[i] == old(out)@[i],
        forall|j: int|
            0 <= j < vocab_all(LtxNode::model_all(v@), k).len() ==> final(out)@[old(out)@.len()
                + j]@ == vocab_all(LtxNode::model_all(v@), k)[j],
    decreases v,
{
    let n = v.len();
    let mut i: usize = 0;
    proof {
        crate::ast::lemma_model_all(v@);
        assert(LtxNode::model_all(v@.subrange(0, 0)) =~= Seq::<AstView>::empty());
    }
    while i < n
        invariant
            n == v@.len(),
            i <= n,
            out@.len() == old(out)@.len() + vocab_all(
                LtxNode::model_all(v@.subrange(0, i as int)),
                k,
            ).len(),
            forall|m: int| 0 <= m < old(out)@.len() ==> out@[m] == old(out)@[m],
            forall|j: int|
                0 <= j < vocab_all(LtxNode::model_all(v@.subrange(0, i as int)), k).len()
                    ==> out@[old(out)@.len() + j]@ == vocab_all(
                    LtxNode::model_all(v@.subrange(0, i as int)),
                    k,
                )[j],
        decreases n - i,
    {
        let ghost pre = out@;
        let ghost prefix_vocab = vocab_all(LtxNode::model_all(v@.subrange(0, i as int)), k);
        collect_vocab(&v[i], k, out);
        proof {
            crate::ast::lemma_model_all(v@.subrange(0, i as int));
            crate::ast::lemma_model_all(v@.subrange(0, i + 1 as int));
            assert(LtxNode::model_all(v@.subrange(0, i + 1 as int)) =~= LtxNode::model_all(
                v@.subrange(0, i as int),
            ).push(v@[i as int].model()));
            lemma_vocab_all_push(
                LtxNode::model_all(v@.subrange(0, i as int)),
                k,
                v@[i as int].model(),
            );
        }
        i = i + 1;
    }
    proof {
        assert(v@.subrange(0, n as int) =~= v@);
    }
}

/// The vocabulary of kind `k`, collected, sorted and deduplicated.
fn extract_sorted(n: &LtxNode, k: VocabKind) -> (r: Vec<String>)
    ensures
        sorted_strings(r@),
        forall|x: Seq<char>| has_view(r@, x) <==> vocab_of(n.model(), k).contains(x),
{
    let mut col: Vec<String> = Vec::new();
    collect_vocab(n, k, &mut col);
    let r = sort_dedup_strings(col);
    proof {
        let vocab = vocab_of(n.model(), k);
        assert forall|x: Seq<char>| has_view(r@, x) <==> vocab.contains(x) by {
            if has_view(r@, x) {
                let m = choose|m: int| 0 <= m < col@.len() && col@[m]@ == x;
                assert(vocab[m] == x);
            }
            if vocab.contains(x) {
                let j = choose|j: int| 0 <= j < vocab.len() && vocab[j] == x;
                assert(col@[j]@ == x);
                assert(has_view(col@, x));
            }
        }
    }
    r
}

impl LtxNode {
    /// All command names in the subtree, sorted and duplicate-free.
    pub fn extracts_commands(&self) -> (r: Vec<String>)
        ensures
            sorted_strings(r@),
            forall|x: Seq<char>|
                has_view(r@, x) <==> vocab_of(self.model(), VocabKind::Commands).contains(x),
    {
        extract_sorted(self, VocabKind::Commands)
    }

    /// All labels in the subtree, sorted and duplicate-free.
    pub fn extracts_labels(&self) -> (r: Vec<String>)
        ensures
            sorted_strings(r@),
            forall|x: Seq<char>|
                has_view(r@, x) <==> vocab_of(self.model(), VocabKind::Labels).contains(x),
    {
        extract_sorted(self, VocabKind::Labels)
    }

    /// All references in the subtree, sorted and duplicate-free.
    pub fn extracts_references(&self) -> (r: Vec<String>)
        ensures
            sorted_strings(r@),
            forall|x: Seq<char>|
                has_view(r@, x) <==> vocab_of(self.model(), VocabKind::References).contains(x),
    {
        extract_sorted(self, VocabKind::References)
    }
}

/// A sorted extraction result is exactly the sorted arrangement of the
/// vocabulary it was collected from.
pub proof fn lemma_extracted_is_sort_unique(r: Seq<String>, vocab: Seq<Seq<char>>)
    requires
        sorted_strings(r),
        forall|x: Seq<char>| has_view(r, x) <==> vocab.contains(x),
    ensures
        crate::strutil::view_seq(r) == crate::strutil::sort_unique(vocab),
{
    crate::strutil::lemma_sort_unique(vocab);
    let vs = crate::strutil::view_seq(r);
    let su = crate::strutil::sort_unique(vocab);
    assert(crate::strutil::strictly_sorted_seqs(vs)) by {
        assert(forall|i: int, j: int|
            0 <= i < j < vs.len() ==> vs[i] == r[i]@ && vs[j] == r[j]@);
    }
    assert forall|y: Seq<char>| #[trigger] vs.contains(y) <==> su.contains(y) by {
        if vs.contains(y) {
            let m = choose|m: int| 0 <= m < vs.len() && vs[m] == y;
            assert(r[m]@ == y);
            assert(has_view(r, y));
            assert(vocab.contains(y));
        }
        if su.contains(y) {
            assert(vocab.contains(y));
            assert(has_view(r, y));
            let k = choose|k: int| 0 <= k < r.len() && r[k]@ == y;
            assert(vs[k] == y);
        }
    }
    crate::strutil::lemma_sorted_seqs_unique(vs, su);
}

/// The vocabulary of one kind is never longer than the tree itself: each
/// node contributes at most one entry.
pub proof fn lemma_vocab_le_count(m: AstView, k: VocabKind)
    ensures
        vocab_of(m, k).len() <= m.count(),
    decreases m,
{
    match m {
        AstView::Group(v) => lemma_vocab_all_le_count(v, k),
        AstView::Math(v) => lemma_vocab_all_le_count(v, k),
        AstView::DisplayMath(v) => lemma_vocab_all_le_count(v, k),
        _ => {},
    }
}

proof fn lemma_vocab_all_le_count(v: Seq<AstView>, k: VocabKind)
    ensures
        vocab_all(v, k).len() <= AstView::count_all(v),
    decreases v,
{
    if v.len() > 0 {
        lemma_vocab_le_count(v[0], k);
        lemma_vocab_all_le_count(v.drop_first(), k);
    }
}

/// Extraction is deterministic: two strictly sorted string sequences that
/// hold the same character sequences are the same sequence of views. Any
/// two extraction runs over equal trees therefore agree element by
/// element.
pub proof fn lemma_sorted_views_unique(a: Seq<String>, b: Seq<String>)
    requires
        sorted_strings(a),
        sorted_strings(b),
        forall|x: Seq<char>| has_view(a, x) <==> has_view(b, x),
    ensures
        a.len() == b.len(),
        forall|i: int| 0 <= i < a.len() ==> a[i]@ == b[i]@,
    decreases a.len(),
{
    if a.len() == 0 {
        if b.len() > 0 {
            assert(has_view(b, b[0]@));
        }
    } else {
        assert(has_view(a, a[0]@));
        assert(has_view(b, a[0]@));
        assert(has_view(b, b[0]@));
        assert(has_view(a, b[0]@));
        let ka = choose|k: int| 0 <= k < b.len() && b[k]@ == a[0]@;
        let kb = choose|k: int| 0 <= k < a.len() && a[k]@ == b[0]@;
        assert(a[0]@ == b[0]@) by {
            if ka > 0 {
                assert(lex_lt(b[0]@, b[ka]@));
                if kb > 0 {
                    assert(lex_lt(a[0]@, a[kb]@));
                    crate::strutil::lemma_lex_trans(a[0]@, b[0]@, a[0]@);
                    crate::strutil::lemma_lex_irrefl(a[0]@);
                }
            }
        }
        let ta = a.drop_first();
        let tb = b.drop_first();
        assert forall|x: Seq<char>| has_view(ta, x) <==> has_view(tb, x) by {
            if has_view(ta, x) {
                let m = choose|m: int| 0 <= m < ta.len() && ta[m]@ == x;
                assert(a[m + 1]@ == x);
                assert(lex_lt(a[0]@, x));
                assert(has_view(b, x));
                let w = choose|w: int| 0 <= w < b.len() && b[w]@ == x;
                assert(w != 0) by {
                    if w == 0 {
                        crate::strutil::lemma_lex_irrefl(x);
                    }
                }
                assert(tb[w - 1]@ == x);
                assert(has_view(tb, x));
            }
            if has_view(tb, x) {
                let m = choose|m: int| 0 <= m < tb.len() && tb[m]@ == x;
                assert(b[m + 1]@ == x);
                assert(lex_lt(b[0]@, x));
                assert(has_view(a, x));
                let w = choose|w: int| 0 <= w < a.len() && a[w]@ == x;
                assert(w != 0) by {
                    if w == 0 {
                        crate::strutil::lemma_lex_irrefl(x);
                    }
                }
                assert(ta[w - 1]@ == x);
                assert(has_view(ta, x));
            }
        }
        lemma_sorted_views_unique(ta, tb);
        assert forall|i: int| 0 <= i < a.len() implies a[i]@ == b[i]@ by {
            if i > 0 {
                assert(ta[i - 1]@ == tb[i - 1]@);
            }
        }
    }
}

} // verus!
