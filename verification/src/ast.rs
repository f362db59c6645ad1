//! The abstract syntax tree for the safe LaTeX subset, together with its
//! mathematical model (`AstView`) and the basic spec functions over it.

use vstd::prelude::*;

verus! {

broadcast use vstd::seq::group_seq_axioms, vstd::std_specs::vec::group_vec_axioms;

/// One node of the LaTeX abstract syntax tree.
///
/// `Text` holds a maximal run of characters containing none of `\ { } $ %`.
/// `Comment` holds the text between a `%` and the following newline (the
/// newline itself is not part of the comment). `Label` and `Reference` hold
/// the canonical forms `\label{...}` and `\ref{...}` in full. `Command` holds
/// a `\` followed by a run of ASCII letters, or `\` followed by one special
/// character. The three container variants own their children.
#[derive(Debug, PartialEq)]
pub enum LtxNode {
    Text(String),
    Comment(String),
    Label(String),
    Reference(String),
    Command(String),
    Group(Vec<LtxNode>),
    Math(Vec<LtxNode>),
    DisplayMath(Vec<LtxNode>),
}

/// The mathematical model of an `LtxNode`: the same tree with every string
/// replaced by its character sequence.
pub enum AstView {
    Text(Seq<char>),
    Comment(Seq<char>),
    Label(Seq<char>),
    Reference(Seq<char>),
    Command(Seq<char>),
    Group(Seq<AstView>),
    Math(Seq<AstView>),
    DisplayMath(Seq<AstView>),
}

impl LtxNode {
    /// The model of this node.
    pub open spec fn model(&self) -> AstView
        decreases self,
    {
        match self {
            LtxNode::Text(s) => AstView::Text(s@),
            LtxNode::Comment(s) => AstView::Comment(s@),
            LtxNode::Label(s) => AstView::Label(s@),
            LtxNode::Reference(s) => AstView::Reference(s@),
            LtxNode::Command(s) => AstView::Command(s@),
            LtxNode::Group(v) => AstView::Group(LtxNode::model_all(v@)),
            LtxNode::Math(v) => AstView::Math(LtxNode::model_all(v@)),
            LtxNode::DisplayMath(v) => AstView::DisplayMath(LtxNode::model_all(v@)),
        }
    }

    /// The models of a sequence of nodes, in order.
    pub open spec fn model_all(v: Seq<LtxNode>) -> Seq<AstView>
        decreases v,
    {
        if v.len() == 0 {
            Seq::empty()
        } else {
            seq![v[0].model()] + LtxNode::model_all(v.drop_first())
        }
    }
}

/// `model_all` maps each element to its model and keeps the length.
pub proof fn lemma_model_all(v: Seq<LtxNode>)
    ensures
        LtxNode::model_all(v).len() == v.len(),
        forall|i: int| 0 <= i < v.len() ==> #[trigger] LtxNode::model_all(v)[i] == v[i].model(),
    decreases v,
{
    if v.len() > 0 {
        lemma_model_all(v.drop_first());
    }
}

impl AstView {
    /// Number of nodes in the tree, the root included.
    pub open spec fn count(self) -> nat
        decreases self,
    {
        match self {
            AstView::Text(_) => 1,
            AstView::Comment(_) => 1,
            AstView::Label(_) => 1,
            AstView::Reference(_) => 1,
            AstView::Command(_) => 1,
            AstView::Group(v) => 1 + AstView::count_all(v),
            AstView::Math(v) => 1 + AstView::count_all(v),
            AstView::DisplayMath(v) => 1 + AstView::count_all(v),
        }
    }

    /// Total node count of a sequence of trees.
    pub open spec fn count_all(v: Seq<AstView>) -> nat
        decreases v,
    {
        if v.len() == 0 {
            0
        } else {
            v[0].count() + AstView::count_all(v.drop_first())
        }
    }

    /// Total node count distributes over `push`.
    pub proof fn lemma_count_all_push(v: Seq<AstView>, m: AstView)
        ensures
            AstView::count_all(v.push(m)) == AstView::count_all(v) + m.count(),
        decreases v,
    {
        assert(v.push(m).len() == v.len() + 1);
        if v.len() == 0 {
            assert(v.push(m)[0] == m);
            assert(v.push(m).drop_first() =~= Seq::<AstView>::empty());
            assert(AstView::count_all(Seq::<AstView>::empty()) == 0);
        } else {
            assert(v.push(m)[0] == v[0]);
            assert(v.push(m).drop_first() =~= v.drop_first().push(m));
            AstView::lemma_count_all_push(v.drop_first(), m);
        }
    }

    /// An atom is a leaf node: text, comment, label, reference or command.
    pub open spec fn is_atom(self) -> bool {
        match self {
            AstView::Group(_) => false,
            AstView::Math(_) => false,
            AstView::DisplayMath(_) => false,
            _ => true,
        }
    }

    /// Well-formedness: math environments are never nested directly inside
    /// math environments; their children are atoms or groups only.
    pub open spec fn wf(self) -> bool
        decreases self,
    {
        match self {
            AstView::Group(v) => forall|i: int| 0 <= i < v.len() ==> #[trigger] v[i].wf(),
            AstView::Math(v) => forall|i: int|
                0 <= i < v.len() ==> (#[trigger] v[i].wf() && (v[i].is_atom() || v[i] is Group)),
            AstView::DisplayMath(v) => forall|i: int|
                0 <= i < v.len() ==> (#[trigger] v[i].wf() && (v[i].is_atom() || v[i] is Group)),
            _ => true,
        }
    }
}

} // verus!
