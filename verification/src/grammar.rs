//! Grammar synthesis: a fixed structural skeleton plus one dynamic
//! `command` production listing, as quoted literals with doubled
//! backslashes, a fixed placeholder followed by every label, reference and
//! command extracted from the fragment, each list sorted and
//! duplicate-free.

use vstd::prelude::*;

use crate::ast::AstView;
use crate::ast::LtxNode;
use crate::extract::VocabKind;
use crate::extract::vocab_of;
use crate::extract::lemma_extracted_is_sort_unique;
use crate::strutil::chars_of;
use crate::strutil::push_all;
use crate::strutil::sort_unique;
use crate::strutil::string_from_chars;
use crate::strutil::view_seq;

verus! {

broadcast use vstd::seq::group_seq_axioms, vstd::std_specs::vec::group_vec_axioms;

/// The fixed structural skeleton of the synthesized grammar.
pub open spec fn skeleton_sp() -> Seq<char> {
    r#"
# W3C EBNF grammar of the Latex chunk
root ::= "\\begin{trsltx}" stuff "\\end{trsltx}"
stuff ::= (atom | construct)*
atom ::= command | text
construct ::= group | math
text ::= [^\\{}$%]+
group ::= "{" stuff "}"
math ::= ("$" stuff "$") | ("$$" stuff "$$")"#@
}

/// The head of the dynamic production: a placeholder alternative that
/// keeps the production nonempty even for a fragment with no vocabulary.
pub open spec fn dyn_header_sp() -> Seq<char> {
    "\ncommand ::= \"\\\\commandevide\""@
}

/// `s` with every backslash doubled.
pub open spec fn double_bs(s: Seq<char>) -> Seq<char>
    decreases s,
{
    if s.len() == 0 {
        Seq::empty()
    } else if s[0] == '\\' {
        seq!['\\', '\\'] + double_bs(s.drop_first())
    } else {
        seq![s[0]] + double_bs(s.drop_first())
    }
}

proof fn lemma_double_bs_push(s: Seq<char>, x: char)
    ensures
        double_bs(s.push(x)) == double_bs(s) + (if x == '\\' {
            seq!['\\', '\\']
        } else {
            seq![x]
        }),
    decreases s,
{
    let tail: Seq<char> = if x == '\\' {
        seq!['\\', '\\']
    } else {
        seq![x]
    };
    assert(s.push(x).len() == s.len() + 1);
    if s.len() == 0 {
        assert(s.push(x)[0] == x);
        assert(double_bs(Seq::<char>::empty()) =~= Seq::<char>::empty());
        assert(s.push(x).drop_first() =~= Seq::<char>::empty());
        assert(double_bs(s.push(x)) =~= double_bs(s) + tail);
    } else {
        assert(s.push(x)[0] == s[0]);
        assert(s.push(x).drop_first() =~= s.drop_first().push(x));
        lemma_double_bs_push(s.drop_first(), x);
        assert(double_bs(s.push(x)) =~= double_bs(s) + tail);
    }
}

/// `v` with every backslash doubled.
fn double_bs_vec(v: &Vec<char>) -> (r: Vec<char>)
    ensures
        r@ == double_bs(v@),
{
    let n = v.len();
    let mut r: Vec<char> = Vec::new();
    proof {
        assert(double_bs(v@.subrange(0, 0)) =~= Seq::<char>::empty());
    }
    let mut i: usize = 0;
    while i < n
        invariant
            n == v@.len(),
            i <= n,
            r@ == double_bs(v@.subrange(0, i as int)),
        decreases n - i,
    {
        proof {
            assert(v@.subrange(0, i + 1 as int) =~= v@.subrange(0, i as int).push(v@[i as int]));
            lemma_double_bs_push(v@.subrange(0, i as int), v@[i as int]);
        }
        if v[i] == '\\' {
            r.push('\\');
            r.push('\\');
        } else {
            r.push(v[i]);
        }
        assert(r@ =~= double_bs(v@.subrange(0, i + 1 as int)));
        i = i + 1;
    }
    assert(v@.subrange(0, n as int) =~= v@);
    r
}

/// One quoted alternative: ` | "` then the item with doubled backslashes,
/// then a closing quote.
pub open spec fn one_alt(x: Seq<char>) -> Seq<char> {
    " | \""@ + double_bs(x) + "\""@
}

/// The quoted alternatives of all items, in order.
pub open spec fn alts(items: Seq<Seq<char>>) -> Seq<char>
    decreases items,
{
    if items.len() == 0 {
        Seq::empty()
    } else {
        one_alt(items[0]) + alts(items.drop_first())
    }
}

proof fn lemma_alts_push(items: Seq<Seq<char>>, x: Seq<char>)
    ensures
        alts(items.push(x)) == alts(items) + one_alt(x),
    decreases items,
{
    if items.len() == 0 {
        assert(items.push(x)[0] == x);
        assert(items.push(x).drop_first() =~= Seq::<Seq<char>>::empty());
        assert(alts(Seq::<Seq<char>>::empty()) =~= Seq::<char>::empty());
        assert(alts(items.push(x)) =~= alts(items) + one_alt(x));
    } else {
        assert(items.push(x)[0] == items[0]);
        assert(items.push(x).drop_first() =~= items.drop_first().push(x));
        lemma_alts_push(items.drop_first(), x);
        assert(alts(items.push(x)) =~= alts(items) + one_alt(x));
    }
}

/// The full grammar of a fragment: the skeleton, then the dynamic
/// production over the sorted vocabularies, labels first, then references,
/// then commands.
pub open spec fn to_ebnf_sp(m: AstView) -> Seq<char> {
    skeleton_sp() + dyn_header_sp() + alts(sort_unique(vocab_of(m, VocabKind::Labels))) + alts(
        sort_unique(vocab_of(m, VocabKind::References)),
    ) + alts(sort_unique(vocab_of(m, VocabKind::Commands)))
}

/// Append the quoted alternatives of every string in `items`.
fn append_alts(out: &mut Vec<char>, items: &Vec<String>)
    ensures
        final(out)@ == old(out)@ + alts(view_seq(items@)),
{
    let n = items.len();
    let ghost vs = view_seq(items@);
    proof {
        assert(vs.subrange(0, 0) =~= Seq::<Seq<char>>::empty());
        assert(alts(Seq::<Seq<char>>::empty()) =~= Seq::<char>::empty());
        assert(out@ =~= old(out)@ + alts(vs.subrange(0, 0)));
    }
    let mut i: usize = 0;
    while i < n
        invariant
            n == items@.len(),
            vs == view_seq(items@),
            vs.len() == n,
            i <= n,
            out@ == old(out)@ + alts(vs.subrange(0, i as int)),
        decreases n - i,
    {
        let sep = chars_of(" | \"");
        push_all(out, &sep);
        let item = chars_of(items[i].as_str());
        let doubled = double_bs_vec(&item);
        push_all(out, &doubled);
        out.push('"');
        proof {
            assert(vs.subrange(0, i + 1 as int) =~= vs.subrange(0, i as int).push(
                vs[i as int],
            ));
            lemma_alts_push(vs.subrange(0, i as int), vs[i as int]);
            assert(vs[i as int] == items@[i as int]@);
            assert(out@ =~= old(out)@ + alts(vs.subrange(0, i + 1 as int))) by {
                assert(one_alt(vs[i as int]) == " | \""@ + double_bs(items@[i as int]@)
                    + "\""@);
                assert("\""@ =~= seq!['"']) by {
                    reveal_strlit("\"");
                }
            }
        }
        i = i + 1;
    }
    assert(vs.subrange(0, n as int) =~= vs);
}

impl LtxNode {
    /// The W3C EBNF grammar of the fragment: the fixed skeleton plus the
    /// dynamic vocabulary production derived from this tree.
    pub fn to_ebnf(&self) -> (r: String)
        ensures
            r@ == to_ebnf_sp(self.model()),
    {
        let labels = self.extracts_labels();
        let refs = self.extracts_references();
        let cmds = self.extracts_commands();
        proof {
            lemma_extracted_is_sort_unique(
                labels@,
                vocab_of(self.model(), VocabKind::Labels),
            );
            lemma_extracted_is_sort_unique(
                refs@,
                vocab_of(self.model(), VocabKind::References),
            );
            lemma_extracted_is_sort_unique(
                cmds@,
                vocab_of(self.model(), VocabKind::Commands),
            );
        }
        let mut out: Vec<char> = Vec::new();
        let sk = chars_of(
            r#"
# W3C EBNF grammar of the Latex chunk
root ::= "\\begin{trsltx}" stuff "\\end{trsltx}"
stuff ::= (atom | construct)*
atom ::= command | text
construct ::= group | math
text ::= [^\\{}$%]+
group ::= "{" stuff "}"
math ::= ("$" stuff "$") | ("$$" stuff "$$")"#,
        );
        push_all(&mut out, &sk);
        let hd = chars_of("\ncommand ::= \"\\\\commandevide\"");
        push_all(&mut out, &hd);
        append_alts(&mut out, &labels);
        append_alts(&mut out, &refs);
        append_alts(&mut out, &cmds);
        string_from_chars(&out)
    }
}

} // verus!
