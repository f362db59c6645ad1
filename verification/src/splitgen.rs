//! Automatic insertion of split markers: the body is parsed, printed back
//! in canonical form, and a split-marker line is inserted between
//! top-level constructs whenever the running length of the current unit
//! has reached the target. Markers are never inserted inside a group or a
//! math environment, so balanced delimiters stay balanced; one oversized
//! atomic construct may therefore still exceed the target.

use vstd::prelude::*;

use crate::ast::AstView;
use crate::ast::LtxNode;
use crate::document::Trsltx;
use crate::parser::new_spec;
use crate::strutil::chars_of;
use crate::strutil::push_all;
use crate::strutil::string_from_chars;

verus! {

broadcast use vstd::seq::group_seq_axioms, vstd::std_specs::vec::group_vec_axioms;

/// The canonical text of a tree: text, labels, references and commands as
/// stored; a comment with its leading `%` (its newline was never part of
/// it); groups in braces; math in dollar delimiters.
pub open spec fn render(m: AstView) -> Seq<char>
    decreases m,
{
    match m {
        AstView::Text(s) => s,
        AstView::Comment(s) => seq!['%'] + s,
        AstView::Label(s) => s,
        AstView::Reference(s) => s,
        AstView::Command(s) => s,
        AstView::Group(v) => seq!['{'] + render_all(v) + seq!['}'],
        AstView::Math(v) => seq!['$'] + render_all(v) + seq!['$'],
        AstView::DisplayMath(v) => seq!['$', '$'] + render_all(v) + seq!['$', '$'],
    }
}

/// The canonical text of a sequence of trees, in order.
pub open spec fn render_all(v: Seq<AstView>) -> Seq<char>
    decreases v,
{
    if v.len() == 0 {
        Seq::empty()
    } else {
        render(v[0]) + render_all(v.drop_first())
    }
}

proof fn lemma_render_all_push(v: Seq<AstView>, m: AstView)
    ensures
        render_all(v.push(m)) == render_all(v) + render(m),
    decreases v,
{
    if v.len() == 0 {
        assert(v.push(m)[0] == m);
        assert(v.push(m).drop_first() =~= Seq::<AstView>::empty());
        assert(render_all(Seq::<AstView>::empty()) =~= Seq::<char>::empty());
        assert(render_all(v.push(m)) =~= render_all(v) + render(m));
    } else {
        assert(v.push(m)[0] == v[0]);
        assert(v.push(m).drop_first() =~= v.drop_first().push(m));
        lemma_render_all_push(v.drop_first(), m);
        assert(render_all(v.push(m)) =~= render_all(v) + render(m));
    }
}

/// Append the canonical text of the tree at `n`.
fn render_node(n: &LtxNode, out: &mut Vec<char>)
    ensures
        final(out)@ == old(out)@ + render(n.model()),
    decreases n,
{
    match n {
        LtxNode::Text(s) => {
            let sv = chars_of(s.as_str());
            push_all(out, &sv);
        },
        LtxNode::Comment(s) => {
            out.push('%');
            let sv = chars_of(s.as_str());
            push_all(out, &sv);
            assert(out@ =~= old(out)@ + (seq!['%'] + s@));
        },
        LtxNode::Label(s) => {
            let sv = chars_of(s.as_str());
            push_all(out, &sv);
        },
        LtxNode::Reference(s) => {
            let sv = chars_of(s.as_str());
            push_all(out, &sv);
        },
        LtxNode::Command(s) => {
            let sv = chars_of(s.as_str());
            push_all(out, &sv);
        },
        LtxNode::Group(v) => {
            out.push('{');
            render_nodes(v, out);
            out.push('}');
            assert(out@ =~= old(out)@ + (seq!['{'] + render_all(LtxNode::model_all(v@))
                + seq!['}']));
        },
        LtxNode::Math(v) => {
            out.push('$');
            render_nodes(v, out);
            out.push('$');
            assert(out@ =~= old(out)@ + (seq!['$'] + render_all(LtxNode::model_all(v@))
                + seq!['$']));
        },
        LtxNode::DisplayMath(v) => {
            out.push('$');
            out.push('$');
            render_nodes(v, out);
            out.push('$');
            out.push('$');
            assert(out@ =~= old(out)@ + (seq!['$', '$'] + render_all(LtxNode::model_all(v@))
                + seq!['$', '$']));
        },
    }
}

/// Append the canonical text of every tree of `v`, in order.
fn render_nodes(v: &Vec<LtxNode>, out: &mut Vec<char>)
    ensures
        final(out)@ == old(out)@ + render_all(LtxNode::model_all(v@)),
    decreases v,
{
    let n = v.len();
    let mut i: usize = 0;
    proof {
        crate::ast::lemma_model_all(v@);
        assert(LtxNode::model_all(v@.subrange(0, 0)) =~= Seq::<AstView>::empty());
        assert(render_all(Seq::<AstView>::empty()) =~= Seq::<char>::empty());
    }
    while i < n
        invariant
            n == v@.len(),
            i <= n,
            out@ == old(out)@ + render_all(LtxNode::model_all(v@.subrange(0, i as int))),
        decreases n - i,
    {
        proof {
            crate::ast::lemma_model_all(v@.subrange(0, i as int));
            crate::ast::lemma_model_all(v@.subrange(0, i + 1 as int));
            assert(LtxNode::model_all(v@.subrange(0, i + 1 as int)) =~= LtxNode::model_all(
                v@.subrange(0, i as int),
            ).push(v@[i as int].model()));
            lemma_render_all_push(
                LtxNode::model_all(v@.subrange(0, i as int)),
                v@[i as int].model(),
            );
        }
        render_node(&v[i], out);
        i = i + 1;
    }
    proof {
        assert(v@.subrange(0, n as int) =~= v@);
    }
}

/// Rendering a parsed atom reproduces exactly the characters it consumed.
proof fn lemma_atom_render(s: Seq<char>, pos: int)
    requires
        0 <= pos <= s.len(),
    ensures
        crate::parser::parse_atom_s(s, pos) matches Some((m, e)) ==> (0 <= pos <= e <= s.len()
            && render(m) == s.subrange(pos, e)),
{
    crate::parser::lemma_atom_progress(s, pos);
    match crate::parser::parse_atom_s(s, pos) {
        None => {},
        Some((m, e)) => {
            if crate::parser::parse_comment_s(s, pos) is Some {
                assert(render(m) =~= s.subrange(pos, e)) by {
                    crate::parser::lemma_line_end(s, pos + 1);
                }
            } else if crate::parser::parse_text_s(s, pos) is Some {
            } else {
                assert(render(m) == s.subrange(pos, e));
            }
        },
    }
}

/// Rendering a parsed group or math environment reproduces exactly the
/// characters it consumed. Rank 0 of the mutual induction.
pub proof fn lemma_group_render(s: Seq<char>, pos: int)
    requires
        0 <= pos <= s.len(),
    ensures
        crate::parser::parse_group_s(s, pos) matches Some((m, e)) ==> (pos < e <= s.len()
            && render(m) == s.subrange(pos, e)),
        crate::parser::parse_dmath_s(s, pos) matches Some((m, e)) ==> (pos < e <= s.len()
            && render(m) == s.subrange(pos, e)),
        crate::parser::parse_math_s(s, pos) matches Some((m, e)) ==> (pos < e <= s.len()
            && render(m) == s.subrange(pos, e)),
    decreases s.len() - pos, 0int,
{
    crate::parser::lemma_group_progress(s, pos);
    if 0 <= pos < s.len() && s[pos] == '{' {
        crate::parser::lemma_items_progress(s, pos + 1);
        lemma_items_render(s, pos + 1);
        match crate::parser::parse_items_s(s, pos + 1) {
            None => {},
            Some((v, e)) => {
                assert(seq!['{'] + render_all(v) + seq!['}'] =~= s.subrange(pos, e + 1));
            },
        }
    }
    if 0 <= pos && pos + 1 < s.len() && s[pos] == '$' && s[pos + 1] == '$' {
        crate::parser::lemma_math_items_progress(s, pos + 2);
        lemma_math_items_render(s, pos + 2);
        match crate::parser::parse_math_items_s(s, pos + 2) {
            None => {},
            Some((v, e)) => {
                if e + 1 < s.len() && s[e + 1] == '$' {
                    assert(seq!['$', '$'] + render_all(v) + seq!['$', '$'] =~= s.subrange(
                        pos,
                        e + 2,
                    ));
                }
            },
        }
    }
    if 0 <= pos < s.len() && s[pos] == '$' {
        crate::parser::lemma_math_items_progress(s, pos + 1);
        lemma_math_items_render(s, pos + 1);
        match crate::parser::parse_math_items_s(s, pos + 1) {
            None => {},
            Some((v, e)) => {
                assert(seq!['$'] + render_all(v) + seq!['$'] =~= s.subrange(pos, e + 1));
            },
        }
    }
}

/// Rendering one parsed construct reproduces its characters. Rank 1.
pub proof fn lemma_construct_render(s: Seq<char>, pos: int)
    requires
        0 <= pos <= s.len(),
    ensures
        crate::parser::parse_construct_s(s, pos) matches Some((m, e)) ==> (pos <= e <= s.len()
            && render(m) == s.subrange(pos, e)),
    decreases s.len() - pos, 1int,
{
    lemma_atom_render(s, pos);
    lemma_group_render(s, pos);
}

/// Rendering parsed group items reproduces their characters. Rank 2.
pub proof fn lemma_items_render(s: Seq<char>, pos: int)
    requires
        0 <= pos <= s.len(),
    ensures
        crate::parser::parse_items_s(s, pos) matches Some((v, e)) ==> (pos <= e <= s.len()
            && render_all(v) == s.subrange(pos, e)),
    decreases s.len() - pos, 2int,
{
    crate::parser::lemma_items_progress(s, pos);
    if 0 <= pos < s.len() && s[pos] == '}' {
        assert(render_all(Seq::<AstView>::empty()) =~= s.subrange(pos, pos));
    } else if 0 <= pos < s.len() {
        lemma_construct_render(s, pos);
        crate::parser::lemma_construct_progress(s, pos);
        match crate::parser::parse_construct_s(s, pos) {
            None => {},
            Some((n, q)) => {
                if pos < q <= s.len() {
                    lemma_items_render(s, q);
                    match crate::parser::parse_items_s(s, q) {
                        None => {},
                        Some((v, e)) => {
                            assert((seq![n] + v)[0] == n);
                            assert((seq![n] + v).drop_first() =~= v);
                            assert(render_all(seq![n] + v) =~= s.subrange(pos, e));
                        },
                    }
                }
            },
        }
    }
}

/// Rendering parsed math items reproduces their characters. Rank 2.
pub proof fn lemma_math_items_render(s: Seq<char>, pos: int)
    requires
        0 <= pos <= s.len(),
    ensures
        crate::parser::parse_math_items_s(s, pos) matches Some((v, e)) ==> (pos <= e <= s.len()
            && render_all(v) == s.subrange(pos, e)),
    decreases s.len() - pos, 2int,
{
    crate::parser::lemma_math_items_progress(s, pos);
    if 0 <= pos < s.len() && s[pos] == '$' {
        assert(render_all(Seq::<AstView>::empty()) =~= s.subrange(pos, pos));
    } else if 0 <= pos < s.len() {
        lemma_atom_render(s, pos);
        crate::parser::lemma_atom_progress(s, pos);
        lemma_group_render(s, pos);
        crate::parser::lemma_group_progress(s, pos);
        let step = if crate::parser::parse_atom_s(s, pos) is Some {
            crate::parser::parse_atom_s(s, pos)
        } else {
            crate::parser::parse_group_s(s, pos)
        };
        match step {
            None => {},
            Some((n, q)) => {
                if pos < q <= s.len() {
                    lemma_math_items_render(s, q);
                    match crate::parser::parse_math_items_s(s, q) {
                        None => {},
                        Some((v, e)) => {
                            assert((seq![n] + v)[0] == n);
                            assert((seq![n] + v).drop_first() =~= v);
                            assert(render_all(seq![n] + v) =~= s.subrange(pos, e));
                        },
                    }
                }
            },
        }
    }
}

/// Round trip of parse and print: rendering a whole-fragment parse gives
/// back the trimmed fragment, wrapped in the synthetic brace pair, so no
/// content is lost between parsing and printing.
pub proof fn lemma_new_spec_render(s: Seq<char>)
    ensures
        new_spec(s) matches Some(m) ==> render(m) == seq!['{'] + crate::strutil::trim_sp(s)
            + seq!['}'],
{
    let w = seq!['{'] + crate::strutil::trim_sp(s) + seq!['}'];
    lemma_group_render(w, 0);
    match crate::parser::parse_group_s(w, 0) {
        None => {},
        Some((m, e)) => {
            if e == w.len() {
                assert(w.subrange(0, e) =~= w);
            }
        },
    }
}

/// The marker line inserted between translation units.
pub open spec fn split_sep() -> Seq<char> {
    "\n%trsltx-split\n"@
}

/// The body printed with split markers: before each top-level construct
/// but the first, when the running unit length has reached the target, a
/// marker line is inserted and the count restarts.
pub open spec fn split_pieces(items: Seq<AstView>, i: int, acc: int, budget: int) -> Seq<char>
    decreases items.len() - i,
{
    if i < 0 || i >= items.len() {
        Seq::empty()
    } else {
        let r = render(items[i]);
        if i > 0 && acc >= budget {
            split_sep() + r + split_pieces(items, i + 1, r.len() as int, budget)
        } else {
            r + split_pieces(items, i + 1, acc + r.len(), budget)
        }
    }
}

/// The marked-up body of a document: the parsed body's top-level
/// constructs with markers inserted, or the body unchanged when it does
/// not parse.
pub open spec fn split_body_sp(body: Seq<char>, budget: int) -> Seq<char> {
    match new_spec(body) {
        Some(m) => match m {
            AstView::Group(v) => split_pieces(v, 0, 0, budget),
            _ => body,
        },
        None => body,
    }
}

impl Trsltx {
    /// The document rewritten with automatic split markers in its body:
    /// the preamble, `\begin{document}`, the marked-up body, then
    /// `\end{document}` and the afterword. A body that does not parse is
    /// kept unchanged.
    pub fn generate_split_latex(&self, split_length: usize) -> (r: String)
        ensures
            r@ == self.preamble@ + "\\begin{document}\n"@ + split_body_sp(
                self.body@,
                split_length as int,
            ) + "\n\\end{document}\n"@ + self.afterword@,
    {
        let mut out = chars_of(self.preamble.as_str());
        let bd = chars_of("\\begin{document}\n");
        push_all(&mut out, &bd);
        match LtxNode::new(self.body.as_str()) {
            Some(root) => {
                match &root {
                    LtxNode::Group(children) => {
                        let n = children.len();
                        let ghost items = LtxNode::model_all(children@);
                        proof {
                            crate::ast::lemma_model_all(children@);
                        }
                        let mut acc: usize = 0;
                        let mut i: usize = 0;
                        let ghost out0 = out@;
                        while i < n
                            invariant
                                n == children@.len(),
                                items == LtxNode::model_all(children@),
                                items.len() == n,
                                i <= n,
                                acc as int <= out@.len(),
                                out0 + split_pieces(items, 0, 0, split_length as int) == out@
                                    + split_pieces(items, i as int, acc as int, split_length as int),
                            decreases n - i,
                        {
                            let ghost pre = out@;
                            let mut piece: Vec<char> = Vec::new();
                            render_node(&children[i], &mut piece);
                            proof {
                                crate::ast::lemma_model_all(children@);
                                assert(items[i as int] == children@[i as int].model());
                            }
                            assert(piece@ == render(items[i as int]));
                            if i > 0 && acc >= split_length {
                                let sep = chars_of("\n%trsltx-split\n");
                                push_all(&mut out, &sep);
                                push_all(&mut out, &piece);
                                acc = piece.len();
                                let ol = out.len();
                                assert(acc as int <= out@.len());
                                assert(out@ =~= pre + (split_sep() + render(
                                    items[i as int],
                                )));
                            } else {
                                push_all(&mut out, &piece);
                                let ol = out.len();
                                assert(acc + piece@.len() <= ol);
                                acc = acc + piece.len();
                                assert(out@ =~= pre + render(items[i as int]));
                            }
                            i = i + 1;
                        }
                        assert(split_pieces(items, i as int, acc as int, split_length as int)
                            =~= Seq::<char>::empty());
                        assert(out@ =~= out0 + split_pieces(items, 0, 0, split_length as int));
                    },
                    _ => {
                        proof {
                            assert(false);
                        }
                    },
                }
            },
            None => {
                let bv = chars_of(self.body.as_str());
                push_all(&mut out, &bv);
            },
        }
        let ed = chars_of("\n\\end{document}\n");
        push_all(&mut out, &ed);
        let av = chars_of(self.afterword.as_str());
        push_all(&mut out, &av);
        string_from_chars(&out)
    }
}

} // verus!
