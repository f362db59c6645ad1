//! Recursive-descent parser for the safe LaTeX subset.
//!
//! At each position the atom alternatives are tried in a fixed priority
//! order: comment, text, reference, label, command. The recursive
//! productions (group, display math, math) are tried only after the atoms
//! fail. Braces and math delimiters must balance; an unterminated construct
//! fails the whole parse. The executable functions mirror the spec
//! functions exactly, so every parse result is pinned down by the model.
//!
//! The bracket forms `\(`, `\)`, `\[`, `\]` are members of the escape set,
//! so the atom priority makes them parse as one-character escape commands;
//! math environments are recognized through `$` and `$$` delimiters.

use vstd::prelude::*;

use crate::ast::AstView;
use crate::ast::LtxNode;
use crate::strutil::subvec;
use crate::strutil::string_from_chars;
use crate::strutil::trim_sp;
use crate::strutil::trim_vec;
use crate::strutil::chars_of;
use crate::strutil::push_all;

verus! {

broadcast use vstd::seq::group_seq_axioms, vstd::std_specs::vec::group_vec_axioms;

/// The five characters that end a text run: `\ { } $ %`.
pub open spec fn is_special(c: char) -> bool {
    c == '\\' || c == '{' || c == '}' || c == '$' || c == '%'
}

/// ASCII letter.
pub open spec fn is_alpha(c: char) -> bool {
    ('a' as u32) <= (c as u32) <= ('z' as u32) || ('A' as u32) <= (c as u32) <= ('Z' as u32)
}

/// The characters that may follow a backslash to form a one-character
/// escape command.
pub open spec fn is_escape(c: char) -> bool {
    c == '\\' || c == '{' || c == '}' || c == '(' || c == ')' || c == '[' || c == ']' || c == '$'
        || c == '&' || c == ',' || c == ';' || c == '%' || c == '@' || c == ':' || c == '-'
        || c == '\'' || c == '`' || c == '^' || c == '"' || c == '~'
}

/// End of the maximal run of non-special characters starting at `i`.
pub open spec fn text_end(s: Seq<char>, i: int) -> int
    decreases s.len() - i,
{
    if 0 <= i < s.len() && !is_special(s[i]) {
        text_end(s, i + 1)
    } else {
        i
    }
}

/// End of the maximal run of characters other than newline starting at `i`.
pub open spec fn line_end(s: Seq<char>, i: int) -> int
    decreases s.len() - i,
{
    if 0 <= i < s.len() && s[i] != '\n' {
        line_end(s, i + 1)
    } else {
        i
    }
}

/// End of the maximal run of ASCII letters starting at `i`.
pub open spec fn alpha_end(s: Seq<char>, i: int) -> int
    decreases s.len() - i,
{
    if 0 <= i < s.len() && is_alpha(s[i]) {
        alpha_end(s, i + 1)
    } else {
        i
    }
}

/// Bounds and character facts for `text_end`.
pub proof fn lemma_text_end(s: Seq<char>, i: int)
    requires
        0 <= i <= s.len(),
    ensures
        i <= text_end(s, i) <= s.len(),
        forall|k: int| i <= k < text_end(s, i) ==> !is_special(s[k]),
        text_end(s, i) < s.len() ==> is_special(s[text_end(s, i)]),
    decreases s.len() - i,
{
    if i < s.len() && !is_special(s[i]) {
        lemma_text_end(s, i + 1);
    }
}

/// Bounds and character facts for `line_end`.
pub proof fn lemma_line_end(s: Seq<char>, i: int)
    requires
        0 <= i <= s.len(),
    ensures
        i <= line_end(s, i) <= s.len(),
        forall|k: int| i <= k < line_end(s, i) ==> s[k] != '\n',
        line_end(s, i) < s.len() ==> s[line_end(s, i)] == '\n',
    decreases s.len() - i,
{
    if i < s.len() && s[i] != '\n' {
        lemma_line_end(s, i + 1);
    }
}

/// Bounds and character facts for `alpha_end`.
pub proof fn lemma_alpha_end(s: Seq<char>, i: int)
    requires
        0 <= i <= s.len(),
    ensures
        i <= alpha_end(s, i) <= s.len(),
        forall|k: int| i <= k < alpha_end(s, i) ==> is_alpha(s[k]),
        alpha_end(s, i) < s.len() ==> !is_alpha(s[alpha_end(s, i)]),
    decreases s.len() - i,
{
    if i < s.len() && is_alpha(s[i]) {
        lemma_alpha_end(s, i + 1);
    }
}

/// A text atom: a nonempty maximal run of non-special characters.
pub open spec fn parse_text_s(s: Seq<char>, pos: int) -> Option<(AstView, int)> {
    let e = text_end(s, pos);
    if 0 <= pos < s.len() && e > pos {
        Some((AstView::Text(s.subrange(pos, e)), e))
    } else {
        None
    }
}

/// A comment atom: `%` up to (not including) the next newline.
pub open spec fn parse_comment_s(s: Seq<char>, pos: int) -> Option<(AstView, int)> {
    if 0 <= pos < s.len() && s[pos] == '%' {
        let e = line_end(s, pos + 1);
        Some((AstView::Comment(s.subrange(pos + 1, e)), e))
    } else {
        None
    }
}

/// A reference atom: `\ref{inner}` with a nonempty inner run of
/// non-special characters. The node holds the whole canonical form.
pub open spec fn parse_ref_s(s: Seq<char>, pos: int) -> Option<(AstView, int)> {
    let p: Seq<char> = "\\ref{"@;
    if crate::strutil::match_at(s, p, pos) {
        let e = text_end(s, pos + 5);
        if e > pos + 5 && e < s.len() && s[e] == '}' {
            Some((AstView::Reference(s.subrange(pos, e + 1)), e + 1))
        } else {
            None
        }
    } else {
        None
    }
}

/// A label atom: `\label{inner}`, as for references.
pub open spec fn parse_label_s(s: Seq<char>, pos: int) -> Option<(AstView, int)> {
    let p: Seq<char> = "\\label{"@;
    if crate::strutil::match_at(s, p, pos) {
        let e = text_end(s, pos + 7);
        if e > pos + 7 && e < s.len() && s[e] == '}' {
            Some((AstView::Label(s.subrange(pos, e + 1)), e + 1))
        } else {
            None
        }
    } else {
        None
    }
}

/// A command atom: `\` followed by letters, or `\` followed by one escape
/// character.
pub open spec fn parse_command_s(s: Seq<char>, pos: int) -> Option<(AstView, int)> {
    if 0 <= pos < s.len() && s[pos] == '\\' {
        let e = alpha_end(s, pos + 1);
        if e > pos + 1 {
            Some((AstView::Command(s.subrange(pos, e)), e))
        } else if pos + 1 < s.len() && is_escape(s[pos + 1]) {
            Some((AstView::Command(s.subrange(pos, pos + 2)), pos + 2))
        } else {
            None
        }
    } else {
        None
    }
}

/// An atom, tried in priority order: comment, text, reference, label,
/// command.
pub open spec fn parse_atom_s(s: Seq<char>, pos: int) -> Option<(AstView, int)> {
    if parse_comment_s(s, pos) is Some {
        parse_comment_s(s, pos)
    } else if parse_text_s(s, pos) is Some {
        parse_text_s(s, pos)
    } else if parse_ref_s(s, pos) is Some {
        parse_ref_s(s, pos)
    } else if parse_label_s(s, pos) is Some {
        parse_label_s(s, pos)
    } else {
        parse_command_s(s, pos)
    }
}

/// Every successful atom parse moves forward and stays in bounds.
pub proof fn lemma_atom_progress(s: Seq<char>, pos: int)
    requires
        0 <= pos <= s.len(),
    ensures
        match parse_atom_s(s, pos) {
            Some((n, e)) => pos < e <= s.len(),
            None => true,
        },
{
    lemma_text_end(s, pos);
    if 0 <= pos < s.len() {
        lemma_line_end(s, pos + 1);
        lemma_alpha_end(s, pos + 1);
        if pos + 5 <= s.len() {
            lemma_text_end(s, pos + 5);
        }
        if pos + 7 <= s.len() {
            lemma_text_end(s, pos + 7);
        }
    }
}

/// The executable agrees with the spec parse result.
pub open spec fn agrees(r: Option<(LtxNode, usize)>, sp: Option<(AstView, int)>) -> bool {
    match r {
        Some(p) => sp is Some && p.0.model() == sp->Some_0.0 && p.1 as int == sp->Some_0.1,
        None => sp is None,
    }
}

/// Parse a text run: the matched characters and the position after them.
pub fn text(v: &Vec<char>, pos: usize) -> (r: Option<(String, usize)>)
    requires
        pos <= v@.len(),
    ensures
        match r {
            Some(p) => text_end(v@, pos as int) > pos && p.0@ == v@.subrange(
                pos as int,
                text_end(v@, pos as int),
            ) && p.1 as int == text_end(v@, pos as int),
            None => text_end(v@, pos as int) == pos,
        },
{
    let n = v.len();
    let mut e: usize = pos;
    while e < n && !(v[e] == '\\' || v[e] == '{' || v[e] == '}' || v[e] == '$' || v[e] == '%')
        invariant
            n == v@.len(),
            pos <= e <= n,
            text_end(v@, pos as int) == text_end(v@, e as int),
        decreases n - e,
    {
        e = e + 1;
    }
    assert(text_end(v@, e as int) == e);
    if e == pos {
        None
    } else {
        let content = subvec(v, pos, e);
        Some((string_from_chars(&content), e))
    }
}

/// Parse a text run into a `Text` node.
pub fn text_node(v: &Vec<char>, pos: usize) -> (r: Option<(LtxNode, usize)>)
    requires
        pos <= v@.len(),
    ensures
        agrees(r, parse_text_s(v@, pos as int)),
{
    match text(v, pos) {
        Some((s, e)) => Some((LtxNode::Text(s), e)),
        None => None,
    }
}

/// Position after the last character of the current line.
pub fn end_of_line(v: &Vec<char>, pos: usize) -> (e: usize)
    requires
        pos <= v@.len(),
    ensures
        e as int == line_end(v@, pos as int),
{
    let n = v.len();
    let mut e: usize = pos;
    while e < n && v[e] != '\n'
        invariant
            n == v@.len(),
            pos <= e <= n,
            line_end(v@, pos as int) == line_end(v@, e as int),
        decreases n - e,
    {
        e = e + 1;
    }
    e
}

/// Parse a comment: the text after `%` up to the next newline, and the
/// position of that newline (or the end of input).
pub fn comment(v: &Vec<char>, pos: usize) -> (r: Option<(String, usize)>)
    requires
        pos <= v@.len(),
    ensures
        match r {
            Some(p) => parse_comment_s(v@, pos as int) == Some(
                (AstView::Comment(p.0@), p.1 as int),
            ),
            None => parse_comment_s(v@, pos as int) is None,
        },
{
    if pos < v.len() && v[pos] == '%' {
        let e = end_of_line(v, pos + 1);
        proof {
            lemma_line_end(v@, pos + 1);
        }
        let content = subvec(v, pos + 1, e);
        Some((string_from_chars(&content), e))
    } else {
        None
    }
}

/// Parse a comment into a `Comment` node.
pub fn comment_node(v: &Vec<char>, pos: usize) -> (r: Option<(LtxNode, usize)>)
    requires
        pos <= v@.len(),
    ensures
        agrees(r, parse_comment_s(v@, pos as int)),
{
    match comment(v, pos) {
        Some((s, e)) => Some((LtxNode::Comment(s), e)),
        None => None,
    }
}

/// Parse an ASCII command after a backslash: the letters only.
pub fn ascii_cmd(v: &Vec<char>, pos: usize) -> (r: Option<(String, usize)>)
    requires
        pos <= v@.len(),
    ensures
        match r {
            Some(p) => pos < v@.len() && v@[pos as int] == '\\' && alpha_end(v@, pos + 1) > pos + 1
                && p.0@ == v@.subrange(pos + 1, alpha_end(v@, pos + 1)) && p.1 as int == alpha_end(
                v@,
                pos + 1,
            ),
            None => !(pos < v@.len() && v@[pos as int] == '\\' && alpha_end(v@, pos + 1) > pos
                + 1),
        },
{
    if pos >= v.len() || v[pos] != '\\' {
        return None;
    }
    let n = v.len();
    let mut e: usize = pos + 1;
    while e < n && ((('a' as u32) <= (v[e] as u32) && (v[e] as u32) <= ('z' as u32)) || (('A'
        as u32) <= (v[e] as u32) && (v[e] as u32) <= ('Z' as u32)))
        invariant
            n == v@.len(),
            pos + 1 <= e <= n,
            alpha_end(v@, pos + 1) == alpha_end(v@, e as int),
        decreases n - e,
    {
        e = e + 1;
    }
    assert(alpha_end(v@, e as int) == e);
    if e == pos + 1 {
        None
    } else {
        let content = subvec(v, pos + 1, e);
        Some((string_from_chars(&content), e))
    }
}

/// Whether `c` is an escape character.
pub fn escape_char(c: char) -> (r: bool)
    ensures
        r == is_escape(c),
{
    c == '\\' || c == '{' || c == '}' || c == '(' || c == ')' || c == '[' || c == ']' || c == '$'
        || c == '&' || c == ',' || c == ';' || c == '%' || c == '@' || c == ':' || c == '-'
        || c == '\'' || c == '`' || c == '^' || c == '"' || c == '~'
}

/// Parse a command: the letters of an ASCII command (without the
/// backslash), or a backslash escape in full.
pub fn command(v: &Vec<char>, pos: usize) -> (r: Option<(String, usize)>)
    requires
        pos <= v@.len(),
    ensures
        match r {
            Some(p) => (pos < v@.len() && v@[pos as int] == '\\') && ((alpha_end(v@, pos + 1)
                > pos + 1 && p.0@ == v@.subrange(pos + 1, alpha_end(v@, pos + 1)) && p.1 as int
                == alpha_end(v@, pos + 1)) || (alpha_end(v@, pos + 1) == pos + 1 && pos + 1
                < v@.len() && is_escape(v@[pos + 1]) && p.0@ == v@.subrange(pos as int, pos + 2)
                && p.1 == pos + 2)),
            None => parse_command_s(v@, pos as int) is None,
        },
{
    match ascii_cmd(v, pos) {
        Some(p) => Some(p),
        None => {
            if pos < v.len() && v[pos] == '\\' && pos + 1 < v.len() && escape_char(v[pos + 1]) {
                proof {
                    lemma_alpha_end(v@, pos + 1);
                }
                let content = subvec(v, pos, pos + 2);
                Some((string_from_chars(&content), pos + 2))
            } else {
                None
            }
        },
    }
}

/// Parse a command into a `Command` node holding the canonical form with
/// its leading backslash.
pub fn command_node(v: &Vec<char>, pos: usize) -> (r: Option<(LtxNode, usize)>)
    requires
        pos <= v@.len(),
    ensures
        agrees(r, parse_command_s(v@, pos as int)),
{
    if pos >= v.len() || v[pos] != '\\' {
        return None;
    }
    match ascii_cmd(v, pos) {
        Some((_, e)) => {
            proof {
                lemma_alpha_end(v@, pos + 1);
            }
            let content = subvec(v, pos, e);
            Some((LtxNode::Command(string_from_chars(&content)), e))
        },
        None => {
            if pos + 1 < v.len() && escape_char(v[pos + 1]) {
                let content = subvec(v, pos, pos + 2);
                Some((LtxNode::Command(string_from_chars(&content)), pos + 2))
            } else {
                None
            }
        },
    }
}

/// Parse a reference into a `Reference` node.
pub fn ltxref_node(v: &Vec<char>, pos: usize) -> (r: Option<(LtxNode, usize)>)
    requires
        pos <= v@.len(),
    ensures
        agrees(r, parse_ref_s(v@, pos as int)),
{
    let p = chars_of("\\ref{");
    proof {
        reveal_strlit("\\ref{");
    }
    if v.len() - pos < 5 {
        return None;
    }
    if !crate::strutil::is_match_at(v, &p, pos) {
        return None;
    }
    proof {
        lemma_text_end(v@, pos + 5);
    }
    match text(v, pos + 5) {
        Some((_, e)) => {
            if e < v.len() && v[e] == '}' {
                let content = subvec(v, pos, e + 1);
                Some((LtxNode::Reference(string_from_chars(&content)), e + 1))
            } else {
                None
            }
        },
        None => None,
    }
}

/// Parse a label into a `Label` node.
pub fn label_node(v: &Vec<char>, pos: usize) -> (r: Option<(LtxNode, usize)>)
    requires
        pos <= v@.len(),
    ensures
        agrees(r, parse_label_s(v@, pos as int)),
{
    let p = chars_of("\\label{");
    proof {
        reveal_strlit("\\label{");
    }
    if v.len() - pos < 7 {
        return None;
    }
    if !crate::strutil::is_match_at(v, &p, pos) {
        return None;
    }
    proof {
        lemma_text_end(v@, pos + 7);
    }
    match text(v, pos + 7) {
        Some((_, e)) => {
            if e < v.len() && v[e] == '}' {
                let content = subvec(v, pos, e + 1);
                Some((LtxNode::Label(string_from_chars(&content)), e + 1))
            } else {
                None
            }
        },
        None => None,
    }
}

/// Parse an atom node, in priority order: comment, text, reference, label,
/// command.
pub fn atom_node(v: &Vec<char>, pos: usize) -> (r: Option<(LtxNode, usize)>)
    requires
        pos <= v@.len(),
    ensures
        agrees(r, parse_atom_s(v@, pos as int)),
{
    match comment_node(v, pos) {
        Some(p) => Some(p),
        None => match text_node(v, pos) {
            Some(p) => Some(p),
            None => match ltxref_node(v, pos) {
                Some(p) => Some(p),
                None => match label_node(v, pos) {
                    Some(p) => Some(p),
                    None => command_node(v, pos),
                },
            },
        },
    }
}

/// A group: `{ items }`, where the items may be atoms, groups or math
/// environments. Rank 0 of the mutual recursion.
pub open spec fn parse_group_s(s: Seq<char>, pos: int) -> Option<(AstView, int)>
    decreases s.len() - pos, 0int,
{
    if 0 <= pos < s.len() && s[pos] == '{' {
        match parse_items_s(s, pos + 1) {
            None => None,
            Some((v, e)) => Some((AstView::Group(v), e + 1)),
        }
    } else {
        None
    }
}

/// Display math: `$$ items $$`; its items are atoms and groups only.
pub open spec fn parse_dmath_s(s: Seq<char>, pos: int) -> Option<(AstView, int)>
    decreases s.len() - pos, 0int,
{
    if 0 <= pos && pos + 1 < s.len() && s[pos] == '$' && s[pos + 1] == '$' {
        match parse_math_items_s(s, pos + 2) {
            None => None,
            Some((v, e)) => if e + 1 < s.len() && s[e + 1] == '$' {
                Some((AstView::DisplayMath(v), e + 2))
            } else {
                None
            },
        }
    } else {
        None
    }
}

/// Inline math: `$ items $`; its items are atoms and groups only.
pub open spec fn parse_math_s(s: Seq<char>, pos: int) -> Option<(AstView, int)>
    decreases s.len() - pos, 0int,
{
    if 0 <= pos < s.len() && s[pos] == '$' {
        match parse_math_items_s(s, pos + 1) {
            None => None,
            Some((v, e)) => Some((AstView::Math(v), e + 1)),
        }
    } else {
        None
    }
}

/// One construct inside a group: an atom, or a group, or display math, or
/// inline math, in that order. Rank 1.
pub open spec fn parse_construct_s(s: Seq<char>, pos: int) -> Option<(AstView, int)>
    decreases s.len() - pos, 1int,
{
    if parse_atom_s(s, pos) is Some {
        parse_atom_s(s, pos)
    } else if parse_group_s(s, pos) is Some {
        parse_group_s(s, pos)
    } else if parse_dmath_s(s, pos) is Some {
        parse_dmath_s(s, pos)
    } else {
        parse_math_s(s, pos)
    }
}

/// The items of a group, ending (successfully) just before a `}`. Rank 2.
pub open spec fn parse_items_s(s: Seq<char>, pos: int) -> Option<(Seq<AstView>, int)>
    decreases s.len() - pos, 2int,
{
    if pos < 0 || pos >= s.len() {
        None
    } else if s[pos] == '}' {
        Some((Seq::empty(), pos))
    } else {
        match parse_construct_s(s, pos) {
            None => None,
            Some((n, q)) => if pos < q <= s.len() {
                match parse_items_s(s, q) {
                    None => None,
                    Some((v, e)) => Some((seq![n] + v, e)),
                }
            } else {
                None
            },
        }
    }
}

/// The items of a math environment, ending just before a `$`: atoms and
/// groups only. Rank 2.
pub open spec fn parse_math_items_s(s: Seq<char>, pos: int) -> Option<(Seq<AstView>, int)>
    decreases s.len() - pos, 2int,
{
    if pos < 0 || pos >= s.len() {
        None
    } else if s[pos] == '$' {
        Some((Seq::empty(), pos))
    } else {
        let step = if parse_atom_s(s, pos) is Some {
            parse_atom_s(s, pos)
        } else {
            parse_group_s(s, pos)
        };
        match step {
            None => None,
            Some((n, q)) => if pos < q <= s.len() {
                match parse_math_items_s(s, q) {
                    None => None,
                    Some((v, e)) => Some((seq![n] + v, e)),
                }
            } else {
                None
            },
        }
    }
}

/// A successful group, math or construct parse moves forward and stays in
/// bounds; successful item parses stop on their terminator in bounds.
pub proof fn lemma_group_progress(s: Seq<char>, pos: int)
    requires
        0 <= pos <= s.len(),
    ensures
        parse_group_s(s, pos) matches Some((n, e)) ==> pos < e <= s.len(),
        parse_dmath_s(s, pos) matches Some((n, e)) ==> pos < e <= s.len(),
        parse_math_s(s, pos) matches Some((n, e)) ==> pos < e <= s.len(),
    decreases s.len() - pos, 0int,
{
    if 0 <= pos < s.len() && s[pos] == '{' {
        lemma_items_progress(s, pos + 1);
    }
    if 0 <= pos && pos + 1 < s.len() && s[pos] == '$' && s[pos + 1] == '$' {
        lemma_math_items_progress(s, pos + 2);
    }
    if 0 <= pos < s.len() && s[pos] == '$' {
        lemma_math_items_progress(s, pos + 1);
    }
}

/// Progress for constructs. Rank 1.
pub proof fn lemma_construct_progress(s: Seq<char>, pos: int)
    requires
        0 <= pos <= s.len(),
    ensures
        parse_construct_s(s, pos) matches Some((n, e)) ==> pos < e <= s.len(),
    decreases s.len() - pos, 1int,
{
    lemma_atom_progress(s, pos);
    lemma_group_progress(s, pos);
}

/// Progress for group items: a successful parse ends on a `}` in bounds,
/// at or after the start. Rank 2.
pub proof fn lemma_items_progress(s: Seq<char>, pos: int)
    requires
        0 <= pos <= s.len(),
    ensures
        parse_items_s(s, pos) matches Some((v, e)) ==> pos <= e < s.len() && s[e] == '}',
    decreases s.len() - pos, 2int,
{
    if 0 <= pos < s.len() && s[pos] != '}' {
        lemma_construct_progress(s, pos);
        match parse_construct_s(s, pos) {
            None => {},
            Some((n, q)) => {
                if pos < q <= s.len() {
                    lemma_items_progress(s, q);
                }
            },
        }
    }
}

/// Progress for math items: a successful parse ends on a `$` in bounds.
/// Rank 2.
pub proof fn lemma_math_items_progress(s: Seq<char>, pos: int)
    requires
        0 <= pos <= s.len(),
    ensures
        parse_math_items_s(s, pos) matches Some((v, e)) ==> pos <= e < s.len() && s[e] == '$',
    decreases s.len() - pos, 2int,
{
    if 0 <= pos < s.len() && s[pos] != '$' {
        lemma_atom_progress(s, pos);
        lemma_group_progress(s, pos);
        let step = if parse_atom_s(s, pos) is Some {
            parse_atom_s(s, pos)
        } else {
            parse_group_s(s, pos)
        };
        match step {
            None => {},
            Some((n, q)) => {
                if pos < q <= s.len() {
                    lemma_math_items_progress(s, q);
                }
            },
        }
    }
}

/// The executable items agree with the spec items.
pub open spec fn agrees_items(
    r: Option<(Vec<LtxNode>, usize)>,
    sp: Option<(Seq<AstView>, int)>,
) -> bool {
    match r {
        Some(p) => sp is Some && LtxNode::model_all(p.0@) == sp->Some_0.0 && p.1 as int
            == sp->Some_0.1,
        None => sp is None,
    }
}

/// `model_all` turns a push into a push of the model.
proof fn lemma_model_all_push(v: Seq<LtxNode>, n: LtxNode)
    ensures
        LtxNode::model_all(v.push(n)) == LtxNode::model_all(v) + seq![n.model()],
{
    crate::ast::lemma_model_all(v.push(n));
    crate::ast::lemma_model_all(v);
    assert(LtxNode::model_all(v.push(n)) =~= LtxNode::model_all(v) + seq![n.model()]);
}

/// Parse a group node: `{ ... }`.
pub fn group_node(v: &Vec<char>, pos: usize) -> (r: Option<(LtxNode, usize)>)
    requires
        pos <= v@.len(),
    ensures
        agrees(r, parse_group_s(v@, pos as int)),
    decreases v@.len() - pos, 0int,
{
    if pos < v.len() && v[pos] == '{' {
        match parse_items(v, pos + 1) {
            None => None,
            Some((items, e)) => {
                proof {
                    lemma_items_progress(v@, pos + 1);
                }
                Some((LtxNode::Group(items), e + 1))
            },
        }
    } else {
        None
    }
}

/// Parse a display math node: `$$ ... $$`.
pub fn display_math_node(v: &Vec<char>, pos: usize) -> (r: Option<(LtxNode, usize)>)
    requires
        pos <= v@.len(),
    ensures
        agrees(r, parse_dmath_s(v@, pos as int)),
    decreases v@.len() - pos, 0int,
{
    if pos < v.len() && pos + 1 < v.len() && v[pos] == '$' && v[pos + 1] == '$' {
        match parse_math_items(v, pos + 2) {
            None => None,
            Some((items, e)) => {
                proof {
                    lemma_math_items_progress(v@, pos + 2);
                }
                if e + 1 < v.len() && v[e + 1] == '$' {
                    Some((LtxNode::DisplayMath(items), e + 2))
                } else {
                    None
                }
            },
        }
    } else {
        None
    }
}

/// Parse an inline math node: `$ ... $`.
pub fn math_node(v: &Vec<char>, pos: usize) -> (r: Option<(LtxNode, usize)>)
    requires
        pos <= v@.len(),
    ensures
        agrees(r, parse_math_s(v@, pos as int)),
    decreases v@.len() - pos, 0int,
{
    if pos < v.len() && v[pos] == '$' {
        match parse_math_items(v, pos + 1) {
            None => None,
            Some((items, e)) => {
                proof {
                    lemma_math_items_progress(v@, pos + 1);
                }
                Some((LtxNode::Math(items), e + 1))
            },
        }
    } else {
        None
    }
}

/// Parse one construct: an atom, a group, display math or inline math.
pub fn construct_node(v: &Vec<char>, pos: usize) -> (r: Option<(LtxNode, usize)>)
    requires
        pos <= v@.len(),
    ensures
        agrees(r, parse_construct_s(v@, pos as int)),
    decreases v@.len() - pos, 1int,
{
    match atom_node(v, pos) {
        Some(p) => Some(p),
        None => match group_node(v, pos) {
            Some(p) => Some(p),
            None => match display_math_node(v, pos) {
                Some(p) => Some(p),
                None => math_node(v, pos),
            },
        },
    }
}

/// Parse the items of a group, up to (not including) the closing `}`.
pub fn parse_items(v: &Vec<char>, pos: usize) -> (r: Option<(Vec<LtxNode>, usize)>)
    requires
        pos <= v@.len(),
    ensures
        agrees_items(r, parse_items_s(v@, pos as int)),
    decreases v@.len() - pos, 2int,
{
    let mut items: Vec<LtxNode> = Vec::new();
    let mut cur: usize = pos;
    proof {
        crate::ast::lemma_model_all(items@);
    }
    loop
        invariant
            pos <= cur <= v@.len(),
            match parse_items_s(v@, cur as int) {
                None => parse_items_s(v@, pos as int) is None,
                Some((rest, e)) => parse_items_s(v@, pos as int) matches Some((all, e2)) && all
                    == LtxNode::model_all(items@) + rest && e2 == e,
            },
        decreases v@.len() - cur,
    {
        if cur == v.len() {
            return None;
        }
        if v[cur] == '}' {
            assert(parse_items_s(v@, cur as int) == Some((Seq::<AstView>::empty(), cur as int)));
            assert(LtxNode::model_all(items@) + Seq::<AstView>::empty() =~= LtxNode::model_all(
                items@,
            ));
            return Some((items, cur));
        }
        match construct_node(v, cur) {
            None => {
                return None;
            },
            Some((n, q)) => {
                proof {
                    lemma_construct_progress(v@, cur as int);
                    lemma_model_all_push(items@, n);
                }
                let ghost old_items = items@;
                let ghost oldcur = cur as int;
                items.push(n);
                cur = q;
                proof {
                    match parse_items_s(v@, cur as int) {
                        None => {},
                        Some((rest, e)) => {
                            assert(parse_items_s(v@, oldcur) matches Some((r0, e0)) && r0 == seq![
                                n.model(),
                            ] + rest && e0 == e);
                            assert(LtxNode::model_all(old_items) + (seq![n.model()] + rest)
                                =~= LtxNode::model_all(items@) + rest);
                        },
                    }
                }
            },
        }
    }
}

/// Parse the items of a math environment, up to (not including) the
/// closing `$`: atoms and groups only.
pub fn parse_math_items(v: &Vec<char>, pos: usize) -> (r: Option<(Vec<LtxNode>, usize)>)
    requires
        pos <= v@.len(),
    ensures
        agrees_items(r, parse_math_items_s(v@, pos as int)),
    decreases v@.len() - pos, 2int,
{
    let mut items: Vec<LtxNode> = Vec::new();
    let mut cur: usize = pos;
    proof {
        crate::ast::lemma_model_all(items@);
    }
    loop
        invariant
            pos <= cur <= v@.len(),
            match parse_math_items_s(v@, cur as int) {
                None => parse_math_items_s(v@, pos as int) is None,
                Some((rest, e)) => parse_math_items_s(v@, pos as int) matches Some((all, e2))
                    && all == LtxNode::model_all(items@) + rest && e2 == e,
            },
        decreases v@.len() - cur,
    {
        if cur == v.len() {
            return None;
        }
        if v[cur] == '$' {
            assert(parse_math_items_s(v@, cur as int) == Some(
                (Seq::<AstView>::empty(), cur as int),
            ));
            assert(LtxNode::model_all(items@) + Seq::<AstView>::empty() =~= LtxNode::model_all(
                items@,
            ));
            return Some((items, cur));
        }
        let step = match atom_node(v, cur) {
            Some(p) => Some(p),
            None => group_node(v, cur),
        };
        match step {
            None => {
                return None;
            },
            Some((n, q)) => {
                proof {
                    lemma_atom_progress(v@, cur as int);
                    lemma_group_progress(v@, cur as int);
                    lemma_model_all_push(items@, n);
                }
                let ghost old_items = items@;
                let ghost oldcur = cur as int;
                items.push(n);
                cur = q;
                proof {
                    match parse_math_items_s(v@, cur as int) {
                        None => {},
                        Some((rest, e)) => {
                            assert(parse_math_items_s(v@, oldcur) matches Some((r0, e0)) && r0
                                == seq![n.model()] + rest && e0 == e);
                            assert(LtxNode::model_all(old_items) + (seq![n.model()] + rest)
                                =~= LtxNode::model_all(items@) + rest);
                        },
                    }
                }
            },
        }
    }
}

/// What a whole fragment parses to: the trimmed text is wrapped in a
/// synthetic brace pair and must be consumed in full, producing a single
/// top-level group.
pub open spec fn new_spec(s: Seq<char>) -> Option<AstView> {
    let w = seq!['{'] + trim_sp(s) + seq!['}'];
    match parse_group_s(w, 0) {
        Some((n, e)) => if e == w.len() {
            Some(n)
        } else {
            None
        },
        None => None,
    }
}

impl LtxNode {
    /// Parse a whole fragment: trim it, wrap it in a synthetic brace pair
    /// and parse the group. `None` is the parse-failure signal; the parser
    /// never panics.
    pub fn new(s: &str) -> (r: Option<LtxNode>)
        ensures
            match r {
                Some(n) => new_spec(s@) == Some(n.model()),
                None => new_spec(s@) is None,
            },
    {
        let cs = chars_of(s);
        let trimmed = trim_vec(&cs);
        let mut w: Vec<char> = Vec::new();
        w.push('{');
        push_all(&mut w, &trimmed);
        w.push('}');
        proof {
            assert(w@ =~= seq!['{'] + trim_sp(s@) + seq!['}']);
        }
        match group_node(&w, 0) {
            Some((n, e)) => {
                if e == w.len() {
                    Some(n)
                } else {
                    None
                }
            },
            None => None,
        }
    }
}

/// A parse never builds more nodes than it consumes characters.
pub proof fn lemma_group_count(s: Seq<char>, pos: int)
    requires
        0 <= pos <= s.len(),
    ensures
        parse_group_s(s, pos) matches Some((m, e)) ==> m.count() <= e - pos,
        parse_dmath_s(s, pos) matches Some((m, e)) ==> m.count() <= e - pos,
        parse_math_s(s, pos) matches Some((m, e)) ==> m.count() <= e - pos,
    decreases s.len() - pos, 0int,
{
    if 0 <= pos < s.len() && s[pos] == '{' {
        lemma_items_progress(s, pos + 1);
        lemma_items_count(s, pos + 1);
    }
    if 0 <= pos && pos + 1 < s.len() && s[pos] == '$' && s[pos + 1] == '$' {
        lemma_math_items_progress(s, pos + 2);
        lemma_math_items_count(s, pos + 2);
    }
    if 0 <= pos < s.len() && s[pos] == '$' {
        lemma_math_items_progress(s, pos + 1);
        lemma_math_items_count(s, pos + 1);
    }
}

/// Count bound for constructs. Rank 1.
pub proof fn lemma_construct_count(s: Seq<char>, pos: int)
    requires
        0 <= pos <= s.len(),
    ensures
        parse_construct_s(s, pos) matches Some((m, e)) ==> m.count() <= e - pos,
    decreases s.len() - pos, 1int,
{
    lemma_atom_progress(s, pos);
    lemma_group_count(s, pos);
}

/// Count bound for group items. Rank 2.
pub proof fn lemma_items_count(s: Seq<char>, pos: int)
    requires
        0 <= pos <= s.len(),
    ensures
        parse_items_s(s, pos) matches Some((v, e)) ==> AstView::count_all(v) <= e - pos,
    decreases s.len() - pos, 2int,
{
    if 0 <= pos < s.len() && s[pos] != '}' {
        lemma_construct_count(s, pos);
        lemma_construct_progress(s, pos);
        match parse_construct_s(s, pos) {
            None => {},
            Some((n, q)) => {
                if pos < q <= s.len() {
                    lemma_items_count(s, q);
                    match parse_items_s(s, q) {
                        None => {},
                        Some((v, e)) => {
                            assert((seq![n] + v).drop_first() =~= v);
                            assert((seq![n] + v)[0] == n);
                        },
                    }
                }
            },
        }
    }
}

/// Count bound for math items. Rank 2.
pub proof fn lemma_math_items_count(s: Seq<char>, pos: int)
    requires
        0 <= pos <= s.len(),
    ensures
        parse_math_items_s(s, pos) matches Some((v, e)) ==> AstView::count_all(v) <= e - pos,
    decreases s.len() - pos, 2int,
{
    if 0 <= pos < s.len() && s[pos] != '$' {
        lemma_atom_progress(s, pos);
        lemma_group_count(s, pos);
        lemma_group_progress(s, pos);
        assert(parse_atom_s(s, pos) matches Some((n2, q2)) ==> n2.count() == 1);
        let step = if parse_atom_s(s, pos) is Some {
            parse_atom_s(s, pos)
        } else {
            parse_group_s(s, pos)
        };
        match step {
            None => {},
            Some((n, q)) => {
                if pos < q <= s.len() {
                    lemma_math_items_count(s, q);
                    match parse_math_items_s(s, q) {
                        None => {},
                        Some((v, e)) => {
                            assert((seq![n] + v).drop_first() =~= v);
                            assert((seq![n] + v)[0] == n);
                        },
                    }
                }
            },
        }
    }
}

/// A whole-fragment parse is bounded in size by the fragment: at most two
/// nodes more than the character count.
pub proof fn lemma_new_spec_count(s: Seq<char>)
    ensures
        new_spec(s) matches Some(m) ==> m.count() <= s.len() + 2,
{
    let w = seq!['{'] + trim_sp(s) + seq!['}'];
    crate::strutil::lemma_trim_sp(s);
    lemma_group_count(w, 0);
}

/// Atoms are leaves, and leaves are well formed.
proof fn lemma_atom_shape(s: Seq<char>, pos: int)
    ensures
        parse_atom_s(s, pos) matches Some((m, e)) ==> m.is_atom() && m.wf(),
{
}

/// Every tree the parser builds satisfies the structural invariant: the
/// children of a math environment are atoms and groups only, never math
/// environments. Rank 0 of the mutual induction.
pub proof fn lemma_group_wf(s: Seq<char>, pos: int)
    requires
        0 <= pos <= s.len(),
    ensures
        parse_group_s(s, pos) matches Some((m, e)) ==> m.wf() && m is Group,
        parse_dmath_s(s, pos) matches Some((m, e)) ==> m.wf(),
        parse_math_s(s, pos) matches Some((m, e)) ==> m.wf(),
    decreases s.len() - pos, 0int,
{
    if 0 <= pos < s.len() && s[pos] == '{' {
        lemma_items_progress(s, pos + 1);
        lemma_items_wf(s, pos + 1);
    }
    if 0 <= pos && pos + 1 < s.len() && s[pos] == '$' && s[pos + 1] == '$' {
        lemma_math_items_progress(s, pos + 2);
        lemma_math_items_wf(s, pos + 2);
    }
    if 0 <= pos < s.len() && s[pos] == '$' {
        lemma_math_items_progress(s, pos + 1);
        lemma_math_items_wf(s, pos + 1);
    }
}

/// Well-formedness of constructs. Rank 1.
pub proof fn lemma_construct_wf(s: Seq<char>, pos: int)
    requires
        0 <= pos <= s.len(),
    ensures
        parse_construct_s(s, pos) matches Some((m, e)) ==> m.wf(),
    decreases s.len() - pos, 1int,
{
    lemma_atom_shape(s, pos);
    lemma_group_wf(s, pos);
}

/// Well-formedness of group items. Rank 2.
pub proof fn lemma_items_wf(s: Seq<char>, pos: int)
    requires
        0 <= pos <= s.len(),
    ensures
        parse_items_s(s, pos) matches Some((v, e)) ==> forall|i: int|
            0 <= i < v.len() ==> (#[trigger] v[i]).wf(),
    decreases s.len() - pos, 2int,
{
    if 0 <= pos < s.len() && s[pos] != '}' {
        lemma_construct_wf(s, pos);
        lemma_construct_progress(s, pos);
        match parse_construct_s(s, pos) {
            None => {},
            Some((n, q)) => {
                if pos < q <= s.len() {
                    lemma_items_wf(s, q);
                    match parse_items_s(s, q) {
                        None => {},
                        Some((v, e)) => {
                            assert((seq![n] + v)[0] == n);
                            assert(forall|i: int|
                                0 <= i < v.len() ==> (seq![n] + v)[i + 1] == #[trigger] v[i]);
                        },
                    }
                }
            },
        }
    }
}

/// Well-formedness of math items: atoms or groups, each well formed.
/// Rank 2.
pub proof fn lemma_math_items_wf(s: Seq<char>, pos: int)
    requires
        0 <= pos <= s.len(),
    ensures
        parse_math_items_s(s, pos) matches Some((v, e)) ==> forall|i: int|
            0 <= i < v.len() ==> ((#[trigger] v[i]).wf() && (v[i].is_atom() || v[i] is Group)),
    decreases s.len() - pos, 2int,
{
    if 0 <= pos < s.len() && s[pos] != '$' {
        lemma_atom_shape(s, pos);
        lemma_atom_progress(s, pos);
        lemma_group_wf(s, pos);
        lemma_group_progress(s, pos);
        let step = if parse_atom_s(s, pos) is Some {
            parse_atom_s(s, pos)
        } else {
            parse_group_s(s, pos)
        };
        match step {
            None => {},
            Some((n, q)) => {
                if pos < q <= s.len() {
                    lemma_math_items_wf(s, q);
                    match parse_math_items_s(s, q) {
                        None => {},
                        Some((v, e)) => {
                            assert((seq![n] + v)[0] == n);
                            assert(forall|i: int|
                                0 <= i < v.len() ==> (seq![n] + v)[i + 1] == #[trigger] v[i]);
                        },
                    }
                }
            },
        }
    }
}

/// The structural invariant of the data model: every tree a whole-fragment
/// parse yields is a group, and nowhere in it does a math environment
/// directly contain another math environment.
pub proof fn lemma_new_spec_wf(s: Seq<char>)
    ensures
        new_spec(s) matches Some(m) ==> m.wf() && m is Group,
{
    let w = seq!['{'] + trim_sp(s) + seq!['}'];
    lemma_group_wf(w, 0);
}

/// `text_end` is pinned by its characterization: a run of non-special
/// characters bounded by a special character or the end of input.
proof fn lemma_text_end_value(s: Seq<char>, i: int, e: int)
    requires
        0 <= i <= e <= s.len(),
        forall|k: int| i <= k < e ==> !is_special(s[k]),
        e < s.len() ==> is_special(s[e]),
    ensures
        text_end(s, i) == e,
    decreases e - i,
{
    if i < e {
        lemma_text_end_value(s, i + 1, e);
    }
}

/// Plain text parses to a single text node: a nonempty fragment that
/// carries none of the five special characters, and no whitespace at its
/// ends (the parse trims its input first), parses to a group holding
/// exactly one `Text` node with the fragment as its content.
pub proof fn lemma_plain_text_parse(s: Seq<char>)
    requires
        s.len() > 0,
        forall|k: int| 0 <= k < s.len() ==> !is_special(#[trigger] s[k]),
        trim_sp(s) == s,
    ensures
        new_spec(s) == Some(AstView::Group(seq![AstView::Text(s)])),
{
    let n = s.len() as int;
    let w = seq!['{'] + s + seq!['}'];
    assert(w.len() == n + 2);
    assert(w[0] == '{');
    assert(w[n + 1] == '}');
    assert(forall|k: int| 1 <= k < n + 1 ==> w[k] == s[k - 1]);
    lemma_text_end_value(w, 1, n + 1);
    assert(parse_text_s(w, 1) == Some((AstView::Text(w.subrange(1, n + 1)), n + 1)));
    assert(w.subrange(1, n + 1) =~= s);
    assert(parse_comment_s(w, 1) is None);
    assert(parse_atom_s(w, 1) == Some((AstView::Text(s), n + 1)));
    assert(parse_construct_s(w, 1) == Some((AstView::Text(s), n + 1)));
    assert(parse_items_s(w, n + 1) == Some((Seq::<AstView>::empty(), n + 1)));
    assert(parse_items_s(w, 1) == Some((seq![AstView::Text(s)] + Seq::<AstView>::empty(), n + 1)));
    assert(seq![AstView::Text(s)] + Seq::<AstView>::empty() =~= seq![AstView::Text(s)]);
    assert(parse_group_s(w, 0) == Some((AstView::Group(seq![AstView::Text(s)]), n + 2)));
}

} // verus!
