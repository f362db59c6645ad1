//! The document-level state: source and target language, file names, the
//! three document parts (preamble, body, afterword), the body's chunks and
//! the translated body, with the pure computations around them. Reading
//! and writing the files, and calling the oracle, are the embedding
//! program's work.

use vstd::prelude::*;

use crate::segment::ChunkFault;
use crate::segment::ChunkType;
use crate::segment::chunks_match;
use crate::segment::segment_sp;
use crate::strutil::chars_of;
use crate::strutil::find_from;
use crate::strutil::find_in;
use crate::strutil::lemma_find_from;
use crate::strutil::push_all;
use crate::strutil::replace_in;
use crate::strutil::replace_sp;
use crate::strutil::strip_char;
use crate::strutil::strip_char_vec;
use crate::strutil::string_from_chars;
use crate::strutil::subvec;

verus! {

broadcast use vstd::seq::group_seq_axioms, vstd::std_specs::vec::group_vec_axioms;

/// The state of one document translation.
pub struct Trsltx {
    pub input_lang: String,
    pub output_lang: String,
    pub input_file_name: String,
    pub output_file_name: String,
    pub model_name: String,
    pub preamble: String,
    pub body: String,
    pub afterword: String,
    pub body_translated: String,
    pub chunks: Vec<(String, ChunkType)>,
}

/// Where the document body starts and ends in the cleaned source text:
/// the first `\begin{document}`, and the first `\end{document}` after it.
pub open spec fn body_bounds_sp(s: Seq<char>) -> Option<(int, int)> {
    match find_from(s, "\\begin{document}"@, 0) {
        None => None,
        Some(i) => {
            let bstart = i + "\\begin{document}"@.len();
            if 0 <= bstart <= s.len() {
                match find_from(s, "\\end{document}"@, bstart) {
                    None => None,
                    Some(j) => Some((bstart, j)),
                }
            } else {
                None
            }
        },
    }
}

/// The declarations written ahead of the translated body, so that the
/// delimiter environment and the placeholder command are valid no-ops in
/// the output document.
pub open spec fn env_header_sp() -> Seq<char> {
    "\\newenvironment{trsltx}{}{}\n\n\\newcommand{\\commandevide}{}\n\\begin{document}"@
}

/// The chunk contents and kinds.
pub open spec fn chunk_views(v: Seq<(String, ChunkType)>) -> Seq<(Seq<char>, ChunkType)> {
    Seq::new(v.len(), |i: int| (v[i].0@, v[i].1))
}

/// The per-chunk translation results: the text to use for a translated
/// chunk, or nothing where the chunk's own text must be kept.
pub open spec fn opt_views(v: Seq<Option<String>>) -> Seq<Option<Seq<char>>> {
    Seq::new(v.len(), |i: int| match v[i] {
        Some(s) => Some(s@),
        None => None,
    })
}

/// The reassembled body, before the final marker cleanup: chunks in
/// order; an unchanged chunk verbatim; a translated chunk replaced by its
/// result (or kept when there is none), preceded by a split-marker line
/// for every chunk but the first.
pub open spec fn pieces_sp(
    cs: Seq<(Seq<char>, ChunkType)>,
    rs: Seq<Option<Seq<char>>>,
    i: int,
) -> Seq<char>
    decreases cs.len() - i,
{
    if i < 0 || i >= cs.len() {
        Seq::empty()
    } else {
        let piece: Seq<char> = if cs[i].1 is Unchanged {
            cs[i].0
        } else {
            (if i > 0 {
                "\n%trsltx-split\n"@
            } else {
                Seq::empty()
            }) + (match rs[i] {
                Some(t) => t,
                None => cs[i].0,
            })
        };
        piece + pieces_sp(cs, rs, i + 1)
    }
}

/// The reassembled body: the pieces, with the split marker that directly
/// follows an end-ignore line collapsed away (leaving an ignore region
/// already creates a boundary).
pub open spec fn assemble_sp(
    cs: Seq<(Seq<char>, ChunkType)>,
    rs: Seq<Option<Seq<char>>>,
) -> Seq<char> {
    replace_sp(
        pieces_sp(cs, rs, 0),
        "%trsltx-end-ignore\n%trsltx-split\n"@,
        "%trsltx-end-ignore\n"@,
    )
}

/// The two states agree on everything but the three document parts, the
/// chunks and the translated body.
pub open spec fn same_config(a: Trsltx, b: Trsltx) -> bool {
    a.input_lang == b.input_lang && a.output_lang == b.output_lang && a.input_file_name
        == b.input_file_name && a.output_file_name == b.output_file_name && a.model_name
        == b.model_name
}

impl Trsltx {
    /// A fresh translation state for the named languages, files and model.
    pub fn new(
        input_lang: &str,
        output_lang: &str,
        input_file_name: &str,
        output_file_name: &str,
        model_name: &str,
    ) -> (r: Trsltx)
        ensures
            r.input_lang@ == input_lang@,
            r.output_lang@ == output_lang@,
            r.input_file_name@ == input_file_name@,
            r.output_file_name@ == output_file_name@,
            r.model_name@ == model_name@,
            r.preamble@ == Seq::<char>::empty(),
            r.body@ == Seq::<char>::empty(),
            r.afterword@ == Seq::<char>::empty(),
            r.body_translated@ == Seq::<char>::empty(),
            r.chunks@ == Seq::<(String, ChunkType)>::empty(),
    {
        Trsltx {
            input_lang: String::from_str(input_lang),
            output_lang: String::from_str(output_lang),
            input_file_name: String::from_str(input_file_name),
            output_file_name: String::from_str(output_file_name),
            model_name: String::from_str(model_name),
            preamble: String::new(),
            body: String::new(),
            afterword: String::new(),
            body_translated: String::new(),
            chunks: Vec::new(),
        }
    }

    /// Split the source text into preamble, body and afterword. Carriage
    /// returns are removed first; the preamble is everything before the
    /// first `\begin{document}`, the body everything up to the first
    /// `\end{document}` after it, the afterword all the rest. A document
    /// without both delimiters is refused, and the state is then left
    /// unchanged.
    pub fn load_source(&mut self, text: &str) -> (r: Result<(), String>)
        ensures
            ({
                let cleaned = strip_char(text@, '\r');
                let nself = *final(self);
                let oself = *old(self);
                match r {
                    Ok(()) => body_bounds_sp(cleaned) matches Some((bstart, j)) && ({
                        &&& nself.preamble@ == cleaned.subrange(
                            0,
                            bstart - "\\begin{document}"@.len(),
                        )
                        &&& nself.body@ == cleaned.subrange(bstart, j)
                        &&& nself.afterword@ == cleaned.subrange(
                            j + "\\end{document}"@.len(),
                            cleaned.len() as int,
                        )
                        &&& same_config(nself, oself)
                        &&& nself.body_translated == oself.body_translated
                        &&& nself.chunks == oself.chunks
                    }),
                    Err(e) => body_bounds_sp(cleaned) is None && nself == oself && (e@
                        == "No \\begin{document} in the tex file."@ || e@
                        == "No \\end{document} in the tex file."@),
                }
            }),
    {
        let raw = chars_of(text);
        let cleaned = strip_char_vec(&raw, '\r');
        let begin_d = chars_of("\\begin{document}");
        let end_d = chars_of("\\end{document}");
        let n = cleaned.len();
        let fb = find_in(&cleaned, &begin_d, 0);
        proof {
            lemma_find_from(cleaned@, "\\begin{document}"@, 0);
        }
        match fb {
            None => Err(String::from_str("No \\begin{document} in the tex file.")),
            Some(i) => {
                let bstart = i + begin_d.len();
                let fe = find_in(&cleaned, &end_d, bstart);
                proof {
                    lemma_find_from(cleaned@, "\\end{document}"@, bstart as int);
                }
                match fe {
                    None => Err(String::from_str("No \\end{document} in the tex file.")),
                    Some(j) => {
                        let pre = subvec(&cleaned, 0, i);
                        let body = subvec(&cleaned, bstart, j);
                        let after = subvec(&cleaned, j + end_d.len(), n);
                        self.preamble = string_from_chars(&pre);
                        self.body = string_from_chars(&body);
                        self.afterword = string_from_chars(&after);
                        Ok(())
                    },
                }
            },
        }
    }

    /// Divide the body into chunks along the split and ignore markers.
    /// On imbalance the fault is reported and the state is unchanged.
    pub fn extract_chunks(&mut self) -> (r: Result<(), String>)
        ensures
            ({
                let nself = *final(self);
                let oself = *old(self);
                match segment_sp(oself.body@) {
                    Ok(m) => r is Ok && ({
                        &&& chunks_match(nself.chunks@, m)
                        &&& nself.body == oself.body
                        &&& nself.preamble == oself.preamble
                        &&& nself.afterword == oself.afterword
                        &&& nself.body_translated == oself.body_translated
                        &&& same_config(nself, oself)
                    }),
                    Err(f) => r matches Err(e) && nself == oself && (if f
                        == ChunkFault::UnbalancedBegin {
                        e@ == "Unbalanced %trsltx-begin-ignore"@
                    } else {
                        e@ == "Unbalanced %trsltx-end-ignore"@
                    }),
                }
            }),
    {
        let bv = chars_of(self.body.as_str());
        match crate::segment::segment_chunks(&bv) {
            Ok(chunks) => {
                self.chunks = chunks;
                Ok(())
            },
            Err(ChunkFault::UnbalancedBegin) => Err(
                String::from_str("Unbalanced %trsltx-begin-ignore"),
            ),
            Err(ChunkFault::UnbalancedEnd) => Err(
                String::from_str("Unbalanced %trsltx-end-ignore"),
            ),
        }
    }

    /// Reassemble the translated body from the chunks and the per-chunk
    /// results: one result per chunk, used where the chunk was to be
    /// translated and a result exists, the chunk's own text elsewhere.
    /// Split-marker lines are written back between chunks so the output
    /// can be fed in again, except directly after an ignore region.
    pub fn assemble_body(&mut self, results: &Vec<Option<String>>)
        requires
            results@.len() == old(self).chunks@.len(),
        ensures
            final(self).body_translated@ == assemble_sp(
                chunk_views(old(self).chunks@),
                opt_views(results@),
            ),
            final(self).chunks == old(self).chunks,
            final(self).preamble == old(self).preamble,
            final(self).body == old(self).body,
            final(self).afterword == old(self).afterword,
    {
        let ghost cs = chunk_views(self.chunks@);
        let ghost rs = opt_views(results@);
        let n = self.chunks.len();
        let mut acc: Vec<char> = Vec::new();
        let mut i: usize = 0;
        while i < n
            invariant
                n == self.chunks@.len(),
                n == results@.len(),
                cs == chunk_views(self.chunks@),
                rs == opt_views(results@),
                i <= n,
                pieces_sp(cs, rs, 0) == acc@ + pieces_sp(cs, rs, i as int),
            decreases n - i,
        {
            let is_unchanged = matches!(self.chunks[i].1, ChunkType::Unchanged);
            if is_unchanged {
                let cv = chars_of(self.chunks[i].0.as_str());
                push_all(&mut acc, &cv);
            } else {
                if i > 0 {
                    let sep = chars_of("\n%trsltx-split\n");
                    push_all(&mut acc, &sep);
                }
                match &results[i] {
                    Some(t) => {
                        let tv = chars_of(t.as_str());
                        push_all(&mut acc, &tv);
                    },
                    None => {
                        let cv = chars_of(self.chunks[i].0.as_str());
                        push_all(&mut acc, &cv);
                    },
                }
            }
            i = i + 1;
            assert(pieces_sp(cs, rs, 0) == acc@ + pieces_sp(cs, rs, i as int));
        }
        assert(acc@ =~= pieces_sp(cs, rs, 0));
        let pat = chars_of("%trsltx-end-ignore\n%trsltx-split\n");
        let to = chars_of("%trsltx-end-ignore\n");
        proof {
            reveal_strlit("%trsltx-end-ignore\n%trsltx-split\n");
        }
        let cleaned = replace_in(&acc, &pat, &to);
        self.body_translated = string_from_chars(&cleaned);
    }

    /// The full output document: the preamble, the no-op declarations and
    /// `\begin{document}`, the translated body, `\end{document}` and the
    /// afterword.
    pub fn assemble_output(&self) -> (r: String)
        ensures
            r@ == self.preamble@ + env_header_sp() + self.body_translated@ + "\\end{document}"@
                + self.afterword@,
    {
        let mut out = chars_of(self.preamble.as_str());
        let env = chars_of(
            "\\newenvironment{trsltx}{}{}\n\n\\newcommand{\\commandevide}{}\n\\begin{document}",
        );
        push_all(&mut out, &env);
        let bt = chars_of(self.body_translated.as_str());
        push_all(&mut out, &bt);
        let endd = chars_of("\\end{document}");
        push_all(&mut out, &endd);
        let aft = chars_of(self.afterword.as_str());
        push_all(&mut out, &aft);
        string_from_chars(&out)
    }
}

} // verus!
