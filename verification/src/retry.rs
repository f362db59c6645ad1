//! The per-chunk retry controller. A trivial chunk (empty or just the
//! placeholder) is answered with the placeholder line and no oracle call;
//! an oversize chunk is left unchanged; otherwise the chunk is parsed into
//! a reference tree and up to four oracle attempts are scored by
//! structural distance, the first two with the synthesized grammar when
//! one is available, the final two always without. The best candidate is
//! kept, and the loop stops early once a score of at most one is reached.
//! The oracle calls themselves are the caller's: this module only decides.

use vstd::prelude::*;

use crate::ast::AstView;
use crate::ast::LtxNode;
use crate::distance::dist_sp;
use crate::grammar::to_ebnf_sp;
use crate::parser::new_spec;
use crate::strutil::chars_eq;
use crate::strutil::chars_of;
use crate::strutil::find_from;
use crate::strutil::find_in;
use crate::strutil::lemma_find_from;
use crate::strutil::string_from_chars;
use crate::strutil::subvec;
use crate::strutil::trim_sp;
use crate::strutil::trim_vec;

verus! {

broadcast use vstd::seq::group_seq_axioms, vstd::std_specs::vec::group_vec_axioms;

/// A chunk at least this many characters long is not sent to the oracle.
pub const MAX_CHUNK_LEN: usize = 4000;

/// Total number of oracle attempts per chunk.
pub const MAX_ATTEMPTS: usize = 4;

/// The leading attempts that may carry the grammar; the rest never do.
pub const GRAMMAR_ATTEMPTS: usize = 2;

/// A response longer than this is treated as having no candidate at all.
pub const RESPONSE_CAP: usize = 1_000_000_000;

/// The placeholder token standing for an empty chunk.
pub open spec fn placeholder() -> Seq<char> {
    "\\commandevide"@
}

/// The placeholder as emitted: with its line ending.
pub open spec fn placeholder_line() -> Seq<char> {
    "\\commandevide\n"@
}

/// Opening delimiter of the oracle's expected answer format.
pub open spec fn begin_delim() -> Seq<char> {
    "\\begin{trsltx}"@
}

/// Closing delimiter of the oracle's expected answer format.
pub open spec fn end_delim() -> Seq<char> {
    "\\end{trsltx}"@
}

/// The candidate text inside a response: what stands between the first
/// opening delimiter and the next closing delimiter (to the end of the
/// response if the closing one is missing). A response without the
/// opening delimiter, or longer than `RESPONSE_CAP`, yields the empty
/// candidate.
pub open spec fn candidate_sp(resp: Seq<char>) -> Seq<char> {
    if resp.len() > RESPONSE_CAP {
        Seq::empty()
    } else {
        match find_from(resp, begin_delim(), 0) {
            None => Seq::empty(),
            Some(i) => {
                let start = i + begin_delim().len();
                if 0 <= start <= resp.len() {
                    match find_from(resp, end_delim(), start) {
                        Some(j) => if start <= j <= resp.len() {
                            resp.subrange(start, j)
                        } else {
                            resp.subrange(start, resp.len() as int)
                        },
                        None => resp.subrange(start, resp.len() as int),
                    }
                } else {
                    Seq::empty()
                }
            },
        }
    }
}

/// The score of a candidate against the reference tree: its structural
/// distance when it parses, the worst score when it does not.
pub open spec fn score_sp(reference: AstView, cand: Seq<char>) -> int {
    match new_spec(cand) {
        Some(m) => dist_sp(reference, m),
        None => usize::MAX as int,
    }
}

/// The state of the attempt loop for one chunk.
pub struct RetryState {
    /// The chunk's reference tree (an empty group when the chunk did not
    /// parse).
    pub reference: LtxNode,
    /// The synthesized grammar, when the chunk parsed.
    pub grammar: Option<String>,
    /// Attempts already evaluated.
    pub attempt: usize,
    /// Best candidate text seen so far.
    pub best: String,
    /// Its score; the maximum before any attempt.
    pub best_dist: usize,
}

impl RetryState {
    /// Internal invariant: the reference tree is bounded by the chunk
    /// ceiling, and the attempt counter never passes the limit.
    pub open spec fn wf(&self) -> bool {
        self.reference.model().count() <= MAX_CHUNK_LEN as int + 2 && self.attempt
            < MAX_ATTEMPTS
    }

    /// Whether the next oracle call carries the grammar: only the leading
    /// attempts do, and only when a grammar is available.
    pub fn wants_grammar(&self) -> (r: bool)
        ensures
            r == (self.attempt < GRAMMAR_ATTEMPTS && self.grammar is Some),
    {
        self.attempt < GRAMMAR_ATTEMPTS && self.grammar.is_some()
    }
}

/// How a chunk's translation starts: already decided, or pending oracle
/// attempts.
pub enum RetryBegin {
    Done(String),
    Pending(RetryState),
}

/// The outcome of one attempt: the chunk's final text, or the state for
/// the next attempt.
pub enum RetryOutcome {
    Finished(String),
    Continue(RetryState),
}

/// Start the controller for one chunk: emit the placeholder for a trivial
/// chunk, leave an oversize chunk unchanged, and otherwise build the
/// reference tree and grammar for the attempt loop.
pub fn retry_begin(chunk: &str) -> (r: RetryBegin)
    ensures
        ({
            let t = trim_sp(chunk@);
            if t.len() == 0 || t == placeholder() {
                r matches RetryBegin::Done(s) && s@ == placeholder_line()
            } else if chunk@.len() >= MAX_CHUNK_LEN {
                r matches RetryBegin::Done(s) && s@ == chunk@
            } else {
                r matches RetryBegin::Pending(st) && st.wf() && st.attempt == 0 && st.best@
                    == Seq::<char>::empty() && st.best_dist == usize::MAX && (match new_spec(
                    chunk@,
                ) {
                    Some(m) => st.reference.model() == m && (st.grammar matches Some(g) && g@
                        == to_ebnf_sp(m)),
                    None => st.reference.model() == AstView::Group(Seq::empty())
                        && st.grammar is None,
                })
            }
        }),
{
    let cs = chars_of(chunk);
    let trimmed = trim_vec(&cs);
    let ph = chars_of("\\commandevide");
    if trimmed.len() == 0 || chars_eq(&trimmed, &ph) {
        let out = chars_of("\\commandevide\n");
        return RetryBegin::Done(string_from_chars(&out));
    }
    if cs.len() >= MAX_CHUNK_LEN {
        let copy = subvec(&cs, 0, cs.len());
        assert(copy@ =~= chunk@);
        return RetryBegin::Done(string_from_chars(&copy));
    }
    proof {
        crate::parser::lemma_new_spec_count(chunk@);
    }
    match LtxNode::new(chunk) {
        Some(reference) => {
            let grammar = reference.to_ebnf();
            RetryBegin::Pending(
                RetryState {
                    reference,
                    grammar: Some(grammar),
                    attempt: 0,
                    best: String::new(),
                    best_dist: usize::MAX,
                },
            )
        },
        None => {
            let empty_children: Vec<LtxNode> = Vec::new();
            let reference = LtxNode::Group(empty_children);
            proof {
                assert(LtxNode::model_all(Seq::<LtxNode>::empty()) =~= Seq::<AstView>::empty());
            }
            RetryBegin::Pending(
                RetryState {
                    reference,
                    grammar: None,
                    attempt: 0,
                    best: String::new(),
                    best_dist: usize::MAX,
                },
            )
        },
    }
}

/// Feed one oracle response to the controller: extract the candidate,
/// parse and score it, keep it when it beats the best so far, and either
/// finish (early exit at score one or below, or attempts exhausted) or
/// hand back the state for the next attempt.
pub fn retry_step(st: RetryState, response: &str) -> (r: RetryOutcome)
    requires
        st.wf(),
    ensures
        ({
            let cand = candidate_sp(response@);
            let sc = score_sp(st.reference.model(), cand);
            let better = sc < st.best_dist as int;
            let nd: int = if better {
                sc
            } else {
                st.best_dist as int
            };
            let done = nd <= 1 || st.attempt + 1 == MAX_ATTEMPTS;
            if done {
                r matches RetryOutcome::Finished(s) && (if better {
                    s@ == cand
                } else {
                    s@ == st.best@
                })
            } else {
                r matches RetryOutcome::Continue(st2) && st2.wf() && st2.attempt == st.attempt
                    + 1 && st2.best_dist as int == nd && (if better {
                    st2.best@ == cand
                } else {
                    st2.best@ == st.best@
                }) && st2.reference == st.reference && st2.grammar == st.grammar
            }
        }),
{
    let resp_chars = chars_of(response);
    let bd = chars_of("\\begin{trsltx}");
    let ed = chars_of("\\end{trsltx}");
    let n = resp_chars.len();
    let mut cand_chars: Vec<char> = Vec::new();
    if n <= RESPONSE_CAP {
        match find_in(&resp_chars, &bd, 0) {
            None => {},
            Some(i) => {
                proof {
                    lemma_find_from(response@, begin_delim(), 0);
                }
                let start = i + bd.len();
                match find_in(&resp_chars, &ed, start) {
                    Some(j) => {
                        proof {
                            lemma_find_from(response@, end_delim(), start as int);
                        }
                        cand_chars = subvec(&resp_chars, start, j);
                    },
                    None => {
                        cand_chars = subvec(&resp_chars, start, n);
                    },
                }
            },
        }
    }
    let ghost cand = candidate_sp(response@);
    assert(cand_chars@ == cand);
    let cand_string = string_from_chars(&cand_chars);
    let sc: usize = match LtxNode::new(cand_string.as_str()) {
        Some(parsed) => {
            proof {
                crate::parser::lemma_new_spec_count(cand);
            }
            st.reference.distance(&parsed)
        },
        None => usize::MAX,
    };
    assert(sc as int == score_sp(st.reference.model(), cand));
    let better = sc < st.best_dist;
    let nb: String = if better {
        cand_string
    } else {
        st.best
    };
    let nd: usize = if better {
        sc
    } else {
        st.best_dist
    };
    let na = st.attempt + 1;
    if nd <= 1 || na == MAX_ATTEMPTS {
        RetryOutcome::Finished(nb)
    } else {
        RetryOutcome::Continue(
            RetryState {
                reference: st.reference,
                grammar: st.grammar,
                attempt: na,
                best: nb,
                best_dist: nd,
            },
        )
    }
}

} // verus!
