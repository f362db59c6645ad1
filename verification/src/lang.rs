//! The language-code table, the babel adjustment of the preamble, and the
//! construction of the oracle prompt.

use vstd::prelude::*;

use crate::strutil::chars_of;
use crate::strutil::push_all;
use crate::strutil::replace_in;
use crate::strutil::replace_sp;
use crate::strutil::str_eq;
use crate::strutil::string_from_chars;

verus! {

broadcast use vstd::seq::group_seq_axioms, vstd::std_specs::vec::group_vec_axioms;

/// The long language name of a two-letter code, for the seven supported
/// languages.
pub open spec fn lang_name_sp(l: Seq<char>) -> Option<Seq<char>> {
    if l == "en"@ {
        Some("English"@)
    } else if l == "fr"@ {
        Some("French"@)
    } else if l == "es"@ {
        Some("Spanish"@)
    } else if l == "de"@ {
        Some("German"@)
    } else if l == "it"@ {
        Some("Italian"@)
    } else if l == "pt"@ {
        Some("Portuguese"@)
    } else if l == "ru"@ {
        Some("Russian"@)
    } else {
        None
    }
}

/// The message reported for an unsupported language code.
pub open spec fn lang_err_sp(l: Seq<char>) -> Seq<char> {
    "The supported languages are: en,fr,es,de,it,pt,ru. Unsupported language: "@ + l
}

/// Get the long language name from the short two-letter one.
pub fn get_lang_name(lang: &str) -> (r: Result<String, String>)
    ensures
        match r {
            Ok(s) => lang_name_sp(lang@) == Some(s@),
            Err(e) => lang_name_sp(lang@) is None && e@ == lang_err_sp(lang@),
        },
{
    if str_eq(lang, "en") {
        Ok(String::from_str("English"))
    } else if str_eq(lang, "fr") {
        Ok(String::from_str("French"))
    } else if str_eq(lang, "es") {
        Ok(String::from_str("Spanish"))
    } else if str_eq(lang, "de") {
        Ok(String::from_str("German"))
    } else if str_eq(lang, "it") {
        Ok(String::from_str("Italian"))
    } else if str_eq(lang, "pt") {
        Ok(String::from_str("Portuguese"))
    } else if str_eq(lang, "ru") {
        Ok(String::from_str("Russian"))
    } else {
        let mut e = chars_of("The supported languages are: en,fr,es,de,it,pt,ru. Unsupported language: ");
        let lv = chars_of(lang);
        push_all(&mut e, &lv);
        Err(string_from_chars(&e))
    }
}

/// ASCII lowercasing of one character.
pub open spec fn lower_char_sp(c: char) -> char {
    if 65 <= (c as u32) <= 90 {
        ((((c as u32) + 32) as u8) as char)
    } else {
        c
    }
}

/// ASCII lowercasing of a character sequence.
pub open spec fn lower_sp(s: Seq<char>) -> Seq<char> {
    Seq::new(s.len(), |i: int| lower_char_sp(s[i]))
}

/// ASCII lowercasing of a character vector.
fn lower_vec(v: &Vec<char>) -> (r: Vec<char>)
    ensures
        r@ == lower_sp(v@),
{
    let n = v.len();
    let mut r: Vec<char> = Vec::new();
    let mut i: usize = 0;
    while i < n
        invariant
            n == v@.len(),
            i <= n,
            r@.len() == i,
            forall|j: int| 0 <= j < i ==> r@[j] == lower_char_sp(v@[j]),
        decreases n - i,
    {
        let c = v[i];
        let u = c as u32;
        if 65 <= u && u <= 90 {
            r.push(((u + 32) as u8) as char);
        } else {
            r.push(c);
        }
        i = i + 1;
    }
    assert(r@ =~= lower_sp(v@));
    r
}

/// What the preamble becomes: the lowercased source-language name is
/// replaced by the lowercased target name, and for Russian the T1 fontenc
/// option additionally becomes T2A.
pub open spec fn adjust_preamble_sp(p: Seq<char>, src: Seq<char>, tgt: Seq<char>) -> Seq<char> {
    let p1 = replace_sp(p, lower_sp(src), lower_sp(tgt));
    if lower_sp(tgt) == "russian"@ {
        replace_sp(p1, "\\usepackage[T1]{fontenc}"@, "\\usepackage[T2A]{fontenc}"@)
    } else {
        p1
    }
}

/// If the babel language option is present, replace the source language in
/// it by the target language; Russian output additionally needs the T2A
/// fontenc option in place of T1.
pub fn adjust_preamble_lang(preamble: String, inlang: &str, outlang: &str) -> (r: Result<
    String,
    String,
>)
    ensures
        match r {
            Ok(s) => lang_name_sp(inlang@) matches Some(src) && (lang_name_sp(outlang@)
                matches Some(tgt) && s@ == adjust_preamble_sp(preamble@, src, tgt)),
            Err(e) => (lang_name_sp(outlang@) is None && e@ == lang_err_sp(outlang@)) || (
            lang_name_sp(outlang@) is Some && lang_name_sp(inlang@) is None && e@ == lang_err_sp(
                inlang@,
            )),
        },
{
    let target = match get_lang_name(outlang) {
        Ok(t) => t,
        Err(e) => {
            return Err(e);
        },
    };
    let source = match get_lang_name(inlang) {
        Ok(s) => s,
        Err(e) => {
            return Err(e);
        },
    };
    let src_l = lower_vec(&chars_of(source.as_str()));
    let tgt_l = lower_vec(&chars_of(target.as_str()));
    let pv = chars_of(preamble.as_str());
    proof {
        reveal_strlit("English");
        reveal_strlit("French");
        reveal_strlit("Spanish");
        reveal_strlit("German");
        reveal_strlit("Italian");
        reveal_strlit("Portuguese");
        reveal_strlit("Russian");
    }
    let p1 = replace_in(&pv, &src_l, &tgt_l);
    let ru = chars_of("russian");
    if crate::strutil::chars_eq(&tgt_l, &ru) {
        let t1 = chars_of("\\usepackage[T1]{fontenc}");
        let t2 = chars_of("\\usepackage[T2A]{fontenc}");
        proof {
            reveal_strlit("\\usepackage[T1]{fontenc}");
        }
        let p2 = replace_in(&p1, &t1, &t2);
        Ok(string_from_chars(&p2))
    } else {
        Ok(string_from_chars(&p1))
    }
}

/// The fixed prompt ahead of each chunk, before the language names are
/// filled in.
pub open spec fn preprompt_sp() -> Seq<char> {
    r#"
Q: Translate the following <lang_in> scientific text, formatted with LateX, into <lang_out>.
Keep the LateX syntax and formulas. The results must compile without errors with pdflatex.
Give only the result without preliminaries.
Enclose the resulting LateX source between \begin{trsltx} and \end{trsltx}
Here is the <lang_in> LateX source:

"#@
}

/// The full question for one chunk: the prompt with both language names
/// filled in, the chunk, and the answer cue.
pub open spec fn question_sp(chunk: Seq<char>, src: Seq<char>, tgt: Seq<char>) -> Seq<char> {
    replace_sp(replace_sp(preprompt_sp(), "<lang_in>"@, src), "<lang_out>"@, tgt) + "\n"@ + chunk
        + "\nA:\n"@
}

/// Build the oracle question for one chunk, in the two named languages.
pub fn build_question(chunk: &str, inlang: &str, outlang: &str) -> (r: Result<String, String>)
    ensures
        match r {
            Ok(s) => lang_name_sp(inlang@) matches Some(src) && (lang_name_sp(outlang@)
                matches Some(tgt) && s@ == question_sp(chunk@, src, tgt)),
            Err(e) => (lang_name_sp(inlang@) is None && e@ == lang_err_sp(inlang@)) || (
            lang_name_sp(inlang@) is Some && lang_name_sp(outlang@) is None && e@ == lang_err_sp(
                outlang@,
            )),
        },
{
    let src = match get_lang_name(inlang) {
        Ok(s) => s,
        Err(e) => {
            return Err(e);
        },
    };
    let tgt = match get_lang_name(outlang) {
        Ok(t) => t,
        Err(e) => {
            return Err(e);
        },
    };
    let pp = chars_of(
        r#"
Q: Translate the following <lang_in> scientific text, formatted with LateX, into <lang_out>.
Keep the LateX syntax and formulas. The results must compile without errors with pdflatex.
Give only the result without preliminaries.
Enclose the resulting LateX source between \begin{trsltx} and \end{trsltx}
Here is the <lang_in> LateX source:

"#,
    );
    let pin = chars_of("<lang_in>");
    let pout = chars_of("<lang_out>");
    proof {
        reveal_strlit("<lang_in>");
        reveal_strlit("<lang_out>");
    }
    let sv = chars_of(src.as_str());
    let tv = chars_of(tgt.as_str());
    let q1 = replace_in(&pp, &pin, &sv);
    let q2 = replace_in(&q1, &pout, &tv);
    let mut q = q2;
    let nl = chars_of("\n");
    push_all(&mut q, &nl);
    let cv = chars_of(chunk);
    push_all(&mut q, &cv);
    let cue = chars_of("\nA:\n");
    push_all(&mut q, &cue);
    Ok(string_from_chars(&q))
}

} // verus!
