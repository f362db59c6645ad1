use trsltx::document::Trsltx;
use trsltx::lang::adjust_preamble_lang;
use trsltx::lang::build_question;
use trsltx::lang::get_lang_name;
use trsltx::segment::ChunkType;

fn fresh() -> Trsltx {
    Trsltx::new("fr", "en", "in.tex", "out.tex", "mistral7b")
}

#[test]
fn new_keeps_its_arguments() {
    let t = fresh();
    assert_eq!(t.input_lang, "fr");
    assert_eq!(t.output_lang, "en");
    assert_eq!(t.input_file_name, "in.tex");
    assert_eq!(t.output_file_name, "out.tex");
    assert_eq!(t.model_name, "mistral7b");
    assert_eq!(t.preamble, "");
    assert_eq!(t.body, "");
    assert_eq!(t.afterword, "");
    assert_eq!(t.body_translated, "");
    assert!(t.chunks.is_empty());
}

#[test]
fn load_source_splits_document() {
    let mut t = fresh();
    let r = t.load_source("pre\\begin{document}the body\\end{document}post");
    assert!(r.is_ok());
    assert_eq!(t.preamble, "pre");
    assert_eq!(t.body, "the body");
    assert_eq!(t.afterword, "post");
}

#[test]
fn load_source_strips_carriage_returns() {
    let mut t = fresh();
    let r = t.load_source("a\r\n\\begin{document}b\r\\end{document}c\r");
    assert!(r.is_ok());
    assert_eq!(t.preamble, "a\n");
    assert_eq!(t.body, "b");
    assert_eq!(t.afterword, "c");
}

#[test]
fn load_source_missing_begin() {
    let mut t = fresh();
    let r = t.load_source("no document here");
    assert_eq!(r, Err("No \\begin{document} in the tex file.".to_string()));
}

#[test]
fn load_source_missing_end() {
    let mut t = fresh();
    let r = t.load_source("x\\begin{document}unterminated");
    assert_eq!(r, Err("No \\end{document} in the tex file.".to_string()));
}

#[test]
fn split_markers_round_trip() {
    let mut t = fresh();
    t.body = "A\n%trsltx-split\nB\n%trsltx-split\nC".to_string();
    assert!(t.extract_chunks().is_ok());
    assert_eq!(
        t.chunks,
        vec![
            ("A".to_string(), ChunkType::Translate),
            ("B".to_string(), ChunkType::Translate),
            ("C".to_string(), ChunkType::Translate),
        ]
    );
}

#[test]
fn ignore_region_is_standalone_unchanged_chunk() {
    let mut t = fresh();
    t.body = "before\n%trsltx-begin-ignore\nFOO\n%trsltx-end-ignore\nafter".to_string();
    assert!(t.extract_chunks().is_ok());
    assert_eq!(
        t.chunks,
        vec![
            ("before".to_string(), ChunkType::Translate),
            (
                "%trsltx-begin-ignore\nFOO\n%trsltx-end-ignore".to_string(),
                ChunkType::Unchanged
            ),
            ("after".to_string(), ChunkType::Translate),
        ]
    );
}

#[test]
fn ignore_region_with_surrounding_splits() {
    let mut t = fresh();
    t.body = "A\n%trsltx-split\nB\n%trsltx-begin-ignore\nZ\n%trsltx-end-ignore\nC".to_string();
    assert!(t.extract_chunks().is_ok());
    assert_eq!(
        t.chunks,
        vec![
            ("A".to_string(), ChunkType::Translate),
            ("B".to_string(), ChunkType::Translate),
            (
                "%trsltx-begin-ignore\nZ\n%trsltx-end-ignore".to_string(),
                ChunkType::Unchanged
            ),
            ("C".to_string(), ChunkType::Translate),
        ]
    );
}

#[test]
fn body_that_is_only_an_ignore_region() {
    let mut t = fresh();
    t.body = "%trsltx-begin-ignore\nF\n%trsltx-end-ignore".to_string();
    assert!(t.extract_chunks().is_ok());
    assert_eq!(
        t.chunks,
        vec![
            ("".to_string(), ChunkType::Translate),
            (
                "%trsltx-begin-ignore\nF\n%trsltx-end-ignore".to_string(),
                ChunkType::Unchanged
            ),
            ("".to_string(), ChunkType::Translate),
        ]
    );
}

#[test]
fn unbalanced_begin_is_an_error() {
    let mut t = fresh();
    t.body = "x\n%trsltx-begin-ignore\nnever closed".to_string();
    assert_eq!(
        t.extract_chunks(),
        Err("Unbalanced %trsltx-begin-ignore".to_string())
    );
    assert!(t.chunks.is_empty());
}

#[test]
fn unbalanced_end_is_an_error() {
    let mut t = fresh();
    t.body = "x\n%trsltx-end-ignore\ny".to_string();
    assert_eq!(
        t.extract_chunks(),
        Err("Unbalanced %trsltx-end-ignore".to_string())
    );
}

#[test]
fn split_inside_ignore_region_is_an_error() {
    let mut t = fresh();
    t.body = "%trsltx-begin-ignore\nA\n%trsltx-split\nB\n%trsltx-end-ignore".to_string();
    assert_eq!(
        t.extract_chunks(),
        Err("Unbalanced %trsltx-begin-ignore".to_string())
    );
}

#[test]
fn assemble_body_replaces_translated_chunks() {
    let mut t = fresh();
    t.body = "A\n%trsltx-begin-ignore\nFOO\n%trsltx-end-ignore\nB".to_string();
    assert!(t.extract_chunks().is_ok());
    let results = vec![Some("X".to_string()), None, Some("Y".to_string())];
    t.assemble_body(&results);
    assert_eq!(
        t.body_translated,
        "X%trsltx-begin-ignore\nFOO\n%trsltx-end-ignore\nY"
    );
}

#[test]
fn assemble_body_writes_markers_between_translated_chunks() {
    let mut t = fresh();
    t.body = "A\n%trsltx-split\nB".to_string();
    assert!(t.extract_chunks().is_ok());
    let results = vec![Some("tA".to_string()), Some("tB".to_string())];
    t.assemble_body(&results);
    assert_eq!(t.body_translated, "tA\n%trsltx-split\ntB");
}

#[test]
fn assemble_output_wraps_the_body() {
    let mut t = fresh();
    t.preamble = "P".to_string();
    t.body_translated = "T".to_string();
    t.afterword = "W".to_string();
    assert_eq!(
        t.assemble_output(),
        "P\\newenvironment{trsltx}{}{}\n\n\\newcommand{\\commandevide}{}\n\\begin{document}T\\end{document}W"
    );
}

#[test]
fn generate_split_latex_inserts_markers_at_group_tops() {
    let mut t = fresh();
    t.preamble = "P".to_string();
    t.afterword = "W".to_string();
    t.body = "aaa bbb {ccc} ddd".to_string();
    let out = t.generate_split_latex(5);
    assert_eq!(
        out,
        "P\\begin{document}\naaa bbb \n%trsltx-split\n{ccc}\n%trsltx-split\n ddd\n\\end{document}\nW"
    );
}

#[test]
fn generate_split_latex_keeps_unparseable_body() {
    let mut t = fresh();
    t.body = "oops {".to_string();
    let out = t.generate_split_latex(10);
    assert_eq!(out, "\\begin{document}\noops {\n\\end{document}\n");
}

#[test]
fn lang_names() {
    assert_eq!(get_lang_name("en"), Ok("English".to_string()));
    assert_eq!(get_lang_name("fr"), Ok("French".to_string()));
    assert_eq!(get_lang_name("es"), Ok("Spanish".to_string()));
    assert_eq!(get_lang_name("de"), Ok("German".to_string()));
    assert_eq!(get_lang_name("it"), Ok("Italian".to_string()));
    assert_eq!(get_lang_name("pt"), Ok("Portuguese".to_string()));
    assert_eq!(get_lang_name("ru"), Ok("Russian".to_string()));
    assert_eq!(
        get_lang_name("xx"),
        Err(
            "The supported languages are: en,fr,es,de,it,pt,ru. Unsupported language: xx"
                .to_string()
        )
    );
}

#[test]
fn adjust_preamble_swaps_babel_language() {
    let p = "\\usepackage[french]{babel}".to_string();
    assert_eq!(
        adjust_preamble_lang(p, "fr", "en"),
        Ok("\\usepackage[english]{babel}".to_string())
    );
}

#[test]
fn adjust_preamble_russian_needs_t2a() {
    let p = "\\usepackage[french]{babel}\n\\usepackage[T1]{fontenc}".to_string();
    assert_eq!(
        adjust_preamble_lang(p, "fr", "ru"),
        Ok("\\usepackage[russian]{babel}\n\\usepackage[T2A]{fontenc}".to_string())
    );
}

#[test]
fn adjust_preamble_unknown_language() {
    let p = "x".to_string();
    assert!(adjust_preamble_lang(p, "fr", "zz").is_err());
}

#[test]
fn question_carries_chunk_and_languages() {
    let q = build_question("Bonjour \\ref{a}.", "fr", "en").unwrap();
    assert!(q.contains("Translate the following French scientific text"));
    assert!(q.contains("into English."));
    assert!(q.contains("\nBonjour \\ref{a}.\nA:\n"));
    assert!(q.ends_with("\nA:\n"));
    assert!(build_question("x", "zz", "en").is_err());
}
