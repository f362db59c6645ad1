use trsltx::ast::LtxNode;

const SKELETON: &str = r#"
# W3C EBNF grammar of the Latex chunk
root ::= "\\begin{trsltx}" stuff "\\end{trsltx}"
stuff ::= (atom | construct)*
atom ::= command | text
construct ::= group | math
text ::= [^\\{}$%]+
group ::= "{" stuff "}"
math ::= ("$" stuff "$") | ("$$" stuff "$$")"#;

#[test]
fn grammar_vocabulary_is_exactly_the_fragment() {
    // the dynamic production holds the placeholder, the label and the
    // reference of the fragment, with doubled backslashes, and nothing else
    let latex = LtxNode::new("Hello \\ref{x} world \\label{y}.").unwrap();
    let grammar = latex.to_ebnf();
    let expected = format!(
        "{}{}",
        SKELETON,
        "\ncommand ::= \"\\\\commandevide\" | \"\\\\label{y}\" | \"\\\\ref{x}\""
    );
    assert_eq!(grammar, expected);
}

#[test]
fn grammar_of_plain_text_has_only_the_placeholder() {
    let latex = LtxNode::new("nothing special here").unwrap();
    let grammar = latex.to_ebnf();
    let expected = format!("{}{}", SKELETON, "\ncommand ::= \"\\\\commandevide\"");
    assert_eq!(grammar, expected);
}

#[test]
fn extraction_is_sorted_and_duplicate_free() {
    let latex = LtxNode::new("\\zeta \\alpha \\zeta {\\alpha \\beta}").unwrap();
    let cmds = latex.extracts_commands();
    assert_eq!(cmds, vec!["\\alpha", "\\beta", "\\zeta"]);
    // a second run gives the same result
    assert_eq!(latex.extracts_commands(), cmds);
}

#[test]
fn extraction_descends_into_math_and_groups() {
    let latex = LtxNode::new("$\\frac{\\ref{in}}{2}$ {\\label{deep}}").unwrap();
    assert_eq!(latex.extracts_references(), vec!["\\ref{in}"]);
    assert_eq!(latex.extracts_labels(), vec!["\\label{deep}"]);
    assert_eq!(latex.extracts_commands(), vec!["\\frac"]);
}

#[test]
fn distance_is_zero_on_identical_trees() {
    let a = LtxNode::new("x \\ref{a} {y $z$}").unwrap();
    let b = LtxNode::new("x \\ref{a} {y $z$}").unwrap();
    assert_eq!(a.distance(&b), 0);
}

#[test]
fn distance_counts_vocabulary_mismatches() {
    // same shape, one command differs on each side: two points
    let a = LtxNode::new("\\a \\b").unwrap();
    let b = LtxNode::new("\\a \\c").unwrap();
    assert_eq!(a.distance(&b), 2);
    // a missing label is one point
    let c = LtxNode::new("t \\label{l}").unwrap();
    let d = LtxNode::new("t \\label{l} \\label{m}").unwrap();
    assert_eq!(c.distance(&d), 1);
}

#[test]
fn distance_counts_shape_in_tens() {
    // eleven nodes against one: a shape penalty of one per ten nodes
    let a = LtxNode::new(&"{}".repeat(10)).unwrap();
    let b = LtxNode::new("").unwrap();
    assert_eq!(a.distance(&b), 1);
    assert_eq!(b.distance(&a), 1);
}
