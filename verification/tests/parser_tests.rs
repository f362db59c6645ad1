use trsltx::ast::LtxNode;
use trsltx::parser::ascii_cmd;
use trsltx::parser::atom_node;
use trsltx::parser::command;
use trsltx::parser::comment;
use trsltx::parser::end_of_line;
use trsltx::parser::group_node;
use trsltx::parser::text;
use trsltx::parser::text_node;

fn chars(s: &str) -> Vec<char> {
    s.chars().collect()
}

#[test]
fn parse_text() {
    let v = chars("oulaOula");
    let res = text(&v, 0);
    assert_eq!(res, Some(("oulaOula".to_string(), 8)));
    let v = chars("oulaOula%");
    let res = text_node(&v, 0);
    assert_eq!(res, Some((LtxNode::Text("oulaOula".to_string()), 8)));
    assert_eq!(text(&v, 0), Some(("oulaOula".to_string(), 8)));
    let v = chars("oula\\Oula");
    assert_eq!(text(&v, 0), Some(("oula".to_string(), 4)));
}

#[test]
fn parse_ascii_cmd() {
    let v = chars("\\oula");
    let res = ascii_cmd(&v, 0);
    println!("{:?}", res);
    assert_eq!(res, Some(("oula".to_string(), 5)));
    let v = chars("\\oulaé%");
    assert_eq!(ascii_cmd(&v, 0), Some(("oula".to_string(), 5)));
}

#[test]
fn parse_end_of_line() {
    let v = chars("oulaOula\n");
    let res = end_of_line(&v, 0);
    assert_eq!(res, 8);
    let v = chars("oulaOula%");
    assert_eq!(end_of_line(&v, 0), 9);
    let v = chars("oulaOula\\Oula");
    assert_eq!(end_of_line(&v, 0), 13);
}

#[test]
fn parse_command() {
    let v = chars("\\oula");
    let res = command(&v, 0);
    println!("{:?}", res);
    assert_eq!(res, Some(("oula".to_string(), 5)));
    let v = chars("\\oulaé%");
    assert_eq!(command(&v, 0), Some(("oula".to_string(), 5)));
    let v = chars("\\\\oulaé%");
    assert_eq!(command(&v, 0), Some(("\\\\".to_string(), 2)));
}

#[test]
fn parse_comment() {
    let v = chars("%oula\n");
    assert_eq!(comment(&v, 0), Some(("oula".to_string(), 5)));
}

#[test]
fn parse_atom() {
    let v = chars("aaaa%oula\n");
    assert_eq!(atom_node(&v, 0), Some((LtxNode::Text("aaaa".to_string()), 4)));
    let v = chars("%oula\n\\toto");
    assert_eq!(atom_node(&v, 0), Some((LtxNode::Comment("oula".to_string()), 5)));
    let v = chars("\\oulaé");
    assert_eq!(atom_node(&v, 0), Some((LtxNode::Command("\\oula".to_string()), 5)));
}

#[test]
fn parse_group_node() {
    let v = chars("{\\item salut ça va ? % ouf tout va bien\n}");
    let grp = group_node(&v, 0);
    println!("{:?}", grp);
    assert_eq!(
        grp,
        Some((
            LtxNode::Group(vec![
                LtxNode::Command("\\item".to_string()),
                LtxNode::Text(" salut ça va ? ".to_string()),
                LtxNode::Comment(" ouf tout va bien".to_string()),
                LtxNode::Text("\n".to_string()),
            ]),
            v.len()
        ))
    );
}

#[test]
fn recursive_test() {
    let str = "{\n\\item a\n% rien \n\\item {\\blue b}\n}\n        ";
    let v = chars(str);
    let grp = group_node(&v, 0);
    println!("{:?}", grp);
    assert!(grp.is_some());
}

#[test]
fn new_ltx_test() {
    let str = "\n\\ref{toto}        \n\\item a \\\\\n% rien \n\\label{toto}\n\\item {\\blue {\\b \\ref{tata} \\label{titi}}}\n              \n              ";
    let latex = LtxNode::new(str).unwrap();
    println!("{:?}", latex);
    let cmds = latex.extracts_commands();
    println!("commands: {:?}", cmds);
    assert_eq!(cmds, vec!["\\\\", "\\b", "\\blue", "\\item"]);
    let labels = latex.extracts_labels();
    println!("labels: {:?}", labels);
    assert_eq!(labels, vec!["\\label{titi}", "\\label{toto}"]);
    let refs = latex.extracts_references();
    println!("references: {:?}", refs);
    assert_eq!(refs, vec!["\\ref{tata}", "\\ref{toto}"]);
}

#[test]
fn test_math() {
    let str = r#"
\toto
\[ \int_0^1 f(x) dx \]
$ \frac{1}{2}$
"#;
    let latex = LtxNode::new(str).unwrap();
    println!("{:?}", latex);
    let cmds = latex.extracts_commands();
    println!("commands: {:?}", cmds);
    assert_eq!(cmds, vec!["\\[", "\\]", "\\frac", "\\int", "\\toto"]);
    let labels = latex.extracts_labels();
    println!("labels: {:?}", labels);
    assert!(labels.is_empty());
    let refs = latex.extracts_references();
    println!("references: {:?}", refs);
    assert!(refs.is_empty());
}

#[test]
fn test_full() {
    let str = "\n% comment\n\\ref{toto}        \n\\item a \\\\\n$ \\frac{a}{b} $\n\\label{toto}\n\\item {\\blue {\\b \\ref{tata} \\label{titi}}}\n ";
    let latex = LtxNode::new(str).unwrap();
    println!("{:?}", latex);
    let cmds = latex.extracts_commands();
    println!("commands: {:?}", cmds);
    assert_eq!(cmds, vec!["\\\\", "\\b", "\\blue", "\\frac", "\\item"]);
    let labels = latex.extracts_labels();
    println!("labels: {:?}", labels);
    assert_eq!(labels, vec!["\\label{titi}", "\\label{toto}"]);
    let refs = latex.extracts_references();
    println!("references: {:?}", refs);
    assert_eq!(refs, vec!["\\ref{tata}", "\\ref{toto}"]);
    let grammar = latex.to_ebnf();
    println!("{}", grammar);
    assert!(grammar.ends_with(
        "\ncommand ::= \"\\\\commandevide\" | \"\\\\label{titi}\" | \"\\\\label{toto}\" \
         | \"\\\\ref{tata}\" | \"\\\\ref{toto}\" | \"\\\\\\\\\" | \"\\\\b\" | \"\\\\blue\" \
         | \"\\\\frac\" | \"\\\\item\""
    ));
}

#[test]
fn empty_input_is_empty_group() {
    assert_eq!(LtxNode::new(""), Some(LtxNode::Group(vec![])));
    assert_eq!(LtxNode::new("   \n  "), Some(LtxNode::Group(vec![])));
}

#[test]
fn plain_text_single_node() {
    let latex = LtxNode::new("just plain words").unwrap();
    assert_eq!(
        latex,
        LtxNode::Group(vec![LtxNode::Text("just plain words".to_string())])
    );
}

#[test]
fn unbalanced_brace_fails() {
    assert_eq!(LtxNode::new("a { b"), None);
    assert_eq!(LtxNode::new("a } b"), None);
    assert_eq!(LtxNode::new("$ x"), None);
}

#[test]
fn display_math_dollars() {
    let latex = LtxNode::new("$$ab$$").unwrap();
    assert_eq!(
        latex,
        LtxNode::Group(vec![LtxNode::DisplayMath(vec![LtxNode::Text("ab".to_string())])])
    );
}

#[test]
fn ref_with_bad_inner_falls_back_to_command() {
    let latex = LtxNode::new("\\ref{} {x}").unwrap();
    assert_eq!(
        latex,
        LtxNode::Group(vec![
            LtxNode::Command("\\ref".to_string()),
            LtxNode::Group(vec![]),
            LtxNode::Text(" ".to_string()),
            LtxNode::Group(vec![LtxNode::Text("x".to_string())]),
        ])
    );
}
