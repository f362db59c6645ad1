use trsltx::ast::LtxNode;
use trsltx::retry::retry_begin;
use trsltx::retry::retry_step;
use trsltx::retry::RetryBegin;
use trsltx::retry::RetryOutcome;

#[test]
fn trivial_chunk_needs_no_oracle() {
    match retry_begin("") {
        RetryBegin::Done(s) => assert_eq!(s, "\\commandevide\n"),
        RetryBegin::Pending(_) => panic!("empty chunk must not reach the oracle"),
    }
    match retry_begin("  \n \\commandevide \n ") {
        RetryBegin::Done(s) => assert_eq!(s, "\\commandevide\n"),
        RetryBegin::Pending(_) => panic!("placeholder chunk must not reach the oracle"),
    }
}

#[test]
fn oversize_chunk_is_left_unchanged() {
    let big = "a".repeat(4000);
    match retry_begin(&big) {
        RetryBegin::Done(s) => assert_eq!(s, big),
        RetryBegin::Pending(_) => panic!("oversize chunk must not reach the oracle"),
    }
    let nearly = "a".repeat(3999);
    assert!(matches!(retry_begin(&nearly), RetryBegin::Pending(_)));
}

#[test]
fn grammar_is_available_only_when_the_chunk_parses() {
    match retry_begin("hello \\ref{x}") {
        RetryBegin::Pending(st) => {
            assert!(st.grammar.is_some());
            assert!(st.wants_grammar());
        },
        RetryBegin::Done(_) => panic!("ordinary chunk should be pending"),
    }
    match retry_begin("broken { chunk") {
        RetryBegin::Pending(st) => {
            assert!(st.grammar.is_none());
            assert!(!st.wants_grammar());
        },
        RetryBegin::Done(_) => panic!("unparseable chunk should still be pending"),
    }
}

fn wrap(k: usize) -> String {
    format!("\\begin{{trsltx}}{}\\end{{trsltx}}", "{}".repeat(k))
}

#[test]
fn best_of_decreasing_distances_stops_early() {
    // reference: ten empty groups, 11 nodes in all
    let chunk = "{}".repeat(10);
    let reference = LtxNode::new(&chunk).unwrap();
    // synthetic responses whose candidates score 5, 3, 1, 4
    let r1 = wrap(60);
    let r2 = wrap(41);
    let r3 = wrap(21);
    let r4 = wrap(51);
    assert_eq!(reference.distance(&LtxNode::new(&"{}".repeat(60)).unwrap()), 5);
    assert_eq!(reference.distance(&LtxNode::new(&"{}".repeat(41)).unwrap()), 3);
    assert_eq!(reference.distance(&LtxNode::new(&"{}".repeat(21)).unwrap()), 1);
    assert_eq!(reference.distance(&LtxNode::new(&"{}".repeat(51)).unwrap()), 4);
    let st = match retry_begin(&chunk) {
        RetryBegin::Pending(st) => st,
        RetryBegin::Done(_) => panic!("chunk should be pending"),
    };
    assert!(st.wants_grammar());
    let st = match retry_step(st, &r1) {
        RetryOutcome::Continue(st) => st,
        RetryOutcome::Finished(_) => panic!("distance five must not finish the loop"),
    };
    assert_eq!(st.best_dist, 5);
    let st = match retry_step(st, &r2) {
        RetryOutcome::Continue(st) => st,
        RetryOutcome::Finished(_) => panic!("distance three must not finish the loop"),
    };
    assert_eq!(st.best_dist, 3);
    assert!(!st.wants_grammar());
    // the third response reaches the early-exit threshold: the loop stops
    // here and the fourth response is never evaluated
    match retry_step(st, &r3) {
        RetryOutcome::Finished(s) => assert_eq!(s, "{}".repeat(21)),
        RetryOutcome::Continue(_) => panic!("distance one must finish the loop"),
    }
    drop(r4);
}

#[test]
fn four_attempts_keep_the_best_seen() {
    let chunk = "{}".repeat(10);
    let st = match retry_begin(&chunk) {
        RetryBegin::Pending(st) => st,
        RetryBegin::Done(_) => panic!("chunk should be pending"),
    };
    let st = match retry_step(st, &wrap(60)) {
        RetryOutcome::Continue(st) => st,
        RetryOutcome::Finished(_) => panic!("first attempt cannot exhaust the loop"),
    };
    let st = match retry_step(st, &wrap(41)) {
        RetryOutcome::Continue(st) => st,
        RetryOutcome::Finished(_) => panic!("second attempt cannot exhaust the loop"),
    };
    let st = match retry_step(st, &wrap(51)) {
        RetryOutcome::Continue(st) => st,
        RetryOutcome::Finished(_) => panic!("third attempt scored four: the loop goes on"),
    };
    assert_eq!(st.best_dist, 3);
    match retry_step(st, &wrap(90)) {
        RetryOutcome::Finished(s) => assert_eq!(s, "{}".repeat(41)),
        RetryOutcome::Continue(_) => panic!("the fourth attempt always finishes the loop"),
    }
}

#[test]
fn response_without_delimiters_is_an_empty_candidate() {
    let chunk = "{}".repeat(10);
    let st = match retry_begin(&chunk) {
        RetryBegin::Pending(st) => st,
        RetryBegin::Done(_) => panic!("chunk should be pending"),
    };
    // an empty candidate parses to an empty group: one node against
    // eleven gives a shape penalty of one, which already ends the loop
    match retry_step(st, "no delimiters at all") {
        RetryOutcome::Finished(s) => assert_eq!(s, ""),
        RetryOutcome::Continue(_) => panic!("score one must finish the loop"),
    }
}

#[test]
fn candidate_without_closing_delimiter_runs_to_the_end() {
    let chunk = "x \\ref{a} y".to_string();
    let st = match retry_begin(&chunk) {
        RetryBegin::Pending(st) => st,
        RetryBegin::Done(_) => panic!("chunk should be pending"),
    };
    match retry_step(st, "\\begin{trsltx}x \\ref{a} y") {
        RetryOutcome::Finished(s) => assert_eq!(s, "x \\ref{a} y"),
        RetryOutcome::Continue(_) => panic!("a perfect candidate must finish the loop"),
    }
}
