use brash::execute::{exec_next, execute, ExecAction, ExecState};
use brash::parse::{lex, parse};

fn start(src: &str) -> ExecState {
    execute(parse(lex(0, src.as_bytes()).unwrap()).unwrap())
}

fn programs_of(st: &mut ExecState, last: i32) -> Vec<String> {
    match exec_next(st, last) {
        ExecAction::Run { specs, .. } => specs
            .iter()
            .map(|s| String::from_utf8(s.program.clone()).unwrap())
            .collect(),
        ExecAction::Done { .. } => panic!("expected a run"),
    }
}

fn done_status(st: &mut ExecState, last: i32) -> i32 {
    match exec_next(st, last) {
        ExecAction::Done { status } => status,
        ExecAction::Run { .. } => panic!("expected completion"),
    }
}

#[test]
fn source_to_decisions_with_short_circuits() {
    let mut st = start("a x | b && c || d ; e");
    // The two-stage pipeline runs first.
    assert_eq!(programs_of(&mut st, 0), ["a", "b"]);
    // It failed: `&&` skips c, `||` runs d.
    assert_eq!(programs_of(&mut st, 1), ["d"]);
    // d succeeded: `;` runs e unconditionally.
    assert_eq!(programs_of(&mut st, 0), ["e"]);
    // The final status is e's.
    assert_eq!(done_status(&mut st, 7), 7);
}

#[test]
fn source_to_decisions_negated_background() {
    let mut st = start("! slow &");
    match exec_next(&mut st, 0) {
        ExecAction::Run { background, .. } => assert!(background),
        ExecAction::Done { .. } => panic!("expected a run"),
    }
    // Nothing was waited for: the chain reports success.
    assert_eq!(done_status(&mut st, 5), 0);
}

#[test]
fn source_with_comment_and_continuation() {
    let mut st = start("echo a\\\nb # trailing words");
    assert_eq!(programs_of(&mut st, 0), ["echo"]);
    assert_eq!(done_status(&mut st, 0), 0);
}

#[test]
fn group_then_chain_decisions() {
    let mut st = start("(a; b); c && d");
    // The subshell's list runs element by element.
    assert_eq!(programs_of(&mut st, 0), ["a"]);
    assert_eq!(programs_of(&mut st, 3), ["b"]);
    // Then the chain after it; its failure short-circuits the `&&`.
    assert_eq!(programs_of(&mut st, 0), ["c"]);
    assert_eq!(done_status(&mut st, 2), 2);
}
