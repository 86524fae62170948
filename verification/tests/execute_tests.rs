use brash::execute::{
    exec_next, execute, negate_status, pipeline_specs, pipeline_status, ExecAction, ExecState,
};
use brash::parse::{
    Command, ListCommand, Pipeline, Restriction, SimpleCommand, SingleCommand, Span, Terminator,
    Token,
};

fn word(s: &str) -> Token {
    Token {
        value: s.as_bytes().to_vec(),
        restriction: Restriction::No,
        span: Span { source_id: 0, start: 0, end: 0 },
    }
}

fn simple(words: &[&str]) -> SimpleCommand {
    SimpleCommand {
        tokens: words.iter().map(|w| word(w)).collect(),
        redirections: vec![],
    }
}

fn pipe(stages: &[&[&str]]) -> Pipeline {
    Pipeline {
        initial: simple(stages[0]),
        rest: stages[1..].iter().map(|s| simple(s)).collect(),
    }
}

fn single(
    exclamation: bool,
    terminator: Option<Terminator>,
    initial: Pipeline,
    rest: Vec<(Terminator, Pipeline)>,
) -> Command {
    Command::Single(SingleCommand { exclamation, time: false, terminator, initial, rest })
}

fn expect_run(st: &mut ExecState, last: i32) -> (Vec<Vec<u8>>, bool) {
    match exec_next(st, last) {
        ExecAction::Run { specs, background, .. } => {
            (specs.iter().map(|s| s.program.clone()).collect(), background)
        }
        ExecAction::Done { .. } => panic!("expected a run"),
    }
}

fn expect_done(st: &mut ExecState, last: i32) -> i32 {
    match exec_next(st, last) {
        ExecAction::Done { status } => status,
        ExecAction::Run { .. } => panic!("expected completion"),
    }
}

#[test]
fn pipeline_asks_one_spawn_per_stage() {
    let p = pipe(&[&["a", "x"], &["b"], &["c", "y", "z"]]);
    let specs = pipeline_specs(&p);
    assert_eq!(specs.len(), 3);
    assert_eq!(specs[0].program.as_slice(), b"a");
    assert_eq!(specs[0].args.len(), 1);
    assert_eq!(specs[0].args[0].as_slice(), b"x");
    assert_eq!(specs[1].program.as_slice(), b"b");
    assert!(specs[1].args.is_empty());
    assert_eq!(specs[2].program.as_slice(), b"c");
    assert_eq!(specs[2].args.len(), 2);
}

#[test]
fn pipeline_status_is_last_stage() {
    assert_eq!(pipeline_status(&vec![1, 2, 0]), 0);
    assert_eq!(pipeline_status(&vec![0, 0, 7]), 7);
    assert_eq!(pipeline_status(&vec![5]), 5);
}

#[test]
fn negation_is_boolean_flip() {
    assert_eq!(negate_status(true, 0), 1);
    assert_eq!(negate_status(true, 5), 0);
    assert_eq!(negate_status(true, 127), 0);
    assert_eq!(negate_status(false, 5), 5);
    assert_eq!(negate_status(false, 0), 0);
}

#[test]
fn and_runs_only_after_success() {
    let cmds = vec![single(
        false,
        None,
        pipe(&[&["a"]]),
        vec![(Terminator::And, pipe(&[&["b"]]))],
    )];
    let mut st = execute(cmds);
    let (programs, _) = expect_run(&mut st, 0);
    assert_eq!(programs, vec![b"a".to_vec()]);
    let (programs, _) = expect_run(&mut st, 0);
    assert_eq!(programs, vec![b"b".to_vec()]);
    assert_eq!(expect_done(&mut st, 0), 0);
}

#[test]
fn and_short_circuits_on_failure() {
    let cmds = vec![single(
        false,
        None,
        pipe(&[&["a"]]),
        vec![(Terminator::And, pipe(&[&["b"]]))],
    )];
    let mut st = execute(cmds);
    expect_run(&mut st, 0);
    assert_eq!(expect_done(&mut st, 3), 3);
}

#[test]
fn or_short_circuits_on_success() {
    let cmds = vec![single(
        false,
        None,
        pipe(&[&["a"]]),
        vec![(Terminator::Or, pipe(&[&["b"]]))],
    )];
    let mut st = execute(cmds);
    expect_run(&mut st, 0);
    assert_eq!(expect_done(&mut st, 0), 0);
}

#[test]
fn or_runs_after_failure() {
    let cmds = vec![single(
        false,
        None,
        pipe(&[&["a"]]),
        vec![(Terminator::Or, pipe(&[&["b"]]))],
    )];
    let mut st = execute(cmds);
    expect_run(&mut st, 0);
    let (programs, _) = expect_run(&mut st, 2);
    assert_eq!(programs, vec![b"b".to_vec()]);
    assert_eq!(expect_done(&mut st, 0), 0);
}

#[test]
fn negated_pipeline_flips_reported_status() {
    let cmds = vec![single(true, None, pipe(&[&["a"]]), vec![])];
    let mut st = execute(cmds);
    expect_run(&mut st, 0);
    assert_eq!(expect_done(&mut st, 0), 1);

    let cmds = vec![single(true, None, pipe(&[&["a"]]), vec![])];
    let mut st = execute(cmds);
    expect_run(&mut st, 0);
    assert_eq!(expect_done(&mut st, 42), 0);
}

#[test]
fn trailing_ampersand_backgrounds_last_pipeline() {
    let cmds = vec![single(
        false,
        Some(Terminator::Background),
        pipe(&[&["slow"]]),
        vec![],
    )];
    let mut st = execute(cmds);
    let (_, background) = expect_run(&mut st, 0);
    assert!(background);
    // Nothing was waited for, so whatever the caller saw, the status is 0.
    assert_eq!(expect_done(&mut st, 9), 0);
}

#[test]
fn block_group_runs_its_list_in_order() {
    let list = ListCommand {
        initial: pipe(&[&["a"]]),
        rest: vec![(Terminator::Sequential, pipe(&[&["b"]]))],
    };
    let mut st = execute(vec![Command::Block(list)]);
    let (programs, _) = expect_run(&mut st, 0);
    assert_eq!(programs, vec![b"a".to_vec()]);
    let (programs, _) = expect_run(&mut st, 7);
    assert_eq!(programs, vec![b"b".to_vec()]);
    assert_eq!(expect_done(&mut st, 1), 1);
}

#[test]
fn commands_run_left_to_right() {
    let cmds = vec![
        single(false, None, pipe(&[&["a"]]), vec![]),
        single(false, None, pipe(&[&["b"]]), vec![]),
    ];
    let mut st = execute(cmds);
    let (programs, _) = expect_run(&mut st, 0);
    assert_eq!(programs, vec![b"a".to_vec()]);
    let (programs, _) = expect_run(&mut st, 1);
    assert_eq!(programs, vec![b"b".to_vec()]);
    assert_eq!(expect_done(&mut st, 4), 4);
}
