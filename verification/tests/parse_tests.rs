use brash::parse::{lex, parse, Command, SingleCommand, Terminator};

fn parsed(src: &str) -> Vec<Command> {
    parse(lex(0, src.as_bytes()).unwrap()).unwrap()
}

fn single(src: &str) -> SingleCommand {
    let mut cmds = parsed(src);
    assert_eq!(cmds.len(), 1);
    match cmds.remove(0) {
        Command::Single(sc) => sc,
        _ => panic!("expected a pipeline chain"),
    }
}

fn words(sc: &brash::parse::SimpleCommand) -> Vec<String> {
    sc.tokens
        .iter()
        .map(|t| String::from_utf8(t.value.clone()).unwrap())
        .collect()
}

fn parse_fails(src: &str) -> bool {
    parse(lex(0, src.as_bytes()).unwrap()).is_err()
}

#[test]
fn one_simple_command() {
    let sc = single("echo hello world");
    assert!(!sc.exclamation && !sc.time);
    assert!(sc.terminator.is_none());
    assert!(sc.rest.is_empty());
    assert!(sc.initial.rest.is_empty());
    assert_eq!(words(&sc.initial.initial), ["echo", "hello", "world"]);
}

#[test]
fn empty_input_is_no_command() {
    assert!(parsed("").is_empty());
    assert!(parsed("  # just a comment").is_empty());
}

#[test]
fn pipeline_stages_in_order() {
    let sc = single("a x | b | c y");
    assert_eq!(sc.initial.rest.len(), 2);
    assert_eq!(words(&sc.initial.initial), ["a", "x"]);
    assert_eq!(words(&sc.initial.rest[0]), ["b"]);
    assert_eq!(words(&sc.initial.rest[1]), ["c", "y"]);
}

#[test]
fn adjacent_ampersands_are_and() {
    let sc = single("a&&b");
    assert_eq!(sc.rest.len(), 1);
    assert_eq!(sc.rest[0].0, Terminator::And);
    assert_eq!(words(&sc.rest[0].1.initial), ["b"]);
}

#[test]
fn adjacent_bars_are_or() {
    let sc = single("a||b");
    assert_eq!(sc.rest.len(), 1);
    assert_eq!(sc.rest[0].0, Terminator::Or);
}

#[test]
fn separated_ampersands_are_not_and() {
    // `a & & b` is a misplaced operator, not a conditional.
    assert!(parse_fails("a & & b"));
}

#[test]
fn semicolon_chains_sequentially() {
    let sc = single("a ; b ; c");
    assert_eq!(sc.rest.len(), 2);
    assert_eq!(sc.rest[0].0, Terminator::Sequential);
    assert_eq!(sc.rest[1].0, Terminator::Sequential);
}

#[test]
fn trailing_ampersand_is_kept() {
    let sc = single("a &");
    assert_eq!(sc.terminator, Some(Terminator::Background));
    assert!(sc.rest.is_empty());
}

#[test]
fn leading_bang_and_time() {
    let sc = single("! a");
    assert!(sc.exclamation && !sc.time);
    let sc = single("time a");
    assert!(!sc.exclamation && sc.time);
    let sc = single("! time a");
    assert!(sc.exclamation && sc.time);
}

#[test]
fn bang_in_arguments_is_a_word() {
    let sc = single("echo ! time");
    assert_eq!(words(&sc.initial.initial), ["echo", "!", "time"]);
}

#[test]
fn escaped_semicolon_is_a_word() {
    let sc = single("a \\; b");
    assert_eq!(words(&sc.initial.initial), ["a", ";", "b"]);
}

#[test]
fn misplaced_operators_fail() {
    assert!(parse_fails("; a"));
    assert!(parse_fails("a ;; b"));
    assert!(parse_fails("| a"));
    assert!(parse_fails("a | | b"));
    assert!(parse_fails("a |"));
    assert!(parse_fails("a &&"));
    assert!(parse_fails("a ||"));
    assert!(parse_fails("&& a"));
}

#[test]
fn flags_with_no_pipeline_fail() {
    assert!(parse_fails("time"));
    assert!(parse_fails("!"));
}

#[test]
fn double_bang_toggles_negation_off() {
    let sc = single("! ! a");
    assert!(!sc.exclamation);
    let sc = single("! ! ! a");
    assert!(sc.exclamation);
}

#[test]
fn redirections_attach_to_the_command() {
    let sc = single("sort < in > out x");
    assert_eq!(words(&sc.initial.initial), ["sort", "x"]);
    let redirs: Vec<(String, String)> = sc
        .initial
        .initial
        .redirections
        .iter()
        .map(|(op, target)| {
            (
                String::from_utf8(op.value.clone()).unwrap(),
                String::from_utf8(target.value.clone()).unwrap(),
            )
        })
        .collect();
    assert_eq!(
        redirs,
        [
            ("<".to_string(), "in".to_string()),
            (">".to_string(), "out".to_string())
        ]
    );
}

#[test]
fn redirection_without_target_fails() {
    assert!(parse_fails("a >"));
    assert!(parse_fails("a > | b"));
    assert!(parse_fails("> f"));
}

#[test]
fn subshell_group_holds_its_list() {
    let mut cmds = parsed("(a; b && c)");
    assert_eq!(cmds.len(), 1);
    match cmds.remove(0) {
        Command::Subshell(lc) => {
            assert_eq!(words(&lc.initial.initial), ["a"]);
            assert_eq!(lc.rest.len(), 2);
            assert_eq!(lc.rest[0].0, Terminator::Sequential);
            assert_eq!(lc.rest[1].0, Terminator::And);
        }
        _ => panic!("expected a subshell"),
    }
}

#[test]
fn subshell_allows_one_trailing_semicolon() {
    let mut cmds = parsed("(a;)");
    assert_eq!(cmds.len(), 1);
    assert!(matches!(cmds.remove(0), Command::Subshell(_)));
}

#[test]
fn block_needs_separator_before_closing_brace() {
    let mut cmds = parsed("{ a; }");
    assert_eq!(cmds.len(), 1);
    match cmds.remove(0) {
        Command::Block(lc) => assert_eq!(words(&lc.initial.initial), ["a"]),
        _ => panic!("expected a block"),
    }
    // Without the separator the `}` is an ordinary word and the block is
    // left unclosed.
    assert!(parse_fails("{ a }"));
}

#[test]
fn chain_then_group_then_chain() {
    let cmds = parsed("a ; (b) ; c");
    assert_eq!(cmds.len(), 3);
    assert!(matches!(cmds[0], Command::Single(_)));
    assert!(matches!(cmds[1], Command::Subshell(_)));
    assert!(matches!(cmds[2], Command::Single(_)));
}

#[test]
fn malformed_groups_fail() {
    assert!(parse_fails("(a"));
    assert!(parse_fails("{ a;"));
    assert!(parse_fails("()"));
    assert!(parse_fails("a)"));
    assert!(parse_fails("}"));
    assert!(parse_fails("a | (b)"));
    assert!(parse_fails("a && (b)"));
    assert!(parse_fails("(a) && b"));
    assert!(parse_fails("! (a)"));
}

#[test]
fn braces_inside_a_command_are_words() {
    let sc = single("echo { }");
    assert_eq!(words(&sc.initial.initial), ["echo", "{", "}"]);
}

#[test]
fn trailing_semicolon_is_fine() {
    let sc = single("a ;");
    assert_eq!(sc.terminator, Some(Terminator::Sequential));
}

fn parse_err(src: &str) -> brash::parse::SyntaxError {
    match parse(lex(0, src.as_bytes()).unwrap()) {
        Err(e) => e,
        Ok(_) => panic!("expected a syntax error"),
    }
}

#[test]
fn error_span_points_at_offending_token() {
    let err = parse_err("a ;; b");
    assert_eq!((err.span.start, err.span.end), (3, 4));
    let err = parse_err("a |");
    assert_eq!((err.span.start, err.span.end), (2, 3));
}
