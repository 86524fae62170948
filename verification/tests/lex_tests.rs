use brash::parse::Restriction::{self, No};
use brash::parse::{lex, LexError};

fn test_eq(src: &str, tokens: &[(&str, Restriction)]) {
    let actual = lex(0, src.as_bytes()).unwrap();
    let to_compare: Vec<(String, Restriction)> = actual
        .iter()
        .map(|tok| (String::from_utf8(tok.value.clone()).unwrap(), tok.restriction))
        .collect();
    let expected: Vec<(String, Restriction)> = tokens
        .iter()
        .map(|(value, restriction)| (value.to_string(), *restriction))
        .collect();
    assert_eq!(expected, to_compare);
}

#[test]
fn hello_world() {
    test_eq("Hello, world!", &[("Hello,", No), ("world!", No)]);
}

#[test]
fn newline_var() {
    test_eq("echo $a\nb", &[("echo", No), ("$a", No), ("b", No)])
}

#[test]
fn newline_var_escape() {
    test_eq("echo $a\\\nb", &[("echo", No), ("$ab", No)])
}

#[test]
fn metachars() {
    test_eq(
        "hello;world)yes",
        &[
            ("hello", No),
            (";", No),
            ("world", No),
            (")", No),
            ("yes", No),
        ],
    )
}

#[test]
fn comment() {
    test_eq("hi # no", &[("hi", No)]);
}

#[test]
fn strange_comment() {
    test_eq(
        "no#true hello;#yes",
        &[("no#true", No), ("hello", No), (";", No)],
    );
}

#[test]
fn single_plain_word() {
    test_eq("abc$x!", &[("abc$x!", No)]);
}

#[test]
fn empty_input() {
    test_eq("", &[]);
}

#[test]
fn whitespace_only() {
    test_eq(" \t\n ", &[]);
}

#[test]
fn repeated_whitespace_yields_no_empty_tokens() {
    test_eq("a  \t b", &[("a", No), ("b", No)]);
}

#[test]
fn trailing_backslash_fails() {
    assert!(matches!(lex(0, b"echo \\"), Err(LexError::TrailingBackslash)));
}

#[test]
fn lone_backslash_fails() {
    assert!(matches!(lex(0, b"\\"), Err(LexError::TrailingBackslash)));
}

#[test]
fn odd_backslash_run_fails() {
    assert!(matches!(lex(0, b"a\\\\\\"), Err(LexError::TrailingBackslash)));
}

#[test]
fn even_backslash_run_is_escaped_backslash() {
    test_eq("a\\\\", &[("a\\", No)]);
}

#[test]
fn escape_removes_backslash() {
    test_eq("a\\bc d", &[("abc", No), ("d", No)]);
}

#[test]
fn escaped_metacharacter_is_literal() {
    test_eq("a\\;b", &[("a;b", No)]);
}

#[test]
fn escaped_hash_still_starts_comment() {
    test_eq("\\#x", &[]);
}

#[test]
fn comment_runs_to_newline_then_lexing_resumes() {
    test_eq("#x\n\nyes", &[("yes", No)]);
}

#[test]
fn verbatim_token_spans_match_source() {
    let src = "Hello, world!";
    let tokens = lex(7, src.as_bytes()).unwrap();
    assert_eq!(tokens.len(), 2);
    for tok in &tokens {
        assert_eq!(tok.span.source_id, 7);
        let slice = &src.as_bytes()[tok.span.start as usize..tok.span.end as usize];
        assert_eq!(slice, tok.value.as_slice());
    }
    assert_eq!((tokens[0].span.start, tokens[0].span.end), (0, 6));
    assert_eq!((tokens[1].span.start, tokens[1].span.end), (7, 13));
}

#[test]
fn materialized_token_span_covers_continuation() {
    // The escape makes the value differ from the source slice at the span.
    let src = "a\\\nb";
    let tokens = lex(0, src.as_bytes()).unwrap();
    assert_eq!(tokens.len(), 1);
    assert_eq!(tokens[0].value.as_slice(), b"ab");
    assert_eq!((tokens[0].span.start, tokens[0].span.end), (0, 4));
}

#[test]
fn metacharacter_token_span() {
    let tokens = lex(0, b"a;b").unwrap();
    assert_eq!(tokens.len(), 3);
    assert_eq!(tokens[1].value.as_slice(), b";");
    assert_eq!((tokens[1].span.start, tokens[1].span.end), (1, 2));
}

#[test]
fn relexing_joined_plain_words_reproduces_them() {
    let first = lex(0, b"echo  one\ttwo").unwrap();
    let values: Vec<Vec<u8>> = first.iter().map(|t| t.value.clone()).collect();
    let joined = values.join(&b' ');
    let second = lex(0, &joined).unwrap();
    let values2: Vec<Vec<u8>> = second.iter().map(|t| t.value.clone()).collect();
    assert_eq!(values, values2);
}
