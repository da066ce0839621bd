use myshell::lexer::Operator;
use myshell::parser::{make_parse_tree_from_str, Command, Commands, ParseError, Pipe, PipeBlock, Statement};
use myshell::utils::{Env, ErrorEnum};

fn env() -> Env {
    Env::new(
        "user".to_string(),
        "host".to_string(),
        "/home/user".to_string(),
        vec!["ls".to_string(), "echo".to_string()],
        Vec::new(),
    )
}

fn parse(s: &str) -> Result<Statement, ErrorEnum> {
    make_parse_tree_from_str(s, &env())
}

fn parse_err(s: &str) -> ParseError {
    match parse(s) {
        Err(ErrorEnum::ParseError(e)) => e,
        other => panic!("expected a parse error for {:?}, got {:?}", s, other.map(|st| st.to_string())),
    }
}

fn cmd(words: &[&str]) -> Command {
    Command { str: words.iter().map(|w| w.to_string()).collect() }
}

fn block(words: &[&str]) -> PipeBlock {
    PipeBlock { command: cmd(words), tail: None, from: None, to: None, to_err: None }
}

#[test]
fn leading_pipe_is_an_empty_command() {
    assert_eq!(parse_err("| ls"), ParseError::CommandIsEmpty(0));
}

#[test]
fn redirect_without_target() {
    assert_eq!(parse_err("ls >"), ParseError::RedirectIsEmpty(1));
    assert_eq!(parse_err("ls 2> ;"), ParseError::RedirectIsEmpty(1));
    assert_eq!(parse_err("cat <"), ParseError::RedirectIsEmpty(1));
}

#[test]
fn redirect_alone_has_no_target() {
    assert_eq!(parse_err("> "), ParseError::RedirectIsEmpty(0));
    assert_eq!(parse_err("ls && 2>"), ParseError::RedirectIsEmpty(2));
    assert_eq!(parse_err("> out"), ParseError::CommandIsEmpty(0));
}

#[test]
fn output_bound_twice() {
    assert_eq!(parse_err("ls > a > b"), ParseError::MultiRedirect(3));
    assert_eq!(parse_err("ls 2> a 2> b"), ParseError::MultiRedirect(3));
}

#[test]
fn dangling_operators_are_invalid() {
    assert_eq!(parse_err("echo x >> f"), ParseError::InvalidToken(2));
    assert_eq!(parse_err("cat << EOF"), ParseError::InvalidToken(1));
    assert_eq!(parse_err("ls < a < b"), ParseError::InvalidToken(3));
    assert_eq!(parse_err("ls > a | wc"), ParseError::InvalidToken(3));
}

#[test]
fn word_after_a_finished_pipeline() {
    assert_eq!(parse_err("ls > a b"), ParseError::ParseFinished(3));
}

#[test]
fn conjunction_without_right_side() {
    assert_eq!(parse_err("ls &&"), ParseError::CommandIsEmpty(2));
    assert_eq!(parse_err("ls || ;"), ParseError::CommandIsEmpty(2));
}

#[test]
fn statement_structure() {
    let st = parse("false && echo x ; echo y").unwrap();
    assert_eq!(st.0.len(), 2);
    let first = &st.0[0];
    assert!(!first.1);
    assert_eq!(first.0.head.command.str, vec!["false"]);
    match &first.0.tail {
        Some((Operator::AndAnd, t)) => assert_eq!(t.head.command.str, vec!["echo", "x"]),
        _ => panic!("expected &&"),
    }
    assert_eq!(st.0[1].0.head.command.str, vec!["echo", "y"]);
}

#[test]
fn empty_and_separators_only() {
    assert_eq!(parse("").unwrap().0.len(), 0);
    assert_eq!(parse(" ; ;; ").unwrap().0.len(), 0);
}

#[test]
fn background_elements() {
    let st = parse("sleep 1 & echo a & ls").unwrap();
    assert_eq!(st.0.len(), 3);
    assert!(st.0[0].1);
    assert!(st.0[1].1);
    assert!(!st.0[2].1);
}

#[test]
fn pipeline_with_redirections() {
    let st = parse("cat < in | grep a | wc -l > out 2> err").unwrap();
    let b = &st.0[0].0.head;
    assert_eq!(b.command.str, vec!["cat"]);
    assert_eq!(b.from.as_deref(), Some("in"));
    assert_eq!(b.to.as_deref(), Some("out"));
    assert_eq!(b.to_err.as_deref(), Some("err"));
    let p = b.tail.as_ref().unwrap();
    assert_eq!(p.command.str, vec!["grep", "a"]);
    assert_eq!(p.tail.as_ref().unwrap().command.str, vec!["wc", "-l"]);
}

#[test]
fn redirect_to_file() {
    let st = parse("echo hello > out.txt").unwrap();
    let b = &st.0[0].0.head;
    assert_eq!(b.command.str, vec!["echo", "hello"]);
    assert_eq!(b.to.as_deref(), Some("out.txt"));
    assert!(b.tail.is_none());
}

#[test]
fn home_is_expanded() {
    let st = parse("ls ~/docs ~").unwrap();
    assert_eq!(st.0[0].0.head.command.str, vec!["ls", "/home/user/docs", "/home/user"]);
}

#[test]
fn hand_built_tree_round_trips() {
    let tail = Pipe { command: cmd(&["wc", "-l"]), tail: Some(Box::new(Pipe { command: cmd(&["sort"]), tail: None })) };
    let head = PipeBlock {
        command: cmd(&["cat", "a"]),
        tail: Some(tail),
        from: Some("in".to_string()),
        to: Some("out".to_string()),
        to_err: Some("err".to_string()),
    };
    let chain = Commands {
        head,
        tail: Some((Operator::OrOr, Box::new(Commands { head: block(&["echo", "no"]), tail: None }))),
    };
    let st = Statement(vec![(chain, true), (Commands { head: block(&["ls"]), tail: None }, false)]);
    let text = st.to_string();
    assert_eq!(text, "; cat a < in | wc -l | sort > out 2> err || echo no&; ls");
    let again = parse(&text).unwrap();
    assert_eq!(again.to_string(), text);
    assert_eq!(again.0.len(), 2);
    assert!(again.0[0].1);
    assert!(!again.0[1].1);
}

#[test]
fn statement_text_layout() {
    let one = Statement(vec![(Commands { head: block(&["a"]), tail: None }, false)]);
    assert_eq!(one.to_string(), "; a");
    let two = Statement(vec![
        (Commands { head: block(&["a"]), tail: None }, true),
        (Commands { head: block(&["b"]), tail: None }, true),
    ]);
    assert_eq!(two.to_string(), "; a&; b&");
    let back = parse(&two.to_string()).unwrap();
    assert_eq!(back.0.len(), 2);
    assert!(back.0[0].1 && back.0[1].1);
    assert_eq!(Statement(Vec::new()).to_string(), "");
}

#[test]
fn texts_of_parts() {
    assert_eq!(cmd(&["ls", "-l", "/"]).to_string(), "ls -l /");
    let p = Pipe { command: cmd(&["a"]), tail: Some(Box::new(Pipe { command: cmd(&["b", "c"]), tail: None })) };
    assert_eq!(p.to_string(), "a | b c");
    assert_eq!(block(&["x"]).to_string(), "x");
    let c = Commands { head: block(&["a"]), tail: Some((Operator::AndAnd, Box::new(Commands { head: block(&["b"]), tail: None }))) };
    assert_eq!(c.to_string(), "a && b");
}

#[test]
fn parse_error_messages() {
    assert_eq!(ErrorEnum::ParseError(ParseError::CommandIsEmpty(0)).message(), "ParseError: command is empty (at token 0)");
    assert_eq!(
        ErrorEnum::ParseError(ParseError::MultiRedirect(12)).message(),
        "ParseError: redirected multi time (at token 12)"
    );
}
