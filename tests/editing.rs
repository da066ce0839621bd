use myshell::display::{Display, ReadEnum};
use myshell::execute::ExecutionError;
use myshell::parser::ParseError;
use myshell::reader::{ReadEnum as ReaderEvent, Reader};
use myshell::utils::{history_line, i64_text, parse_history_line, parse_i32, string_of, usize_text, Env, ErrorEnum};

fn typed(d: &mut Display, s: &str, hist: &Vec<(i32, String)>) -> Vec<(String, Option<ReadEnum>)> {
    s.chars().map(|c| d.key(c, hist)).collect()
}

fn partial(e: &Option<ReadEnum>) -> String {
    match e {
        Some(ReadEnum::Comp(s)) => s.clone(),
        other => panic!("expected a partial line, got {:?}", other),
    }
}

#[test]
fn typing_and_enter() {
    let hist = Vec::new();
    let mut d = Display::new();
    let out = typed(&mut d, "ls", &hist);
    assert_eq!(partial(&out[1].1), "ls");
    assert_eq!(out[0].0, "\x1b[Jl");
    let (echo, ev) = d.key('\r', &hist);
    assert_eq!(echo, "\x1b[J\n\r");
    match ev {
        Some(ReadEnum::Command(s)) => assert_eq!(s, "ls"),
        other => panic!("{:?}", other),
    }
    let (_, ev) = d.key('\n', &hist);
    assert!(matches!(ev, Some(ReadEnum::Command(s)) if s.is_empty()));
}

#[test]
fn insert_in_the_middle_and_delete() {
    let hist = Vec::new();
    let mut d = Display::new();
    typed(&mut d, "ac", &hist);
    typed(&mut d, "\x1b[D", &hist);
    let (echo, ev) = d.key('b', &hist);
    assert_eq!(partial(&ev), "abc");
    assert_eq!(echo, "\x1b[Jbc\x1b[1D");
    let (echo, ev) = d.key('\x7f', &hist);
    assert_eq!(partial(&ev), "ac");
    assert_eq!(echo, "\x1b[D\x1b[Jc\x1b[1D");
    let (echo, _) = d.key('\r', &hist);
    assert_eq!(echo, "\x1b[1C\x1b[J\n\r");
}

#[test]
fn delete_on_empty_line() {
    let mut d = Display::new();
    let (echo, ev) = d.key('\x7f', &Vec::new());
    assert_eq!(echo, "");
    assert_eq!(partial(&ev), "");
}

#[test]
fn arrows_stop_at_the_ends() {
    let hist = Vec::new();
    let mut d = Display::new();
    typed(&mut d, "a", &hist);
    let out = typed(&mut d, "\x1b[C", &hist);
    assert_eq!(out[2].0, "");
    let out = typed(&mut d, "\x1b[D\x1b[D", &hist);
    assert_eq!(out[2].0, "\x1b[D");
    assert_eq!(out[5].0, "");
}

#[test]
fn history_browsing_wraps() {
    let hist = vec![(0, "one".to_string()), (0, "two".to_string())];
    let mut d = Display::new();
    let up = typed(&mut d, "\x1b[A", &hist);
    assert_eq!(up[2].0, "\x1b[Jtwo");
    typed(&mut d, "\x1b[A", &hist);
    let (_, ev) = d.key('\r', &hist);
    assert!(matches!(ev, Some(ReadEnum::Command(s)) if s == "one"));
    let down = typed(&mut d, "\x1b[B", &hist);
    assert_eq!(down[2].0, "\x1b[Jone");
    typed(&mut d, "\x1b[B\x1b[B", &hist);
    let (_, ev) = d.key('\r', &hist);
    assert!(matches!(ev, Some(ReadEnum::Command(s)) if s.is_empty()));
}

#[test]
fn tab_applies_the_suggestion() {
    let hist = Vec::new();
    let mut d = Display::new();
    typed(&mut d, "ec", &hist);
    d.set_suggestion("ec", Some(&"echo".to_string()));
    let (echo, ev) = d.key('\t', &hist);
    assert_eq!(echo, "ho");
    assert!(ev.is_none());
    let (_, ev) = d.key('\r', &hist);
    assert!(matches!(ev, Some(ReadEnum::Command(s)) if s == "echo"));
    let (echo, _) = d.key('\t', &hist);
    assert_eq!(echo, "");
    d.set_suggestion("echo", Some(&"echo".to_string()));
    assert_eq!(d.key('\t', &hist).0, "");
}

#[test]
fn control_characters_are_ignored() {
    let mut d = Display::new();
    let (echo, ev) = d.key('\x01', &Vec::new());
    assert_eq!(echo, "");
    assert!(ev.is_none());
}

#[test]
fn clear_empties_the_buffer() {
    let hist = Vec::new();
    let mut d = Display::new();
    typed(&mut d, "abc", &hist);
    d.clear();
    let (_, ev) = d.key('\r', &hist);
    assert!(matches!(ev, Some(ReadEnum::Command(s)) if s.is_empty()));
}

#[test]
fn plain_reader() {
    let mut r = Reader::new();
    for c in "ab".chars() {
        assert!(r.key(c).1.is_none());
    }
    let (_, ev) = r.key('\t');
    assert!(matches!(ev, Some(ReaderEvent::Comp(s)) if s == "ab"));
    let (echo, _) = r.key('\x7f');
    assert_eq!(echo, "\x1b[D\x1b[J");
    let (_, ev) = r.key('\n');
    assert!(matches!(ev, Some(ReaderEvent::Command(s)) if s == "a"));
    r.key('x');
    r.clear();
    let (_, ev) = r.key('\r');
    assert!(matches!(ev, Some(ReaderEvent::Command(s)) if s.is_empty()));
}

#[test]
fn history_file_lines() {
    assert_eq!(parse_history_line("0 ls -l"), Some((0, "ls -l".to_string())));
    assert_eq!(parse_history_line("-1 bad cmd"), Some((-1, "bad cmd".to_string())));
    assert_eq!(parse_history_line("+3 x"), Some((3, "x".to_string())));
    assert_eq!(parse_history_line("x ls"), None);
    assert_eq!(parse_history_line("12"), None);
    assert_eq!(parse_history_line("99999999999 ls"), None);
    assert_eq!(parse_history_line("0 "), Some((0, String::new())));
    assert_eq!(history_line(-1, "ls -l"), "-1 ls -l\n");
    assert_eq!(history_line(0, ""), "0 \n");
}

#[test]
fn numbers() {
    assert_eq!(parse_i32(&"2147483647".chars().collect()), Some(i32::MAX));
    assert_eq!(parse_i32(&"-2147483648".chars().collect()), Some(i32::MIN));
    assert_eq!(parse_i32(&"2147483648".chars().collect()), None);
    assert_eq!(parse_i32(&"-".chars().collect()), None);
    assert_eq!(parse_i32(&"".chars().collect()), None);
    assert_eq!(i64_text(-120), "-120");
    assert_eq!(usize_text(0), "0");
    assert_eq!(string_of(&vec!['h', 'é']), "hé");
}

#[test]
fn pushing_history_counts_the_first_word() {
    let mut env = Env::new("u".to_string(), "h".to_string(), "/h".to_string(), vec!["ls".to_string(), "cat".to_string()], Vec::new());
    env.push_history("  ls -l".to_string(), 0);
    assert_eq!(env.history, vec![(0, "  ls -l".to_string())]);
    env.path_set.reset();
    assert_eq!(env.path_set.get_match_texts()[0], "ls");
    env.push_history("   ".to_string(), 2);
    assert_eq!(env.history.len(), 2);
}

#[test]
fn finished_lines_are_recorded() {
    let mut env = Env::new("u".to_string(), "h".to_string(), "/h".to_string(), vec!["ls".to_string()], Vec::new());
    assert!(!env.end_line("ls".to_string(), &Ok(0)));
    assert!(!env.end_line("ls x".to_string(), &Ok(2)));
    assert!(!env.end_line("| ls".to_string(), &Err(ErrorEnum::ParseError(ParseError::CommandIsEmpty(0)))));
    assert!(!env.end_line("".to_string(), &Err(ErrorEnum::ExecutionError(ExecutionError::StatementIsEmpty))));
    assert_eq!(env.history, vec![(0, "ls".to_string()), (2, "ls x".to_string()), (-1, "| ls".to_string())]);
    assert!(env.end_line("exit".to_string(), &Err(ErrorEnum::ExecutionError(ExecutionError::Exit))));
    assert_eq!(env.history.len(), 3);
}
