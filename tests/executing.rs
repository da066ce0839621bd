use myshell::execute::{
    builtin_of, cd_target, command_kind, history_check, history_listing, stage_ends, wait_result, Action, Builtin,
    CdError, CommandKind, Endpoint, ExecutionError, Executor, HistoryError, WaitOutcome,
};
use myshell::lexer::Operator;
use myshell::parser::{make_parse_tree_from_str, Command, Commands, PipeBlock, Statement};
use myshell::utils::{Env, ErrorEnum};

fn env() -> Env {
    Env::new("u".to_string(), "h".to_string(), "/home/u".to_string(), vec!["echo".to_string()], Vec::new())
}

fn parse(s: &str) -> Statement {
    make_parse_tree_from_str(s, &env()).unwrap()
}

fn cmd(words: &[&str]) -> Command {
    Command { str: words.iter().map(|w| w.to_string()).collect() }
}

fn run_block(a: &Action) -> (usize, usize) {
    match a {
        Action::RunPipeBlock { element, block } => (*element, *block),
        other => panic!("expected a pipeline to run, got {:?}", other),
    }
}

#[test]
fn single_command_runs_and_finishes_with_its_status() {
    let st = parse("echo hi");
    let (mut ex, a) = Executor::begin(&st);
    assert_eq!(run_block(&a), (0, 0));
    let b = st.0[0].0.block_at(0);
    assert_eq!(b.stages()[0].str, vec!["echo", "hi"]);
    assert!(matches!(ex.resume(&st, Ok(0)), Action::Finish(Ok(0))));
}

#[test]
fn short_circuit_then_next_element() {
    let st = parse("false && echo x ; echo y");
    let (mut ex, a) = Executor::begin(&st);
    assert_eq!(run_block(&a), (0, 0));
    let a = ex.resume(&st, Ok(1));
    assert_eq!(run_block(&a), (1, 0));
    assert_eq!(st.0[1].0.block_at(0).command.str, vec!["echo", "y"]);
    assert!(matches!(ex.resume(&st, Ok(0)), Action::Finish(Ok(0))));
}

#[test]
fn or_runs_after_failure_only() {
    let st = parse("false || echo x || echo z");
    let (mut ex, _) = Executor::begin(&st);
    assert_eq!(run_block(&ex.resume(&st, Ok(1))), (0, 1));
    assert!(matches!(ex.resume(&st, Ok(0)), Action::Finish(Ok(0))));
    let (mut ex, _) = Executor::begin(&st);
    assert!(matches!(ex.resume(&st, Ok(0)), Action::Finish(Ok(0))));
}

#[test]
fn and_goes_on_after_success() {
    let st = parse("true && echo x");
    let (mut ex, _) = Executor::begin(&st);
    assert_eq!(run_block(&ex.resume(&st, Ok(0))), (0, 1));
    assert!(matches!(ex.resume(&st, Ok(3)), Action::Finish(Ok(3))));
}

#[test]
fn errors_end_the_statement_but_or_recovers() {
    let st = parse("cat < nofile ; echo y");
    let (mut ex, _) = Executor::begin(&st);
    let r = ex.resume(&st, Err(ExecutionError::InputRedirectError("no such file".to_string())));
    assert!(matches!(r, Action::Finish(Err(ExecutionError::InputRedirectError(_)))));
    let st = parse("cat < nofile || echo y");
    let (mut ex, _) = Executor::begin(&st);
    let r = ex.resume(&st, Err(ExecutionError::InputRedirectError("no such file".to_string())));
    assert_eq!(run_block(&r), (0, 1));
}

#[test]
fn exit_ends_everything() {
    let st = parse("exit ; echo after");
    assert_eq!(command_kind(&st.0[0].0.head.command, true), CommandKind::Exit);
    let (mut ex, _) = Executor::begin(&st);
    assert!(matches!(ex.resume(&st, Err(ExecutionError::Exit)), Action::Finish(Err(ExecutionError::Exit))));
}

#[test]
fn background_elements_fork_and_count_as_zero() {
    let st = parse("sleep 1 & echo y");
    let (mut ex, a) = Executor::begin(&st);
    assert!(matches!(a, Action::Fork { element: 0 }));
    assert_eq!(run_block(&ex.resume(&st, Ok(0))), (1, 0));
    assert!(matches!(ex.resume(&st, Ok(7)), Action::Finish(Ok(7))));
    let st = parse("false &");
    let (mut ex, _) = Executor::begin(&st);
    assert!(matches!(ex.resume(&st, Ok(0)), Action::Finish(Ok(0))));
    let (mut child, a) = Executor::begin_single(&st, 0);
    assert_eq!(run_block(&a), (0, 0));
    assert!(matches!(child.resume(&st, Ok(1)), Action::Finish(Ok(1))));
}

#[test]
fn empty_statement() {
    let st = parse("");
    let (_, a) = Executor::begin(&st);
    assert!(matches!(a, Action::Finish(Err(ExecutionError::StatementIsEmpty))));
}

#[test]
fn other_operators_are_invalid_in_a_chain() {
    let st = Statement(vec![(
        Commands {
            head: PipeBlock { command: cmd(&["a"]), tail: None, from: None, to: None, to_err: None },
            tail: Some((
                Operator::Pipe,
                Box::new(Commands {
                    head: PipeBlock { command: cmd(&["b"]), tail: None, from: None, to: None, to_err: None },
                    tail: None,
                }),
            )),
        },
        false,
    )]);
    let (mut ex, _) = Executor::begin(&st);
    match ex.resume(&st, Ok(0)) {
        Action::Finish(Err(ExecutionError::InvalidOperator(op))) => assert_eq!(op, "|"),
        other => panic!("{:?}", other),
    }
}

#[test]
fn pipeline_stages_and_their_ends() {
    let st = parse("echo one | wc -l");
    let b = &st.0[0].0.head;
    let stages = b.stages();
    assert_eq!(stages.len(), 2);
    assert_eq!(stages[0].str, vec!["echo", "one"]);
    assert_eq!(stages[1].str, vec!["wc", "-l"]);
    assert_eq!(stage_ends(2, 0), (Endpoint::Outer, Endpoint::Pipe(0)));
    assert_eq!(stage_ends(2, 1), (Endpoint::Pipe(0), Endpoint::Outer));
    assert_eq!(stage_ends(1, 0), (Endpoint::Outer, Endpoint::Outer));
    assert_eq!(stage_ends(3, 1), (Endpoint::Pipe(0), Endpoint::Pipe(1)));
}

#[test]
fn cd_runs_in_the_shell_at_the_end_of_a_pipeline() {
    let st = parse("cd /tmp");
    let c = &st.0[0].0.head.command;
    assert_eq!(command_kind(c, true), CommandKind::ParentCd);
    assert_eq!(command_kind(c, false), CommandKind::Fork);
    assert_eq!(cd_target(c).unwrap(), "/tmp");
}

#[test]
fn cd_arguments() {
    let e = cd_target(&cmd(&["cd"])).unwrap_err();
    assert!(matches!(e, CdError::MissingArgugment));
    assert_eq!(ErrorEnum::ExecutionError(ExecutionError::CdError(e)).message(), "cd: missing argument");
    let e = cd_target(&cmd(&["cd", "a", "b"])).unwrap_err();
    assert!(matches!(e, CdError::TooManyArgument(2)));
    assert_eq!(
        ErrorEnum::ExecutionError(ExecutionError::CdError(e)).message(),
        "cd: too many argument (expected 1, found: 2)"
    );
}

#[test]
fn builtins_in_the_child() {
    assert_eq!(builtin_of(&cmd(&["cd", "x"])), Builtin::Cd);
    assert_eq!(builtin_of(&cmd(&["history"])), Builtin::History);
    assert_eq!(builtin_of(&cmd(&["ls"])), Builtin::External);
    assert_eq!(command_kind(&cmd(&["exits"]), true), CommandKind::Fork);
}

#[test]
fn history_arguments_and_listing() {
    assert!(history_check(&cmd(&["history"])).is_ok());
    assert!(matches!(history_check(&cmd(&["history", "x"])), Err(HistoryError::TooManyArgument(1))));
    let lines = history_listing(&vec![(0, "ls".to_string()), (-1, "bad".to_string()), (127, "x y".to_string())]);
    assert_eq!(lines, vec!["[  0][  0]\tls", "[  1][ -1]\tbad", "[  2][127]\tx y"]);
}

#[test]
fn wait_outcomes() {
    let c = cmd(&["sleep", "5"]);
    assert_eq!(wait_result(WaitOutcome::Exited(3), &c).unwrap(), 3);
    assert!(matches!(wait_result(WaitOutcome::Interrupted, &c), Err(ExecutionError::InterruptError)));
    assert!(matches!(wait_result(WaitOutcome::Quit, &c), Err(ExecutionError::QuitError)));
    match wait_result(WaitOutcome::Other, &c) {
        Err(ExecutionError::ExecOtherError(t)) => assert_eq!(t, "sleep 5"),
        other => panic!("{:?}", other),
    }
    assert_eq!(ErrorEnum::ExecutionError(ExecutionError::InterruptError).message(), "interrupted");
    assert_eq!(ErrorEnum::ExecutionError(ExecutionError::QuitError).message(), "quited");
    assert_eq!(
        ErrorEnum::ExecutionError(ExecutionError::ForkError("EAGAIN".to_string())).message(),
        "ExecutionError: fork error (EAGAIN)"
    );
}

#[test]
fn duplicate_keeps_words() {
    let c = cmd(&["a", "b"]);
    assert_eq!(c.duplicate().str, c.str);
}
