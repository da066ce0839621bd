use vstd::prelude::*;
use crate::lexer::Operator;
use crate::parser::{Command, Commands, CommandsV, Pipe, PipeBlock, PipeBlockV, Statement};
use crate::utils::{decimal, i64_text, push_char, usize_text};

verus! {

#[derive(Clone, Debug)]
pub enum CdError {
    MissingArgugment,
    TooManyArgument(usize),
    ExecError(String),
}

#[derive(Clone, Debug)]
pub enum HistoryError {
    TooManyArgument(usize),
    ExecError(String),
}

#[derive(Clone, Debug)]
pub enum ExecutionError {
    InvalidOperator(String),
    InputRedirectError(String),
    OutputRedirectError(String),
    DupError(String),
    CloseError(String),
    NotFoundError(String),
    ExecError(String),
    ExecOtherError(String),
    InterruptError,
    QuitError,
    ForkError(String),
    PipeError(String),
    CommandIsEmpty,
    StatementIsEmpty,
    CdError(CdError),
    HistoryError(HistoryError),
    Exit,
}

/// The number of pipelines in a chain.
pub open spec fn chain_len(c: CommandsV) -> int {
    c.rest.len() as int + 1
}

/// Pipeline `j` of a chain.
pub open spec fn chain_block(c: CommandsV, j: int) -> PipeBlockV {
    if j == 0 {
        c.head
    } else {
        c.rest[j - 1].1
    }
}

/// Whether the pipeline after one that ended with `outcome` runs, when
/// `op` joins them: `&&` goes on after status 0, `||` after anything else
/// (an error counts as a failure).
pub open spec fn goes_on(op: Operator, outcome: Result<i32, ExecutionError>) -> bool {
    let success = outcome == Ok::<i32, ExecutionError>(0);
    if op == Operator::AndAnd {
        success
    } else {
        !success
    }
}

pub open spec fn is_conj_op(op: Operator) -> bool {
    op == Operator::AndAnd || op == Operator::OrOr
}

/// What the shell does next while it runs a statement.
#[derive(Debug)]
pub enum Action {
    /// Run pipeline `block` of the chain of element `element` in the
    /// foreground and report how it ended.
    RunPipeBlock { element: usize, block: usize },
    /// Fork; the child runs element `element` on its own and exits; the
    /// parent reports `Ok(0)`, or the fork's error.
    Fork { element: usize },
    /// The statement is over, with this result.
    Finish(Result<i32, ExecutionError>),
}

/// Where the run of a statement stands.
pub struct Executor {
    pub element: usize,
    pub block: usize,
    pub forking: bool,
    pub last: i32,
    /// Run element `element` alone, in the foreground, then stop.
    pub single: bool,
}

impl Commands {
    pub fn chain_len(&self) -> (r: usize)
        requires
            self@.rest.len() < usize::MAX,
        ensures
            r == chain_len(self@),
        decreases self,
    {
        match &self.tail {
            None => 1,
            Some((_, t)) => {
                assert(t@.rest.len() < self@.rest.len());
                1 + t.chain_len()
            },
        }
    }

    /// Pipeline `j` of the chain.
    pub fn block_at(&self, j: usize) -> (r: &PipeBlock)
        requires
            j < chain_len(self@),
        ensures
            r@ == chain_block(self@, j as int),
        decreases self,
    {
        match &self.tail {
            None => &self.head,
            Some((_, t)) => {
                if j == 0 {
                    &self.head
                } else {
                    let ghost tv = t@;
                    assert(self@.rest.drop_first() =~= tv.rest);
                    if j >= 2 {
                        assert(self@.rest[j - 1] == tv.rest[j - 2]);
                    }
                    t.block_at(j - 1)
                }
            },
        }
    }

    /// The operator after pipeline `j`, if another follows.
    pub fn op_after(&self, j: usize) -> (r: Option<Operator>)
        requires
            j < chain_len(self@),
        ensures
            j + 1 < chain_len(self@) ==> r == Some(self@.rest[j as int].0),
            j + 1 == chain_len(self@) ==> r is None,
        decreases self,
    {
        match &self.tail {
            None => None,
            Some((op, t)) => {
                if j == 0 {
                    Some(*op)
                } else {
                    let ghost tv = t@;
                    assert(self@.rest.drop_first() =~= tv.rest);
                    t.op_after(j - 1)
                }
            },
        }
    }
}

/// The action that starts element `e`.
pub open spec fn element_start(stmt: Seq<(CommandsV, bool)>, e: int, single: bool) -> Action {
    if stmt[e].1 && !single {
        Action::Fork { element: e as usize }
    } else {
        Action::RunPipeBlock { element: e as usize, block: 0 }
    }
}

impl Executor {
    pub open spec fn wf(&self, stmt: Seq<(CommandsV, bool)>) -> bool {
        &&& self.element < stmt.len()
        &&& self.block < chain_len(stmt[self.element as int].0)
        &&& self.forking ==> self.block == 0
    }

    /// Starts a statement: its first element runs, or is forked off when it
    /// is marked `&`; an empty statement ends at once.
    pub fn begin(stmt: &Statement) -> (r: (Executor, Action))
        ensures
            stmt@.len() == 0 ==> r.1 matches Action::Finish(Err(ExecutionError::StatementIsEmpty)),
            stmt@.len() > 0 ==> r.0.wf(stmt@) && r.1 == element_start(stmt@, 0, false) && r.0.element
                == 0 && r.0.block == 0 && !r.0.single && r.0.forking == stmt@[0].1,
    {
        let ex = Executor { element: 0, block: 0, forking: false, last: 0, single: false };
        if stmt.0.len() == 0 {
            return (ex, Action::Finish(Err(ExecutionError::StatementIsEmpty)));
        }
        let background = stmt.0[0].1;
        let ex = Executor { forking: background, ..ex };
        if background {
            (ex, Action::Fork { element: 0 })
        } else {
            (ex, Action::RunPipeBlock { element: 0, block: 0 })
        }
    }

    /// Starts element `e` alone in the foreground: what the child of a fork
    /// runs.
    pub fn begin_single(stmt: &Statement, e: usize) -> (r: (Executor, Action))
        requires
            e < stmt@.len(),
        ensures
            r.0.wf(stmt@),
            r.0.single,
            r.0.element == e,
            r.1 == (Action::RunPipeBlock { element: e, block: 0 }),
    {
        (
            Executor { element: e, block: 0, forking: false, last: 0, single: true },
            Action::RunPipeBlock { element: e, block: 0 },
        )
    }

    /// Takes how the last action ended and says what comes next. `exit`
    /// and errors end the statement; a chain goes on by its operators; the
    /// statement's status is that of its last element, `0` for one forked
    /// off.
    pub fn resume(&mut self, stmt: &Statement, outcome: Result<i32, ExecutionError>) -> (r: Action)
        requires
            old(self).wf(stmt@),
            stmt@.len() < usize::MAX,
            forall|e: int| 0 <= e < stmt@.len() ==> #[trigger] stmt@[e].0.rest.len() < usize::MAX - 1,
        ensures
            r matches Action::Finish(_) || final(self).wf(stmt@),
            outcome matches Err(ExecutionError::Exit) ==> r matches Action::Finish(
                Err(ExecutionError::Exit),
            ),
            ({
                let e = old(self).element as int;
                let b = old(self).block as int;
                let chain = stmt@[e].0;
                let has_next = b + 1 < chain_len(chain);
                let checks = !old(self).forking && has_next;
                let invalid = checks && !is_conj_op(chain.rest[b].0);
                let goes = checks && !invalid && goes_on(chain.rest[b].0, outcome);
                let ends_element = !(outcome matches Err(ExecutionError::Exit)) && !goes && !invalid;
                &&& !(outcome matches Err(ExecutionError::Exit)) && invalid ==> (r matches Action::Finish(
                    Err(ExecutionError::InvalidOperator(_)),
                ))
                &&& !(outcome matches Err(ExecutionError::Exit)) && goes ==> r == (Action::RunPipeBlock {
                    element: e as usize,
                    block: (b + 1) as usize,
                }) && final(self).element == e && final(self).block == b + 1 && final(self).forking
                    == old(self).forking && final(self).single == old(self).single
                &&& ends_element && outcome is Err ==> r == Action::Finish(outcome)
                &&& ends_element && outcome is Ok && (old(self).single || e + 1 == stmt@.len())
                    ==> r == Action::Finish(
                    Ok(if old(self).forking {
                        0i32
                    } else {
                        outcome->Ok_0
                    }),
                )
                &&& ends_element && outcome is Ok && !old(self).single && e + 1 < stmt@.len()
                    ==> r == element_start(stmt@, e + 1, false) && final(self).element == e + 1
                    && final(self).block == 0 && final(self).forking == stmt@[e + 1].1 && !final(self).single
            }),
    {
        if let Err(ExecutionError::Exit) = outcome {
            return Action::Finish(Err(ExecutionError::Exit));
        }
        let e = self.element;
        let chain = &stmt.0[e].0;
        if !self.forking {
            let n = chain.chain_len();
            if self.block + 1 < n {
                let op = chain.op_after(self.block);
                let success = match &outcome {
                    Ok(s) => *s == 0,
                    Err(_) => false,
                };
                let goes = match op {
                    Some(Operator::AndAnd) => success,
                    Some(Operator::OrOr) => !success,
                    Some(other) => {
                        return Action::Finish(
                            Err(ExecutionError::InvalidOperator(String::from_str(other.to_str()))),
                        );
                    },
                    None => false,
                };
                if goes {
                    self.block = self.block + 1;
                    return Action::RunPipeBlock { element: e, block: self.block };
                }
            }
        }
        let status = match outcome {
            Ok(s) => if self.forking {
                0
            } else {
                s
            },
            Err(err) => {
                return Action::Finish(Err(err));
            },
        };
        self.last = status;
        if self.single || e + 1 == stmt.0.len() {
            return Action::Finish(Ok(status));
        }
        self.element = e + 1;
        self.block = 0;
        let background = stmt.0[e + 1].1;
        self.forking = background;
        if background {
            Action::Fork { element: e + 1 }
        } else {
            Action::RunPipeBlock { element: e + 1, block: 0 }
        }
    }
}

/// `s` holds exactly the characters of `w`.
pub fn same_text(s: &String, w: &str) -> (r: bool)
    ensures
        r == (s@ == w@),
{
    let n = s.as_str().unicode_len();
    if n != w.unicode_len() {
        return false;
    }
    let mut i: usize = 0;
    while i < n
        invariant
            n == s@.len() == w@.len(),
            i <= n,
            s@.take(i as int) == w@.take(i as int),
        decreases n - i,
    {
        if s.as_str().get_char(i) != w.get_char(i) {
            return false;
        }
        assert(s@.take(i + 1) =~= s@.take(i as int).push(s@[i as int]));
        assert(w@.take(i + 1) =~= w@.take(i as int).push(w@[i as int]));
        i += 1;
    }
    assert(s@ =~= s@.take(n as int));
    assert(w@ =~= w@.take(n as int));
    true
}

impl Command {
    /// A copy of the command.
    pub fn duplicate(&self) -> (r: Command)
        ensures
            r@ == self@,
    {
        let mut v: Vec<String> = Vec::new();
        let mut i: usize = 0;
        while i < self.str.len()
            invariant
                i <= self.str@.len(),
                v@.map_values(|s: String| s@) == self@.take(i as int),
            decreases self.str.len() - i,
        {
            let ghost prev = v@;
            v.push(self.str[i].clone());
            assert(v@.map_values(|s: String| s@) =~= prev.map_values(|s: String| s@).push(self@[i as int]));
            assert(self@.take(i + 1) =~= self@.take(i as int).push(self@[i as int]));
            i += 1;
        }
        assert(self@.take(self@.len() as int) =~= self@);
        Command { str: v }
    }
}

/// How a command runs: `exit` ends the shell, `cd` at the end of a
/// pipeline runs in the shell itself, anything else in a child.
#[derive(Debug, PartialEq, Eq, Structural)]
pub enum CommandKind {
    Exit,
    ParentCd,
    Fork,
}

pub fn command_kind(command: &Command, is_tail: bool) -> (r: CommandKind)
    requires
        command@.len() > 0,
    ensures
        command@[0] == "exit"@ ==> r == CommandKind::Exit,
        command@[0] != "exit"@ && is_tail && command@[0] == "cd"@ ==> r == CommandKind::ParentCd,
        command@[0] != "exit"@ && !(is_tail && command@[0] == "cd"@) ==> r == CommandKind::Fork,
{
    if same_text(&command.str[0], "exit") {
        CommandKind::Exit
    } else if is_tail && same_text(&command.str[0], "cd") {
        CommandKind::ParentCd
    } else {
        CommandKind::Fork
    }
}

/// What the child of a fork runs.
#[derive(Debug, PartialEq, Eq, Structural)]
pub enum Builtin {
    Cd,
    History,
    External,
}

pub fn builtin_of(command: &Command) -> (r: Builtin)
    requires
        command@.len() > 0,
    ensures
        command@[0] == "cd"@ ==> r == Builtin::Cd,
        command@[0] != "cd"@ && command@[0] == "history"@ ==> r == Builtin::History,
        command@[0] != "cd"@ && command@[0] != "history"@ ==> r == Builtin::External,
{
    if same_text(&command.str[0], "cd") {
        Builtin::Cd
    } else if same_text(&command.str[0], "history") {
        Builtin::History
    } else {
        Builtin::External
    }
}

/// The directory that `cd` goes to: it takes exactly one argument.
pub fn cd_target(command: &Command) -> (r: Result<String, CdError>)
    ensures
        command@.len() <= 1 ==> r matches Err(CdError::MissingArgugment),
        command@.len() > 2 ==> (r matches Err(CdError::TooManyArgument(n)) && n == command@.len() - 1),
        command@.len() == 2 ==> r is Ok && r->Ok_0@ == command@[1],
{
    let n = command.str.len();
    if n <= 1 {
        Err(CdError::MissingArgugment)
    } else if n > 2 {
        Err(CdError::TooManyArgument(n - 1))
    } else {
        Ok(command.str[1].clone())
    }
}

/// `history` takes no argument.
pub fn history_check(command: &Command) -> (r: Result<(), HistoryError>)
    ensures
        command@.len() >= 2 ==> (r matches Err(HistoryError::TooManyArgument(n)) && n == command@.len() - 1),
        command@.len() < 2 ==> r is Ok,
{
    let n = command.str.len();
    if n >= 2 {
        Err(HistoryError::TooManyArgument(n - 1))
    } else {
        Ok(())
    }
}

/// `t` right-aligned in a field of width 3.
pub open spec fn pad3(t: Seq<char>) -> Seq<char> {
    if t.len() >= 3 {
        t
    } else {
        Seq::new((3 - t.len()) as nat, |i: int| ' ') + t
    }
}

/// The line that `history` prints for entry `i`: `[  i][st]` and a tab.
pub open spec fn history_entry_text(i: int, status: i32, cmd: Seq<char>) -> Seq<char> {
    seq!['['] + pad3(decimal(i)) + seq![']', '['] + pad3(decimal(status as int)) + seq![']', '\t'] + cmd
}

fn pad3_string(t: String) -> (r: String)
    ensures
        r@ == pad3(t@),
{
    let n = t.as_str().unicode_len();
    if n >= 3 {
        return t;
    }
    let mut r = String::new();
    let mut i: usize = 0;
    while i < 3 - n
        invariant
            n < 3,
            i <= 3 - n,
            r@ == Seq::new(i as nat, |k: int| ' '),
        decreases 3 - n - i,
    {
        push_char(&mut r, ' ');
        i += 1;
        assert(r@ =~= Seq::new(i as nat, |k: int| ' '));
    }
    r.append(t.as_str());
    r
}

/// The lines that `history` prints, one per entry.
pub fn history_listing(history: &Vec<(i32, String)>) -> (r: Vec<String>)
    ensures
        r@.len() == history@.len(),
        forall|i: int|
            0 <= i < r@.len() ==> #[trigger] r@[i]@ == history_entry_text(i, history@[i].0, history@[i].1@),
{
    let mut out: Vec<String> = Vec::new();
    let mut i: usize = 0;
    while i < history.len()
        invariant
            i <= history@.len(),
            out@.len() == i,
            forall|k: int|
                0 <= k < i ==> #[trigger] out@[k]@ == history_entry_text(k, history@[k].0, history@[k].1@),
        decreases history.len() - i,
    {
        let mut line = String::new();
        push_char(&mut line, '[');
        let a = pad3_string(usize_text(i));
        line.append(a.as_str());
        push_char(&mut line, ']');
        push_char(&mut line, '[');
        let b = pad3_string(i64_text(history[i].0 as i64));
        line.append(b.as_str());
        push_char(&mut line, ']');
        push_char(&mut line, '\t');
        line.append(history[i].1.as_str());
        assert(line@ =~= history_entry_text(i as int, history@[i as int].0, history@[i as int].1@));
        out.push(line);
        i += 1;
    }
    out
}

/// How a waited-for child ended, as the shell sees it.
#[derive(Debug)]
pub enum WaitOutcome {
    Exited(i32),
    Interrupted,
    Quit,
    Failed(String),
    Other,
}

/// The status of a child that ended, or the error it stands for.
pub fn wait_result(w: WaitOutcome, command: &Command) -> (r: Result<i32, ExecutionError>)
    ensures
        w matches WaitOutcome::Exited(s) ==> r == Ok::<i32, ExecutionError>(s),
        w matches WaitOutcome::Interrupted ==> r matches Err(ExecutionError::InterruptError),
        w matches WaitOutcome::Quit ==> r matches Err(ExecutionError::QuitError),
        w matches WaitOutcome::Failed(e) ==> (r matches Err(ExecutionError::ExecError(e2)) && e2 == e),
        w matches WaitOutcome::Other ==> (r matches Err(ExecutionError::ExecOtherError(t)) && t@
            == crate::parser::join_words(command@)),
{
    match w {
        WaitOutcome::Exited(s) => Ok(s),
        WaitOutcome::Interrupted => Err(ExecutionError::InterruptError),
        WaitOutcome::Quit => Err(ExecutionError::QuitError),
        WaitOutcome::Failed(e) => Err(ExecutionError::ExecError(e)),
        WaitOutcome::Other => Err(ExecutionError::ExecOtherError(command.to_string())),
    }
}

/// Where a stage of a pipeline reads or writes: the pipeline's own input or
/// output (a redirected file, or the shell's), or pipe `k`, which joins stage
/// `k` to stage `k + 1`.
#[derive(Debug, PartialEq, Eq, Structural, Clone, Copy)]
pub enum Endpoint {
    Outer,
    Pipe(usize),
}

/// The input and the output of stage `k` of `n`.
pub fn stage_ends(n: usize, k: usize) -> (r: (Endpoint, Endpoint))
    requires
        k < n,
    ensures
        r.0 == (if k == 0 {
            Endpoint::Outer
        } else {
            Endpoint::Pipe((k - 1) as usize)
        }),
        r.1 == (if k + 1 == n {
            Endpoint::Outer
        } else {
            Endpoint::Pipe(k)
        }),
{
    let input = if k == 0 {
        Endpoint::Outer
    } else {
        Endpoint::Pipe(k - 1)
    };
    let output = if k + 1 == n {
        Endpoint::Outer
    } else {
        Endpoint::Pipe(k)
    };
    (input, output)
}

fn push_stages(p: &Pipe, out: &mut Vec<Command>)
    ensures
        final(out)@.map_values(|c: Command| c@) == old(out)@.map_values(|c: Command| c@) + p@,
    decreases p,
{
    let ghost prev = out@;
    out.push(p.command.duplicate());
    assert(out@.map_values(|c: Command| c@) =~= prev.map_values(|c: Command| c@).push(p.command@));
    match &p.tail {
        Some(t) => {
            let ghost mid = out@;
            push_stages(t, out);
            assert(p@ =~= seq![p.command@] + t@);
            assert(out@.map_values(|c: Command| c@) =~= prev.map_values(|c: Command| c@) + p@);
        },
        None => {
            assert(p@ =~= seq![p.command@]);
            assert(out@.map_values(|c: Command| c@) =~= prev.map_values(|c: Command| c@) + p@);
        },
    }
}

impl PipeBlock {
    /// The argument vectors of the stages of the pipeline, in order.
    pub fn stages(&self) -> (r: Vec<Command>)
        ensures
            r@.map_values(|c: Command| c@) == seq![self@.command] + match self@.tail {
                Some(p) => p,
                None => Seq::empty(),
            },
    {
        let mut out: Vec<Command> = Vec::new();
        out.push(self.command.duplicate());
        let ghost first = seq![self@.command];
        assert(out@.map_values(|c: Command| c@) =~= first);
        if let Some(p) = &self.tail {
            push_stages(p, &mut out);
        } else {
            assert(first + Seq::<Seq<Seq<char>>>::empty() =~= first);
        }
        out
    }
}

} // verus!
