use vstd::prelude::*;
use crate::execute::{CdError, ExecutionError, HistoryError};
use crate::lexer::{chars_of, tokens_view, LexError, Token, TokenV};
use crate::parser::ParseError;
use crate::search::{first_word, first_word_of, Trie};
use vstd::utf8::encode_utf8;

verus! {

/// Relies on String::push: the character is appended.
#[verifier::external_body]
pub fn push_char(s: &mut String, c: char)
    ensures
        final(s)@ == old(s)@.push(c),
{
    s.push(c);
}

/// A string of the given characters.
pub fn string_of(cs: &Vec<char>) -> (r: String)
    ensures
        r@ == cs@,
{
    let mut r = String::new();
    let mut i: usize = 0;
    while i < cs.len()
        invariant
            i <= cs@.len(),
            r@ == cs@.take(i as int),
        decreases cs.len() - i,
    {
        push_char(&mut r, cs[i]);
        i += 1;
        assert(r@ =~= cs@.take(i as int));
    }
    assert(cs@.take(cs@.len() as int) =~= cs@);
    r
}

pub open spec fn digit_char(d: int) -> char {
    seq!['0', '1', '2', '3', '4', '5', '6', '7', '8', '9'][d]
}

/// The decimal digits of `n`, without leading zeros.
pub open spec fn digits_of(n: nat) -> Seq<char>
    decreases n,
{
    if n < 10 {
        seq![digit_char(n as int)]
    } else {
        digits_of(n / 10).push(digit_char((n % 10) as int))
    }
}

/// `i` in decimal, with a `-` when it is negative.
pub open spec fn decimal(i: int) -> Seq<char> {
    if i < 0 {
        seq!['-'] + digits_of((-i) as nat)
    } else {
        digits_of(i as nat)
    }
}

fn digit(d: u64) -> (c: char)
    requires
        d < 10,
    ensures
        c == digit_char(d as int),
{
    let ds = ['0', '1', '2', '3', '4', '5', '6', '7', '8', '9'];
    let c = ds[d as usize];
    assert(c == digit_char(d as int));
    c
}

fn digits_text(n: u64) -> (r: String)
    ensures
        r@ == digits_of(n as nat),
    decreases n,
{
    if n < 10 {
        let mut r = String::new();
        push_char(&mut r, digit(n));
        assert(r@ =~= digits_of(n as nat));
        r
    } else {
        let mut r = digits_text(n / 10);
        push_char(&mut r, digit(n % 10));
        r
    }
}

pub fn i64_text(i: i64) -> (r: String)
    requires
        i > i64::MIN,
    ensures
        r@ == decimal(i as int),
{
    if i < 0 {
        let mut r = String::new();
        push_char(&mut r, '-');
        let d = digits_text((-i) as u64);
        r.append(d.as_str());
        assert(r@ =~= decimal(i as int));
        r
    } else {
        digits_text(i as u64)
    }
}

pub fn usize_text(n: usize) -> (r: String)
    ensures
        r@ == decimal(n as int),
{
    digits_text(n as u64)
}

/// The value of a run of decimal digits.
pub open spec fn digits_value(s: Seq<char>) -> int
    decreases s.len(),
{
    if s.len() == 0 {
        0
    } else {
        digits_value(s.drop_last()) * 10 + digit_value(s.last())
    }
}

pub open spec fn all_digits(s: Seq<char>) -> bool {
    forall|i: int| 0 <= i < s.len() ==> is_digit(#[trigger] s[i])
}

pub open spec fn is_digit(c: char) -> bool {
    '0' <= c && c <= '9'
}

pub open spec fn digit_value(c: char) -> int {
    (c as u32 - '0' as u32) as int
}

/// What `str::parse::<i32>` gives: an optional sign, then one or more
/// decimal digits, the value in range.
pub open spec fn parse_i32_of(s: Seq<char>) -> Option<i32> {
    let signed = s.len() > 0 && (s[0] == '-' || s[0] == '+');
    let neg = s.len() > 0 && s[0] == '-';
    let ds = if signed {
        s.drop_first()
    } else {
        s
    };
    let v = if neg {
        -digits_value(ds)
    } else {
        digits_value(ds)
    };
    if ds.len() > 0 && all_digits(ds) && i32::MIN <= v <= i32::MAX {
        Some(v as i32)
    } else {
        None
    }
}

proof fn lemma_digits_value_nonneg(s: Seq<char>)
    requires
        forall|i: int| 0 <= i < s.len() ==> is_digit(#[trigger] s[i]),
    ensures
        digits_value(s) >= 0,
    decreases s.len(),
{
    if s.len() > 0 {
        lemma_digits_value_nonneg(s.drop_last());
    }
}

pub fn parse_i32(cs: &Vec<char>) -> (r: Option<i32>)
    ensures
        r == parse_i32_of(cs@),
{
    let n = cs.len();
    let ghost s = cs@;
    let signed = n > 0 && (cs[0] == '-' || cs[0] == '+');
    let neg = n > 0 && cs[0] == '-';
    let start: usize = if signed {
        1
    } else {
        0
    };
    let ghost ds = if signed {
        s.drop_first()
    } else {
        s
    };
    assert(ds =~= s.skip(start as int));
    if start == n {
        return None;
    }
    let mut acc: i64 = 0;
    let mut big = false;
    let mut i = start;
    assert(ds.take(0) =~= Seq::<char>::empty());
    while i < n
        invariant
            cs@ == s,
            n == s.len(),
            start <= i <= n,
            start <= 1,
            ds == s.skip(start as int),
            ds.len() == n - start,
            signed == (s.len() > 0 && (s[0] == '-' || s[0] == '+')),
            neg == (s.len() > 0 && s[0] == '-'),
            start == (if signed { 1usize } else { 0usize }),
            forall|k: int| 0 <= k < i - start ==> is_digit(#[trigger] ds[k]),
            !big ==> acc == digits_value(ds.take(i - start)) && 0 <= acc <= 2147483648,
            big ==> digits_value(ds.take(i - start)) > 2147483648,
        decreases n - i,
    {
        let c = cs[i];
        assert(ds[i - start] == c);
        if !('0' <= c && c <= '9') {
            assert(!is_digit(ds[i - start]));
            assert(ds =~= (if signed {
                s.drop_first()
            } else {
                s
            }));
            assert(!all_digits(ds));
            return None;
        }
        let ghost pre = ds.take(i - start);
        assert(ds.take(i - start + 1) =~= pre.push(c));
        assert(ds.take(i - start + 1).drop_last() =~= pre);
        let d = (c as u32 - '0' as u32) as i64;
        proof {
            assert(forall|k: int| 0 <= k < i - start ==> is_digit(#[trigger] pre[k]));
            lemma_digits_value_nonneg(pre);
        }
        if !big {
            let next = acc * 10 + d;
            if next > 2147483648 {
                big = true;
            } else {
                acc = next;
            }
        }
        i += 1;
    }
    assert(ds.take(n - start) =~= ds);
    assert(all_digits(ds));
    assert(ds =~= (if signed {
        s.drop_first()
    } else {
        s
    }));
    if big {
        return None;
    }
    let v = if neg {
        -acc
    } else {
        acc
    };
    if v < -2147483648 || v > 2147483647 {
        return None;
    }
    Some(v as i32)
}

/// The index of the first space of `s`, if any.
pub open spec fn first_space(s: Seq<char>) -> Option<int> {
    if exists|i: int| 0 <= i < s.len() && s[i] == ' ' {
        Some(choose|i: int| 0 <= i < s.len() && s[i] == ' ' && forall|j: int| 0 <= j < i ==> s[j] != ' ')
    } else {
        None
    }
}

/// A line of the history file, `<status> <command>`.
pub open spec fn history_entry_of(line: Seq<char>) -> Option<(i32, Seq<char>)> {
    match first_space(line) {
        None => None,
        Some(i) => match parse_i32_of(line.take(i)) {
            Some(status) => Some((status, line.skip(i + 1))),
            None => None,
        },
    }
}

/// Reads one line of the history file; a line that is not `<status> <command>`
/// gives `None`.
pub fn parse_history_line(line: &str) -> (r: Option<(i32, String)>)
    ensures
        match (r, history_entry_of(line@)) {
            (None, None) => true,
            (Some((st, cmd)), Some((st2, cmd2))) => st == st2 && cmd@ == cmd2,
            _ => false,
        },
{
    let cs = chars_of(line);
    let n = cs.len();
    let mut i: usize = 0;
    while i < n && cs[i] != ' '
        invariant
            cs@ == line@,
            n == cs@.len(),
            i <= n,
            forall|j: int| 0 <= j < i ==> cs@[j] != ' ',
        decreases n - i,
    {
        i += 1;
    }
    if i == n {
        return None;
    }
    proof {
        let s = line@;
        assert(exists|k: int| 0 <= k < s.len() && s[k] == ' ');
        let c = choose|k: int| 0 <= k < s.len() && s[k] == ' ' && forall|j: int| 0 <= j < k ==> s[j] != ' ';
        assert(c == i) by {
            if c < i {
                assert(s[c] != ' ');
            }
            if c > i {
                assert(s[i as int] != ' ');
            }
        }
    }
    let mut head: Vec<char> = Vec::new();
    let mut k: usize = 0;
    while k < i
        invariant
            cs@ == line@,
            i < n == cs@.len(),
            k <= i,
            head@ == cs@.take(k as int),
        decreases i - k,
    {
        head.push(cs[k]);
        k += 1;
        assert(head@ =~= cs@.take(k as int));
    }
    match parse_i32(&head) {
        Some(status) => {
            let cmd = line.substring_char(i + 1, n).to_owned();
            assert(cmd@ =~= line@.skip(i + 1));
            Some((status, cmd))
        },
        None => None,
    }
}

/// The line that records a command in the history file.
pub open spec fn history_text(status: i32, cmd: Seq<char>) -> Seq<char> {
    decimal(status as int) + seq![' '] + cmd + seq!['\n']
}

pub fn history_line(status: i32, cmd: &str) -> (r: String)
    ensures
        r@ == history_text(status, cmd@),
{
    let mut r = i64_text(status as i64);
    push_char(&mut r, ' ');
    r.append(cmd);
    push_char(&mut r, '\n');
    assert(r@ =~= history_text(status, cmd@));
    r
}

#[derive(Clone, Debug)]
pub enum ErrorEnum {
    ParseError(ParseError),
    LexError(LexError),
    ExecutionError(ExecutionError),
}

/// The parts of the shell's state that its logic reads: who and where the
/// user is, the completion trie and the history.
pub struct Env {
    pub user_name: String,
    pub host_name: String,
    pub home_dir: String,
    pub path_set: Trie,
    pub history: Vec<(i32, String)>,
}

impl Env {
    /// Builds the state from the names found on `PATH`, to which the
    /// builtins `cd` and `exit` are added, and the history read at startup.
    pub fn new(
        user_name: String,
        host_name: String,
        home_dir: String,
        paths: Vec<String>,
        history: Vec<(i32, String)>,
    ) -> (r: Env)
        ensures
            r.path_set.wf(),
            r.path_set@.cursor == Some(Seq::<u8>::empty()),
            r.user_name == user_name,
            r.host_name == host_name,
            r.home_dir == home_dir,
            r.history@ == history@,
            forall|j: int| 0 <= j < paths@.len() ==> r.path_set@.texts.contains(#[trigger] paths@[j]@),
            r.path_set@.texts.contains("cd"@),
            r.path_set@.texts.contains("exit"@),
            forall|i: int|
                0 <= i < r.path_set@.texts.len() ==> (exists|j: int| 0 <= j < paths@.len() && #[trigger] r.path_set@.texts[i]
                    == paths@[j]@) || r.path_set@.texts[i] == "cd"@ || r.path_set@.texts[i] == "exit"@,
            forall|k: int|
                0 <= k < r.path_set@.texts.len() ==> #[trigger] r.path_set@.counts[k] == crate::search::hist_count(
                    history@,
                    encode_utf8(r.path_set@.texts[k]),
                ),
    {
        let mut names = paths;
        let ghost given = names@;
        names.push(String::from_str("cd"));
        names.push(String::from_str("exit"));
        let path_set = Trie::new(names, &history);
        proof {
            let all = names@;
            assert(all[given.len() as int]@ == "cd"@);
            assert(all[given.len() as int + 1]@ == "exit"@);
            assert forall|j: int| 0 <= j < given.len() implies path_set@.texts.contains(#[trigger] given[j]@) by {
                assert(all[j] == given[j]);
            }
            assert(path_set@.texts.contains(all[given.len() as int]@));
            assert(path_set@.texts.contains(all[given.len() as int + 1]@));
            assert forall|i: int| 0 <= i < path_set@.texts.len() implies (exists|j: int|
                0 <= j < given.len() && #[trigger] path_set@.texts[i] == given[j]@) || path_set@.texts[i]
                == "cd"@ || path_set@.texts[i] == "exit"@ by {
                assert(crate::search::in_strings(all, path_set@.texts[i]));
                let j = choose|j: int| 0 <= j < all.len() && all[j]@ == path_set@.texts[i];
                if j < given.len() {
                    assert(all[j] == given[j]);
                }
            }
        }
        Env { user_name, host_name, home_dir, path_set, history }
    }

    /// Records a command and how it ended, and counts one more use of its
    /// first word when that word is a known name.
    pub fn push_history(&mut self, cmd: String, status: i32)
        requires
            old(self).path_set.wf(),
        ensures
            final(self).path_set.wf(),
            final(self).history@.len() == old(self).history@.len() + 1,
            final(self).history@.take(old(self).history@.len() as int) == old(self).history@,
            final(self).history@.last().0 == status,
            final(self).history@.last().1@ == cmd@,
            final(self).path_set@.texts == old(self).path_set@.texts,
            final(self).path_set@.cursor == Some(Seq::<u8>::empty()),
            forall|k: int|
                0 <= k < old(self).path_set@.counts.len() ==> #[trigger] final(self).path_set@.counts[k]
                    == match first_word_of(cmd@) {
                    Some(w) => if encode_utf8(old(self).path_set@.texts[k]) == encode_utf8(w)
                        && old(self).path_set@.counts[k] < usize::MAX {
                        old(self).path_set@.counts[k] + 1
                    } else {
                        old(self).path_set@.counts[k]
                    },
                    None => old(self).path_set@.counts[k],
                },
            final(self).path_set@.counts.len() == old(self).path_set@.counts.len(),
    {
        let head = first_word(cmd.as_str());
        let ghost before = self.history@;
        self.history.push((status, cmd));
        assert(self.history@.take(before.len() as int) =~= before);
        match head {
            Some(h) => {
                self.path_set.add_cnt(&h);
            },
            None => {
                self.path_set.reset();
            },
        }
    }
}

impl Env {
    /// Records a finished line: a statement that ran records its status, one
    /// that failed records -1, an empty one and `exit` record nothing. Returns
    /// whether the shell stops, which it does on `exit`.
    pub fn end_line(&mut self, line: String, outcome: &Result<i32, ErrorEnum>) -> (stop: bool)
        requires
            old(self).path_set.wf(),
        ensures
            final(self).path_set.wf(),
            final(self).path_set@.texts == old(self).path_set@.texts,
            stop == (outcome matches Err(ErrorEnum::ExecutionError(ExecutionError::Exit))),
            outcome matches Ok(s) ==> recorded(old(self).history@, final(self).history@, *s, line@),
            (outcome matches Err(ErrorEnum::ExecutionError(ExecutionError::StatementIsEmpty))) || stop
                ==> final(self).history@ == old(self).history@ && final(self).path_set@ == old(self).path_set@,
            (outcome is Err && !(outcome matches Err(ErrorEnum::ExecutionError(ExecutionError::StatementIsEmpty)))
                && !stop) ==> recorded(old(self).history@, final(self).history@, -1i32, line@),
    {
        match outcome {
            Ok(s) => {
                self.push_history(line, *s);
                false
            },
            Err(ErrorEnum::ExecutionError(ExecutionError::Exit)) => true,
            Err(ErrorEnum::ExecutionError(ExecutionError::StatementIsEmpty)) => false,
            Err(_) => {
                self.push_history(line, -1);
                false
            },
        }
    }
}

/// `after` is `before` with the entry `(status, line)` added at the end.
pub open spec fn recorded(before: Seq<(i32, String)>, after: Seq<(i32, String)>, status: i32, line: Seq<char>) -> bool {
    &&& after.len() == before.len() + 1
    &&& after.take(before.len() as int) == before
    &&& after.last().0 == status
    &&& after.last().1@ == line
}

/// Each word that starts with `~` has the `~` replaced by the home directory.
pub open spec fn expand_home(ts: Seq<TokenV>, home: Seq<char>) -> Seq<TokenV> {
    ts.map_values(|t: TokenV| expand_token(t, home))
}

pub open spec fn expand_token(t: TokenV, home: Seq<char>) -> TokenV {
    match t {
        TokenV::Str(s) => if s.len() > 0 && s[0] == '~' {
            TokenV::Str(home + s.drop_first())
        } else {
            TokenV::Str(s)
        },
        TokenV::Op(op) => TokenV::Op(op),
    }
}

pub fn replace_tokens(tokens: Vec<Token>, env: &Env) -> (r: Vec<Token>)
    ensures
        tokens_view(r@) == expand_home(tokens_view(tokens@), env.home_dir@),
{
    let mut out: Vec<Token> = Vec::new();
    let mut i: usize = 0;
    while i < tokens.len()
        invariant
            i <= tokens@.len(),
            tokens_view(out@) == expand_home(tokens_view(tokens@), env.home_dir@).take(i as int),
        decreases tokens.len() - i,
    {
        let ghost prev = out@;
        let t = match &tokens[i] {
            Token::Operator(op) => Token::Operator(*op),
            Token::String(s) => {
                let n = s.as_str().unicode_len();
                if n > 0 && s.as_str().get_char(0) == '~' {
                    let rest = s.as_str().substring_char(1, n);
                    let mut e = env.home_dir.clone();
                    e.append(rest);
                    assert(e@ =~= env.home_dir@ + s@.drop_first());
                    Token::String(e)
                } else {
                    Token::String(s.clone())
                }
            },
        };
        assert(t@ == expand_token(tokens@[i as int]@, env.home_dir@));
        out.push(t);
        proof {
            assert(tokens_view(out@) =~= tokens_view(prev).push(t@));
            assert(expand_home(tokens_view(tokens@), env.home_dir@).take(i + 1) =~= expand_home(
                tokens_view(tokens@),
                env.home_dir@,
            ).take(i as int).push(expand_token(tokens@[i as int]@, env.home_dir@)));
        }
        i += 1;
    }
    assert(expand_home(tokens_view(tokens@), env.home_dir@).take(i as int) =~= expand_home(
        tokens_view(tokens@),
        env.home_dir@,
    ));
    out
}

pub open spec fn at_token(head: Seq<char>, i: usize) -> Seq<char> {
    head + decimal(i as int) + ")"@
}

pub open spec fn parse_error_text(e: ParseError) -> Seq<char> {
    match e {
        ParseError::ParseFinished(i) => at_token("parser does not reach the end of commands (finished at token "@, i),
        ParseError::CommandIsEmpty(i) => at_token("command is empty (at token "@, i),
        ParseError::InvalidToken(i) => at_token("token is invalid (at token "@, i),
        ParseError::MultiRedirect(i) => at_token("redirected multi time (at token "@, i),
        ParseError::RedirectIsEmpty(i) => at_token("redirect target is empty (at token "@, i),
    }
}

pub open spec fn cd_error_text(e: CdError) -> Seq<char> {
    match e {
        CdError::MissingArgugment => "missing argument"@,
        CdError::TooManyArgument(n) => "too many argument (expected 1, found: "@ + decimal(n as int) + ")"@,
        CdError::ExecError(s) => s@,
    }
}

pub open spec fn history_error_text(e: HistoryError) -> Seq<char> {
    match e {
        HistoryError::TooManyArgument(n) => "too many argument (expected 0, found: "@ + decimal(n as int) + ")"@,
        HistoryError::ExecError(s) => s@,
    }
}

pub open spec fn execution_error_text(e: ExecutionError) -> Seq<char> {
    match e {
        ExecutionError::InvalidOperator(s) => "invalid operator \""@ + s@ + "\""@,
        ExecutionError::InputRedirectError(s) => "failed to open a input file: "@ + s@,
        ExecutionError::OutputRedirectError(s) => "failed to open a output file: "@ + s@,
        ExecutionError::DupError(s) => "failed to duplicate a file descriptor: "@ + s@,
        ExecutionError::CloseError(s) => "failed to close a file descriptor: "@ + s@,
        ExecutionError::NotFoundError(s) => "command not found: "@ + s@,
        ExecutionError::ExecError(s) => "error caused while executing: "@ + s@,
        ExecutionError::ExecOtherError(s) => "error caused in \""@ + s@ + "\""@,
        ExecutionError::InterruptError => "interrupted"@,
        ExecutionError::QuitError => "quited"@,
        ExecutionError::ForkError(s) => "fork error ("@ + s@ + ")"@,
        ExecutionError::PipeError(s) => "pipe error ("@ + s@ + ")"@,
        ExecutionError::CommandIsEmpty => "command is empty"@,
        ExecutionError::StatementIsEmpty => "statement is empty"@,
        ExecutionError::CdError(_) => "cd error"@,
        ExecutionError::HistoryError(e) => "history: "@ + history_error_text(e),
        ExecutionError::Exit => "exit"@,
    }
}

/// The message the shell prints for an error.
pub open spec fn error_text(e: ErrorEnum) -> Seq<char> {
    match e {
        ErrorEnum::ParseError(p) => "ParseError: "@ + parse_error_text(p),
        ErrorEnum::LexError(_) => "LexError"@,
        ErrorEnum::ExecutionError(ExecutionError::CdError(c)) => "cd: "@ + cd_error_text(c),
        ErrorEnum::ExecutionError(ExecutionError::InterruptError) => "interrupted"@,
        ErrorEnum::ExecutionError(ExecutionError::QuitError) => "quited"@,
        ErrorEnum::ExecutionError(x) => "ExecutionError: "@ + execution_error_text(x),
    }
}

fn joined(a: &str, b: &str) -> (r: String)
    ensures
        r@ == a@ + b@,
{
    let mut r = String::from_str(a);
    r.append(b);
    r
}

fn joined3(a: &str, b: &str, c: &str) -> (r: String)
    ensures
        r@ == a@ + b@ + c@,
{
    let mut r = String::from_str(a);
    r.append(b);
    r.append(c);
    r
}

fn at_token_text(head: &str, i: usize) -> (r: String)
    ensures
        r@ == at_token(head@, i),
{
    let d = usize_text(i);
    joined3(head, d.as_str(), ")")
}

impl ErrorEnum {
    pub fn message(&self) -> (r: String)
        ensures
            r@ == error_text(*self),
    {
        match self {
            ErrorEnum::ParseError(p) => {
                let t = match p {
                    ParseError::ParseFinished(i) => at_token_text(
                        "parser does not reach the end of commands (finished at token ",
                        *i,
                    ),
                    ParseError::CommandIsEmpty(i) => at_token_text("command is empty (at token ", *i),
                    ParseError::InvalidToken(i) => at_token_text("token is invalid (at token ", *i),
                    ParseError::MultiRedirect(i) => at_token_text("redirected multi time (at token ", *i),
                    ParseError::RedirectIsEmpty(i) => at_token_text("redirect target is empty (at token ", *i),
                };
                joined("ParseError: ", t.as_str())
            },
            ErrorEnum::LexError(_) => String::from_str("LexError"),
            ErrorEnum::ExecutionError(ExecutionError::CdError(c)) => {
                let t = match c {
                    CdError::MissingArgugment => String::from_str("missing argument"),
                    CdError::TooManyArgument(n) => {
                        let d = usize_text(*n);
                        joined3("too many argument (expected 1, found: ", d.as_str(), ")")
                    },
                    CdError::ExecError(s) => s.clone(),
                };
                joined("cd: ", t.as_str())
            },
            ErrorEnum::ExecutionError(ExecutionError::InterruptError) => String::from_str("interrupted"),
            ErrorEnum::ExecutionError(ExecutionError::QuitError) => String::from_str("quited"),
            ErrorEnum::ExecutionError(x) => {
                let t = match x {
                    ExecutionError::InvalidOperator(s) => joined3("invalid operator \"", s.as_str(), "\""),
                    ExecutionError::InputRedirectError(s) => joined("failed to open a input file: ", s.as_str()),
                    ExecutionError::OutputRedirectError(s) => joined("failed to open a output file: ", s.as_str()),
                    ExecutionError::DupError(s) => joined("failed to duplicate a file descriptor: ", s.as_str()),
                    ExecutionError::CloseError(s) => joined("failed to close a file descriptor: ", s.as_str()),
                    ExecutionError::NotFoundError(s) => joined("command not found: ", s.as_str()),
                    ExecutionError::ExecError(s) => joined("error caused while executing: ", s.as_str()),
                    ExecutionError::ExecOtherError(s) => joined3("error caused in \"", s.as_str(), "\""),
                    ExecutionError::InterruptError => String::from_str("interrupted"),
                    ExecutionError::QuitError => String::from_str("quited"),
                    ExecutionError::ForkError(s) => joined3("fork error (", s.as_str(), ")"),
                    ExecutionError::PipeError(s) => joined3("pipe error (", s.as_str(), ")"),
                    ExecutionError::CommandIsEmpty => String::from_str("command is empty"),
                    ExecutionError::StatementIsEmpty => String::from_str("statement is empty"),
                    ExecutionError::CdError(_) => String::from_str("cd error"),
                    ExecutionError::HistoryError(h) => {
                        let ht = match h {
                            HistoryError::TooManyArgument(n) => {
                                let d = usize_text(*n);
                                joined3("too many argument (expected 0, found: ", d.as_str(), ")")
                            },
                            HistoryError::ExecError(s) => s.clone(),
                        };
                        joined("history: ", ht.as_str())
                    },
                    ExecutionError::Exit => String::from_str("exit"),
                };
                joined("ExecutionError: ", t.as_str())
            },
        }
    }
}

} // verus!
