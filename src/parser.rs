use vstd::prelude::*;
use crate::lexer::{
    is_word, law_relex_tokens, lex, lex_seq, op_at, tokens_text, tokens_view, well_formed_tokens,
    Operator, Token, TokenV,
};
use crate::utils::{expand_home, replace_tokens, Env, ErrorEnum};

verus! {

/*
   Statement  := (";"* Commands ("&"|ε))*
   Commands   := PipeBlock (("&&"|"||") Commands)?
   PipeBlock  := Command ("<" Str)? (Redir+ | "|" Pipe Redir*)?
   Pipe       := Command ("|" Pipe)?
   Redir      := (">"|"2>") Str
   Command    := Str+

   After an element of a Statement comes the end, `;`, or, after `&`, the
   next element.
*/

#[derive(Clone, Copy, PartialEq, Eq, Structural, Debug)]
pub enum ParseError {
    /// Parsing stopped before the last token.
    ParseFinished(usize),
    /// A word was expected but an operator or the end came.
    CommandIsEmpty(usize),
    /// An operator stands where none may.
    InvalidToken(usize),
    /// `>` or `2>` was given twice in one pipeline.
    MultiRedirect(usize),
    /// A redirection operator has no word after it.
    RedirectIsEmpty(usize),
}

#[derive(Clone, Debug)]
pub struct Command {
    pub str: Vec<String>,
}

#[derive(Debug)]
pub struct Pipe {
    pub command: Command,
    pub tail: Option<Box<Pipe>>,
}

#[derive(Debug)]
pub struct PipeBlock {
    pub command: Command,
    pub tail: Option<Pipe>,
    pub from: Option<String>,
    pub to: Option<String>,
    pub to_err: Option<String>,
}

#[derive(Debug)]
pub struct Commands {
    pub head: PipeBlock,
    pub tail: Option<(Operator, Box<Commands>)>,
}

#[derive(Debug)]
pub struct Statement(pub Vec<(Commands, bool)>);

/// A pipeline with its redirections, as mathematical values.
pub struct PipeBlockV {
    pub command: Seq<Seq<char>>,
    pub tail: Option<Seq<Seq<Seq<char>>>>,
    pub from: Option<Seq<char>>,
    pub to: Option<Seq<char>>,
    pub to_err: Option<Seq<char>>,
}

/// A chain of pipelines: the first, then each operator with the pipeline
/// that follows it.
pub struct CommandsV {
    pub head: PipeBlockV,
    pub rest: Seq<(Operator, PipeBlockV)>,
}

pub open spec fn opt_view(o: Option<String>) -> Option<Seq<char>> {
    match o {
        Some(s) => Some(s@),
        None => None,
    }
}

impl View for Command {
    type V = Seq<Seq<char>>;

    open spec fn view(&self) -> Seq<Seq<char>> {
        self.str@.map_values(|s: String| s@)
    }
}

impl Pipe {
    /// The argument vectors of the stages, in order.
    pub open spec fn spec_stages(&self) -> Seq<Seq<Seq<char>>>
        decreases self,
    {
        match &self.tail {
            None => seq![self.command@],
            Some(t) => seq![self.command@] + t.spec_stages(),
        }
    }
}

impl View for Pipe {
    type V = Seq<Seq<Seq<char>>>;

    open spec fn view(&self) -> Seq<Seq<Seq<char>>> {
        self.spec_stages()
    }
}

impl View for PipeBlock {
    type V = PipeBlockV;

    open spec fn view(&self) -> PipeBlockV {
        PipeBlockV {
            command: self.command@,
            tail: match &self.tail {
                Some(p) => Some(p@),
                None => None,
            },
            from: opt_view(self.from),
            to: opt_view(self.to),
            to_err: opt_view(self.to_err),
        }
    }
}

impl Commands {
    pub open spec fn spec_chain(&self) -> CommandsV
        decreases self,
    {
        match &self.tail {
            None => CommandsV { head: self.head@, rest: Seq::empty() },
            Some((op, t)) => {
                let tv = t.spec_chain();
                CommandsV { head: self.head@, rest: seq![(*op, tv.head)] + tv.rest }
            },
        }
    }
}

impl View for Commands {
    type V = CommandsV;

    open spec fn view(&self) -> CommandsV {
        self.spec_chain()
    }
}

impl View for Statement {
    type V = Seq<(CommandsV, bool)>;

    open spec fn view(&self) -> Seq<(CommandsV, bool)> {
        self.0@.map_values(|e: (Commands, bool)| (e.0@, e.1))
    }
}

pub open spec fn is_str(t: TokenV) -> bool {
    t is Str
}

pub open spec fn is_op(t: TokenV, op: Operator) -> bool {
    t == TokenV::Op(op)
}

/// Where the run of words that starts at `i` ends.
pub open spec fn words_end(ts: Seq<TokenV>, i: int) -> int
    decreases ts.len() - i,
{
    if 0 <= i < ts.len() && is_str(ts[i]) {
        words_end(ts, i + 1)
    } else {
        i
    }
}

pub proof fn lemma_words_end(ts: Seq<TokenV>, i: int)
    requires
        0 <= i <= ts.len(),
    ensures
        i <= words_end(ts, i) <= ts.len(),
        forall|k: int| i <= k < words_end(ts, i) ==> is_str(#[trigger] ts[k]),
        words_end(ts, i) < ts.len() ==> !is_str(ts[words_end(ts, i)]),
    decreases ts.len() - i,
{
    if i < ts.len() && is_str(ts[i]) {
        lemma_words_end(ts, i + 1);
    }
}

pub open spec fn words(ts: Seq<TokenV>, i: int, j: int) -> Seq<Seq<char>> {
    ts.subrange(i, j).map_values(|t: TokenV| t->Str_0)
}

pub open spec fn spec_parse_command(ts: Seq<TokenV>, i: int) -> Result<
    (Seq<Seq<char>>, int),
    ParseError,
> {
    let j = words_end(ts, i);
    if j == i {
        Err(ParseError::CommandIsEmpty(i as usize))
    } else {
        Ok((words(ts, i, j), j))
    }
}

pub open spec fn spec_parse_pipe(ts: Seq<TokenV>, i: int) -> Result<
    (Seq<Seq<Seq<char>>>, int),
    ParseError,
>
    decreases ts.len() - i,
{
    match spec_parse_command(ts, i) {
        Err(e) => Err(e),
        Ok((c, j)) => {
            if i < j < ts.len() && is_op(ts[j], Operator::Pipe) {
                match spec_parse_pipe(ts, j + 1) {
                    Err(e) => Err(e),
                    Ok((p, k)) => Ok((seq![c] + p, k)),
                }
            } else {
                Ok((seq![c], j))
            }
        },
    }
}

/// The `>` and `2>` redirections from `i` on, given the targets bound so far.
pub open spec fn spec_parse_redirs(
    ts: Seq<TokenV>,
    i: int,
    to: Option<Seq<char>>,
    to_err: Option<Seq<char>>,
) -> Result<(Option<Seq<char>>, Option<Seq<char>>, int), ParseError>
    decreases ts.len() - i,
{
    if 0 <= i < ts.len() && (is_op(ts[i], Operator::Greater) || is_op(
        ts[i],
        Operator::ErrorRedirect,
    )) {
        if i + 1 < ts.len() && is_str(ts[i + 1]) {
            let target = ts[i + 1]->Str_0;
            if is_op(ts[i], Operator::Greater) {
                if to is Some {
                    Err(ParseError::MultiRedirect(i as usize))
                } else {
                    spec_parse_redirs(ts, i + 2, Some(target), to_err)
                }
            } else {
                if to_err is Some {
                    Err(ParseError::MultiRedirect(i as usize))
                } else {
                    spec_parse_redirs(ts, i + 2, to, Some(target))
                }
            }
        } else {
            Err(ParseError::RedirectIsEmpty(i as usize))
        }
    } else {
        Ok((to, to_err, i))
    }
}

/// The input redirection that may follow the first command.
pub open spec fn spec_parse_from(ts: Seq<TokenV>, i: int) -> Result<
    (Option<Seq<char>>, int),
    ParseError,
> {
    if 0 <= i < ts.len() && is_op(ts[i], Operator::Less) {
        if i + 1 < ts.len() && is_str(ts[i + 1]) {
            Ok((Some(ts[i + 1]->Str_0), i + 2))
        } else {
            Err(ParseError::RedirectIsEmpty(i as usize))
        }
    } else {
        Ok((None, i))
    }
}

/// `>` or `2>` stands where a command should start, and no word follows it.
pub open spec fn dangling_redirect(ts: Seq<TokenV>, i: int) -> bool {
    &&& 0 <= i < ts.len()
    &&& is_op(ts[i], Operator::Greater) || is_op(ts[i], Operator::ErrorRedirect)
    &&& !(i + 1 < ts.len() && is_str(ts[i + 1]))
}

pub open spec fn spec_parse_pipe_block(ts: Seq<TokenV>, i: int) -> Result<
    (PipeBlockV, int),
    ParseError,
> {
    match spec_parse_command(ts, i) {
        Err(e) => if dangling_redirect(ts, i) {
            Err(ParseError::RedirectIsEmpty(i as usize))
        } else {
            Err(e)
        },
        Ok((c, j)) => match spec_parse_from(ts, j) {
            Err(e) => Err(e),
            Ok((from, j2)) => match spec_parse_redirs(ts, j2, None, None) {
                Err(e) => Err(e),
                Ok((to, to_err, k)) => {
                    if to is Some || to_err is Some || !(0 <= k < ts.len() && is_op(
                        ts[k],
                        Operator::Pipe,
                    )) {
                        Ok((PipeBlockV { command: c, tail: None, from, to, to_err }, k))
                    } else {
                        match spec_parse_pipe(ts, k + 1) {
                            Err(e) => Err(e),
                            Ok((p, m)) => match spec_parse_redirs(ts, m, None, None) {
                                Err(e) => Err(e),
                                Ok((to2, to_err2, m2)) => Ok(
                                    (
                                        PipeBlockV {
                                            command: c,
                                            tail: Some(p),
                                            from,
                                            to: to2,
                                            to_err: to_err2,
                                        },
                                        m2,
                                    ),
                                ),
                            },
                        }
                    }
                },
            },
        },
    }
}

pub open spec fn is_conj(t: TokenV) -> bool {
    is_op(t, Operator::AndAnd) || is_op(t, Operator::OrOr)
}

pub open spec fn spec_parse_commands(ts: Seq<TokenV>, i: int) -> Result<(CommandsV, int), ParseError>
    decreases ts.len() - i,
{
    match spec_parse_pipe_block(ts, i) {
        Err(e) => Err(e),
        Ok((b, j)) => {
            if i < j < ts.len() && is_conj(ts[j]) {
                match spec_parse_commands(ts, j + 1) {
                    Err(e) => Err(e),
                    Ok((t, k)) => Ok(
                        (CommandsV { head: b, rest: seq![(ts[j]->Op_0, t.head)] + t.rest }, k),
                    ),
                }
            } else {
                Ok((CommandsV { head: b, rest: Seq::empty() }, j))
            }
        },
    }
}

/// What may follow an element of a statement that ends before `k`: the end,
/// `;`, or, after `&`, a word that starts the next element.
pub open spec fn spec_after_element(ts: Seq<TokenV>, k: int, background: bool) -> Option<
    ParseError,
> {
    if 0 <= k < ts.len() && !is_op(ts[k], Operator::SemiColon) && !(background && is_str(
        ts[k],
    )) {
        if is_str(ts[k]) {
            Some(ParseError::ParseFinished(k as usize))
        } else {
            Some(ParseError::InvalidToken(k as usize))
        }
    } else {
        None
    }
}

pub open spec fn spec_parse_statement(ts: Seq<TokenV>, i: int) -> Result<
    Seq<(CommandsV, bool)>,
    ParseError,
>
    decreases ts.len() - i,
{
    if i < 0 || i >= ts.len() {
        Ok(Seq::empty())
    } else if is_op(ts[i], Operator::SemiColon) {
        spec_parse_statement(ts, i + 1)
    } else {
        match spec_parse_commands(ts, i) {
            Err(e) => Err(e),
            Ok((c, j)) => {
                let background = 0 <= j < ts.len() && is_op(ts[j], Operator::And);
                let k = if background {
                    j + 1
                } else {
                    j
                };
                match spec_after_element(ts, k, background) {
                    Some(e) => Err(e),
                    None => {
                        if i < k <= ts.len() {
                            match spec_parse_statement(ts, k) {
                                Err(e) => Err(e),
                                Ok(s) => Ok(seq![(c, background)] + s),
                            }
                        } else {
                            Ok(seq![(c, background)])
                        }
                    },
                }
            },
        }
    }
}

pub open spec fn words_view(v: Seq<String>) -> Seq<Seq<char>> {
    v.map_values(|s: String| s@)
}

fn parse_command(tokens: &Vec<Token>, l: &mut usize) -> (r: Result<Command, ParseError>)
    requires
        *old(l) <= tokens@.len(),
    ensures
        *old(l) <= *final(l) <= tokens@.len(),
        r is Ok ==> *old(l) < *final(l),
        r is Err ==> *final(l) == *old(l),
        match spec_parse_command(tokens_view(tokens@), *old(l) as int) {
            Ok((c, j)) => r is Ok && r->Ok_0@ == c && *final(l) == j,
            Err(e) => r == Err::<Command, ParseError>(e),
        },
{
    let ghost ts = tokens_view(tokens@);
    let ghost i0 = *l as int;
    let mut v: Vec<String> = Vec::new();
    while *l < tokens.len()
        invariant
            0 <= i0 <= *l <= tokens@.len(),
            ts == tokens_view(tokens@),
            words_end(ts, i0) == words_end(ts, *l as int),
            words_view(v@) == words(ts, i0, *l as int),
        ensures
            0 <= i0 <= *l <= tokens@.len(),
            words_end(ts, i0) == words_end(ts, *l as int),
            words_view(v@) == words(ts, i0, *l as int),
            *l < tokens@.len() ==> !is_str(ts[*l as int]),
        decreases tokens@.len() - *l,
    {
        assert(ts[*l as int] == tokens@[*l as int]@);
        let ghost prev = v@;
        match &tokens[*l] {
            Token::Operator(_) => {
                break;
            },
            Token::String(s) => {
                v.push(s.clone());
            },
        }
        proof {
            let k = *l as int;
            let w = ts[k]->Str_0;
            assert(ts.subrange(i0, k + 1) =~= ts.subrange(i0, k).push(ts[k]));
            assert(words(ts, i0, k + 1) =~= words(ts, i0, k).push(w));
            assert(words_view(v@) =~= words_view(prev).push(w));
        }
        *l += 1;
    }
    if v.len() == 0 {
        Err(ParseError::CommandIsEmpty(*l))
    } else {
        Ok(Command { str: v })
    }
}

fn parse_pipe(tokens: &Vec<Token>, l: &mut usize) -> (r: Result<Pipe, ParseError>)
    requires
        *old(l) <= tokens@.len(),
    ensures
        *old(l) <= *final(l) <= tokens@.len(),
        match spec_parse_pipe(tokens_view(tokens@), *old(l) as int) {
            Ok((p, j)) => r is Ok && r->Ok_0@ == p && *final(l) == j,
            Err(e) => r == Err::<Pipe, ParseError>(e),
        },
    decreases tokens@.len() - *old(l),
{
    let ghost ts = tokens_view(tokens@);
    proof {
        lemma_words_end(ts, *l as int);
    }
    let command = match parse_command(tokens, l) {
        Ok(c) => c,
        Err(e) => {
            return Err(e);
        },
    };
    if *l < tokens.len() {
        assert(ts[*l as int] == tokens@[*l as int]@);
        if let Token::Operator(Operator::Pipe) = tokens[*l] {
            *l += 1;
            let tail = match parse_pipe(tokens, l) {
                Ok(t) => t,
                Err(e) => {
                    return Err(e);
                },
            };
            return Ok(Pipe { command, tail: Some(Box::new(tail)) });
        }
    }
    Ok(Pipe { command, tail: None })
}

fn parse_redirection(
    tokens: &Vec<Token>,
    l: &mut usize,
    to: &mut Option<String>,
    to_err: &mut Option<String>,
) -> (r: Option<ParseError>)
    requires
        *old(l) <= tokens@.len(),
    ensures
        *old(l) <= *final(l) <= tokens@.len(),
        match spec_parse_redirs(
            tokens_view(tokens@),
            *old(l) as int,
            opt_view(*old(to)),
            opt_view(*old(to_err)),
        ) {
            Ok((t, te, k)) => r is None && opt_view(*final(to)) == t && opt_view(*final(to_err))
                == te && *final(l) == k,
            Err(e) => r == Some(e),
        },
{
    let ghost ts = tokens_view(tokens@);
    let ghost goal = spec_parse_redirs(ts, *l as int, opt_view(*to), opt_view(*to_err));
    loop
        invariant
            *old(l) <= *l <= tokens@.len(),
            ts == tokens_view(tokens@),
            goal == spec_parse_redirs(ts, *l as int, opt_view(*to), opt_view(*to_err)),
            goal == spec_parse_redirs(
                ts,
                *old(l) as int,
                opt_view(*old(to)),
                opt_view(*old(to_err)),
            ),
        decreases tokens@.len() - *l,
    {
        proof {
            if *l < tokens@.len() {
                assert(ts[*l as int] == tokens@[*l as int]@);
            }
            if *l + 1 < tokens@.len() {
                assert(ts[*l + 1] == tokens@[*l + 1]@);
            }
        }
        if tokens.len() - *l < 2 {
            if *l < tokens.len() {
                match &tokens[*l] {
                    Token::Operator(Operator::Greater) | Token::Operator(
                        Operator::ErrorRedirect,
                    ) => {
                        return Some(ParseError::RedirectIsEmpty(*l));
                    },
                    _ => {},
                }
            }
            return None;
        }
        let is_out = match &tokens[*l] {
            Token::Operator(Operator::Greater) => true,
            Token::Operator(Operator::ErrorRedirect) => false,
            _ => {
                return None;
            },
        };
        let target = match &tokens[*l + 1] {
            Token::String(s) => s.clone(),
            Token::Operator(_) => {
                return Some(ParseError::RedirectIsEmpty(*l));
            },
        };
        if is_out {
            if to.is_some() {
                return Some(ParseError::MultiRedirect(*l));
            }
            *to = Some(target);
        } else {
            if to_err.is_some() {
                return Some(ParseError::MultiRedirect(*l));
            }
            *to_err = Some(target);
        }
        *l += 2;
    }
}

fn parse_pipe_block(tokens: &Vec<Token>, l: &mut usize) -> (r: Result<PipeBlock, ParseError>)
    requires
        *old(l) <= tokens@.len(),
    ensures
        *old(l) <= *final(l) <= tokens@.len(),
        r is Ok ==> *old(l) < *final(l),
        match spec_parse_pipe_block(tokens_view(tokens@), *old(l) as int) {
            Ok((b, j)) => r is Ok && r->Ok_0@ == b && *final(l) == j,
            Err(e) => r == Err::<PipeBlock, ParseError>(e),
        },
{
    let ghost ts = tokens_view(tokens@);
    let command = match parse_command(tokens, l) {
        Ok(c) => c,
        Err(e) => {
            let i = *l;
            if i < tokens.len() {
                assert(ts[i as int] == tokens@[i as int]@);
                let redirect = match &tokens[i] {
                    Token::Operator(Operator::Greater) | Token::Operator(Operator::ErrorRedirect) => true,
                    _ => false,
                };
                if redirect {
                    let target = i + 1 < tokens.len() && match &tokens[i + 1] {
                        Token::String(_) => true,
                        Token::Operator(_) => false,
                    };
                    proof {
                        if i + 1 < tokens.len() {
                            assert(ts[i + 1] == tokens@[i + 1]@);
                        }
                    }
                    if !target {
                        return Err(ParseError::RedirectIsEmpty(i));
                    }
                }
            }
            return Err(e);
        },
    };
    let mut from: Option<String> = None;
    if *l < tokens.len() {
        if let Token::Operator(Operator::Less) = &tokens[*l] {
            if *l + 1 < tokens.len() {
                if let Token::String(s) = &tokens[*l + 1] {
                    from = Some(s.clone());
                    *l += 2;
                } else {
                    return Err(ParseError::RedirectIsEmpty(*l));
                }
            } else {
                return Err(ParseError::RedirectIsEmpty(*l));
            }
        }
    }
    let mut to: Option<String> = None;
    let mut to_err: Option<String> = None;
    if let Some(err) = parse_redirection(tokens, l, &mut to, &mut to_err) {
        return Err(err);
    }
    if to.is_some() || to_err.is_some() || *l == tokens.len() {
        return Ok(PipeBlock { command, tail: None, from, to, to_err });
    }
    if let Token::Operator(Operator::Pipe) = &tokens[*l] {
        *l += 1;
        let pipe = match parse_pipe(tokens, l) {
            Ok(p) => p,
            Err(e) => {
                return Err(e);
            },
        };
        if let Some(err) = parse_redirection(tokens, l, &mut to, &mut to_err) {
            return Err(err);
        }
        Ok(PipeBlock { command, tail: Some(pipe), from, to, to_err })
    } else {
        Ok(PipeBlock { command, tail: None, from, to, to_err })
    }
}

fn parse_commands(tokens: &Vec<Token>, l: &mut usize) -> (r: Result<Commands, ParseError>)
    requires
        *old(l) <= tokens@.len(),
    ensures
        *old(l) <= *final(l) <= tokens@.len(),
        r is Ok ==> *old(l) < *final(l),
        match spec_parse_commands(tokens_view(tokens@), *old(l) as int) {
            Ok((c, j)) => r is Ok && r->Ok_0@ == c && *final(l) == j,
            Err(e) => r == Err::<Commands, ParseError>(e),
        },
    decreases tokens@.len() - *old(l),
{
    let ghost ts = tokens_view(tokens@);
    let head = match parse_pipe_block(tokens, l) {
        Ok(b) => b,
        Err(e) => {
            return Err(e);
        },
    };
    if *l < tokens.len() {
        assert(ts[*l as int] == tokens@[*l as int]@);
        let op = match &tokens[*l] {
            Token::Operator(Operator::AndAnd) => Operator::AndAnd,
            Token::Operator(Operator::OrOr) => Operator::OrOr,
            _ => {
                return Ok(Commands { head, tail: None });
            },
        };
        *l += 1;
        let tail = match parse_commands(tokens, l) {
            Ok(t) => t,
            Err(e) => {
                return Err(e);
            },
        };
        return Ok(Commands { head, tail: Some((op, Box::new(tail))) });
    }
    Ok(Commands { head, tail: None })
}

pub open spec fn elements_view(v: Seq<(Commands, bool)>) -> Seq<(CommandsV, bool)> {
    v.map_values(|e: (Commands, bool)| (e.0@, e.1))
}

fn parse_statement(tokens: &Vec<Token>, l: &mut usize) -> (r: Result<Statement, ParseError>)
    requires
        *old(l) <= tokens@.len(),
    ensures
        match spec_parse_statement(tokens_view(tokens@), *old(l) as int) {
            Ok(s) => r is Ok && r->Ok_0@ == s,
            Err(e) => r == Err::<Statement, ParseError>(e),
        },
{
    let ghost ts = tokens_view(tokens@);
    let ghost goal = spec_parse_statement(ts, *l as int);
    let mut vec: Vec<(Commands, bool)> = Vec::new();
    while *l < tokens.len()
        invariant
            *l <= tokens@.len(),
            ts == tokens_view(tokens@),
            goal == spec_parse_statement(ts, *old(l) as int),
            match spec_parse_statement(ts, *l as int) {
                Ok(s) => goal == Ok::<Seq<(CommandsV, bool)>, ParseError>(
                    elements_view(vec@) + s,
                ),
                Err(e) => goal == Err::<Seq<(CommandsV, bool)>, ParseError>(e),
            },
        decreases tokens@.len() - *l,
    {
        let ghost i = *l as int;
        assert(ts[i] == tokens@[i]@);
        if let Token::Operator(Operator::SemiColon) = &tokens[*l] {
            *l += 1;
            continue;
        }
        let commands = match parse_commands(tokens, l) {
            Ok(c) => c,
            Err(e) => {
                return Err(e);
            },
        };
        let mut background = false;
        if *l < tokens.len() {
            assert(ts[*l as int] == tokens@[*l as int]@);
            if let Token::Operator(Operator::And) = &tokens[*l] {
                background = true;
                *l += 1;
            }
        }
        if *l < tokens.len() {
            assert(ts[*l as int] == tokens@[*l as int]@);
            match &tokens[*l] {
                Token::Operator(Operator::SemiColon) => {},
                Token::String(_) => {
                    if !background {
                        return Err(ParseError::ParseFinished(*l));
                    }
                },
                Token::Operator(_) => {
                    return Err(ParseError::InvalidToken(*l));
                },
            }
        }
        let ghost prev = vec@;
        let ghost c = commands@;
        vec.push((commands, background));
        proof {
            assert(elements_view(vec@) =~= elements_view(prev).push((c, background)));
            if let Ok(s) = spec_parse_statement(ts, *l as int) {
                assert(elements_view(prev) + (seq![(c, background)] + s) =~= elements_view(vec@)
                    + s);
            }
        }
    }
    Ok(Statement(vec))
}

/// Words separated by single spaces.
pub open spec fn join_words(ws: Seq<Seq<char>>) -> Seq<char>
    decreases ws.len(),
{
    if ws.len() == 0 {
        Seq::empty()
    } else if ws.len() == 1 {
        ws[0]
    } else {
        ws[0] + seq![' '] + join_words(ws.drop_first())
    }
}

/// Stages separated by ` | `.
pub open spec fn pipe_text(p: Seq<Seq<Seq<char>>>) -> Seq<char>
    decreases p.len(),
{
    if p.len() == 0 {
        Seq::empty()
    } else if p.len() == 1 {
        join_words(p[0])
    } else {
        join_words(p[0]) + seq![' ', '|', ' '] + pipe_text(p.drop_first())
    }
}

pub open spec fn redirect_text(op: Seq<char>, target: Option<Seq<char>>) -> Seq<char> {
    match target {
        Some(t) => seq![' '] + op + seq![' '] + t,
        None => Seq::empty(),
    }
}

pub open spec fn block_text(b: PipeBlockV) -> Seq<char> {
    join_words(b.command) + redirect_text(seq!['<'], b.from) + match b.tail {
        Some(p) => seq![' ', '|', ' '] + pipe_text(p),
        None => Seq::empty(),
    } + redirect_text(seq!['>'], b.to) + redirect_text(seq!['2', '>'], b.to_err)
}

/// The text of the pipelines that follow the first one of a chain.
pub open spec fn chain_rest_text(rest: Seq<(Operator, PipeBlockV)>) -> Seq<char>
    decreases rest.len(),
{
    if rest.len() == 0 {
        Seq::empty()
    } else {
        seq![' '] + rest[0].0.spec_text() + seq![' '] + block_text(rest[0].1) + chain_rest_text(
            rest.drop_first(),
        )
    }
}

pub open spec fn chain_text(c: CommandsV) -> Seq<char> {
    block_text(c.head) + chain_rest_text(c.rest)
}

/// An element of a statement: `; `, its chain, and `&` right after it when
/// it runs in the background.
pub open spec fn element_text(e: (CommandsV, bool)) -> Seq<char> {
    seq![';', ' '] + chain_text(e.0) + if e.1 {
        seq!['&']
    } else {
        Seq::empty()
    }
}

/// The elements of a statement, each written as `element_text` says, one
/// after the other.
pub open spec fn statement_text(s: Seq<(CommandsV, bool)>) -> Seq<char>
    decreases s.len(),
{
    if s.len() == 0 {
        Seq::empty()
    } else {
        statement_text(s.drop_last()) + element_text(s.last())
    }
}

fn push_str(r: &mut String, s: &str)
    ensures
        final(r)@ == old(r)@ + s@,
{
    r.append(s);
}

fn push_redirect(r: &mut String, op: &str, target: &Option<String>)
    ensures
        final(r)@ == old(r)@ + redirect_text(op@, opt_view(*target)),
{
    if let Some(t) = target {
        proof {
            reveal_strlit(" ");
        }
        push_str(r, " ");
        push_str(r, op);
        push_str(r, " ");
        push_str(r, t.as_str());
        assert(final(r)@ =~= old(r)@ + redirect_text(op@, opt_view(*target)));
    } else {
        assert(r@ =~= old(r)@ + redirect_text(op@, opt_view(*target)));
    }
}

impl Command {
    pub fn to_string(&self) -> (r: String)
        ensures
            r@ == join_words(self@),
    {
        let n = self.str.len();
        let mut r = String::new();
        if n == 0 {
            return r;
        }
        let mut i: usize = n - 1;
        r.append(self.str[i].as_str());
        proof {
            reveal_strlit(" ");
            assert(self@.skip(i as int) =~= seq![self@[i as int]]);
        }
        while i > 0
            invariant
                0 <= i < n,
                n == self.str@.len(),
                r@ == join_words(self@.skip(i as int)),
            decreases i,
        {
            proof {
                reveal_strlit(" ");
            }
            i -= 1;
            let mut t = self.str[i].clone();
            t.append(" ");
            t.append(r.as_str());
            r = t;
            assert(self@.skip(i as int).drop_first() =~= self@.skip(i + 1));
        }
        assert(self@.skip(0) =~= self@);
        r
    }
}

impl Pipe {
    pub fn to_string(&self) -> (r: String)
        ensures
            r@ == pipe_text(self@),
        decreases self,
    {
        let mut r = self.command.to_string();
        match &self.tail {
            Some(t) => {
                proof {
                    reveal_strlit(" | ");
                }
                r.append(" | ");
                let rest = t.to_string();
                r.append(rest.as_str());
                assert(self@.drop_first() =~= t@);
                assert(r@ =~= pipe_text(self@));
            },
            None => {},
        }
        r
    }
}

impl PipeBlock {
    pub fn to_string(&self) -> (r: String)
        ensures
            r@ == block_text(self@),
    {
        let mut r = self.command.to_string();
        proof {
            reveal_strlit("<");
            reveal_strlit(">");
            reveal_strlit("2>");
            reveal_strlit(" | ");
        }
        push_redirect(&mut r, "<", &self.from);
        let ghost before_tail = r@;
        if let Some(p) = &self.tail {
            r.append(" | ");
            let t = p.to_string();
            r.append(t.as_str());
        }
        assert(r@ =~= before_tail + match self@.tail {
            Some(p) => seq![' ', '|', ' '] + pipe_text(p),
            None => Seq::empty(),
        });
        push_redirect(&mut r, ">", &self.to);
        push_redirect(&mut r, "2>", &self.to_err);
        assert(r@ =~= block_text(self@));
        r
    }
}

impl Commands {
    #[verifier::rlimit(50)]
    pub fn to_string(&self) -> (r: String)
        ensures
            r@ == chain_text(self@),
        decreases self,
    {
        let mut r = self.head.to_string();
        match &self.tail {
            None => {
                assert(r@ =~= chain_text(self@));
            },
            Some((op, t)) => {
                proof {
                    reveal_strlit(" ");
                }
                r.append(" ");
                r.append(op.to_str());
                r.append(" ");
                let rest = t.to_string();
                r.append(rest.as_str());
                proof {
                    let tv = t.spec_chain();
                    let sv = self.spec_chain();
                    assert(sv.rest[0] == (*op, tv.head));
                    assert(sv.rest.drop_first() =~= tv.rest);
                    assert(chain_rest_text(sv.rest) == seq![' '] + op.spec_text() + seq![' ']
                        + block_text(tv.head) + chain_rest_text(tv.rest));
                    assert(r@ =~= chain_text(sv));
                }
            },
        }
        r
    }
}

impl Statement {
    pub fn to_string(&self) -> (r: String)
        ensures
            r@ == statement_text(self@),
    {
        let n = self.0.len();
        let mut r = String::new();
        let mut i: usize = 0;
        assert(self@.take(0) =~= Seq::<(CommandsV, bool)>::empty());
        while i < n
            invariant
                0 <= i <= n,
                n == self.0@.len(),
                r@ == statement_text(self@.take(i as int)),
            decreases n - i,
        {
            proof {
                reveal_strlit("; ");
                reveal_strlit("&");
            }
            let ghost before = r@;
            r.append("; ");
            let t = self.0[i].0.to_string();
            r.append(t.as_str());
            if self.0[i].1 {
                r.append("&");
            }
            assert(self@.take(i + 1).drop_last() =~= self@.take(i as int));
            assert(self@.take(i + 1).last() == self@[i as int]);
            assert(r@ =~= before + element_text(self@[i as int]));
            i += 1;
        }
        assert(self@.take(n as int) =~= self@);
        r
    }
}

/// Parses tokens after `~` expansion; any error comes as `ParseError`.
pub fn make_parse_tree_from_tokens(tokens: Vec<Token>, env: &Env) -> (r: Result<Statement, ErrorEnum>)
    ensures
        match spec_parse_statement(expand_home(tokens_view(tokens@), env.home_dir@), 0) {
            Ok(s) => r is Ok && r->Ok_0@ == s,
            Err(e) => r == Err::<Statement, ErrorEnum>(ErrorEnum::ParseError(e)),
        },
{
    let tokens = replace_tokens(tokens, env);
    let mut i: usize = 0;
    match parse_statement(&tokens, &mut i) {
        Ok(stmt) => Ok(stmt),
        Err(err) => Err(ErrorEnum::ParseError(err)),
    }
}

/// Lexes and parses a line.
pub fn make_parse_tree_from_str(s: &str, env: &Env) -> (r: Result<Statement, ErrorEnum>)
    ensures
        match spec_parse_statement(expand_home(lex_seq(s@), env.home_dir@), 0) {
            Ok(st) => r is Ok && r->Ok_0@ == st,
            Err(e) => r == Err::<Statement, ErrorEnum>(ErrorEnum::ParseError(e)),
        },
{
    match lex(s) {
        Ok(tokens) => make_parse_tree_from_tokens(tokens, env),
        Err(err) => Err(ErrorEnum::LexError(err)),
    }
}

/// The tokens of a statement as its text writes them.
pub open spec fn words_tokens(ws: Seq<Seq<char>>) -> Seq<TokenV> {
    ws.map_values(|w: Seq<char>| TokenV::Str(w))
}

pub open spec fn pipe_tokens(p: Seq<Seq<Seq<char>>>) -> Seq<TokenV>
    decreases p.len(),
{
    if p.len() == 0 {
        Seq::empty()
    } else if p.len() == 1 {
        words_tokens(p[0])
    } else {
        words_tokens(p[0]) + seq![TokenV::Op(Operator::Pipe)] + pipe_tokens(p.drop_first())
    }
}

pub open spec fn redirect_tokens(op: Operator, target: Option<Seq<char>>) -> Seq<TokenV> {
    match target {
        Some(t) => seq![TokenV::Op(op), TokenV::Str(t)],
        None => Seq::empty(),
    }
}

pub open spec fn tail_tokens(tail: Option<Seq<Seq<Seq<char>>>>) -> Seq<TokenV> {
    match tail {
        Some(p) => seq![TokenV::Op(Operator::Pipe)] + pipe_tokens(p),
        None => Seq::empty(),
    }
}

pub open spec fn block_tokens(b: PipeBlockV) -> Seq<TokenV> {
    words_tokens(b.command) + redirect_tokens(Operator::Less, b.from) + tail_tokens(b.tail)
        + redirect_tokens(Operator::Greater, b.to) + redirect_tokens(Operator::ErrorRedirect, b.to_err)
}

pub open spec fn rest_tokens(rest: Seq<(Operator, PipeBlockV)>) -> Seq<TokenV>
    decreases rest.len(),
{
    if rest.len() == 0 {
        Seq::empty()
    } else {
        seq![TokenV::Op(rest[0].0)] + block_tokens(rest[0].1) + rest_tokens(rest.drop_first())
    }
}

pub open spec fn chain_tokens(c: CommandsV) -> Seq<TokenV> {
    block_tokens(c.head) + rest_tokens(c.rest)
}

pub open spec fn element_tokens(e: (CommandsV, bool)) -> Seq<TokenV> {
    seq![TokenV::Op(Operator::SemiColon)] + chain_tokens(e.0) + if e.1 {
        seq![TokenV::Op(Operator::And)]
    } else {
        Seq::empty()
    }
}

pub open spec fn statement_tokens(s: Seq<(CommandsV, bool)>) -> Seq<TokenV>
    decreases s.len(),
{
    if s.len() == 0 {
        Seq::empty()
    } else {
        statement_tokens(s.drop_last()) + element_tokens(s.last())
    }
}

/// A word that the shell reads back as itself: a word of the lexer that
/// does not start with `~`.
pub open spec fn plain_word(w: Seq<char>) -> bool {
    is_word(w) && w[0] != '~'
}

pub open spec fn plain_opt(o: Option<Seq<char>>) -> bool {
    match o {
        Some(w) => plain_word(w),
        None => true,
    }
}

pub open spec fn valid_command(c: Seq<Seq<char>>) -> bool {
    c.len() > 0 && forall|i: int| 0 <= i < c.len() ==> plain_word(#[trigger] c[i])
}

pub open spec fn valid_pipe(p: Seq<Seq<Seq<char>>>) -> bool {
    p.len() > 0 && forall|i: int| 0 <= i < p.len() ==> valid_command(#[trigger] p[i])
}

pub open spec fn valid_block(b: PipeBlockV) -> bool {
    &&& valid_command(b.command)
    &&& match b.tail {
        Some(p) => valid_pipe(p),
        None => true,
    }
    &&& plain_opt(b.from)
    &&& plain_opt(b.to)
    &&& plain_opt(b.to_err)
}

pub open spec fn valid_chain(c: CommandsV) -> bool {
    &&& valid_block(c.head)
    &&& forall|i: int|
        0 <= i < c.rest.len() ==> is_conj(TokenV::Op(#[trigger] c.rest[i].0)) && valid_block(c.rest[i].1)
}

/// A statement built by hand that the shell can write and read back: its
/// commands are not empty, its words are plain words, and its chains are
/// joined by `&&` and `||`.
pub open spec fn valid_statement(s: Seq<(CommandsV, bool)>) -> bool {
    forall|i: int| 0 <= i < s.len() ==> valid_chain(#[trigger] s[i].0)
}

proof fn lemma_tokens_text_concat(a: Seq<TokenV>, b: Seq<TokenV>)
    requires
        a.len() > 0,
        b.len() > 0,
    ensures
        tokens_text(a + b) == tokens_text(a) + seq![' '] + tokens_text(b),
    decreases a.len(),
{
    assert((a + b)[0] == a[0]);
    if a.len() == 1 {
        assert((a + b).drop_first() =~= b);
    } else {
        assert((a + b).drop_first() =~= a.drop_first() + b);
        lemma_tokens_text_concat(a.drop_first(), b);
        assert(tokens_text(a + b) =~= tokens_text(a) + seq![' '] + tokens_text(b));
    }
}

proof fn lemma_words_text(ws: Seq<Seq<char>>)
    ensures
        join_words(ws) == tokens_text(words_tokens(ws)),
        words_tokens(ws).len() == ws.len(),
    decreases ws.len(),
{
    let t = words_tokens(ws);
    if ws.len() == 0 {
        assert(t.len() == 0);
    } else if ws.len() == 1 {
        assert(t[0] == TokenV::Str(ws[0]));
    } else {
        assert(t.drop_first() =~= words_tokens(ws.drop_first()));
        assert(t[0] == TokenV::Str(ws[0]));
        lemma_words_text(ws.drop_first());
    }
}

proof fn lemma_pipe_text(p: Seq<Seq<Seq<char>>>)
    requires
        forall|i: int| 0 <= i < p.len() ==> (#[trigger] p[i]).len() > 0,
    ensures
        pipe_text(p) == tokens_text(pipe_tokens(p)),
        p.len() > 0 ==> pipe_tokens(p).len() > 0,
    decreases p.len(),
{
    if p.len() > 0 {
        lemma_words_text(p[0]);
        assert(p[0].len() > 0);
    }
    if p.len() >= 2 {
        let rest = p.drop_first();
        assert forall|i: int| 0 <= i < rest.len() implies (#[trigger] rest[i]).len() > 0 by {
            assert(rest[i] == p[i + 1]);
        }
        lemma_pipe_text(rest);
        let w = words_tokens(p[0]);
        let bar = seq![TokenV::Op(Operator::Pipe)];
        lemma_tokens_text_concat(w, bar);
        lemma_tokens_text_concat(w + bar, pipe_tokens(rest));
        assert(tokens_text(bar) == seq!['|']);
        assert(pipe_text(p) =~= tokens_text(pipe_tokens(p)));
    }
}

proof fn lemma_append_redirect(x: Seq<TokenV>, op: Operator, t: Option<Seq<char>>)
    requires
        x.len() > 0,
    ensures
        tokens_text(x + redirect_tokens(op, t)) == tokens_text(x) + redirect_text(op.spec_text(), t),
        (x + redirect_tokens(op, t)).len() > 0,
{
    match t {
        Some(w) => {
            let r = redirect_tokens(op, t);
            lemma_tokens_text_concat(x, r);
            assert(r.drop_first() =~= seq![TokenV::Str(w)]);
            assert(r[0] == TokenV::Op(op));
            assert(tokens_text(seq![TokenV::Str(w)]) == w);
            assert(tokens_text(r) =~= op.spec_text() + seq![' '] + w);
            assert(tokens_text(x + r) =~= tokens_text(x) + redirect_text(op.spec_text(), t));
        },
        None => {
            assert(x + redirect_tokens(op, t) =~= x);
            assert(tokens_text(x) + redirect_text(op.spec_text(), t) =~= tokens_text(x));
        },
    }
}

proof fn lemma_block_text(b: PipeBlockV)
    requires
        valid_block(b),
    ensures
        block_text(b) == tokens_text(block_tokens(b)),
        block_tokens(b).len() > 0,
{
    lemma_words_text(b.command);
    let w = words_tokens(b.command);
    assert(w.len() > 0);
    lemma_append_redirect(w, Operator::Less, b.from);
    let x1 = w + redirect_tokens(Operator::Less, b.from);
    let x2 = x1 + tail_tokens(b.tail);
    match b.tail {
        Some(p) => {
            assert forall|i: int| 0 <= i < p.len() implies (#[trigger] p[i]).len() > 0 by {
                assert(valid_command(p[i]));
            }
            lemma_pipe_text(p);
            let bar = seq![TokenV::Op(Operator::Pipe)];
            lemma_tokens_text_concat(bar, pipe_tokens(p));
            lemma_tokens_text_concat(x1, tail_tokens(b.tail));
            assert(tokens_text(bar) == seq!['|']);
            assert(tokens_text(x2) =~= tokens_text(x1) + seq![' ', '|', ' '] + pipe_text(p));
        },
        None => {
            assert(x2 =~= x1);
        },
    }
    lemma_append_redirect(x2, Operator::Greater, b.to);
    let x3 = x2 + redirect_tokens(Operator::Greater, b.to);
    lemma_append_redirect(x3, Operator::ErrorRedirect, b.to_err);
    assert(block_tokens(b) =~= x3 + redirect_tokens(Operator::ErrorRedirect, b.to_err));
    assert(Operator::Less.spec_text() == seq!['<']);
    assert(Operator::Greater.spec_text() == seq!['>']);
    assert(Operator::ErrorRedirect.spec_text() == seq!['2', '>']);
    assert(block_text(b) =~= tokens_text(block_tokens(b)));
}

proof fn lemma_rest_text(x: Seq<TokenV>, rest: Seq<(Operator, PipeBlockV)>)
    requires
        x.len() > 0,
        forall|i: int| 0 <= i < rest.len() ==> valid_block(#[trigger] rest[i].1),
    ensures
        tokens_text(x + rest_tokens(rest)) == tokens_text(x) + chain_rest_text(rest),
    decreases rest.len(),
{
    if rest.len() == 0 {
        assert(x + rest_tokens(rest) =~= x);
        assert(tokens_text(x) + chain_rest_text(rest) =~= tokens_text(x));
    } else {
        let op = seq![TokenV::Op(rest[0].0)];
        let bt = block_tokens(rest[0].1);
        lemma_block_text(rest[0].1);
        lemma_tokens_text_concat(x, op);
        lemma_tokens_text_concat(x + op, bt);
        let x2 = x + op + bt;
        let r2 = rest.drop_first();
        assert forall|i: int| 0 <= i < r2.len() implies valid_block(#[trigger] r2[i].1) by {
            assert(r2[i] == rest[i + 1]);
        }
        lemma_rest_text(x2, r2);
        assert(x + rest_tokens(rest) =~= x2 + rest_tokens(r2));
        assert(tokens_text(x2 + rest_tokens(r2)) =~= tokens_text(x) + chain_rest_text(rest));
    }
}

proof fn lemma_chain_text(c: CommandsV)
    requires
        valid_chain(c),
    ensures
        chain_text(c) == tokens_text(chain_tokens(c)),
        chain_tokens(c).len() > 0,
{
    lemma_block_text(c.head);
    assert forall|i: int| 0 <= i < c.rest.len() implies valid_block(#[trigger] c.rest[i].1) by {
        assert(is_conj(TokenV::Op(c.rest[i].0)) && valid_block(c.rest[i].1));
    }
    lemma_rest_text(block_tokens(c.head), c.rest);
}

pub open spec fn ends_with_word(ts: Seq<TokenV>) -> bool {
    ts.len() > 0 && ts.last() is Str
}

proof fn lemma_ends_concat(a: Seq<TokenV>, b: Seq<TokenV>)
    ensures
        ends_with_word(b) ==> ends_with_word(a + b) && (a + b).last() == b.last(),
        b.len() == 0 ==> a + b == a,
{
    assert(b.len() == 0 ==> a + b =~= a);
}

proof fn lemma_words_end_word(ws: Seq<Seq<char>>)
    requires
        ws.len() > 0,
    ensures
        ends_with_word(words_tokens(ws)),
{
    assert(words_tokens(ws).last() == TokenV::Str(ws.last()));
}

proof fn lemma_redirect_end(op: Operator, t: Option<Seq<char>>)
    ensures
        redirect_tokens(op, t).len() == 0 || ends_with_word(redirect_tokens(op, t)),
{
}

proof fn lemma_pipe_end(p: Seq<Seq<Seq<char>>>)
    requires
        valid_pipe(p),
    ensures
        ends_with_word(pipe_tokens(p)),
    decreases p.len(),
{
    if p.len() == 1 {
        assert(valid_command(p[0]));
        lemma_words_end_word(p[0]);
    } else {
        let rest = p.drop_first();
        assert forall|k: int| 0 <= k < rest.len() implies valid_command(#[trigger] rest[k]) by {
            assert(rest[k] == p[k + 1]);
        }
        lemma_pipe_end(rest);
        lemma_ends_concat(words_tokens(p[0]) + seq![TokenV::Op(Operator::Pipe)], pipe_tokens(rest));
    }
}

proof fn lemma_block_end(b: PipeBlockV)
    requires
        valid_block(b),
    ensures
        ends_with_word(block_tokens(b)),
{
    let w = words_tokens(b.command);
    assert(valid_command(b.command));
    lemma_words_end_word(b.command);
    let f = redirect_tokens(Operator::Less, b.from);
    let t = tail_tokens(b.tail);
    let r = redirect_tokens(Operator::Greater, b.to);
    let e = redirect_tokens(Operator::ErrorRedirect, b.to_err);
    lemma_redirect_end(Operator::Less, b.from);
    lemma_redirect_end(Operator::Greater, b.to);
    lemma_redirect_end(Operator::ErrorRedirect, b.to_err);
    lemma_ends_concat(w, f);
    match b.tail {
        Some(p) => {
            lemma_pipe_end(p);
            lemma_ends_concat(seq![TokenV::Op(Operator::Pipe)], pipe_tokens(p));
        },
        None => {},
    }
    lemma_ends_concat(w + f, t);
    lemma_ends_concat(w + f + t, r);
    lemma_ends_concat(w + f + t + r, e);
}

proof fn lemma_rest_end(rest: Seq<(Operator, PipeBlockV)>)
    requires
        rest.len() > 0,
        forall|i: int| 0 <= i < rest.len() ==> valid_block(#[trigger] rest[i].1),
    ensures
        ends_with_word(rest_tokens(rest)),
    decreases rest.len(),
{
    let r2 = rest.drop_first();
    lemma_block_end(rest[0].1);
    let head = seq![TokenV::Op(rest[0].0)] + block_tokens(rest[0].1);
    lemma_ends_concat(seq![TokenV::Op(rest[0].0)], block_tokens(rest[0].1));
    if r2.len() > 0 {
        assert forall|i: int| 0 <= i < r2.len() implies valid_block(#[trigger] r2[i].1) by {
            assert(r2[i] == rest[i + 1]);
        }
        lemma_rest_end(r2);
    }
    lemma_ends_concat(head, rest_tokens(r2));
}

/// The text of a chain ends with a character of a word, never with `&`.
proof fn lemma_chain_text_end(c: CommandsV)
    requires
        valid_chain(c),
    ensures
        chain_text(c).len() > 0,
        chain_text(c).last() != '&',
{
    assert forall|i: int| 0 <= i < c.rest.len() implies valid_block(#[trigger] c.rest[i].1) by {
        assert(is_conj(TokenV::Op(c.rest[i].0)) && valid_block(c.rest[i].1));
    }
    lemma_chain_text(c);
    lemma_block_end(c.head);
    if c.rest.len() > 0 {
        lemma_rest_end(c.rest);
    }
    lemma_ends_concat(block_tokens(c.head), rest_tokens(c.rest));
    let ct = chain_tokens(c);
    lemma_plain_block(c.head);
    lemma_plain_rest(c.rest);
    lemma_plain_concat(block_tokens(c.head), rest_tokens(c.rest));
    assert(ct[ct.len() - 1] == ct.last());
    let w = ct.last()->Str_0;
    assert(plain_word(w));
    crate::lexer::lemma_word_last(w);
    crate::lexer::lemma_tokens_text_last(ct);
}

/// An element of a statement lexes to its tokens.
proof fn lemma_element_lex(e: (CommandsV, bool))
    requires
        valid_chain(e.0),
    ensures
        lex_seq(element_text(e)) == element_tokens(e),
{
    let c = e.0;
    let ct = chain_tokens(c);
    lemma_chain_text(c);
    assert forall|i: int| 0 <= i < c.rest.len() implies valid_block(#[trigger] c.rest[i].1) by {
        assert(is_conj(TokenV::Op(c.rest[i].0)) && valid_block(c.rest[i].1));
    }
    lemma_plain_block(c.head);
    lemma_plain_rest(c.rest);
    lemma_plain_concat(block_tokens(c.head), rest_tokens(c.rest));
    lemma_plain_expand(ct, Seq::empty());
    law_relex_tokens(ct);
    let y = chain_text(c) + if e.1 {
        seq!['&']
    } else {
        Seq::<char>::empty()
    };
    if e.1 {
        lemma_chain_text_end(c);
        crate::lexer::lemma_lex_join(chain_text(c), seq!['&']);
        assert(seq!['&'].skip(1) =~= Seq::<char>::empty());
        assert(lex_seq(Seq::<char>::empty()) == Seq::<TokenV>::empty());
        assert(lex_seq(seq!['&']) =~= seq![TokenV::Op(Operator::And)]);
    } else {
        assert(y =~= chain_text(c));
    }
    let t = element_text(e);
    assert(t =~= seq![';', ' '] + y);
    let sy = seq![' '] + y;
    assert(t.skip(1) =~= sy);
    assert(sy.drop_first() =~= y);
    assert(sy[0] == ' ');
    assert(op_at(sy) is None);
    assert(lex_seq(sy) == lex_seq(y));
    assert(t[0] == ';');
    assert(t[1] == ' ');
    assert(op_at(t) == Some((Operator::SemiColon, 1nat)));
    assert(lex_seq(t) == seq![TokenV::Op(Operator::SemiColon)] + lex_seq(t.skip(1)));
    assert(lex_seq(t) =~= seq![TokenV::Op(Operator::SemiColon)] + lex_seq(y));
    assert(lex_seq(t) =~= element_tokens(e));
}

/// A statement lexes to its tokens.
proof fn lemma_statement_lex(s: Seq<(CommandsV, bool)>)
    requires
        valid_statement(s),
    ensures
        lex_seq(statement_text(s)) == statement_tokens(s),
    decreases s.len(),
{
    if s.len() == 0 {
        assert(lex_seq(Seq::<char>::empty()) == Seq::<TokenV>::empty());
    } else {
        let p = s.drop_last();
        assert forall|i: int| 0 <= i < p.len() implies valid_chain(#[trigger] p[i].0) by {
            assert(p[i] == s[i]);
        }
        lemma_statement_lex(p);
        assert(valid_chain(s[s.len() - 1].0));
        lemma_element_lex(s.last());
        crate::lexer::lemma_lex_join(statement_text(p), element_text(s.last()));
    }
}

pub open spec fn plain_tokens(ts: Seq<TokenV>) -> bool {
    forall|i: int| 0 <= i < ts.len() ==> (#[trigger] ts[i] is Str ==> plain_word(ts[i]->Str_0))
}

proof fn lemma_plain_concat(a: Seq<TokenV>, b: Seq<TokenV>)
    requires
        plain_tokens(a),
        plain_tokens(b),
    ensures
        plain_tokens(a + b),
{
    assert forall|i: int| 0 <= i < (a + b).len() implies (#[trigger] (a + b)[i] is Str ==> plain_word(
        (a + b)[i]->Str_0,
    )) by {
        if i < a.len() {
            assert((a + b)[i] == a[i]);
        } else {
            assert((a + b)[i] == b[i - a.len()]);
        }
    }
}

proof fn lemma_plain_ops(op: Operator)
    ensures
        plain_tokens(seq![TokenV::Op(op)]),
{
}

proof fn lemma_plain_words(ws: Seq<Seq<char>>)
    requires
        forall|i: int| 0 <= i < ws.len() ==> plain_word(#[trigger] ws[i]),
    ensures
        plain_tokens(words_tokens(ws)),
{
    assert forall|i: int| 0 <= i < words_tokens(ws).len() implies (#[trigger] words_tokens(ws)[i] is Str
        ==> plain_word(words_tokens(ws)[i]->Str_0)) by {
        assert(words_tokens(ws)[i] == TokenV::Str(ws[i]));
    }
}

proof fn lemma_plain_redirect(op: Operator, t: Option<Seq<char>>)
    requires
        plain_opt(t),
    ensures
        plain_tokens(redirect_tokens(op, t)),
{
}

proof fn lemma_plain_pipe(p: Seq<Seq<Seq<char>>>)
    requires
        forall|i: int| 0 <= i < p.len() ==> valid_command(#[trigger] p[i]),
    ensures
        plain_tokens(pipe_tokens(p)),
    decreases p.len(),
{
    if p.len() > 0 {
        assert(valid_command(p[0]));
        lemma_plain_words(p[0]);
    }
    if p.len() >= 2 {
        let rest = p.drop_first();
        assert forall|i: int| 0 <= i < rest.len() implies valid_command(#[trigger] rest[i]) by {
            assert(rest[i] == p[i + 1]);
        }
        lemma_plain_pipe(rest);
        lemma_plain_ops(Operator::Pipe);
        lemma_plain_concat(words_tokens(p[0]), seq![TokenV::Op(Operator::Pipe)]);
        lemma_plain_concat(words_tokens(p[0]) + seq![TokenV::Op(Operator::Pipe)], pipe_tokens(rest));
    }
}

proof fn lemma_plain_block(b: PipeBlockV)
    requires
        valid_block(b),
    ensures
        plain_tokens(block_tokens(b)),
{
    lemma_plain_words(b.command);
    lemma_plain_redirect(Operator::Less, b.from);
    lemma_plain_redirect(Operator::Greater, b.to);
    lemma_plain_redirect(Operator::ErrorRedirect, b.to_err);
    match b.tail {
        Some(p) => {
            lemma_plain_pipe(p);
            lemma_plain_concat(seq![TokenV::Op(Operator::Pipe)], pipe_tokens(p));
        },
        None => {},
    }
    let x1 = words_tokens(b.command) + redirect_tokens(Operator::Less, b.from);
    lemma_plain_concat(words_tokens(b.command), redirect_tokens(Operator::Less, b.from));
    lemma_plain_concat(x1, tail_tokens(b.tail));
    lemma_plain_concat(x1 + tail_tokens(b.tail), redirect_tokens(Operator::Greater, b.to));
    lemma_plain_concat(
        x1 + tail_tokens(b.tail) + redirect_tokens(Operator::Greater, b.to),
        redirect_tokens(Operator::ErrorRedirect, b.to_err),
    );
}

proof fn lemma_plain_rest(rest: Seq<(Operator, PipeBlockV)>)
    requires
        forall|i: int| 0 <= i < rest.len() ==> valid_block(#[trigger] rest[i].1),
    ensures
        plain_tokens(rest_tokens(rest)),
    decreases rest.len(),
{
    if rest.len() > 0 {
        let r2 = rest.drop_first();
        assert forall|i: int| 0 <= i < r2.len() implies valid_block(#[trigger] r2[i].1) by {
            assert(r2[i] == rest[i + 1]);
        }
        lemma_plain_rest(r2);
        lemma_plain_block(rest[0].1);
        lemma_plain_ops(rest[0].0);
        lemma_plain_concat(seq![TokenV::Op(rest[0].0)], block_tokens(rest[0].1));
        lemma_plain_concat(seq![TokenV::Op(rest[0].0)] + block_tokens(rest[0].1), rest_tokens(r2));
    }
}

proof fn lemma_plain_statement(s: Seq<(CommandsV, bool)>)
    requires
        valid_statement(s),
    ensures
        plain_tokens(statement_tokens(s)),
    decreases s.len(),
{
    if s.len() > 0 {
        let p = s.drop_last();
        assert forall|i: int| 0 <= i < p.len() implies valid_chain(#[trigger] p[i].0) by {
            assert(p[i] == s[i]);
        }
        lemma_plain_statement(p);
        let e = s.last();
        let c = e.0;
        assert(valid_chain(s[s.len() - 1].0));
        assert forall|i: int| 0 <= i < c.rest.len() implies valid_block(#[trigger] c.rest[i].1) by {
            assert(is_conj(TokenV::Op(c.rest[i].0)) && valid_block(c.rest[i].1));
        }
        lemma_plain_block(c.head);
        lemma_plain_rest(c.rest);
        lemma_plain_concat(block_tokens(c.head), rest_tokens(c.rest));
        let semi = seq![TokenV::Op(Operator::SemiColon)];
        let amp = if e.1 {
            seq![TokenV::Op(Operator::And)]
        } else {
            Seq::<TokenV>::empty()
        };
        lemma_plain_concat(semi, chain_tokens(c));
        lemma_plain_concat(semi + chain_tokens(c), amp);
        lemma_plain_concat(statement_tokens(p), element_tokens(e));
    }
}

proof fn lemma_plain_expand(ts: Seq<TokenV>, home: Seq<char>)
    requires
        plain_tokens(ts),
    ensures
        expand_home(ts, home) == ts,
        well_formed_tokens(ts),
{
    assert forall|i: int| 0 <= i < ts.len() implies #[trigger] expand_home(ts, home)[i] == ts[i] by {
        if ts[i] is Str {
            assert(plain_word(ts[i]->Str_0));
        }
    }
    assert(expand_home(ts, home) =~= ts);
}

/// `piece` stands in `ts` from position `i` on.
pub open spec fn at(ts: Seq<TokenV>, i: int, piece: Seq<TokenV>) -> bool {
    0 <= i && i + piece.len() <= ts.len() && ts.subrange(i, i + piece.len()) == piece
}

proof fn lemma_at_split(ts: Seq<TokenV>, i: int, a: Seq<TokenV>, b: Seq<TokenV>)
    requires
        at(ts, i, a + b),
    ensures
        at(ts, i, a),
        at(ts, i + a.len(), b),
{
    assert(ts.subrange(i, i + a.len()) =~= (a + b).subrange(0, a.len() as int));
    assert((a + b).subrange(0, a.len() as int) =~= a);
    assert(ts.subrange(i + a.len(), i + a.len() + b.len()) =~= (a + b).subrange(
        a.len() as int,
        (a + b).len() as int,
    ));
    assert((a + b).subrange(a.len() as int, (a + b).len() as int) =~= b);
}

proof fn lemma_at_index(ts: Seq<TokenV>, i: int, a: Seq<TokenV>, k: int)
    requires
        at(ts, i, a),
        0 <= k < a.len(),
    ensures
        ts[i + k] == a[k],
{
    assert(ts.subrange(i, i + a.len())[k] == ts[i + k]);
}

proof fn lemma_words_end_at(ts: Seq<TokenV>, i: int, n: int)
    requires
        0 <= i,
        0 <= n,
        i + n <= ts.len(),
        forall|k: int| i <= k < i + n ==> is_str(#[trigger] ts[k]),
        i + n == ts.len() || !is_str(ts[i + n]),
    ensures
        words_end(ts, i) == i + n,
    decreases n,
{
    if n > 0 {
        lemma_words_end_at(ts, i + 1, n - 1);
    }
}

proof fn lemma_parse_words(ts: Seq<TokenV>, i: int, ws: Seq<Seq<char>>)
    requires
        at(ts, i, words_tokens(ws)),
        ws.len() > 0,
        i + ws.len() == ts.len() || !is_str(ts[i + ws.len()]),
    ensures
        spec_parse_command(ts, i) == Ok::<(Seq<Seq<char>>, int), ParseError>((ws, i + ws.len())),
{
    let w = words_tokens(ws);
    assert forall|k: int| i <= k < i + ws.len() implies is_str(#[trigger] ts[k]) by {
        lemma_at_index(ts, i, w, k - i);
    }
    lemma_words_end_at(ts, i, ws.len() as int);
    assert forall|k: int| 0 <= k < ws.len() implies #[trigger] words(ts, i, i + ws.len())[k] == ws[k] by {
        lemma_at_index(ts, i, w, k);
    }
    assert(words(ts, i, i + ws.len()) =~= ws);
}

/// The first token of a non-empty run of redirections and pipe tails is an
/// operator.
pub open spec fn starts_with_op(x: Seq<TokenV>) -> bool {
    x.len() > 0 ==> x[0] is Op
}

proof fn lemma_parse_pipe(ts: Seq<TokenV>, i: int, p: Seq<Seq<Seq<char>>>)
    requires
        valid_pipe(p),
        at(ts, i, pipe_tokens(p)),
        ({
            let j = i + pipe_tokens(p).len();
            j == ts.len() || (!is_str(ts[j]) && !is_op(ts[j], Operator::Pipe))
        }),
    ensures
        spec_parse_pipe(ts, i) == Ok::<(Seq<Seq<Seq<char>>>, int), ParseError>(
            (p, i + pipe_tokens(p).len()),
        ),
    decreases p.len(),
{
    let w = words_tokens(p[0]);
    assert(valid_command(p[0]));
    let n0 = p[0].len() as int;
    if p.len() == 1 {
        lemma_parse_words(ts, i, p[0]);
        assert(seq![p[0]] =~= p);
    } else {
        let rest = p.drop_first();
        let bar = seq![TokenV::Op(Operator::Pipe)];
        assert(pipe_tokens(p) == w + bar + pipe_tokens(rest));
        lemma_at_split(ts, i, w + bar, pipe_tokens(rest));
        lemma_at_split(ts, i, w, bar);
        lemma_at_index(ts, i + n0, bar, 0);
        lemma_parse_words(ts, i, p[0]);
        assert forall|k: int| 0 <= k < rest.len() implies valid_command(#[trigger] rest[k]) by {
            assert(rest[k] == p[k + 1]);
        }
        lemma_parse_pipe(ts, i + n0 + 1, rest);
        assert(seq![p[0]] + rest =~= p);
    }
}

proof fn lemma_parse_redirs(ts: Seq<TokenV>, i: int, to: Option<Seq<char>>, to_err: Option<Seq<char>>)
    requires
        at(ts, i, redirect_tokens(Operator::Greater, to) + redirect_tokens(Operator::ErrorRedirect, to_err)),
        ({
            let j = i + (redirect_tokens(Operator::Greater, to) + redirect_tokens(
                Operator::ErrorRedirect,
                to_err,
            )).len();
            j == ts.len() || (!is_op(ts[j], Operator::Greater) && !is_op(ts[j], Operator::ErrorRedirect))
        }),
    ensures
        spec_parse_redirs(ts, i, None, None) == Ok::<
            (Option<Seq<char>>, Option<Seq<char>>, int),
            ParseError,
        >(
            (
                to,
                to_err,
                i + (redirect_tokens(Operator::Greater, to) + redirect_tokens(
                    Operator::ErrorRedirect,
                    to_err,
                )).len(),
            ),
        ),
{
    let a = redirect_tokens(Operator::Greater, to);
    let b = redirect_tokens(Operator::ErrorRedirect, to_err);
    lemma_at_split(ts, i, a, b);
    reveal_with_fuel(spec_parse_redirs, 3);
    if a.len() > 0 {
        lemma_at_index(ts, i, a, 0);
        lemma_at_index(ts, i, a, 1);
    }
    if b.len() > 0 {
        lemma_at_index(ts, i + a.len(), b, 0);
        lemma_at_index(ts, i + a.len(), b, 1);
    }
}

pub open spec fn follows_block(t: TokenV) -> bool {
    t == TokenV::Op(Operator::And) || t == TokenV::Op(Operator::AndAnd) || t == TokenV::Op(Operator::OrOr)
        || t == TokenV::Op(Operator::SemiColon)
}

proof fn lemma_parse_block(ts: Seq<TokenV>, i: int, b: PipeBlockV)
    requires
        valid_block(b),
        at(ts, i, block_tokens(b)),
        ({
            let j = i + block_tokens(b).len();
            j == ts.len() || follows_block(ts[j])
        }),
    ensures
        spec_parse_pipe_block(ts, i) == Ok::<(PipeBlockV, int), ParseError>(
            (b, i + block_tokens(b).len()),
        ),
{
    let w = words_tokens(b.command);
    let f = redirect_tokens(Operator::Less, b.from);
    let t = tail_tokens(b.tail);
    let r = redirect_tokens(Operator::Greater, b.to) + redirect_tokens(Operator::ErrorRedirect, b.to_err);
    let j = i + block_tokens(b).len();
    assert(block_tokens(b) =~= w + (f + (t + r)));
    lemma_at_split(ts, i, w, f + (t + r));
    let i1 = i + w.len();
    lemma_at_split(ts, i1, f, t + r);
    let i2 = i1 + f.len();
    lemma_at_split(ts, i2, t, r);
    let i3 = i2 + t.len();
    assert(j == i3 + r.len());
    assert(w.len() == b.command.len());
    // the token after the command is no word
    if (f + (t + r)).len() > 0 {
        lemma_at_index(ts, i1, f + (t + r), 0);
        if f.len() == 0 {
            assert((f + (t + r))[0] == (t + r)[0]);
            if t.len() == 0 {
                assert((t + r)[0] == r[0]);
                if redirect_tokens(Operator::Greater, b.to).len() == 0 {
                    assert(r[0] == redirect_tokens(Operator::ErrorRedirect, b.to_err)[0]);
                }
            }
        }
    }
    lemma_parse_words(ts, i, b.command);
    // the input redirection
    if f.len() > 0 {
        lemma_at_index(ts, i1, f, 0);
        lemma_at_index(ts, i1, f, 1);
    } else if (t + r).len() > 0 {
        lemma_at_index(ts, i2, t + r, 0);
        if t.len() == 0 {
            assert((t + r)[0] == r[0]);
            if redirect_tokens(Operator::Greater, b.to).len() == 0 {
                assert(r[0] == redirect_tokens(Operator::ErrorRedirect, b.to_err)[0]);
            }
        }
    }
    assert(spec_parse_from(ts, i1) == Ok::<(Option<Seq<char>>, int), ParseError>((b.from, i2)));
    match b.tail {
        Some(p) => {
            let bar = seq![TokenV::Op(Operator::Pipe)];
            lemma_at_split(ts, i2, bar, pipe_tokens(p));
            lemma_at_index(ts, i2, bar, 0);
            assert(spec_parse_redirs(ts, i2, None, None) == Ok::<
                (Option<Seq<char>>, Option<Seq<char>>, int),
                ParseError,
            >((None, None, i2)));
            if r.len() > 0 {
                lemma_at_index(ts, i3, r, 0);
                if redirect_tokens(Operator::Greater, b.to).len() == 0 {
                    assert(r[0] == redirect_tokens(Operator::ErrorRedirect, b.to_err)[0]);
                }
            }
            lemma_parse_pipe(ts, i2 + 1, p);
            lemma_parse_redirs(ts, i3, b.to, b.to_err);
        },
        None => {
            assert(t.len() == 0);
            lemma_parse_redirs(ts, i3, b.to, b.to_err);
        },
    }
}

proof fn lemma_parse_chain(ts: Seq<TokenV>, i: int, c: CommandsV)
    requires
        valid_chain(c),
        at(ts, i, chain_tokens(c)),
        ({
            let j = i + chain_tokens(c).len();
            j == ts.len() || ts[j] == TokenV::Op(Operator::And) || ts[j] == TokenV::Op(Operator::SemiColon)
        }),
    ensures
        spec_parse_commands(ts, i) == Ok::<(CommandsV, int), ParseError>((c, i + chain_tokens(c).len())),
    decreases c.rest.len(),
{
    let bt = block_tokens(c.head);
    lemma_at_split(ts, i, bt, rest_tokens(c.rest));
    let j1 = i + bt.len();
    lemma_words_text(c.head.command);
    assert(bt.len() > 0) by {
        assert(valid_command(c.head.command));
    }
    if c.rest.len() == 0 {
        assert(rest_tokens(c.rest).len() == 0);
        lemma_parse_block(ts, i, c.head);
        assert(c.rest =~= Seq::<(Operator, PipeBlockV)>::empty());
        assert(c == CommandsV { head: c.head, rest: Seq::empty() });
    } else {
        let r2 = c.rest.drop_first();
        let op = seq![TokenV::Op(c.rest[0].0)];
        assert(rest_tokens(c.rest) == op + (block_tokens(c.rest[0].1) + rest_tokens(r2)));
        lemma_at_split(ts, j1, op, block_tokens(c.rest[0].1) + rest_tokens(r2));
        lemma_at_index(ts, j1, op, 0);
        assert(is_conj(TokenV::Op(c.rest[0].0)) && valid_block(c.rest[0].1));
        lemma_parse_block(ts, i, c.head);
        let c2 = CommandsV { head: c.rest[0].1, rest: r2 };
        assert forall|k: int| 0 <= k < r2.len() implies is_conj(TokenV::Op(#[trigger] r2[k].0)) && valid_block(
            r2[k].1,
        ) by {
            assert(r2[k] == c.rest[k + 1]);
        }
        assert(chain_tokens(c2) == block_tokens(c.rest[0].1) + rest_tokens(r2));
        lemma_parse_chain(ts, j1 + 1, c2);
        assert(seq![(c.rest[0].0, c2.head)] + c2.rest =~= c.rest);
    }
}

/// The tokens of a statement, taken from the front: the first element,
/// then the rest.
proof fn lemma_statement_tokens_front(s: Seq<(CommandsV, bool)>)
    requires
        s.len() > 0,
    ensures
        statement_tokens(s) == element_tokens(s[0]) + statement_tokens(s.drop_first()),
    decreases s.len(),
{
    if s.len() == 1 {
        assert(s.drop_last() =~= Seq::<(CommandsV, bool)>::empty());
        assert(s.drop_first() =~= Seq::<(CommandsV, bool)>::empty());
        assert(statement_tokens(s) =~= element_tokens(s[0]) + statement_tokens(s.drop_first()));
    } else {
        let p = s.drop_last();
        lemma_statement_tokens_front(p);
        assert(p.drop_first() =~= s.drop_first().drop_last());
        assert(s.drop_first().last() == s.last());
        assert(p[0] == s[0]);
        assert(statement_tokens(s) =~= element_tokens(s[0]) + statement_tokens(s.drop_first()));
    }
}

#[verifier::rlimit(100)]
proof fn lemma_parse_statement(ts: Seq<TokenV>, i: int, s: Seq<(CommandsV, bool)>)
    requires
        valid_statement(s),
        at(ts, i, statement_tokens(s)),
        i + statement_tokens(s).len() == ts.len(),
    ensures
        spec_parse_statement(ts, i) == Ok::<Seq<(CommandsV, bool)>, ParseError>(s),
    decreases s.len(),
{
    if s.len() == 0 {
        assert(i >= ts.len());
        assert(s =~= Seq::<(CommandsV, bool)>::empty());
    } else {
        let c = s[0].0;
        let bg = s[0].1;
        let rest = s.drop_first();
        lemma_statement_tokens_front(s);
        let semi = seq![TokenV::Op(Operator::SemiColon)];
        let ct = chain_tokens(c);
        let amp = if bg {
            seq![TokenV::Op(Operator::And)]
        } else {
            Seq::<TokenV>::empty()
        };
        assert(statement_tokens(s) =~= semi + (ct + (amp + statement_tokens(rest))));
        lemma_at_split(ts, i, semi, ct + (amp + statement_tokens(rest)));
        lemma_at_index(ts, i, semi, 0);
        lemma_at_split(ts, i + 1, ct, amp + statement_tokens(rest));
        let j = i + 1 + ct.len();
        lemma_at_split(ts, j, amp, statement_tokens(rest));
        let k = j + amp.len();
        assert(valid_chain(c));
        lemma_chain_text(c);
        assert forall|x: int| 0 <= x < rest.len() implies valid_chain(#[trigger] rest[x].0) by {
            assert(rest[x] == s[x + 1]);
        }
        if rest.len() > 0 {
            lemma_statement_tokens_front(rest);
            lemma_at_index(ts, k, statement_tokens(rest), 0);
            assert(statement_tokens(rest)[0] == TokenV::Op(Operator::SemiColon));
        }
        if bg {
            lemma_at_index(ts, j, amp, 0);
        }
        lemma_parse_chain(ts, i + 1, c);
        lemma_parse_statement(ts, k, rest);
        assert(spec_after_element(ts, k, bg) is None);
        assert(spec_parse_statement(ts, i) == spec_parse_statement(ts, i + 1));
        assert(seq![(c, bg)] + rest =~= s);
    }
}

/// Writing out a statement built by hand and reading it back, `~`
/// expansion included, gives the same statement.
pub proof fn law_statement_round_trip(s: Seq<(CommandsV, bool)>, home: Seq<char>)
    requires
        valid_statement(s),
    ensures
        spec_parse_statement(expand_home(lex_seq(statement_text(s)), home), 0) == Ok::<
            Seq<(CommandsV, bool)>,
            ParseError,
        >(s),
{
    let ts = statement_tokens(s);
    lemma_statement_lex(s);
    lemma_plain_statement(s);
    lemma_plain_expand(ts, home);
    assert(ts.subrange(0, ts.len() as int) =~= ts);
    lemma_parse_statement(ts, 0, s);
}

} // verus!
