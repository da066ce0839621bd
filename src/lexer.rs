use vstd::prelude::*;

verus! {

/// The operators of the command language.
#[derive(Clone, Copy, PartialEq, Eq, Structural, Debug)]
pub enum Operator {
    And,
    AndAnd,
    OrOr,
    Pipe,
    Less,
    LessLess,
    ErrorRedirect,
    Greater,
    GreaterGreater,
    SemiColon,
}

/// Lexing cannot fail: every line is split into operators and words, so no
/// value of this type is ever returned.
#[derive(Clone, Copy, Debug)]
pub struct LexError;

#[derive(Clone, Debug)]
pub enum Token {
    Operator(Operator),
    String(String),
}

/// What a token holds, as mathematical values.
pub enum TokenV {
    Op(Operator),
    Str(Seq<char>),
}

impl View for Token {
    type V = TokenV;

    open spec fn view(&self) -> TokenV {
        match self {
            Token::Operator(op) => TokenV::Op(*op),
            Token::String(s) => TokenV::Str(s@),
        }
    }
}

pub open spec fn tokens_view(ts: Seq<Token>) -> Seq<TokenV> {
    ts.map_values(|t: Token| t@)
}

impl Operator {
    /// The characters that spell the operator.
    pub open spec fn spec_text(self) -> Seq<char> {
        match self {
            Operator::And => seq!['&'],
            Operator::AndAnd => seq!['&', '&'],
            Operator::OrOr => seq!['|', '|'],
            Operator::Pipe => seq!['|'],
            Operator::Less => seq!['<'],
            Operator::LessLess => seq!['<', '<'],
            Operator::Greater => seq!['>'],
            Operator::GreaterGreater => seq!['>', '>'],
            Operator::ErrorRedirect => seq!['2', '>'],
            Operator::SemiColon => seq![';'],
        }
    }

    pub fn to_str(&self) -> (r: &'static str)
        ensures
            r@ == self.spec_text(),
    {
        proof {
            reveal_strlit("&");
            reveal_strlit("&&");
            reveal_strlit("||");
            reveal_strlit("|");
            reveal_strlit("<");
            reveal_strlit("<<");
            reveal_strlit(">");
            reveal_strlit(">>");
            reveal_strlit("2>");
            reveal_strlit(";");
        }
        let r = match self {
            Operator::And => "&",
            Operator::AndAnd => "&&",
            Operator::OrOr => "||",
            Operator::Pipe => "|",
            Operator::Less => "<",
            Operator::LessLess => "<<",
            Operator::Greater => ">",
            Operator::GreaterGreater => ">>",
            Operator::ErrorRedirect => "2>",
            Operator::SemiColon => ";",
        };
        assert(r@ =~= self.spec_text());
        r
    }
}

/// The characters that Unicode gives the White_Space property.
pub open spec fn is_white_space(c: char) -> bool {
    ('\u{9}' <= c && c <= '\u{d}') || c == ' ' || c == '\u{85}' || c == '\u{a0}'
        || c == '\u{1680}' || ('\u{2000}' <= c && c <= '\u{200a}') || c == '\u{2028}'
        || c == '\u{2029}' || c == '\u{202f}' || c == '\u{205f}' || c == '\u{3000}'
}

/// Relies on char::is_whitespace: true exactly on the White_Space characters.
#[verifier::external_body]
pub fn white_space(c: char) -> (r: bool)
    ensures
        r == is_white_space(c),
{
    c.is_whitespace()
}

/// The operator that `s` starts with, and its length, by maximal munch;
/// `2>` is tried first.
pub open spec fn op_at(s: Seq<char>) -> Option<(Operator, nat)> {
    if s.len() == 0 {
        None
    } else if s.len() >= 2 && s[0] == '2' && s[1] == '>' {
        Some((Operator::ErrorRedirect, 2))
    } else if s[0] == '&' {
        if s.len() >= 2 && s[1] == '&' {
            Some((Operator::AndAnd, 2))
        } else {
            Some((Operator::And, 1))
        }
    } else if s[0] == '|' {
        if s.len() >= 2 && s[1] == '|' {
            Some((Operator::OrOr, 2))
        } else {
            Some((Operator::Pipe, 1))
        }
    } else if s[0] == '<' {
        if s.len() >= 2 && s[1] == '<' {
            Some((Operator::LessLess, 2))
        } else {
            Some((Operator::Less, 1))
        }
    } else if s[0] == '>' {
        if s.len() >= 2 && s[1] == '>' {
            Some((Operator::GreaterGreater, 2))
        } else {
            Some((Operator::Greater, 1))
        }
    } else if s[0] == ';' {
        Some((Operator::SemiColon, 1))
    } else {
        None
    }
}

/// A word ends where the text ends, an operator starts, or white space comes.
pub open spec fn breaks(s: Seq<char>) -> bool {
    s.len() == 0 || op_at(s) is Some || is_white_space(s[0])
}

/// The length of the word that `s` starts with.
pub open spec fn word_len(s: Seq<char>) -> nat
    decreases s.len(),
{
    if breaks(s) {
        0
    } else {
        1 + word_len(s.drop_first())
    }
}

/// The tokens of a line: operators by maximal munch, words as the runs
/// between them, white space only as a separator.
pub open spec fn lex_seq(s: Seq<char>) -> Seq<TokenV>
    decreases s.len(),
{
    if s.len() == 0 {
        Seq::empty()
    } else if let Some((op, n)) = op_at(s) {
        seq![TokenV::Op(op)] + lex_seq(s.skip(n as int))
    } else if is_white_space(s[0]) {
        lex_seq(s.drop_first())
    } else {
        let n = word_len(s);
        proof {
            lemma_word_len_bounds(s);
        }
        seq![TokenV::Str(s.take(n as int))] + lex_seq(s.skip(n as int))
    }
}

pub proof fn lemma_word_len_bounds(s: Seq<char>)
    ensures
        word_len(s) <= s.len(),
        !breaks(s) ==> word_len(s) >= 1,
    decreases s.len(),
{
    if !breaks(s) {
        lemma_word_len_bounds(s.drop_first());
    }
}

/// The characters of a string slice, in order.
pub fn chars_of(s: &str) -> (r: Vec<char>)
    ensures
        r@ == s@,
{
    let n = s.unicode_len();
    let mut r: Vec<char> = Vec::new();
    let mut i: usize = 0;
    while i < n
        invariant
            n == s@.len(),
            i <= n,
            r@ == s@.take(i as int),
        decreases n - i,
    {
        r.push(s.get_char(i));
        i += 1;
        assert(r@ =~= s@.take(i as int));
    }
    assert(r@ =~= s@);
    r
}

/// The operator that starts at position `i` of `cs`, with its length.
fn op_at_pos(cs: &Vec<char>, i: usize) -> (r: Option<(Operator, usize)>)
    requires
        i < cs@.len(),
    ensures
        match (r, op_at(cs@.skip(i as int))) {
            (None, None) => true,
            (Some((op, n)), Some((op2, n2))) => op == op2 && n as nat == n2,
            _ => false,
        },
{
    let ghost s = cs@.skip(i as int);
    let has_next = i < cs.len() - 1;
    let c = cs[i];
    if has_next && c == '2' && cs[i + 1] == '>' {
        Some((Operator::ErrorRedirect, 2))
    } else if c == '&' {
        if has_next && cs[i + 1] == '&' {
            Some((Operator::AndAnd, 2))
        } else {
            Some((Operator::And, 1))
        }
    } else if c == '|' {
        if has_next && cs[i + 1] == '|' {
            Some((Operator::OrOr, 2))
        } else {
            Some((Operator::Pipe, 1))
        }
    } else if c == '<' {
        if has_next && cs[i + 1] == '<' {
            Some((Operator::LessLess, 2))
        } else {
            Some((Operator::Less, 1))
        }
    } else if c == '>' {
        if has_next && cs[i + 1] == '>' {
            Some((Operator::GreaterGreater, 2))
        } else {
            Some((Operator::Greater, 1))
        }
    } else if c == ';' {
        Some((Operator::SemiColon, 1))
    } else {
        None
    }
}

/// Splits a line into tokens: two-character operators before one-character
/// ones (`2>` first of all), words as the runs between operators and white
/// space.
pub fn lex(s: &str) -> (r: Result<Vec<Token>, LexError>)
    ensures
        r is Ok,
        tokens_view(r->Ok_0@) == lex_seq(s@),
        well_formed_tokens(tokens_view(r->Ok_0@)),
{
    proof {
        lemma_lex_well_formed(s@);
    }
    let cs = chars_of(s);
    let n = cs.len();
    let mut tokens: Vec<Token> = Vec::new();
    let mut i: usize = 0;
    assert(s@.skip(0) =~= s@);
    while i < n
        invariant
            n == cs@.len(),
            cs@ == s@,
            i <= n,
            tokens_view(tokens@) + lex_seq(s@.skip(i as int)) == lex_seq(s@),
        decreases n - i,
    {
        let ghost rest = s@.skip(i as int);
        let ghost old_tokens = tokens@;
        match op_at_pos(&cs, i) {
            Some((op, len)) => {
                tokens.push(Token::Operator(op));
                i += len;
                assert(rest.skip(len as int) =~= s@.skip(i as int));
                assert(tokens_view(tokens@) =~= tokens_view(old_tokens) + seq![TokenV::Op(op)]);
            },
            None => {
                if white_space(cs[i]) {
                    i += 1;
                    assert(rest.drop_first() =~= s@.skip(i as int));
                    assert(tokens@ =~= old_tokens);
                } else {
                    let mut j: usize = i + 1;
                    assert(rest.drop_first() =~= s@.skip(j as int));
                    while j < n
                        invariant
                            n == cs@.len(),
                            cs@ == s@,
                            i < j <= n,
                            rest == s@.skip(i as int),
                            word_len(rest) == (j - i) + word_len(s@.skip(j as int)),
                        ensures
                            i < j <= n,
                            word_len(rest) == (j - i) + word_len(s@.skip(j as int)),
                            breaks(s@.skip(j as int)),
                        decreases n - j,
                    {
                        let ghost here = s@.skip(j as int);
                        if op_at_pos(&cs, j).is_some() || white_space(cs[j]) {
                            break;
                        }
                        j += 1;
                        assert(here.drop_first() =~= s@.skip(j as int));
                    }
                    let ghost w = word_len(rest);
                    assert(w == j - i);
                    let word = s.substring_char(i, j).to_owned();
                    assert(word@ =~= rest.take(w as int));
                    tokens.push(Token::String(word));
                    assert(rest.skip(w as int) =~= s@.skip(j as int));
                    i = j;
                    assert(tokens_view(tokens@) =~= tokens_view(old_tokens) + seq![
                        TokenV::Str(rest.take(w as int)),
                    ]);
                }
            },
        }
    }
    assert(s@.skip(n as int) =~= Seq::<char>::empty());
    assert(tokens_view(tokens@) =~= lex_seq(s@));
    Ok(tokens)
}

pub fn copy_token(t: &Token) -> (r: Token)
    ensures
        r@ == t@,
{
    match t {
        Token::Operator(op) => Token::Operator(*op),
        Token::String(s) => Token::String(s.clone()),
    }
}

pub open spec fn token_text(t: TokenV) -> Seq<char> {
    match t {
        TokenV::Op(op) => op.spec_text(),
        TokenV::Str(s) => s,
    }
}

/// The texts of the tokens, separated by single spaces.
pub open spec fn tokens_text(ts: Seq<TokenV>) -> Seq<char>
    decreases ts.len(),
{
    if ts.len() == 0 {
        Seq::empty()
    } else if ts.len() == 1 {
        token_text(ts[0])
    } else {
        token_text(ts[0]) + seq![' '] + tokens_text(ts.drop_first())
    }
}

/// Writes tokens back as text, a space between each two.
pub fn tokens_to_string(tokens: &Vec<Token>) -> (r: String)
    ensures
        r@ == tokens_text(tokens_view(tokens@)),
{
    let n = tokens.len();
    let mut r = String::new();
    if n == 0 {
        return r;
    }
    let ghost ts = tokens_view(tokens@);
    let mut i: usize = n;
    while i > 0
        invariant
            0 <= i <= n,
            n == tokens@.len(),
            ts == tokens_view(tokens@),
            i < n ==> r@ == tokens_text(ts.skip(i as int)),
        decreases i,
    {
        proof {
            reveal_strlit(" ");
        }
        i -= 1;
        let mut t = match &tokens[i] {
            Token::Operator(op) => String::from_str(op.to_str()),
            Token::String(s) => s.clone(),
        };
        assert(t@ == token_text(ts[i as int]));
        if i + 1 < n {
            t.append(" ");
            t.append(r.as_str());
        }
        r = t;
        assert(ts.skip(i as int).drop_first() =~= ts.skip(i + 1));
        assert(r@ =~= tokens_text(ts.skip(i as int)));
    }
    assert(ts.skip(0) =~= ts);
    r
}

/// A word that lexes as a single word token: not empty, with no white
/// space, operator character or `2>` in it.
pub open spec fn is_word(w: Seq<char>) -> bool {
    w.len() > 0 && word_len(w) == w.len()
}

/// Tokens that can come out of the lexer: each word is a word.
pub open spec fn well_formed_tokens(ts: Seq<TokenV>) -> bool {
    forall|i: int| 0 <= i < ts.len() ==> (#[trigger] ts[i] is Str ==> is_word(ts[i]->Str_0))
}

proof fn lemma_op_at_before_space(a: Seq<char>, b: Seq<char>)
    requires
        a.len() > 0,
    ensures
        op_at(a + seq![' '] + b) == op_at(a),
        is_white_space((a + seq![' '] + b)[0]) == is_white_space(a[0]),
{
    let s = a + seq![' '] + b;
    assert(s[0] == a[0]);
    if a.len() >= 2 {
        assert(s[1] == a[1]);
    } else {
        assert(s[1] == ' ');
    }
}

proof fn lemma_word_len_before_space(a: Seq<char>, b: Seq<char>)
    ensures
        word_len(a + seq![' '] + b) == word_len(a),
    decreases a.len(),
{
    let s = a + seq![' '] + b;
    if a.len() == 0 {
        assert(s[0] == ' ');
    } else {
        lemma_op_at_before_space(a, b);
        if !breaks(a) {
            assert(s.drop_first() =~= a.drop_first() + seq![' '] + b);
            lemma_word_len_before_space(a.drop_first(), b);
        }
    }
}

/// A space cuts a line into two parts that lex on their own.
pub proof fn lemma_lex_split(a: Seq<char>, b: Seq<char>)
    ensures
        lex_seq(a + seq![' '] + b) == lex_seq(a) + lex_seq(b),
    decreases a.len(),
{
    let s = a + seq![' '] + b;
    if a.len() == 0 {
        assert(s[0] == ' ');
        assert(s.drop_first() =~= b);
        assert(lex_seq(a) + lex_seq(b) =~= lex_seq(b));
    } else {
        lemma_op_at_before_space(a, b);
        if let Some((op, n)) = op_at(a) {
            assert(s.skip(n as int) =~= a.skip(n as int) + seq![' '] + b);
            lemma_lex_split(a.skip(n as int), b);
            assert(lex_seq(s) =~= lex_seq(a) + lex_seq(b));
        } else if is_white_space(a[0]) {
            assert(s.drop_first() =~= a.drop_first() + seq![' '] + b);
            lemma_lex_split(a.drop_first(), b);
            assert(lex_seq(s) =~= lex_seq(a) + lex_seq(b));
        } else {
            lemma_word_len_before_space(a, b);
            lemma_word_len_bounds(a);
            let n = word_len(a);
            assert(s.take(n as int) =~= a.take(n as int));
            assert(s.skip(n as int) =~= a.skip(n as int) + seq![' '] + b);
            lemma_lex_split(a.skip(n as int), b);
            assert(lex_seq(s) =~= lex_seq(a) + lex_seq(b));
        }
    }
}

pub proof fn lemma_lex_one(t: TokenV)
    requires
        t is Str ==> is_word(t->Str_0),
    ensures
        lex_seq(token_text(t)) == seq![t],
{
    let s = token_text(t);
    match t {
        TokenV::Op(op) => {
            assert(op_at(s) == Some((op, s.len())));
            assert(s.skip(s.len() as int) =~= Seq::<char>::empty());
            assert(lex_seq(s.skip(s.len() as int)) == Seq::<TokenV>::empty());
            assert(lex_seq(s) =~= seq![t]);
        },
        TokenV::Str(w) => {
            assert(!breaks(w));
            assert(w.take(w.len() as int) =~= w);
            assert(w.skip(w.len() as int) =~= Seq::<char>::empty());
            assert(lex_seq(w.skip(w.len() as int)) == Seq::<TokenV>::empty());
            assert(lex_seq(s) =~= seq![t]);
        },
    }
}

/// Lexing the text of a token stream gives the stream back, for streams
/// whose words are words (as every stream that the lexer produces).
pub proof fn law_relex_tokens(ts: Seq<TokenV>)
    requires
        well_formed_tokens(ts),
    ensures
        lex_seq(tokens_text(ts)) == ts,
    decreases ts.len(),
{
    if ts.len() == 0 {
        assert(lex_seq(Seq::<char>::empty()) =~= ts);
    } else {
        lemma_lex_one(ts[0]);
        if ts.len() == 1 {
            assert(seq![ts[0]] =~= ts);
        } else {
            let rest = ts.drop_first();
            assert forall|i: int| 0 <= i < rest.len() implies (#[trigger] rest[i] is Str ==> is_word(
                rest[i]->Str_0,
            )) by {
                assert(rest[i] == ts[i + 1]);
            }
            law_relex_tokens(rest);
            lemma_lex_split(token_text(ts[0]), tokens_text(rest));
            assert(seq![ts[0]] + rest =~= ts);
        }
    }
}

proof fn lemma_word_of_prefix(s: Seq<char>)
    ensures
        word_len(s.take(word_len(s) as int)) == word_len(s),
    decreases s.len(),
{
    let n = word_len(s);
    lemma_word_len_bounds(s);
    if n == 0 {
        assert(s.take(0).len() == 0);
    } else {
        let t = s.take(n as int);
        assert(t[0] == s[0]);
        if n >= 2 {
            assert(t[1] == s[1]);
        }
        lemma_word_of_prefix(s.drop_first());
        assert(t.drop_first() =~= s.drop_first().take(n - 1));
    }
}

proof fn lemma_well_formed_concat(a: Seq<TokenV>, b: Seq<TokenV>)
    requires
        well_formed_tokens(a),
        well_formed_tokens(b),
    ensures
        well_formed_tokens(a + b),
{
    assert forall|i: int| 0 <= i < (a + b).len() implies (#[trigger] (a + b)[i] is Str ==> is_word(
        (a + b)[i]->Str_0,
    )) by {
        if i < a.len() {
            assert((a + b)[i] == a[i]);
        } else {
            assert((a + b)[i] == b[i - a.len()]);
        }
    }
}

/// Every word that the lexer produces is a word: relexing its output gives
/// it back.
pub proof fn lemma_lex_well_formed(s: Seq<char>)
    ensures
        well_formed_tokens(lex_seq(s)),
    decreases s.len(),
{
    if s.len() > 0 {
        if let Some((op, n)) = op_at(s) {
            lemma_lex_well_formed(s.skip(n as int));
            lemma_well_formed_concat(seq![TokenV::Op(op)], lex_seq(s.skip(n as int)));
        } else if is_white_space(s[0]) {
            lemma_lex_well_formed(s.drop_first());
        } else {
            let n = word_len(s);
            lemma_word_len_bounds(s);
            lemma_word_of_prefix(s);
            lemma_lex_well_formed(s.skip(n as int));
            let w = seq![TokenV::Str(s.take(n as int))];
            assert(is_word(s.take(n as int)));
            assert(well_formed_tokens(w));
            lemma_well_formed_concat(w, lex_seq(s.skip(n as int)));
        }
    }
}

proof fn lemma_lex_empty_tail(x: Seq<char>)
    requires
        lex_seq(x).len() == 0,
        x.len() > 0,
    ensures
        is_white_space(x.last()),
    decreases x.len(),
{
    if op_at(x) is None && is_white_space(x[0]) {
        if x.len() > 1 {
            lemma_lex_empty_tail(x.drop_first());
            assert(x.drop_first().last() == x.last());
        }
    } else if op_at(x) is None {
        lemma_word_len_bounds(x);
    }
}

proof fn lemma_suffix_shift(s: Seq<char>, n: int, w: Seq<char>)
    requires
        0 <= n <= s.len(),
        w.len() <= s.skip(n).len(),
        s.skip(n) == s.skip(n).take(s.skip(n).len() - w.len()) + w,
    ensures
        s == s.take(s.len() - w.len()) + w,
{
    let rest = s.skip(n);
    let m = s.len() - w.len();
    assert forall|k: int| 0 <= k < s.len() implies s[k] == (s.take(m) + w)[k] by {
        if k >= m {
            assert(s[k] == rest[k - n]);
            assert(rest[k - n] == (rest.take(rest.len() - w.len()) + w)[k - n]);
        }
    }
    assert(s =~= s.take(m) + w);
}

/// When a line does not end in white space and its last token is a word,
/// the line ends with that word.
pub proof fn lemma_last_word_is_suffix(s: Seq<char>)
    requires
        s.len() > 0,
        !is_white_space(s.last()),
        lex_seq(s).len() > 0,
        lex_seq(s).last() is Str,
    ensures
        lex_seq(s).last()->Str_0.len() <= s.len(),
        s == s.take(s.len() - lex_seq(s).last()->Str_0.len()) + lex_seq(s).last()->Str_0,
    decreases s.len(),
{
    if let Some((op, n)) = op_at(s) {
        let rest = s.skip(n as int);
        assert(lex_seq(s) == seq![TokenV::Op(op)] + lex_seq(rest));
        assert(lex_seq(rest).len() > 0);
        assert(lex_seq(s).last() == lex_seq(rest).last());
        assert(rest.last() == s.last());
        lemma_last_word_is_suffix(rest);
        let w = lex_seq(s).last()->Str_0;
        lemma_suffix_shift(s, n as int, w);
    } else if is_white_space(s[0]) {
        let rest = s.drop_first();
        assert(rest.len() > 0);
        assert(rest.last() == s.last());
        lemma_last_word_is_suffix(rest);
        let w = lex_seq(s).last()->Str_0;
        assert(rest =~= s.skip(1));
        lemma_suffix_shift(s, 1, w);
    } else {
        let n = word_len(s);
        lemma_word_len_bounds(s);
        let rest = s.skip(n as int);
        assert(lex_seq(s) == seq![TokenV::Str(s.take(n as int))] + lex_seq(rest));
        if lex_seq(rest).len() == 0 {
            if rest.len() > 0 {
                lemma_lex_empty_tail(rest);
                assert(rest.last() == s.last());
            }
            assert(lex_seq(s).last() == TokenV::Str(s.take(n as int)));
            assert(s =~= s.take(0) + s.take(n as int));
        } else {
            assert(lex_seq(s).last() == lex_seq(rest).last());
            assert(rest.last() == s.last());
            lemma_last_word_is_suffix(rest);
            let w = lex_seq(s).last()->Str_0;
            lemma_suffix_shift(s, n as int, w);
        }
    }
}

/// Text that starts with `;`, or with `&` after text that does not end in
/// `&`, lexes on its own after anything.
pub open spec fn joins_cleanly(a: Seq<char>, b: Seq<char>) -> bool {
    b.len() > 0 && (b[0] == ';' || (b[0] == '&' && (a.len() == 0 || a.last() != '&')))
}

proof fn lemma_op_at_join(a: Seq<char>, b: Seq<char>)
    requires
        a.len() > 0,
        joins_cleanly(a, b),
    ensures
        op_at(a + b) == op_at(a),
        is_white_space((a + b)[0]) == is_white_space(a[0]),
{
    let s = a + b;
    assert(s[0] == a[0]);
    if a.len() >= 2 {
        assert(s[1] == a[1]);
    } else {
        assert(s[1] == b[0]);
        assert(a.last() == a[0]);
    }
}

proof fn lemma_word_len_join(a: Seq<char>, b: Seq<char>)
    requires
        joins_cleanly(a, b),
    ensures
        word_len(a + b) == word_len(a),
    decreases a.len(),
{
    let s = a + b;
    if a.len() == 0 {
        assert(s =~= b);
    } else {
        lemma_op_at_join(a, b);
        if !breaks(a) {
            assert(s.drop_first() =~= a.drop_first() + b);
            if a.len() > 1 {
                assert(a.drop_first().last() == a.last());
            }
            lemma_word_len_join(a.drop_first(), b);
        }
    }
}

/// Text that joins cleanly onto a line lexes as if the two stood apart.
pub proof fn lemma_lex_join(a: Seq<char>, b: Seq<char>)
    requires
        joins_cleanly(a, b),
    ensures
        lex_seq(a + b) == lex_seq(a) + lex_seq(b),
    decreases a.len(),
{
    let s = a + b;
    if a.len() == 0 {
        assert(s =~= b);
        assert(lex_seq(a) + lex_seq(b) =~= lex_seq(b));
    } else {
        lemma_op_at_join(a, b);
        if let Some((op, n)) = op_at(a) {
            let r = a.skip(n as int);
            assert(s.skip(n as int) =~= r + b);
            if r.len() > 0 {
                assert(r.last() == a.last());
            }
            lemma_lex_join(r, b);
            assert(lex_seq(s) =~= lex_seq(a) + lex_seq(b));
        } else if is_white_space(a[0]) {
            let r = a.drop_first();
            assert(s.drop_first() =~= r + b);
            if r.len() > 0 {
                assert(r.last() == a.last());
            }
            lemma_lex_join(r, b);
            assert(lex_seq(s) =~= lex_seq(a) + lex_seq(b));
        } else {
            lemma_word_len_join(a, b);
            lemma_word_len_bounds(a);
            let n = word_len(a);
            let r = a.skip(n as int);
            assert(s.take(n as int) =~= a.take(n as int));
            assert(s.skip(n as int) =~= r + b);
            if r.len() > 0 {
                assert(r.last() == a.last());
            }
            lemma_lex_join(r, b);
            assert(lex_seq(s) =~= lex_seq(a) + lex_seq(b));
        }
    }
}

proof fn lemma_word_tail(s: Seq<char>)
    requires
        s.len() > 0,
        word_len(s) == s.len(),
    ensures
        !breaks(s.skip(s.len() - 1)),
    decreases s.len(),
{
    if s.len() == 1 {
        assert(s.skip(0) =~= s);
    } else {
        assert(s.drop_first().skip(s.len() - 2) =~= s.skip(s.len() - 1));
        lemma_word_tail(s.drop_first());
    }
}

/// A word does not end with an operator character.
pub proof fn lemma_word_last(w: Seq<char>)
    requires
        is_word(w),
    ensures
        w.last() != '&',
        w.last() != ';',
{
    lemma_word_tail(w);
    let t = w.skip(w.len() - 1);
    assert(t[0] == w.last());
}

/// The text of tokens ends with the text of the last one.
pub proof fn lemma_tokens_text_last(ts: Seq<TokenV>)
    requires
        ts.len() > 0,
        token_text(ts.last()).len() > 0,
    ensures
        tokens_text(ts).len() > 0,
        tokens_text(ts).last() == token_text(ts.last()).last(),
    decreases ts.len(),
{
    if ts.len() >= 2 {
        assert(ts.drop_first().last() == ts.last());
        lemma_tokens_text_last(ts.drop_first());
    }
}

} // verus!
