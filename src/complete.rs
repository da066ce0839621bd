use vstd::prelude::*;
use crate::lexer::{copy_token, is_white_space, lex, lex_seq, tokens_view, white_space, Token, TokenV};
use crate::parser::{make_parse_tree_from_tokens, spec_parse_statement, ParseError};
use crate::search::{is_match_list, walk_chars, TrieV};
use crate::utils::{expand_home, Env, ErrorEnum};
use vstd::utf8::encode_utf8;

verus! {

/// What to complete: a program name, a path (with whether files count, or
/// only directories), or nothing.
#[derive(Debug)]
pub enum CompType {
    Bin(Option<String>),
    Path((Option<String>, bool)),
    Invalid,
}

pub enum CompKind {
    Bin(Option<Seq<char>>),
    Path(Option<Seq<char>>, bool),
    Invalid,
}

pub open spec fn opt_chars(o: Option<String>) -> Option<Seq<char>> {
    match o {
        Some(s) => Some(s@),
        None => None,
    }
}

impl View for CompType {
    type V = CompKind;

    open spec fn view(&self) -> CompKind {
        match self {
            CompType::Bin(s) => CompKind::Bin(opt_chars(*s)),
            CompType::Path((s, f)) => CompKind::Path(opt_chars(*s), *f),
            CompType::Invalid => CompKind::Invalid,
        }
    }
}

/// The word being typed: the last token when it is a word and no white
/// space follows it.
pub open spec fn active_word(input: Seq<char>, ts: Seq<TokenV>) -> Option<Seq<char>> {
    if input.len() > 0 && !is_white_space(input.last()) && ts.len() > 0 && ts.last() is Str {
        Some(ts.last()->Str_0)
    } else {
        None
    }
}

/// The tokens before the word being typed.
pub open spec fn check_tokens(ts: Seq<TokenV>, active: Option<Seq<char>>) -> Seq<TokenV> {
    if active is Some {
        ts.drop_last()
    } else {
        ts
    }
}

pub open spec fn starts_path(s: Seq<char>) -> bool {
    s.len() > 0 && (s[0] == '~' || s[0] == '.' || s[0] == '/')
}

/// The kind of completion that a line asks for.
pub open spec fn comp_kind(input: Seq<char>, home: Seq<char>) -> CompKind {
    let ts = lex_seq(input);
    if ts.len() == 0 {
        CompKind::Bin(None)
    } else {
        let active = active_word(input, ts);
        let check = check_tokens(ts, active);
        let base = match spec_parse_statement(expand_home(check, home), 0) {
            Ok(_) => if check.len() == 0 || !(check.last() is Str) {
                CompKind::Bin(active)
            } else {
                CompKind::Path(active, true)
            },
            Err(ParseError::CommandIsEmpty(i)) => if i as int == check.len() {
                CompKind::Bin(active)
            } else {
                CompKind::Invalid
            },
            Err(ParseError::RedirectIsEmpty(i)) => if i as int + 1 == check.len() {
                CompKind::Path(active, true)
            } else {
                CompKind::Invalid
            },
            _ => CompKind::Invalid,
        };
        let after_cd = check.len() > 0 && check.last() == TokenV::Str(seq!['c', 'd']);
        match base {
            CompKind::Bin(Some(s)) => if starts_path(s) {
                CompKind::Path(Some(s), !after_cd)
            } else {
                base
            },
            CompKind::Path(p, _) => CompKind::Path(p, !after_cd),
            CompKind::Invalid => CompKind::Invalid,
            CompKind::Bin(None) => base,
        }
    }
}

fn is_cd(s: &String) -> (r: bool)
    ensures
        r == (s@ == seq!['c', 'd']),
{
    let n = s.as_str().unicode_len();
    if n != 2 {
        return false;
    }
    let r = s.as_str().get_char(0) == 'c' && s.as_str().get_char(1) == 'd';
    assert(r ==> s@ =~= seq!['c', 'd']);
    r
}

pub fn get_comp_type(input: &String, env: &Env) -> (r: CompType)
    ensures
        r@ == comp_kind(input@, env.home_dir@),
{
    let tokens = match lex(input.as_str()) {
        Ok(t) => t,
        Err(_) => {
            return CompType::Invalid;
        },
    };
    let ghost ts = lex_seq(input@);
    assert(tokens_view(tokens@) == ts);
    let nt = tokens.len();
    if nt == 0 {
        return CompType::Bin(None);
    }
    let n = input.as_str().unicode_len();
    if n == 0 {
        assert(lex_seq(input@) =~= Seq::<TokenV>::empty());
    }
    let last_ws = white_space(input.as_str().get_char(n - 1));
    assert(ts.last() == tokens@[nt - 1]@);
    let active: Option<String> = if last_ws {
        None
    } else {
        match &tokens[nt - 1] {
            Token::String(s) => Some(s.clone()),
            Token::Operator(_) => None,
        }
    };
    let ghost act = active_word(input@, ts);
    assert(opt_chars(active) == act);
    let m: usize = if active.is_some() {
        nt - 1
    } else {
        nt
    };
    let mut check: Vec<Token> = Vec::new();
    let mut i: usize = 0;
    while i < m
        invariant
            m <= nt == tokens@.len(),
            i <= m,
            tokens_view(check@) == tokens_view(tokens@).take(i as int),
        decreases m - i,
    {
        let ghost prev = check@;
        check.push(copy_token(&tokens[i]));
        assert(tokens_view(check@) =~= tokens_view(prev).push(tokens@[i as int]@));
        assert(tokens_view(tokens@).take(i + 1) =~= tokens_view(tokens@).take(i as int).push(
            tokens@[i as int]@,
        ));
        i += 1;
    }
    let ghost cv = check_tokens(ts, act);
    assert(tokens_view(check@) =~= cv);
    let after_cd = m > 0 && match &check[m - 1] {
        Token::String(s) => is_cd(s),
        Token::Operator(_) => false,
    };
    proof {
        if m > 0 {
            assert(cv.last() == check@[m - 1]@);
        }
    }
    let at_start = m == 0 || match &check[m - 1] {
        Token::String(_) => false,
        Token::Operator(_) => true,
    };
    let base = match make_parse_tree_from_tokens(check, env) {
        Ok(_) => if at_start {
            CompType::Bin(active)
        } else {
            CompType::Path((active, true))
        },
        Err(ErrorEnum::ParseError(ParseError::CommandIsEmpty(i))) => if i == m {
            CompType::Bin(active)
        } else {
            CompType::Invalid
        },
        Err(ErrorEnum::ParseError(ParseError::RedirectIsEmpty(i))) => if m > 0 && i == m - 1 {
            CompType::Path((active, true))
        } else {
            CompType::Invalid
        },
        _ => CompType::Invalid,
    };
    match base {
        CompType::Bin(Some(s)) => {
            let k = s.as_str().unicode_len();
            if k > 0 && (s.as_str().get_char(0) == '~' || s.as_str().get_char(0) == '.'
                || s.as_str().get_char(0) == '/') {
                CompType::Path((Some(s), !after_cd))
            } else {
                CompType::Bin(Some(s))
            }
        },
        CompType::Path((p, _)) => CompType::Path((p, !after_cd)),
        other => other,
    }
}

/// The byte length of the UTF-8 text of `s`.
pub open spec fn byte_len(s: Seq<char>) -> int {
    encode_utf8(s).len() as int
}

/// The byte offset at which the word `w` starts when it ends the line.
pub open spec fn word_start(input: Seq<char>, w: Seq<char>) -> int {
    byte_len(input) - byte_len(w)
}

/// The word being completed ends the line, so it is no longer than the line.
proof fn lemma_active_bytes(input: Seq<char>, home: Seq<char>)
    ensures
        match comp_kind(input, home) {
            CompKind::Bin(a) => byte_len(chars_or_empty(a)) <= byte_len(input),
            CompKind::Path(a, _) => byte_len(chars_or_empty(a)) <= byte_len(input),
            CompKind::Invalid => true,
        },
{
    let ts = lex_seq(input);
    if ts.len() > 0 {
        let act = active_word(input, ts);
        if let Some(w) = act {
            crate::lexer::lemma_last_word_is_suffix(input);
            let p = input.take(input.len() - w.len());
            crate::search::lemma_encode_concat(p, w);
            assert(byte_len(w) <= byte_len(input));
        } else {
            assert(encode_utf8(Seq::<char>::empty()).len() == 0);
        }
    } else {
        assert(encode_utf8(Seq::<char>::empty()).len() == 0);
    }
}

proof fn lemma_walk_chars_push(texts: Seq<Seq<char>>, cur: Option<Seq<u8>>, cs: Seq<char>, c: char)
    ensures
        walk_chars(texts, cur, cs.push(c)) == crate::search::walk(
            texts,
            walk_chars(texts, cur, cs),
            encode_utf8(seq![c]),
        ),
    decreases cs.len(),
{
    if cs.len() == 0 {
        assert(cs.push(c).drop_first() =~= Seq::<char>::empty());
        assert(cs.push(c)[0] == c);
        reveal_with_fuel(walk_chars, 2);
    } else {
        let cur1 = crate::search::walk(texts, cur, encode_utf8(seq![cs[0]]));
        assert(cs.push(c).drop_first() =~= cs.drop_first().push(c));
        assert(cs.push(c)[0] == cs[0]);
        lemma_walk_chars_push(texts, cur1, cs.drop_first(), c);
    }
}

proof fn lemma_prefix_bytes(w: Seq<char>, k: int)
    requires
        0 <= k <= w.len(),
    ensures
        byte_len(w.take(k)) <= byte_len(w),
{
    crate::search::lemma_encode_concat(w.take(k), w.skip(k));
    assert(w.take(k) + w.skip(k) =~= w);
}

pub open spec fn chars_or_empty(o: Option<Seq<char>>) -> Seq<char> {
    match o {
        Some(s) => s,
        None => Seq::empty(),
    }
}

/// The path that a word names: `~` becomes the home directory, and a word
/// that starts with neither `/` nor `.` is taken from `./`.
pub open spec fn expanded_path(active: Option<Seq<char>>, home: Seq<char>) -> Seq<char> {
    match active {
        None => seq!['.', '/'],
        Some(p) => if p.len() > 0 && p[0] == '~' {
            home + p.drop_first()
        } else if p.len() > 0 && (p[0] == '/' || p[0] == '.') {
            p
        } else {
            seq!['.', '/'] + p
        },
    }
}

/// One past the last `/` of `s`, or 0.
pub open spec fn after_last_slash(s: Seq<char>) -> int
    decreases s.len(),
{
    if s.len() == 0 {
        0
    } else if s.last() == '/' {
        s.len() as int
    } else {
        after_last_slash(s.drop_last())
    }
}

/// A `~` that does not start `~/` names another user's home, which is not
/// completed.
pub open spec fn other_home(active: Option<Seq<char>>) -> bool {
    match active {
        Some(p) => p.len() > 0 && p[0] == '~' && !(p.len() > 1 && p[1] == '/'),
        None => false,
    }
}

/// The result of a completion: done, or a directory to list first.
#[derive(Debug)]
pub enum Completion {
    /// Replace the line from byte `0` on with the first of these.
    Done(usize, Vec<String>),
    /// List `dir`, keep the entries that start with `query` (directories
    /// only when `dirs_only`), order them with `path_order`, and replace the
    /// line from byte `anchor` on.
    ListDir { dir: String, query: String, dirs_only: bool, anchor: usize },
}

fn last_slash_end(s: &Vec<char>) -> (r: usize)
    ensures
        r == after_last_slash(s@),
        r <= s@.len(),
{
    let mut i = s.len();
    assert(s@.take(i as int) =~= s@);
    while i > 0 && s[i - 1] != '/'
        invariant
            i <= s@.len(),
            after_last_slash(s@) == after_last_slash(s@.take(i as int)),
        decreases i,
    {
        assert(s@.take(i as int).drop_last() =~= s@.take(i - 1));
        i -= 1;
    }
    if i == 0 {
        assert(s@.take(0) =~= Seq::<char>::empty());
    }
    i
}

fn prefix_string(cs: &Vec<char>, k: usize) -> (r: String)
    requires
        k <= cs@.len(),
    ensures
        r@ == cs@.take(k as int),
{
    let mut v: Vec<char> = Vec::new();
    let mut i: usize = 0;
    while i < k
        invariant
            k <= cs@.len(),
            i <= k,
            v@ == cs@.take(i as int),
        decreases k - i,
    {
        v.push(cs[i]);
        i += 1;
        assert(v@ =~= cs@.take(i as int));
    }
    crate::utils::string_of(&v)
}

fn suffix_string(cs: &Vec<char>, k: usize) -> (r: String)
    requires
        k <= cs@.len(),
    ensures
        r@ == cs@.skip(k as int),
{
    let mut v: Vec<char> = Vec::new();
    let mut i: usize = k;
    while i < cs.len()
        invariant
            k <= i <= cs@.len(),
            v@ == cs@.subrange(k as int, i as int),
        decreases cs.len() - i,
    {
        v.push(cs[i]);
        i += 1;
        assert(v@ =~= cs@.subrange(k as int, i as int));
    }
    assert(cs@.subrange(k as int, cs@.len() as int) =~= cs@.skip(k as int));
    crate::utils::string_of(&v)
}

/// Completes the word being typed: program names from the trie, most used
/// first, or a directory listing to make for a path.
pub fn comp(input: String, env: &mut Env) -> (r: Completion)
    requires
        old(env).path_set.wf(),
    ensures
        final(env).path_set.wf(),
        final(env).path_set@.texts == old(env).path_set@.texts,
        final(env).path_set@.counts == old(env).path_set@.counts,
        final(env).path_set@.cursor == Some(Seq::<u8>::empty()),
        final(env).home_dir == old(env).home_dir,
        final(env).history == old(env).history,
        match comp_kind(input@, old(env).home_dir@) {
            CompKind::Invalid => r matches Completion::Done(a, v) && a == 0 && v@.len() == 0,
            CompKind::Bin(active) => r matches Completion::Done(a, v) && a == word_start(
                input@,
                chars_or_empty(active),
            ) && is_match_list(
                TrieV {
                    cursor: walk_chars(
                        old(env).path_set@.texts,
                        Some(Seq::<u8>::empty()),
                        chars_or_empty(active),
                    ),
                    ..old(env).path_set@
                },
                v@.map_values(|s: String| s@),
            ),
            CompKind::Path(active, file_ok) => if other_home(active) {
                r matches Completion::Done(a, v) && a == 0 && v@.len() == 0
            } else {
                let e = expanded_path(active, old(env).home_dir@);
                let j = after_last_slash(e);
                let w = chars_or_empty(active);
                r matches Completion::ListDir { dir, query, dirs_only, anchor } && dir@ == e.take(j)
                    && query@ == e.skip(j) && dirs_only == !file_ok && anchor == word_start(input@, w)
                    + byte_len(w.take(after_last_slash(w)))
            },
        },
{
    let kind = get_comp_type(&input, env);
    env.path_set.reset();
    match kind {
        CompType::Invalid => Completion::Done(0, Vec::new()),
        CompType::Bin(word) => {
            let w = match word {
                Some(w) => w,
                None => String::new(),
            };
            let cs = crate::lexer::chars_of(w.as_str());
            let ghost texts = env.path_set@.texts;
            let mut i: usize = 0;
            assert(cs@.take(0) =~= Seq::<char>::empty());
            while i < cs.len()
                invariant
                    env.path_set.wf(),
                    env.path_set@.texts == texts,
                    env.path_set@.counts == old(env).path_set@.counts,
                    texts == old(env).path_set@.texts,
                    env.home_dir == old(env).home_dir,
                    env.history == old(env).history,
                    i <= cs@.len(),
                    env.path_set@.cursor == walk_chars(texts, Some(Seq::<u8>::empty()), cs@.take(i as int)),
                decreases cs.len() - i,
            {
                let ghost before = env.path_set@.cursor;
                env.path_set.search(cs[i]);
                proof {
                    lemma_walk_chars_push(texts, Some(Seq::<u8>::empty()), cs@.take(i as int), cs[i as int]);
                    assert(cs@.take(i + 1) =~= cs@.take(i as int).push(cs[i as int]));
                }
                i += 1;
            }
            assert(cs@.take(cs@.len() as int) =~= cs@);
            let v = env.path_set.get_match_texts();
            env.path_set.reset();
            let total = input.as_str().as_bytes().len();
            let wl = w.as_str().as_bytes().len();
            proof {
                lemma_active_bytes(input@, env.home_dir@);
            }
            Completion::Done(total - wl, v)
        },
        CompType::Path((word, file_ok)) => {
            let w = match &word {
                Some(w) => w.clone(),
                None => String::new(),
            };
            let wc = crate::lexer::chars_of(w.as_str());
            let n = wc.len();
            if n > 0 && wc[0] == '~' && !(n > 1 && wc[1] == '/') {
                return Completion::Done(0, Vec::new());
            }
            let mut e = String::new();
            if word.is_none() {
                crate::utils::push_char(&mut e, '.');
                crate::utils::push_char(&mut e, '/');
            } else if n > 0 && wc[0] == '~' {
                e = env.home_dir.clone();
                e.append(w.as_str().substring_char(1, n));
            } else if n > 0 && (wc[0] == '/' || wc[0] == '.') {
                e = w.clone();
            } else {
                crate::utils::push_char(&mut e, '.');
                crate::utils::push_char(&mut e, '/');
                e.append(w.as_str());
            }
            assert(e@ =~= expanded_path(opt_chars(word), env.home_dir@));
            let ec = crate::lexer::chars_of(e.as_str());
            let j = last_slash_end(&ec);
            let dir = prefix_string(&ec, j);
            let query = suffix_string(&ec, j);
            let k = last_slash_end(&wc);
            let head = prefix_string(&wc, k);
            let total = input.as_str().as_bytes().len();
            let wl = w.as_str().as_bytes().len();
            let hl = head.as_str().as_bytes().len();
            proof {
                lemma_prefix_bytes(wc@, k as int);
                lemma_active_bytes(input@, env.home_dir@);
                assert(hl as int == byte_len(head@));
                assert(wl as int == byte_len(w@));
                assert(total as int == byte_len(input@));
            }
            Completion::ListDir { dir, query, dirs_only: !file_ok, anchor: total - wl + hl }
        },
    }
}

/// A directory entry as completion sees it: its name, whether it is a
/// directory, and when it was last accessed.
#[derive(Debug, Clone)]
pub struct DirEntryInfo {
    pub name: String,
    pub is_dir: bool,
    pub accessed: u64,
}

/// The name shown for an entry: directories get a trailing `/`.
pub open spec fn shown(e: DirEntryInfo) -> Seq<char> {
    if e.is_dir {
        e.name@.push('/')
    } else {
        e.name@
    }
}

pub open spec fn is_dot(s: Seq<char>) -> bool {
    s.len() > 0 && s[0] == '.'
}

pub open spec fn starts_with(s: Seq<char>, q: Seq<char>) -> bool {
    q.len() <= s.len() && s.take(q.len() as int) == q
}

/// An entry is offered when it starts with the query, is a directory if
/// only directories count, and is hidden only if the query is.
pub open spec fn keeps(e: DirEntryInfo, query: Seq<char>, dirs_only: bool) -> bool {
    (!dirs_only || e.is_dir) && (is_dot(query) || !is_dot(shown(e))) && starts_with(shown(e), query)
}

/// The order of the offered entries: visible before hidden, then the most
/// recently accessed first, then as listed.
pub open spec fn entry_key(entries: Seq<DirEntryInfo>, j: int) -> (bool, u64, usize) {
    (is_dot(shown(entries[j])), (u64::MAX - entries[j].accessed) as u64, j as usize)
}

pub open spec fn key_le(a: (bool, u64, usize), b: (bool, u64, usize)) -> bool {
    (!a.0 && b.0) || (a.0 == b.0 && (a.1 < b.1 || (a.1 == b.1 && a.2 <= b.2)))
}

/// Relies on slice::sort: the elements are kept and put in ascending order,
/// tuples comparing field by field and `false` before `true`.
#[verifier::external_body]
fn sort_keys(v: &mut Vec<(bool, u64, usize)>)
    ensures
        final(v)@.to_multiset() == old(v)@.to_multiset(),
        forall|i: int, j: int| 0 <= i < j < final(v)@.len() ==> key_le(final(v)@[i], final(v)@[j]),
{
    v.sort();
}

fn starts_with_chars(s: &Vec<char>, q: &Vec<char>) -> (r: bool)
    ensures
        r == starts_with(s@, q@),
{
    if q.len() > s.len() {
        return false;
    }
    let mut i: usize = 0;
    while i < q.len()
        invariant
            q@.len() <= s@.len(),
            i <= q@.len(),
            s@.take(i as int) == q@.take(i as int),
        decreases q.len() - i,
    {
        if s[i] != q[i] {
            assert(s@.take(q@.len() as int)[i as int] != q@[i as int]);
            return false;
        }
        assert(s@.take(i + 1) =~= s@.take(i as int).push(s@[i as int]));
        assert(q@.take(i + 1) =~= q@.take(i as int).push(q@[i as int]));
        i += 1;
    }
    assert(q@.take(q@.len() as int) =~= q@);
    true
}

fn shown_chars(e: &DirEntryInfo) -> (r: Vec<char>)
    ensures
        r@ == shown(*e),
{
    let mut v = crate::lexer::chars_of(e.name.as_str());
    if e.is_dir {
        v.push('/');
    }
    v
}

/// The entries to offer for a path, by index, in the order to show them.
pub fn path_order(entries: &Vec<DirEntryInfo>, query: &str, dirs_only: bool) -> (r: Vec<usize>)
    ensures
        forall|i: int|
            0 <= i < r@.len() ==> #[trigger] r@[i] < entries@.len() && keeps(entries@[r@[i] as int], query@, dirs_only),
        forall|j: int| 0 <= j < entries@.len() && keeps(entries@[j], query@, dirs_only) ==> r@.contains(j as usize),
        forall|i: int, k: int|
            0 <= i < k < r@.len() ==> key_le(entry_key(entries@, r@[i] as int), entry_key(entries@, r@[k] as int)),
        r@.no_duplicates(),
{
    broadcast use vstd::seq_lib::group_to_multiset_ensures;

    let qc = crate::lexer::chars_of(query);
    let query_dot = qc.len() > 0 && qc[0] == '.';
    let mut keys: Vec<(bool, u64, usize)> = Vec::new();
    let mut j: usize = 0;
    while j < entries.len()
        invariant
            j <= entries@.len(),
            qc@ == query@,
            query_dot == is_dot(query@),
            forall|i: int|
                0 <= i < keys@.len() ==> #[trigger] keys@[i].2 < j && keeps(entries@[keys@[i].2 as int], query@, dirs_only)
                    && keys@[i] == entry_key(entries@, keys@[i].2 as int),
            forall|x: int| 0 <= x < j && keeps(entries@[x], query@, dirs_only) ==> keys@.contains(entry_key(entries@, x)),
            forall|a: int, b: int| 0 <= a < b < keys@.len() ==> keys@[a].2 < keys@[b].2,
        decreases entries.len() - j,
    {
        let e = &entries[j];
        let sc = shown_chars(e);
        let dot = sc.len() > 0 && sc[0] == '.';
        let keep = (!dirs_only || e.is_dir) && (query_dot || !dot) && starts_with_chars(&sc, &qc);
        let ghost prev = keys@;
        if keep {
            keys.push((dot, u64::MAX - e.accessed, j));
            proof {
                assert(keys@[prev.len() as int] == entry_key(entries@, j as int));
                assert forall|x: int| 0 <= x < j + 1 && keeps(entries@[x], query@, dirs_only) implies keys@.contains(entry_key(entries@, x)) by {
                    if x < j {
                        let w = choose|w: int| 0 <= w < prev.len() && prev[w] == entry_key(entries@, x);
                        assert(keys@[w] == prev[w]);
                    } else {
                        assert(keys@[prev.len() as int] == entry_key(entries@, x));
                    }
                }
            }
        }
        j += 1;
    }
    let ghost before = keys@;
    proof {
        assert(before.no_duplicates()) by {
            assert forall|a: int, b: int| 0 <= a < before.len() && 0 <= b < before.len() && a != b implies before[a]
                != before[b] by {
                if a < b {
                    assert(before[a].2 < before[b].2);
                } else {
                    assert(before[b].2 < before[a].2);
                }
            }
        }
        before.lemma_multiset_has_no_duplicates();
    }
    sort_keys(&mut keys);
    proof {
        keys@.lemma_multiset_has_no_duplicates_conv();
    }
    proof {
        assert forall|i: int| 0 <= i < keys@.len() implies #[trigger] keys@[i].2 < entries@.len() && keeps(entries@[keys@[i].2 as int], query@, dirs_only)
            && keys@[i] == entry_key(entries@, keys@[i].2 as int) by {
            assert(keys@.contains(keys@[i]));
            assert(keys@.to_multiset().count(keys@[i]) > 0);
            assert(before.contains(keys@[i]));
        }
    }
    let mut out: Vec<usize> = Vec::new();
    let mut i: usize = 0;
    while i < keys.len()
        invariant
            i <= keys@.len(),
            out@.len() == i,
            forall|k: int| 0 <= k < i ==> #[trigger] out@[k] == keys@[k].2,
        decreases keys.len() - i,
    {
        out.push(keys[i].2);
        i += 1;
    }
    proof {
        assert forall|x: int| 0 <= x < entries@.len() && keeps(entries@[x], query@, dirs_only) implies out@.contains(x as usize) by {
            assert(before.contains(entry_key(entries@, x)));
            assert(before.to_multiset().count(entry_key(entries@, x)) > 0);
            assert(keys@.contains(entry_key(entries@, x)));
            let w = choose|w: int| 0 <= w < keys@.len() && keys@[w] == entry_key(entries@, x);
            assert(out@[w] == x as usize);
        }
        assert forall|a: int, b: int| 0 <= a < out@.len() && 0 <= b < out@.len() && a != b implies out@[a] != out@[b] by {
            assert(keys@[a] == entry_key(entries@, keys@[a].2 as int));
            assert(keys@[b] == entry_key(entries@, keys@[b].2 as int));
            assert(keys@[a] != keys@[b]);
        }
        assert forall|a: int, b: int| 0 <= a < b < out@.len() implies key_le(entry_key(entries@, out@[a] as int), entry_key(entries@, out@[b] as int)) by {
            assert(keys@[a] == entry_key(entries@, keys@[a].2 as int));
            assert(keys@[b] == entry_key(entries@, keys@[b].2 as int));
        }
    }
    out
}

/// The names to show for the entries at the given indices.
pub fn shown_names(entries: &Vec<DirEntryInfo>, order: &Vec<usize>) -> (r: Vec<String>)
    requires
        forall|i: int| 0 <= i < order@.len() ==> #[trigger] order@[i] < entries@.len(),
    ensures
        r@.len() == order@.len(),
        forall|i: int| 0 <= i < r@.len() ==> #[trigger] r@[i]@ == shown(entries@[order@[i] as int]),
{
    let mut out: Vec<String> = Vec::new();
    let mut i: usize = 0;
    while i < order.len()
        invariant
            i <= order@.len(),
            out@.len() == i,
            forall|k: int| 0 <= k < order@.len() ==> #[trigger] order@[k] < entries@.len(),
            forall|k: int| 0 <= k < i ==> #[trigger] out@[k]@ == shown(entries@[order@[k] as int]),
        decreases order.len() - i,
    {
        let sc = shown_chars(&entries[order[i]]);
        out.push(crate::utils::string_of(&sc));
        i += 1;
    }
    out
}

/// A plain word followed by a space asks to complete a path in the current
/// directory: `./` is listed with an empty query, from the end of the line,
/// and files count unless the word is `cd`.
pub proof fn law_trailing_space(w: Seq<char>, home: Seq<char>)
    requires
        crate::parser::plain_word(w),
    ensures
        comp_kind(w + seq![' '], home) == CompKind::Path(None, w != seq!['c', 'd']),
        expanded_path(None, home) == seq!['.', '/'],
        after_last_slash(seq!['.', '/']) == 2,
        word_start(w + seq![' '], chars_or_empty(None)) == byte_len(w + seq![' ']),
{
    let input = w + seq![' '];
    crate::lexer::lemma_lex_split(w, Seq::empty());
    assert(w + seq![' '] + Seq::<char>::empty() =~= input);
    crate::lexer::lemma_lex_one(TokenV::Str(w));
    assert(crate::lexer::token_text(TokenV::Str(w)) == w);
    assert(lex_seq(Seq::<char>::empty()) == Seq::<TokenV>::empty());
    let ts = seq![TokenV::Str(w)];
    assert(lex_seq(input) =~= ts);
    assert(input.last() == ' ');
    assert(active_word(input, ts) is None);
    assert(expand_home(ts, home) =~= ts);
    reveal_with_fuel(crate::parser::words_end, 2);
    assert(crate::parser::words(ts, 0, 1) =~= seq![w]);
    assert(crate::parser::spec_parse_statement(ts, 1) is Ok);
    assert(crate::parser::spec_parse_statement(ts, 0) is Ok);
    if w == seq!['c', 'd'] {
        assert(ts.last() == TokenV::Str(seq!['c', 'd']));
    } else {
        assert(ts.last() != TokenV::Str(seq!['c', 'd']));
    }
    reveal_with_fuel(after_last_slash, 3);
    assert(seq!['.', '/'].drop_last() =~= seq!['.']);
    assert(encode_utf8(chars_or_empty(None)) =~= Seq::<u8>::empty());
}

/// With an empty query and files allowed, exactly the entries that are not
/// hidden are offered.
pub proof fn law_empty_query(e: DirEntryInfo)
    ensures
        keeps(e, Seq::empty(), false) == !is_dot(shown(e)),
{
    assert(shown(e).take(0) =~= Seq::<char>::empty());
}

} // verus!
