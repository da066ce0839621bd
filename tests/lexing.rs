use myshell::lexer::{chars_of, lex, tokens_to_string, Operator, Token};

fn show(tokens: &[Token]) -> Vec<String> {
    tokens
        .iter()
        .map(|t| match t {
            Token::Operator(op) => format!("op:{}", op.to_str()),
            Token::String(s) => format!("str:{}", s),
        })
        .collect()
}

fn lexed(s: &str) -> Vec<String> {
    show(&lex(s).unwrap())
}

#[test]
fn err_redirect_is_one_operator() {
    assert_eq!(lexed("2>"), vec!["op:2>"]);
}

#[test]
fn two_then_greater_with_space() {
    assert_eq!(lexed("2 >"), vec!["str:2", "op:>"]);
}

#[test]
fn and_and_is_one_operator() {
    assert_eq!(lexed("&&"), vec!["op:&&"]);
}

#[test]
fn spaced_ands_are_two_operators() {
    assert_eq!(lexed("& &"), vec!["op:&", "op:&"]);
}

#[test]
fn doubled_operators_munch() {
    assert_eq!(lexed("a||b<<c>>d"), vec!["str:a", "op:||", "str:b", "op:<<", "str:c", "op:>>", "str:d"]);
    assert_eq!(lexed("a|b<c>d;e&"), vec!["str:a", "op:|", "str:b", "op:<", "str:c", "op:>", "str:d", "op:;", "str:e", "op:&"]);
}

#[test]
fn err_redirect_inside_a_word() {
    assert_eq!(lexed("ab2>c"), vec!["str:ab", "op:2>", "str:c"]);
    assert_eq!(lexed("a2 b"), vec!["str:a2", "str:b"]);
}

#[test]
fn white_space_separates_only() {
    assert_eq!(lexed("  echo\t hi \n"), vec!["str:echo", "str:hi"]);
    assert_eq!(lexed(""), Vec::<String>::new());
    assert_eq!(lexed("   "), Vec::<String>::new());
    assert_eq!(lexed("a\u{3000}b"), vec!["str:a", "str:b"]);
}

#[test]
fn non_ascii_words() {
    assert_eq!(lexed("échø ünï"), vec!["str:échø", "str:ünï"]);
}

#[test]
fn relexing_the_text_of_tokens_gives_them_back() {
    for line in ["ls -l | wc -l > out 2> err ; echo a && b || c &", "cat<in>>x<<y", "a2>b&&c"] {
        let tokens = lex(line).unwrap();
        let text = tokens_to_string(&tokens);
        assert_eq!(lexed(&text), show(&tokens));
    }
}

#[test]
fn text_of_tokens() {
    let tokens = lex("ls|wc  -l").unwrap();
    assert_eq!(tokens_to_string(&tokens), "ls | wc -l");
}

#[test]
fn operator_spelling() {
    assert_eq!(Operator::ErrorRedirect.to_str(), "2>");
    assert_eq!(Operator::GreaterGreater.to_str(), ">>");
    assert_eq!(Operator::SemiColon.to_str(), ";");
}

#[test]
fn chars_in_order() {
    assert_eq!(chars_of("aé"), vec!['a', 'é']);
}
