use fructa::lang::{
    find_key, html_line_breaks, mul_str, tokenize_lang, try_tokenize_lang, KeyLookup, Operator, Token,
};
use fructa::env::Env;
use fructa::parser::{parse_statements, Node, Parser};

fn ident(x: &str) -> Token {
    Token::Identifier(x.to_string())
}

fn n_ident(x: &str) -> Node {
    Node::Identifier(x.to_string())
}

fn bin(l: Node, r: Node, o: Operator) -> Node {
    Node::BinaryOperation(Box::new(l), Box::new(r), o)
}

fn parse_text(text: &str) -> Option<Vec<Node>> {
    parse_statements(&tokenize_lang(text.to_string()))
}

// ---------------------------------------------------------------------------
// Tokenizer
// ---------------------------------------------------------------------------

#[test]
fn tokenizes_an_expression() {
    assert_eq!(
        tokenize_lang("a + 1".to_string()),
        vec![ident("a"), Token::Operator(Operator::Addition), Token::Int(1)]
    );
}

#[test]
fn tokenizes_an_if_else() {
    assert_eq!(
        tokenize_lang("if x == 10 { \"yes\" } else { \"no\" }".to_string()),
        vec![
            Token::If,
            ident("x"),
            Token::Operator(Operator::Equals),
            Token::Int(10),
            Token::OCparen,
            Token::Str("yes".to_string()),
            Token::CCparen,
            Token::Else,
            Token::OCparen,
            Token::Str("no".to_string()),
            Token::CCparen,
        ]
    );
}

#[test]
fn tokenizes_keywords_and_brackets() {
    assert_eq!(
        tokenize_lang("true false null for in ( ) [ ] - * /".to_string()),
        vec![
            Token::Bool(true),
            Token::Bool(false),
            Token::Null,
            Token::For,
            Token::In,
            Token::Oparen,
            Token::Cparen,
            Token::OSparen,
            Token::CSparen,
            Token::Operator(Operator::Substraction),
            Token::Operator(Operator::Multiplication),
            Token::Operator(Operator::Division),
        ]
    );
}

#[test]
fn tokenizes_numbers() {
    assert_eq!(tokenize_lang("3.25".to_string()), vec![Token::Float("3.25".to_string())]);
    assert_eq!(tokenize_lang("7.".to_string()), vec![Token::Float("7.".to_string())]);
    assert_eq!(
        tokenize_lang("1.2.3".to_string()),
        vec![
            Token::Float("1.2".to_string()),
            Token::Operator(Operator::Indexation),
            Token::Int(3),
        ]
    );
    assert_eq!(tokenize_lang("2147483647".to_string()), vec![Token::Int(i32::MAX)]);
    assert_eq!(tokenize_lang("007".to_string()), vec![Token::Int(7)]);
}

#[test]
fn tokenizes_words() {
    assert_eq!(
        tokenize_lang("x.y_z a1 é".to_string()),
        vec![
            ident("x"),
            Token::Operator(Operator::Indexation),
            ident("y_z"),
            ident("a"),
            Token::Int(1),
            ident("é"),
        ]
    );
}

#[test]
fn tokenizes_strings() {
    assert_eq!(
        tokenize_lang("\"a\\\"b\"".to_string()),
        vec![Token::Str("a\"b".to_string())]
    );
    assert_eq!(
        tokenize_lang("\"a\\nb\"".to_string()),
        vec![Token::Str("a\\nb".to_string())]
    );
    assert_eq!(tokenize_lang("\"abc".to_string()), vec![Token::Str("abc".to_string())]);
    assert_eq!(tokenize_lang("\"\"".to_string()), vec![Token::Str(String::new())]);
}

#[test]
fn skips_other_characters() {
    assert_eq!(tokenize_lang("a = b # ;".to_string()), vec![ident("a"), ident("b")]);
    assert_eq!(tokenize_lang("".to_string()), Vec::<Token>::new());
}

#[test]
fn tokenizing_fails() {
    assert_eq!(try_tokenize_lang("="), None);
    assert_eq!(try_tokenize_lang("a ="), None);
    assert_eq!(try_tokenize_lang("\"ab\\"), None);
    assert_eq!(try_tokenize_lang("2147483648"), None);
    assert_eq!(try_tokenize_lang("\u{663}"), None);
    assert_eq!(try_tokenize_lang("1.\u{663}"), None);
    assert_eq!(try_tokenize_lang("a == b"), Some(vec![
        ident("a"),
        Token::Operator(Operator::Equals),
        ident("b"),
    ]));
}

// ---------------------------------------------------------------------------
// Parser
// ---------------------------------------------------------------------------

#[test]
fn products_bind_tighter_than_sums() {
    assert_eq!(
        parse_text("1 + 2 * 3"),
        Some(vec![bin(
            Node::Integer(1),
            bin(Node::Integer(2), Node::Integer(3), Operator::Multiplication),
            Operator::Addition,
        )])
    );
}

#[test]
fn operators_group_to_the_left() {
    assert_eq!(
        parse_text("1 - 2 - 3"),
        Some(vec![bin(
            bin(Node::Integer(1), Node::Integer(2), Operator::Substraction),
            Node::Integer(3),
            Operator::Substraction,
        )])
    );
    assert_eq!(
        parse_text("a.b.c"),
        Some(vec![Node::Indexation(
            Box::new(Node::Indexation(Box::new(n_ident("a")), Box::new(n_ident("b")))),
            Box::new(n_ident("c")),
        )])
    );
}

#[test]
fn parentheses_and_comparisons() {
    assert_eq!(
        parse_text("(1 + 2) * 3 == x"),
        Some(vec![bin(
            bin(
                bin(Node::Integer(1), Node::Integer(2), Operator::Addition),
                Node::Integer(3),
                Operator::Multiplication,
            ),
            n_ident("x"),
            Operator::Equals,
        )])
    );
}

#[test]
fn literals() {
    assert_eq!(
        parse_text("\"hi\" 1.5 y"),
        Some(vec![
            Node::Str("hi".to_string()),
            Node::Float("1.5".to_string()),
            n_ident("y"),
        ])
    );
    assert_eq!(parse_text(""), Some(vec![]));
}

#[test]
fn if_else_and_for() {
    assert_eq!(
        parse_text("if a { 1 } else { 2 }"),
        Some(vec![Node::IfStatement(
            Box::new(n_ident("a")),
            Box::new(Node::Integer(1)),
            Box::new(Node::Integer(2)),
        )])
    );
    assert_eq!(
        parse_text("for x in list { x }"),
        Some(vec![Node::ForLoop(
            Box::new(n_ident("x")),
            Box::new(n_ident("list")),
            Box::new(n_ident("x")),
        )])
    );
}

#[test]
fn if_without_else_needs_a_following_token() {
    assert_eq!(parse_text("if x { 1 }"), None);
    assert_eq!(
        parse_text("if x { 1 } 2"),
        Some(vec![
            Node::IfStatement(
                Box::new(n_ident("x")),
                Box::new(Node::Integer(1)),
                Box::new(Node::Nullus),
            ),
            Node::Integer(2),
        ])
    );
}

#[test]
fn parsing_fails() {
    assert_eq!(parse_text("+"), None);
    assert_eq!(parse_text("(1"), None);
    assert_eq!(parse_text("1 +"), None);
    assert_eq!(parse_text("if x 1"), None);
    assert_eq!(parse_text("true"), None);
    assert_eq!(parse_text("[1]"), None);
}

#[test]
fn parser_methods_take_from_the_front() {
    let mut p = Parser { tokens: tokenize_lang("1 + 2 3".to_string()) };
    assert_eq!(
        p.rparse(),
        bin(Node::Integer(1), Node::Integer(2), Operator::Addition)
    );
    assert_eq!(p.tokens, vec![Token::Int(3)]);
    assert_eq!(p.eat_expect(Token::Int(3)), Token::Int(3));
    assert!(p.tokens.is_empty());

    let mut p = Parser { tokens: tokenize_lang("(1) 2".to_string()) };
    assert_eq!(p.parse_primary(), Node::Integer(1));
    assert_eq!(p.eat(), Token::Int(2));

    let mut p = Parser { tokens: tokenize_lang("a.b + c".to_string()) };
    assert_eq!(
        p.parse_indexation(),
        Node::Indexation(Box::new(n_ident("a")), Box::new(n_ident("b")))
    );
    assert_eq!(p.tokens, vec![Token::Operator(Operator::Addition), ident("c")]);

    let mut p = Parser { tokens: tokenize_lang("2 * 3 + 1".to_string()) };
    assert_eq!(
        p.parse_multiplication(),
        bin(Node::Integer(2), Node::Integer(3), Operator::Multiplication)
    );
    assert_eq!(p.tokens, vec![Token::Operator(Operator::Addition), Token::Int(1)]);

    let mut p = Parser { tokens: tokenize_lang("1 + 2 == 3".to_string()) };
    assert_eq!(
        p.parse_addition(),
        bin(Node::Integer(1), Node::Integer(2), Operator::Addition)
    );
    assert_eq!(p.tokens, vec![Token::Operator(Operator::Equals), Token::Int(3)]);

    let mut p = Parser { tokens: tokenize_lang("a == b == c".to_string()) };
    assert_eq!(
        p.parse_bools(),
        bin(
            bin(n_ident("a"), n_ident("b"), Operator::Equals),
            n_ident("c"),
            Operator::Equals,
        )
    );
    assert!(p.tokens.is_empty());

    let mut p = Parser { tokens: tokenize_lang("if a { b } else { c } d".to_string()) };
    assert_eq!(
        p.parse_constructs(),
        Node::IfStatement(
            Box::new(n_ident("a")),
            Box::new(n_ident("b")),
            Box::new(n_ident("c")),
        )
    );
    assert_eq!(p.tokens, vec![ident("d")]);
}

#[test]
fn node_clone_is_equal() {
    let n = parse_text("for x in l { if x == 1 { \"a\" } else { x.y } }").unwrap();
    assert_eq!(n.len(), 1);
    assert_eq!(n[0].clone(), n[0]);
    let list = Node::List(vec![Box::new(Node::Integer(4)), Box::new(Node::Bool(true))]);
    assert_eq!(list.clone(), list);
}

// ---------------------------------------------------------------------------
// Values
// ---------------------------------------------------------------------------

#[test]
fn mul_str_repeats() {
    assert_eq!(mul_str("ab".to_string(), 3), "ababab");
    assert_eq!(mul_str("ab".to_string(), 1), "ab");
    assert_eq!(mul_str("ab".to_string(), 0), "");
    assert_eq!(mul_str("x".to_string(), -2), "");
    assert_eq!(mul_str(String::new(), 5), "");
}

#[test]
fn law_repeat_adds_example() {
    let s = "xyz".to_string();
    let joined = mul_str(s.clone(), 2) + &mul_str(s.clone(), 3);
    assert_eq!(joined, mul_str(s.clone(), 5));
    assert_eq!(mul_str(s, 5).len(), 15);
}

// ---------------------------------------------------------------------------
// Variables
// ---------------------------------------------------------------------------

#[test]
fn env_finds_the_oldest_binding() {
    let mut e: Env<i32> = Env { data: vec![] };
    assert_eq!(e.get("x".to_string()), None);
    e.declare("x".to_string(), 1);
    e.declare("y".to_string(), 2);
    assert_eq!(e.get("x".to_string()), Some(&1));
    assert_eq!(e.get("y".to_string()), Some(&2));
    assert_eq!(e.get("z".to_string()), None);
    assert_eq!(e.data.len(), 2);
}

#[test]
fn law_declare_keeps_older_bindings_example() {
    let mut e: Env<&str> = Env { data: vec![("x".to_string(), "outer")] };
    e.declare("x".to_string(), "inner");
    assert_eq!(e.get("x".to_string()), Some(&"outer"));
    e.declare("i".to_string(), "item");
    assert_eq!(e.get("i".to_string()), Some(&"item"));
    assert_eq!(e.get("x".to_string()), Some(&"outer"));
}

#[test]
fn law_string_literal_reads_back_example() {
    assert_eq!(
        try_tokenize_lang("\"say \\\"hi\\\" \\n\""),
        Some(vec![Token::Str("say \"hi\" \\n".to_string())])
    );
    // A text that ends with a backslash cannot be written this way.
    assert_eq!(
        try_tokenize_lang("\"a\\\""),
        Some(vec![Token::Str("a\"".to_string())])
    );
}

#[test]
fn law_program_reads_from_the_front_example() {
    let tokens = tokenize_lang("1 + 2 if a { b } else { c } x.y (3)".to_string());
    let whole = parse_statements(&tokens).unwrap();
    let mut p = Parser { tokens: tokens.clone() };
    let mut one_by_one = vec![];
    while !p.tokens.is_empty() {
        one_by_one.push(p.rparse());
    }
    assert_eq!(one_by_one, whole);
    assert_eq!(whole.len(), 4);
}

#[test]
fn line_breaks_become_html() {
    assert_eq!(html_line_breaks("a\nb\n"), "a<br>b<br>");
    assert_eq!(html_line_breaks("plain"), "plain");
    assert_eq!(html_line_breaks(""), "");
    assert_eq!(html_line_breaks("\r\n"), "\r<br>");
}

#[test]
fn dictionary_keys() {
    let keys = vec![Some("en_uk".to_string()), Some("pl_pl".to_string()), None, Some("x".to_string())];
    assert_eq!(find_key(&keys, &"en_uk".to_string()), KeyLookup::Found(0));
    assert_eq!(find_key(&keys, &"pl_pl".to_string()), KeyLookup::Found(1));
    assert_eq!(find_key(&keys, &"x".to_string()), KeyLookup::NotAString);
    assert_eq!(find_key(&keys[..2].to_vec(), &"x".to_string()), KeyLookup::Missing);
    let dup = vec![Some("k".to_string()), Some("k".to_string())];
    assert_eq!(find_key(&dup, &"k".to_string()), KeyLookup::Found(0));
    assert_eq!(find_key(&vec![], &"k".to_string()), KeyLookup::Missing);
}
