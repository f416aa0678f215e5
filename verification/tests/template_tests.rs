use fructa::template::{tokenize_template, TemplateToken};

fn irr(x: &str) -> TemplateToken {
    TemplateToken::Irrelevant(x.to_string())
}

fn code(x: &str) -> TemplateToken {
    TemplateToken::CodeBlock(x.to_string())
}

#[test]
fn splits_text_and_code() {
    assert_eq!(
        tokenize_template("Hello {{name}}!".to_string()),
        vec![irr("Hello "), code("name"), irr("!")]
    );
}

#[test]
fn several_blocks() {
    assert_eq!(
        tokenize_template("a{{b}}c{{d}}e".to_string()),
        vec![irr("a"), code("b"), irr("c"), code("d"), irr("e")]
    );
}

#[test]
fn adjacent_blocks() {
    assert_eq!(
        tokenize_template("{{a}}{{b}}".to_string()),
        vec![irr(""), code("a"), irr(""), code("b"), irr("")]
    );
}

#[test]
fn short_templates_are_plain_text() {
    assert_eq!(tokenize_template("".to_string()), vec![irr("")]);
    assert_eq!(tokenize_template("x".to_string()), vec![irr("x")]);
}

#[test]
fn two_characters_without_braces_make_an_empty_block() {
    assert_eq!(
        tokenize_template("ab".to_string()),
        vec![irr("a"), code(""), irr("")]
    );
}

#[test]
fn unclosed_block() {
    assert_eq!(
        tokenize_template("a{{b".to_string()),
        vec![irr("a"), code(""), irr("")]
    );
}

#[test]
fn text_after_a_block_loses_its_last_character() {
    assert_eq!(
        tokenize_template("{{x}} hello".to_string()),
        vec![irr(""), code("x"), irr(" hell"), code(""), irr("")]
    );
}

#[test]
fn law_template_pieces_alternate_example() {
    let pieces = tokenize_template("<p>{{ a + 1 }}</p>{{b}}<br>".to_string());
    assert_eq!(pieces.len() % 2, 1);
    for (i, p) in pieces.iter().enumerate() {
        match p {
            TemplateToken::Irrelevant(s) => {
                assert_eq!(i % 2, 0);
                assert!(!s.contains("{{"));
            }
            TemplateToken::CodeBlock(s) => {
                assert_eq!(i % 2, 1);
                assert!(!s.contains("}}"));
            }
        }
    }
    assert_eq!(
        pieces,
        vec![
            irr("<p>"),
            code(" a + 1 "),
            irr("</p>"),
            code("b"),
            irr("<br"),
            code(""),
            irr("")
        ]
    );
}

fn joined(pieces: &[TemplateToken]) -> String {
    let mut out = String::new();
    for p in pieces {
        match p {
            TemplateToken::Irrelevant(s) => out += s,
            TemplateToken::CodeBlock(s) => {
                out += "{{";
                out += s;
                out += "}}";
            }
        }
    }
    out
}

#[test]
fn law_template_round_trip_example() {
    for text in ["", "x", "a{{b}}c", "{{a}}{{b}}", "<p>{{ x }}</p>{{y}}"] {
        assert_eq!(joined(&tokenize_template(text.to_string())), text);
    }
    assert_eq!(joined(&tokenize_template("{{x}} hello".to_string())), "{{x}} hell{{}}");
    assert_eq!(joined(&tokenize_template("ab".to_string())), "a{{}}");
    assert_eq!(joined(&tokenize_template("a{{b".to_string())), "a{{}}");
}
