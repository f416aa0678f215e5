use fructa::json::{parse_json, string_pairs, try_parse_json, JsonElem};
use fructa::text::i64_to_string;

fn s(x: &str) -> JsonElem {
    JsonElem::String(x.to_string())
}

#[test]
fn parses_flat_dictionary() {
    let j = parse_json("{\"a\": \"b\", \"n\": 12}".to_string());
    assert_eq!(
        j.body,
        JsonElem::Dict(vec![(s("a"), s("b")), (s("n"), JsonElem::Number(12))])
    );
    assert!(j.body.has("a"));
    assert_eq!(j.body.get("a").get_str(), "b");
    assert_eq!(j.body.get("n").get_i64(), 12);
}

#[test]
fn missing_key_gives_ignore() {
    let j = parse_json("{\"a\": \"b\"}".to_string());
    assert!(!j.body.has("zzz"));
    assert_eq!(j.body.get("zzz"), JsonElem::Ignore);
}

#[test]
fn last_entry_with_a_key_wins() {
    let j = parse_json("{\"k\": 1, \"k\": 2}".to_string());
    assert_eq!(j.body.get("k"), JsonElem::Number(2));
}

#[test]
fn parses_lists_and_words() {
    let j = parse_json("[1, 2, 3]".to_string());
    assert_eq!(
        j.body.get_list(),
        vec![JsonElem::Number(1), JsonElem::Number(2), JsonElem::Number(3)]
    );
    let j = parse_json("[true, false, null]".to_string());
    assert_eq!(
        j.body,
        JsonElem::List(vec![JsonElem::Bool(true), JsonElem::Bool(false), JsonElem::Null])
    );
}

#[test]
fn nested_values() {
    let j = parse_json("{\"l\": [\"x\", {\"y\": 3}]}".to_string());
    let l = j.body.get("l");
    assert_eq!(
        l,
        JsonElem::List(vec![s("x"), JsonElem::Dict(vec![(s("y"), JsonElem::Number(3))])])
    );
}

#[test]
fn number_at_the_end_fails() {
    assert!(try_parse_json("5").is_none());
}

#[test]
fn word_at_the_end_of_a_line_is_dropped() {
    // the newline belongs to the word, which is then not `true`
    assert!(try_parse_json("{\n  \"k\": true\n}").is_none());
    let j = parse_json("{\"k\": true}".to_string());
    assert_eq!(j.body.get("k"), JsonElem::Bool(true));
}

#[test]
fn escaped_quote_keeps_backslash() {
    let j = parse_json("[\"a\\\"b\"]".to_string());
    assert_eq!(j.body, JsonElem::List(vec![s("a\\\"b")]));
}

#[test]
fn minus_sign_is_dropped() {
    let j = parse_json("[-5]".to_string());
    assert_eq!(j.body, JsonElem::List(vec![JsonElem::Number(5)]));
}

#[test]
fn empty_text_reads_as_error_string() {
    let j = parse_json("".to_string());
    assert_eq!(j.body, s("error"));
    let j = parse_json("  \n ".to_string());
    assert_eq!(j.body, s("error"));
}

#[test]
fn last_top_level_value_wins() {
    let j = parse_json("[1][2]".to_string());
    assert_eq!(j.body, JsonElem::List(vec![JsonElem::Number(2)]));
}

#[test]
fn number_limits() {
    let j = parse_json("[9223372036854775807]".to_string());
    assert_eq!(j.body, JsonElem::List(vec![JsonElem::Number(i64::MAX)]));
    assert!(try_parse_json("[9223372036854775808]").is_none());
    assert!(try_parse_json("[\u{663}]").is_none());
}

#[test]
fn missing_colon_fails() {
    assert!(try_parse_json("{\"a\" \"b\"}").is_none());
    assert!(try_parse_json("{\"a\": 1").is_none());
    assert!(try_parse_json("]").is_none());
}

#[test]
fn trailing_comma_is_accepted() {
    let j = parse_json("{\"a\":1,}".to_string());
    assert_eq!(j.body, JsonElem::Dict(vec![(s("a"), JsonElem::Number(1))]));
}

#[test]
fn display_of_each_kind() {
    assert_eq!(s("hi").display(), "hi");
    assert_eq!(JsonElem::Number(-7).display(), "-7");
    assert_eq!(JsonElem::Number(i64::MIN).display(), "-9223372036854775808");
    assert_eq!(JsonElem::Ignore.display(), "");
    assert_eq!(JsonElem::Null.display(), "null");
    assert_eq!(JsonElem::Bool(true).display(), "lazy");
    assert_eq!(JsonElem::List(vec![]).display(), "lazy");
}

#[test]
fn has_on_other_values_is_false() {
    assert!(!JsonElem::List(vec![s("a")]).has("a"));
    assert!(!s("a").has("a"));
}

#[test]
fn clone_copies_deeply() {
    let j = parse_json("{\"a\": [1, {\"b\": null}]}".to_string());
    let c = j.body.clone();
    assert_eq!(c, j.body);
    assert_eq!(j.body.deep_copy(), j.body);
}

#[test]
fn translation_tables() {
    let j = parse_json("{\"hello\": \"czesc\", \"bye\": \"pa\"}".to_string());
    assert_eq!(
        string_pairs(&j.body),
        Some(vec![
            ("hello".to_string(), "czesc".to_string()),
            ("bye".to_string(), "pa".to_string())
        ])
    );
    let j = parse_json("{\"hello\": 1}".to_string());
    assert_eq!(string_pairs(&j.body), None);
    assert_eq!(string_pairs(&s("x")), None);
}

// Laws, on concrete values.

#[test]
fn law_string_reads_back_example() {
    let j = parse_json("\"hello world\"".to_string());
    assert_eq!(j.body, s("hello world"));
    let j = parse_json("\"\"".to_string());
    assert_eq!(j.body, s(""));
}

#[test]
fn law_decimal_parses_back_example() {
    for n in [0i64, 7, 10, 12345, 9223372036854775807] {
        let text = format!("[{}]", i64_to_string(n));
        assert_eq!(parse_json(text).body, JsonElem::List(vec![JsonElem::Number(n)]));
    }
}

#[test]
fn law_has_iff_get_finds_example() {
    let j = parse_json("{\"a\": null, \"b\": [], \"c\": \"\"}".to_string());
    for k in ["a", "b", "c", "d", ""] {
        assert_eq!(j.body.has(k), j.body.get(k) != JsonElem::Ignore);
    }
}

fn ignore_free(e: &JsonElem) -> bool {
    match e {
        JsonElem::Ignore => false,
        JsonElem::List(l) => l.iter().all(ignore_free),
        JsonElem::Dict(d) => d.iter().all(|(k, v)| ignore_free(k) && ignore_free(v)),
        _ => true,
    }
}

#[test]
fn law_parsed_values_hold_no_ignore_example() {
    for text in ["{\"a\": [1, {\"b\": null}], \"c\": true}", "[]", "", "{}"] {
        assert!(ignore_free(&parse_json(text.to_string()).body));
    }
}

#[test]
fn law_space_between_tokens_is_ignored_example() {
    let cases = [
        ("{\"a\":", "1, \"b\": [true,null]}"),
        ("[tr", "ue, 2]"),
        ("[1", ",2]"),
        ("{\"k\": \"v\"}", ""),
        ("", "[false]"),
        ("[\"x y\",", "3]"),
    ];
    for (a, b) in cases {
        let joined = format!("{}{}", a, b);
        let spaced = format!("{} {}", a, b);
        assert_eq!(
            try_parse_json(&spaced).map(|j| j.body),
            try_parse_json(&joined).map(|j| j.body)
        );
        assert!(try_parse_json(&joined).is_some());
    }
    // Two digits that meet make one number; a space splits it.
    assert_eq!(parse_json("[12]".to_string()).body.get_list().len(), 1);
    assert_eq!(parse_json("[1 2]".to_string()).body.get_list().len(), 2);
}
