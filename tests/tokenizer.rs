use sila_builder::tokenizer::{tokenize, SyntaxError};

fn toks(s: &str) -> Vec<String> {
    tokenize(s.to_string()).unwrap()
}

#[test]
fn nested_group_is_one_token() {
    assert_eq!(toks("(a (b c) d)"), vec!["(a (b c) d)".to_string()]);
}

#[test]
fn quoted_token_keeps_inner_space() {
    assert_eq!(toks("\"a b\" c"), vec!["\"a b\"".to_string(), "c".to_string()]);
}

#[test]
fn open_group_is_unbalanced() {
    assert_eq!(tokenize("(a".to_string()), Err(SyntaxError::UnbalancedParenthesis));
}

#[test]
fn open_quote_is_unterminated() {
    assert_eq!(tokenize("\"a".to_string()), Err(SyntaxError::UnterminatedQuote));
}

#[test]
fn stray_close_is_unbalanced() {
    assert_eq!(tokenize("a ) b".to_string()), Err(SyntaxError::UnbalancedParenthesis));
}

#[test]
fn outer_whitespace_changes_nothing() {
    let plain = toks("a (b c) \"d e\" f");
    assert_eq!(toks("  a (b c) \"d e\" f \t\n"), plain);
    assert_eq!(plain.len(), 4);
    let joined = plain.join(" ");
    assert_eq!(toks(&joined), plain);
}

#[test]
fn same_input_gives_same_tokens() {
    let s = "x + (y * \"z w\") - 3";
    assert_eq!(toks(s), toks(s));
}

#[test]
fn separators_include_full_width_space() {
    assert_eq!(toks("a\u{3000}b\tc\r\nd"), vec!["a", "b", "c", "d"]);
}

#[test]
fn quote_starts_a_new_token() {
    assert_eq!(toks("ab\"c d\"e"), vec!["ab", "\"c d\"", "e"]);
}

#[test]
fn group_starts_a_new_token() {
    assert_eq!(toks("f(x)y"), vec!["f", "(x)", "y"]);
}

#[test]
fn quote_inside_group_is_literal() {
    assert_eq!(toks("(say \"hi)\" x\""), vec!["(say \"hi)", "\" x\""]);
}

#[test]
fn paren_inside_quote_is_literal() {
    assert_eq!(toks("\"(a\" b"), vec!["\"(a\"", "b"]);
}

#[test]
fn empty_line_has_no_tokens() {
    assert_eq!(toks(""), Vec::<String>::new());
    assert_eq!(toks("   "), Vec::<String>::new());
}

#[test]
fn each_token_tokenizes_to_itself() {
    let line = "f(x) \"a (b\" (c \"d\" (e)) g\u{3000}h";
    let once = toks(line);
    assert_eq!(once.len(), 6);
    for t in &once {
        assert!(!t.is_empty());
        assert_eq!(toks(t), vec![t.clone()]);
    }
}
