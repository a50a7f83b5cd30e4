use nxml_rs::tokenizer::{is_punctuation_or_whitespace, is_whitespace};
use nxml_rs::{Position, Token, Tokenizer};

fn tokens(text: &str) -> Vec<String> {
    let mut t = Tokenizer::new(text);
    let mut out = Vec::new();
    loop {
        let token = t.next_token();
        if let Token::Eof = token {
            return out;
        }
        out.push(format!("{:?}", token));
    }
}

#[test]
fn punctuation_tokens() {
    assert_eq!(tokens("< > / ="), vec!["OpenLess", "CloseGreater", "Slash", "Equal"]);
    assert_eq!(tokens("<a/>"), vec!["OpenLess", "String(\"a\")", "Slash", "CloseGreater"]);
}

#[test]
fn quoted_string_drops_its_quotes() {
    assert_eq!(tokens("\"a b\" c"), vec!["String(\"a b\")", "String(\"c\")"]);
    assert_eq!(tokens("\"a<b>=/\""), vec!["String(\"a<b>=/\")"]);
    assert_eq!(tokens("\"\"x"), vec!["String(\"\")", "String(\"x\")"]);
}

#[test]
fn quoted_string_at_the_end_of_the_text() {
    assert_eq!(tokens("k=\"v\""), vec!["String(\"k\")", "Equal", "String(\"v\")"]);
}

#[test]
fn unterminated_quote_reads_to_the_end() {
    assert_eq!(tokens("\"abc d"), vec!["String(\"abc d\")"]);
    assert_eq!(tokens("\""), vec!["String(\"\")"]);
}

#[test]
fn bare_string_ends_at_punctuation() {
    assert_eq!(tokens("abc=def"), vec!["String(\"abc\")", "Equal", "String(\"def\")"]);
    assert_eq!(tokens("a\tb\r\nc"), vec!["String(\"a\")", "String(\"b\")", "String(\"c\")"]);
    assert_eq!(tokens("a\"b"), vec!["String(\"a\\\"b\")"]);
}

#[test]
fn non_ascii_text() {
    assert_eq!(tokens("min\u{e4} \"\u{4e16}\u{754c}\"<"), vec![
        "String(\"min\u{e4}\")",
        "String(\"\u{4e16}\u{754c}\")",
        "OpenLess"
    ]);
    let mut t = Tokenizer::new("\u{4e16}\u{754c} x");
    t.next_token();
    assert_eq!(t.position().column, 3);
}

#[test]
fn comments_declarations_and_instructions() {
    assert_eq!(tokens("<!-- x --> a <!x> b <?x?> c"), vec![
        "String(\"a\")",
        "String(\"b\")",
        "String(\"c\")"
    ]);
    assert_eq!(tokens("<!-- a > b -->c"), vec!["String(\"c\")"]);
    assert_eq!(tokens("a <!-- never closed"), vec!["String(\"a\")"]);
    assert_eq!(tokens("a <? never closed >"), vec!["String(\"a\")"]);
    assert_eq!(tokens("a <! never closed"), vec!["String(\"a\")"]);
}

#[test]
fn lone_less_than_at_the_end_is_a_token() {
    assert_eq!(tokens("a <"), vec!["String(\"a\")", "OpenLess"]);
}

#[test]
fn empty_text_is_eof() {
    let mut t = Tokenizer::new("");
    assert!(matches!(t.next_token(), Token::Eof));
    assert!(matches!(t.next_token(), Token::Eof));
    let mut t = Tokenizer::new("  \n ");
    assert!(matches!(t.next_token(), Token::Eof));
}

#[test]
fn position_starts_at_one_one() {
    let t = Tokenizer::new("abc");
    assert_eq!(t.position().line, 1);
    assert_eq!(t.position().column, 1);
}

#[test]
fn position_follows_the_cursor() {
    let mut t = Tokenizer::new("ab\n  cd<");
    t.next_token();
    assert_eq!((t.position().line, t.position().column), (1, 3));
    t.next_token();
    assert_eq!((t.position().line, t.position().column), (2, 5));
    t.next_token();
    assert_eq!((t.position().line, t.position().column), (2, 6));
}

#[test]
fn take_consumes_only_a_match() {
    let mut t = Tokenizer::new("/>");
    assert!(!t.take('>'));
    assert!(t.take('/'));
    assert!(!t.take('/'));
    assert!(t.take('>'));
    assert!(!t.take('>'));
    assert!(t.eof());
    assert!(matches!(t.next_token(), Token::Eof));
}

#[test]
fn peek_and_take_string() {
    let mut t = Tokenizer::new("<!--x");
    assert!(t.peek_string("<!"));
    assert!(t.peek_string("<!--"));
    assert!(!t.peek_string("<?"));
    assert!(!t.peek_string("<!--x-"));
    assert!(t.take_string("<!--"));
    assert_eq!(t.cur(), 'x');
    assert_eq!(t.position().column, 5);
    assert!(!t.take_string("y"));
    t.skip();
    assert!(t.eof());
    assert_eq!(t.cur(), '\0');
}

#[test]
fn skip_whitespace_stops_at_a_token() {
    let mut t = Tokenizer::new(" \t\r\n <!-- c --> x");
    t.skip_whitespace();
    assert_eq!(t.cur(), 'x');
    assert_eq!(t.position().line, 2);
}

#[test]
fn token_text() {
    assert_eq!(Token::Eof.as_str(), "");
    assert_eq!(Token::OpenLess.as_str(), "<");
    assert_eq!(Token::CloseGreater.as_str(), ">");
    assert_eq!(Token::Slash.as_str(), "/");
    assert_eq!(Token::Equal.as_str(), "=");
    assert_eq!(Token::String("abc").as_str(), "abc");
}

#[test]
fn character_classes() {
    for c in [' ', '\t', '\n', '\r'] {
        assert!(is_whitespace(c));
        assert!(is_punctuation_or_whitespace(c));
    }
    for c in ['<', '>', '=', '/'] {
        assert!(!is_whitespace(c));
        assert!(is_punctuation_or_whitespace(c));
    }
    for c in ['a', '"', '!', '?', '-', '\0'] {
        assert!(!is_whitespace(c));
        assert!(!is_punctuation_or_whitespace(c));
    }
}

#[test]
fn position_as_text() {
    assert_eq!(Position { line: 1, column: 1 }.to_string(), "1:1");
    assert_eq!(Position { line: 12, column: 345 }.to_string(), "12:345");
    assert_eq!(Position { line: 0, column: 10 }.to_string(), "0:10");
    assert_eq!(Position { line: 1000, column: 909 }.to_string(), "1000:909");
    let mut out = String::from("n=");
    nxml_rs::tokenizer::write_decimal(&mut out, 18446744073709551615);
    assert_eq!(out, "n=18446744073709551615");
}

#[test]
fn nul_is_an_ordinary_character() {
    assert_eq!(tokens("a\0b c"), vec!["String(\"a\\0b\")", "String(\"c\")"]);
}

#[test]
fn position_counts_the_last_character() {
    let mut t = Tokenizer::new("ab");
    t.next_token();
    assert!(t.eof());
    assert_eq!((t.position().line, t.position().column), (1, 3));
}
