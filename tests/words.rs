use lexer_core::chars_of;
use lexer_core::cursor::Cursor;
use lexer_core::lex::lex_delimited_word;
use lexer_core::token::Span;

fn frag(src: &[char], span: &Span) -> String {
    let text: String = src.iter().collect();
    text[span.offset..span.offset + span.len].to_string()
}

fn rest(c: &Cursor) -> String {
    c.src[c.pos..].iter().collect()
}

#[test]
fn test_lex_valid_word_with_no_delimiter() {
    let src = chars_of("abc_12");
    let result = lex_delimited_word(Cursor::new(&src));
    assert!(result.is_ok());
    let (remaining, word) = result.unwrap();
    assert_eq!(frag(&src, &word.span), "abc_12");
    assert_eq!(rest(&remaining), "");
}

#[test]
fn test_lex_valid_word_with_multiple_spaces() {
    let src = chars_of("      abc_12     ");
    let result = lex_delimited_word(Cursor::new(&src));
    assert!(result.is_ok());
    let (remaining, word) = result.unwrap();
    assert_eq!(frag(&src, &word.span), "abc_12");
    assert_eq!(rest(&remaining), "     ");
}

#[test]
fn test_lex_invalid_word_starting_with_number() {
    let src = chars_of(" 123abc ");
    let result = lex_delimited_word(Cursor::new(&src));
    assert!(result.is_err());
}

#[test]
fn test_lex_word_with_comma() {
    let src = chars_of(",abc_12,");
    let result = lex_delimited_word(Cursor::new(&src));
    assert!(result.is_ok());
    let (remaining, word) = result.unwrap();
    assert_eq!(frag(&src, &word.span), "abc_12");
    assert_eq!(rest(&remaining), ",");
}

#[test]
fn test_lex_word_with_parenthesis() {
    let src = chars_of(")word_123(");
    let result = lex_delimited_word(Cursor::new(&src));
    assert!(result.is_ok());
    let (remaining, word) = result.unwrap();
    assert_eq!(frag(&src, &word.span), "word_123");
    assert_eq!(rest(&remaining), "(");
}

#[test]
fn test_lex_word_with_underscore_only() {
    let src = chars_of(" _abc123 ");
    let result = lex_delimited_word(Cursor::new(&src));
    assert!(result.is_ok());
    let (remaining, word) = result.unwrap();
    assert_eq!(frag(&src, &word.span), "_abc123");
    assert_eq!(rest(&remaining), " ");
}

#[test]
fn test_lex_word_with_only_one_valid_character() {
    let src = chars_of(" _ ");
    let result = lex_delimited_word(Cursor::new(&src));
    assert!(result.is_ok());
    let (remaining, word) = result.unwrap();
    assert_eq!(frag(&src, &word.span), "_");
    assert_eq!(rest(&remaining), " ");
}
