use lexer_core::chars_of;
use lexer_core::cursor::{skip_whitespace, Cursor};
use lexer_core::errors::UserSideError;
use lexer_core::lex::{lex_number, lex_operator, lex_string, lext_text, uint_underscored};
use lexer_core::token::{BinaryOp, FloatLit, LexTag, LexToken, Span};

fn frag(src: &[char], span: &Span) -> String {
    let text: String = src.iter().collect();
    text[span.offset..span.offset + span.len].to_string()
}

fn float_of(l: &FloatLit) -> f64 {
    let fraction = l.frac as f64 / 10f64.powi(l.frac_digits as i32);
    let v = l.whole as f64 + fraction;
    if l.negative {
        -v
    } else {
        v
    }
}

#[test]
fn test_uint_underscored_valid() {
    let src = chars_of("111_222_333xyz");
    let input = Cursor::new(&src);
    let result = uint_underscored(input);
    assert_eq!(result, Ok((input.advance(11), (111_222_333u64, None))));

    let src = chars_of("123_6_22 as");
    let input = Cursor::new(&src);
    let result = uint_underscored(input);
    assert_eq!(result, Ok((input.advance(8), (123_6_22u64, None))));

    let src = chars_of("987654");
    let input = Cursor::new(&src);
    let result = uint_underscored(input);
    assert_eq!(result, Ok((input.advance(6), (987654u64, None))));
}

#[test]
fn test_lex_int_with_signs() {
    let src = chars_of("+1234");
    let input = Cursor::new(&src);
    let result = lex_number(input);
    assert_eq!(
        result,
        Ok((input.advance(5), LexToken::new(Span { offset: 0, len: 5 }, LexTag::Int(1234))))
    );

    let src = chars_of("-5678");
    let input = Cursor::new(&src);
    let result = lex_number(input);
    assert_eq!(
        result,
        Ok((input.advance(5), LexToken::new(Span { offset: 0, len: 5 }, LexTag::Int(-5678))))
    );

    let src = chars_of("9876");
    let input = Cursor::new(&src);
    let result = lex_number(input);
    assert_eq!(
        result,
        Ok((input.advance(4), LexToken::new(Span { offset: 0, len: 4 }, LexTag::Int(9876))))
    );
}

#[test]
fn test_skip_whitespace() {
    let src = chars_of("   xyz");
    let input = Cursor::new(&src);
    assert_eq!(skip_whitespace(input), input.advance(3));

    let src = chars_of("\t\t123_6_22 as");
    let input = Cursor::new(&src);
    assert_eq!(skip_whitespace(input), input.advance(2));

    let src = chars_of("\n!!!");
    let input = Cursor::new(&src);
    assert_eq!(skip_whitespace(input), input.advance(1));

    let src = chars_of("987654");
    let input = Cursor::new(&src);
    assert_eq!(skip_whitespace(input), input);
}

#[test]
fn test_lex_basic_string_with_names_and_comments() {
    let src = chars_of("name1 # This is a comment\nname2 # Another comment");
    let input = Cursor::new(&src);
    let result = lext_text(input);
    assert!(result.is_ok());

    let (remaining, token1) = result.unwrap();
    assert_eq!(token1.tag, LexTag::Word());
    assert_eq!(frag(&src, &token1.span), "name1");

    let (remaining, token2) = lext_text(remaining).unwrap();
    assert_eq!(token2.tag, LexTag::Comment());

    let (remaining, token3) = lext_text(remaining).unwrap();
    assert_eq!(token3.tag, LexTag::Word());
    assert_eq!(frag(&src, &token3.span), "name2");

    let (remaining, token4) = lext_text(remaining).unwrap();
    assert_eq!(token4.tag, LexTag::Comment());

    assert_eq!(remaining.rest_len(), 0);
}

#[test]
fn test_lex_empty() {
    let src = chars_of("");
    let result = lext_text(Cursor::new(&src));
    assert!(result.is_err());
}

#[test]
fn test_lex_invalid_token_error() {
    let src = chars_of("name1 🏳️‍⚧️ name2");
    let result = lext_text(Cursor::new(&src));
    assert!(result.is_ok());

    let (remaining, token1) = result.unwrap();
    assert_eq!(token1.tag, LexTag::Word());
    assert_eq!(frag(&src, &token1.span), "name1");

    let (remaining, token2) = lext_text(remaining).unwrap();
    assert_eq!(token2.tag, LexTag::Unknowen());

    let (_, token3) = lext_text(remaining).unwrap();
    match token3.tag {
        LexTag::Unknowen() | LexTag::Word() => {}
        _ => unreachable!("Unexpected tag"),
    };
}

fn assert_operator(input: &str, expected_tag: LexTag) {
    let src = chars_of(input);
    let result = lex_operator(Cursor::new(&src));
    assert!(result.is_ok(), "Failed to parse operator: {}", input);
    let (_, token) = result.unwrap();
    assert_eq!(token.tag, expected_tag, "Expected {:?} but got {:?}", expected_tag, token.tag);
}

#[test]
fn test_single_char_operators() {
    assert_operator("+", LexTag::Op(BinaryOp::Add));
    assert_operator("-", LexTag::Op(BinaryOp::Sub));
    assert_operator("*", LexTag::Op(BinaryOp::Mul));
    assert_operator("/", LexTag::Op(BinaryOp::Div));
    assert_operator("%", LexTag::Op(BinaryOp::Mod));
    assert_operator(".", LexTag::Op(BinaryOp::Dot));
    assert_operator("^", LexTag::Op(BinaryOp::Exp));
    assert_operator("|", LexTag::Op(BinaryOp::SingleOr));

    assert_operator("<", LexTag::Op(BinaryOp::Smaller));
    assert_operator(">", LexTag::Op(BinaryOp::Bigger));
    assert_operator("=", LexTag::Op(BinaryOp::OneEqul));
}

#[test]
fn test_multi_char_operators() {
    assert_operator("|>", LexTag::Op(BinaryOp::Pipe));
    assert_operator("**", LexTag::Op(BinaryOp::Exp));
    assert_operator("&&", LexTag::Op(BinaryOp::And));
    assert_operator("||", LexTag::Op(BinaryOp::Or));
    assert_operator("==", LexTag::Op(BinaryOp::TwoEqul));
    assert_operator("!=", LexTag::Op(BinaryOp::NotEqual));
    assert_operator("<=", LexTag::Op(BinaryOp::SmallerEqual));
    assert_operator(">=", LexTag::Op(BinaryOp::BiggerEqual));
    assert_operator("=>", LexTag::Op(BinaryOp::FatArrow));
    assert_operator("->", LexTag::Op(BinaryOp::SmallArrow));
}

#[test]
fn test_lex_string() {
    let src = chars_of("\"Hello, world!\\n\" junk");
    let result = lex_string(Cursor::new(&src));
    assert!(result.is_ok(), "Failed to parse valid string");
    let (remaining, token) = result.unwrap();
    assert_eq!(token.tag, LexTag::String('"'));
    assert_eq!(frag(&src, &token.span), "\"Hello, world!\\n\"");
    assert_eq!(remaining.rest_len(), 5, "Unexpected characters remaining after parsing a valid string");

    let src = chars_of("\"Unclosed string example");
    let result = lex_string(Cursor::new(&src));
    assert!(result.is_ok(), "Should return a token despite being unclosed");
    let (_, token) = result.unwrap();
    assert_eq!(token.tag, LexTag::PoisonString('"'));
    assert_eq!(frag(&src, &token.span), "\"Unclosed string example");
    assert!(token.error.is_some(), "Should log an error for unclosed string");

    let src = chars_of("'a'");
    let result = lex_string(Cursor::new(&src));
    assert!(result.is_ok(), "Failed to parse single character string");
    let (remaining, token) = result.unwrap();
    assert_eq!(token.tag, LexTag::String('\''));
    assert_eq!(frag(&src, &token.span), "'a'");
    assert_eq!(remaining.rest_len(), 0, "Unexpected characters remaining after parsing a single character string");

    let src = chars_of("\"Escaped \\\" quote\"");
    let result = lex_string(Cursor::new(&src));
    assert!(result.is_ok(), "Failed to parse string with escaped quote");
    let (remaining, token) = result.unwrap();
    assert_eq!(token.tag, LexTag::String('"'));
    assert_eq!(frag(&src, &token.span), "\"Escaped \\\" quote\"");
    assert_eq!(remaining.rest_len(), 0, "Unexpected characters remaining after parsing a string with escaped quote");

    let src = chars_of("\"Line1\\nLine2\\tTabbed\"");
    let result = lex_string(Cursor::new(&src));
    assert!(result.is_ok(), "Failed to parse string with newlines and tabs");
    let (remaining, token) = result.unwrap();
    assert_eq!(token.tag, LexTag::String('"'));
    assert_eq!(frag(&src, &token.span), "\"Line1\\nLine2\\tTabbed\"");
    assert_eq!(remaining.rest_len(), 0, "Unexpected characters remaining after parsing a string with newlines and tabs");
}

#[test]
fn test_overflow_errors() {
    let large_float = chars_of("999999999999999999999999999999999999999999999999999999999999999999999999999999999.999999999999999999999999999999999999999999999999999999");
    let large_int = chars_of("9223372036854775808");
    let with_underscores = chars_of("2_33_1");
    let overflow_with_underscores = chars_of("9999999999_9999999999_9999999999");

    let result = lex_number(Cursor::new(&large_float));
    assert!(result.is_ok(), "Failed to parse large float with overflow");
    let (_, token) = result.unwrap();
    assert!(matches!(token.tag, LexTag::Float(_)), "Expected a float token despite overflow");
    assert!(token.error.is_some(), "Expected overflow error in the token");
    assert!(matches!(token.error.as_ref().unwrap().as_ref(), UserSideError::Compound(_)), "Expected 2 Errors ");

    let result = lex_number(Cursor::new(&large_int));
    assert!(result.is_ok(), "Failed to parse large int with overflow");
    let (_, token) = result.unwrap();
    assert!(matches!(token.tag, LexTag::Int(_)), "Expected an int token despite overflow");
    assert!(token.error.is_some(), "Expected overflow error in the token");
    assert!(matches!(token.error.as_ref().unwrap().as_ref(), UserSideError::IntOverflowError(_, _)), "Expected IntOverflowError");

    let result = lex_number(Cursor::new(&with_underscores));
    assert!(result.is_ok(), "Failed to parse number with underscores");
    let (_, token) = result.unwrap();
    assert_eq!(frag(&with_underscores, &token.span), "2_33_1", "Parsed value should ignore underscores");
    assert!(token.error.is_none(), "Unexpected error for valid number with underscores");

    let result = lex_number(Cursor::new(&overflow_with_underscores));
    assert!(result.is_ok(), "Failed to parse overflow number with underscores");
    let (_, token) = result.unwrap();
    assert!(matches!(token.tag, LexTag::Int(_)), "Expected an int token despite overflow");
    assert!(token.error.is_some(), "Expected overflow error in the token");
    assert!(matches!(token.error.as_ref().unwrap().as_ref(), UserSideError::OverflowError(_)), "Expected IntOverflowError");
}

enum Want {
    Tag(LexTag),
    Float(f64),
}

#[test]
fn test_lex_text_happy_path() {
    let src = chars_of("func + 123 / 2.11_2; 1.\"string\" # aa \" {}comment \n %atom :: :atom");
    let mut remaining = Cursor::new(&src);

    let expected = vec![
        Want::Tag(LexTag::Word()),
        Want::Tag(LexTag::Op(BinaryOp::Add)),
        Want::Tag(LexTag::Int(123)),
        Want::Tag(LexTag::Op(BinaryOp::Div)),
        Want::Float(2.112),
        Want::Tag(LexTag::Ender(';')),
        Want::Float(1.0),
        Want::Tag(LexTag::String('"')),
        Want::Tag(LexTag::Comment()),
        Want::Tag(LexTag::Atom()),
        Want::Tag(LexTag::Op(BinaryOp::DoubleDots)),
        Want::Tag(LexTag::Atom()),
    ];

    for want in expected {
        let result = lext_text(remaining);
        assert!(result.is_ok(), "Failed to parse expected token");
        let (new_remaining, token) = result.unwrap();
        match want {
            Want::Tag(tag) => assert_eq!(token.tag, tag, "Parsed token does not match expected"),
            Want::Float(f) => match token.tag {
                LexTag::Float(lit) => assert_eq!(float_of(&lit), f),
                other => panic!("Expected a float, found {:?}", other),
            },
        }
        remaining = new_remaining;
    }

    assert_eq!(remaining.rest_len(), 0, "Unexpected characters remaining after parsing all tokens");
    assert!(remaining.is_empty(), "Expected all input to be consumed");
}
