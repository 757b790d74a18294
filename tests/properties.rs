use lexer_core::chars_of;
use lexer_core::cursor::Cursor;
use lexer_core::errors::{combine_errors, UserSideError};
use lexer_core::first_read::{BasicType, Gatherer};
use lexer_core::lex::{lex_full_text, lex_number, lex_operator, lex_string, lext_text, skip_to_str_end};
use lexer_core::token::{BinaryOp, FloatLit, LexTag, LexToken, Span, TokenSlice};

fn frag(src: &[char], span: &Span) -> String {
    let text: String = src.iter().collect();
    text[span.offset..span.offset + span.len].to_string()
}

fn faults(t: &LexToken) -> Vec<&UserSideError> {
    match t.error.as_deref() {
        None => vec![],
        Some(UserSideError::Compound(v)) => v.iter().collect(),
        Some(e) => vec![e],
    }
}

#[test]
fn tokens_and_whitespace_make_up_the_text() {
    let text = "func + 123 / 2.11_2; 1.\"string\" # aa \" {}comment \n %atom :: :atom  ";
    let src = chars_of(text);
    let tokens = lex_full_text(text);
    let mut rebuilt = String::new();
    let mut pos = 0;
    for t in &tokens {
        assert!(t.span.len > 0);
        assert!(t.span.offset >= pos);
        for c in &src[pos..t.span.offset] {
            assert!(c.is_whitespace());
        }
        rebuilt.push_str(&frag(&src, &t.span));
        pos = t.span.offset + t.span.len;
    }
    for c in &src[pos..] {
        assert!(c.is_whitespace());
    }
    let stripped: String = text.chars().filter(|c| !c.is_whitespace()).collect();
    let rebuilt_stripped: String = rebuilt.chars().filter(|c| !c.is_whitespace()).collect();
    assert_eq!(stripped, rebuilt_stripped);
    assert_eq!(tokens.len(), 12);
}

#[test]
fn empty_and_blank_texts_have_no_tokens() {
    assert!(lex_full_text("").is_empty());
    assert!(lex_full_text(" \t\n  ").is_empty());
}

#[test]
fn underscored_digits_read_as_their_value() {
    let src = chars_of("1_000_000");
    let (_, t) = lex_number(Cursor::new(&src)).unwrap();
    assert_eq!(t.tag, LexTag::Int(1_000_000));
    assert!(t.error.is_none());

    let src = chars_of("9223372036854775807");
    let (_, t) = lex_number(Cursor::new(&src)).unwrap();
    assert_eq!(t.tag, LexTag::Int(i64::MAX));
    assert!(t.error.is_none());
}

#[test]
fn a_doubled_underscore_ends_the_number() {
    let src = chars_of("12__3");
    let (rest, t) = lex_number(Cursor::new(&src)).unwrap();
    assert_eq!(t.tag, LexTag::Int(12));
    assert_eq!(rest.pos, 2);
}

#[test]
fn overflow_faults_by_magnitude() {
    // Beyond 64 unsigned bits: an overflow fault over the digits, sentinel value.
    let src = chars_of("18446744073709551616");
    let (_, t) = lex_number(Cursor::new(&src)).unwrap();
    assert_eq!(t.tag, LexTag::Int(i64::MAX));
    assert_eq!(faults(&t), vec![&UserSideError::OverflowError(Span { offset: 0, len: 20 })]);

    // Between the signed and the unsigned limit: an integer overflow fault.
    let src = chars_of("18446744073709551615");
    let (_, t) = lex_number(Cursor::new(&src)).unwrap();
    assert_eq!(t.tag, LexTag::Int(i64::MAX));
    assert_eq!(
        faults(&t),
        vec![&UserSideError::IntOverflowError(Span { offset: 0, len: 20 }, u64::MAX)]
    );

    // A negative literal keeps its sign on the sentinel.
    let src = chars_of("-9223372036854775808");
    let (_, t) = lex_number(Cursor::new(&src)).unwrap();
    assert_eq!(t.tag, LexTag::Int(-i64::MAX));
    assert_eq!(
        faults(&t),
        vec![&UserSideError::IntOverflowError(Span { offset: 0, len: 20 }, 9223372036854775808)]
    );

    // Both parts of a float overflowing: both faults, in a compound.
    let src = chars_of("99999999999999999999.99999999999999999999");
    let (_, t) = lex_number(Cursor::new(&src)).unwrap();
    assert_eq!(
        t.error.as_deref(),
        Some(&UserSideError::Compound(vec![
            UserSideError::OverflowError(Span { offset: 0, len: 20 }),
            UserSideError::OverflowError(Span { offset: 21, len: 20 }),
        ]))
    );
}

#[test]
fn floats_keep_their_parts() {
    let src = chars_of("-3.25x");
    let (rest, t) = lex_number(Cursor::new(&src)).unwrap();
    assert_eq!(t.tag, LexTag::Float(FloatLit { negative: true, whole: 3, frac: 25, frac_digits: 2 }));
    assert_eq!(rest.pos, 5);

    let src = chars_of("7.");
    let (rest, t) = lex_number(Cursor::new(&src)).unwrap();
    assert_eq!(t.tag, LexTag::Float(FloatLit { negative: false, whole: 7, frac: 0, frac_digits: 0 }));
    assert_eq!(rest.pos, 2);
}

#[test]
fn non_numbers_are_refused() {
    let src = chars_of("x12");
    assert!(lex_number(Cursor::new(&src)).is_err());
    let src = chars_of("-x");
    assert!(lex_number(Cursor::new(&src)).is_err());
}

#[test]
fn closed_strings_are_strings() {
    let src = chars_of("'it\\'s' rest");
    let (rest, t) = lex_string(Cursor::new(&src)).unwrap();
    assert_eq!(t.tag, LexTag::String('\''));
    assert_eq!(frag(&src, &t.span), "'it\\'s'");
    assert!(t.error.is_none());
    assert_eq!(rest.pos, 7);
}

#[test]
fn unclosed_strings_end_at_the_fault() {
    // A bare line break is taken into the token.
    let src = chars_of("\"abc\ndef\"");
    let (_, t) = lex_string(Cursor::new(&src)).unwrap();
    assert_eq!(t.tag, LexTag::PoisonString('"'));
    assert_eq!(t.span, Span { offset: 0, len: 5 });
    assert_eq!(t.error.as_deref(), Some(&UserSideError::UnclosedString(Span { offset: 0, len: 5 }, '"')));

    // A `\` before a line break ends the token after the `\`.
    let src = chars_of("\"ab\\\ncd\"");
    let (_, t) = lex_string(Cursor::new(&src)).unwrap();
    assert_eq!(t.tag, LexTag::PoisonString('"'));
    assert_eq!(t.span, Span { offset: 0, len: 4 });

    // The end of the text.
    let src = chars_of("'abc");
    let (_, t) = lex_string(Cursor::new(&src)).unwrap();
    assert_eq!(t.tag, LexTag::PoisonString('\''));
    assert_eq!(t.span, Span { offset: 0, len: 4 });

    // A `\` at the very end.
    let src = chars_of("'ab\\");
    let (_, t) = lex_string(Cursor::new(&src)).unwrap();
    assert_eq!(t.span, Span { offset: 0, len: 4 });
}

#[test]
fn string_end_counts() {
    let body = chars_of("ab\\\"c\" tail");
    assert_eq!(skip_to_str_end(&body, '"'), Ok(6));
    let body = chars_of("ab\ncd");
    assert_eq!(skip_to_str_end(&body, '"'), Err(3));
    let body = chars_of("ab");
    assert_eq!(skip_to_str_end(&body, '"'), Err(2));
}

#[test]
fn joined_texts_scan_as_their_parts() {
    let a = "x = 12; # note\n";
    let b = "'s' |> f(1.5)";
    let joined = format!("{}{}", a, b);
    let whole = lex_full_text(&joined);
    let first = lex_full_text(a);
    let second = lex_full_text(b);
    let shift = a.len();
    assert_eq!(whole.len(), first.len() + second.len());
    for (x, y) in whole.iter().zip(first.iter()) {
        assert_eq!(x, y);
    }
    for (x, y) in whole[first.len()..].iter().zip(second.iter()) {
        assert_eq!(x.tag, y.tag);
        assert_eq!(x.span, Span { offset: y.span.offset + shift, len: y.span.len });
    }
}

#[test]
fn pipe_is_never_two_bars() {
    let src = chars_of("|>");
    let (rest, t) = lex_operator(Cursor::new(&src)).unwrap();
    assert_eq!(t.tag, LexTag::Op(BinaryOp::Pipe));
    assert_eq!(t.span.len, 2);
    assert_eq!(rest.pos, 2);
    let tokens = lex_full_text("a|>b||c|d");
    let tags: Vec<LexTag> = tokens.iter().map(|t| t.tag).collect();
    assert_eq!(
        tags,
        vec![
            LexTag::Word(),
            LexTag::Op(BinaryOp::Pipe),
            LexTag::Word(),
            LexTag::Op(BinaryOp::Or),
            LexTag::Word(),
            LexTag::Op(BinaryOp::SingleOr),
            LexTag::Word(),
        ]
    );
}

#[test]
fn single_colon_and_lone_symbols() {
    let tokens = lex_full_text(": ! &");
    assert_eq!(tokens[0].tag, LexTag::Op(BinaryOp::Dots));
    assert_eq!(tokens[1].tag, LexTag::Unknowen());
    assert_eq!(tokens[1].error.as_deref(), Some(&UserSideError::UnokwenToken(Span { offset: 2, len: 1 })));
    assert_eq!(tokens[2].tag, LexTag::Unknowen());
}

#[test]
fn delimiters_enders_and_atoms() {
    let tokens = lex_full_text("{[( )]} ; , %a1 :_b");
    let tags: Vec<LexTag> = tokens.iter().map(|t| t.tag).collect();
    assert_eq!(
        tags,
        vec![
            LexTag::Delimiter('{'),
            LexTag::Delimiter('['),
            LexTag::Delimiter('('),
            LexTag::Delimiter(')'),
            LexTag::Delimiter(']'),
            LexTag::Delimiter('}'),
            LexTag::Ender(';'),
            LexTag::Ender(','),
            LexTag::Atom(),
            LexTag::Atom(),
        ]
    );
}

#[test]
fn scanning_the_same_text_twice_agrees() {
    let text = "let x = 9223372036854775808;  🏳️‍⚧️ aaa  :ww \n922337203685477580822\"unterminated string;\n ";
    assert_eq!(lex_full_text(text), lex_full_text(text));
}

#[test]
fn merging_errors() {
    let o = || Some(Box::new(UserSideError::OverflowError(Span { offset: 0, len: 1 })));
    let u = || Some(Box::new(UserSideError::UnokwenToken(Span { offset: 1, len: 1 })));
    assert_eq!(combine_errors(None, None), None);
    assert_eq!(combine_errors(o(), None), o());
    assert_eq!(combine_errors(None, u()), u());
    let both = combine_errors(o(), u());
    assert_eq!(
        both.as_deref(),
        Some(&UserSideError::Compound(vec![
            UserSideError::OverflowError(Span { offset: 0, len: 1 }),
            UserSideError::UnokwenToken(Span { offset: 1, len: 1 }),
        ]))
    );
    // A single fault merged into a compound is appended, either way round.
    let three = combine_errors(u(), combine_errors(o(), o()));
    assert_eq!(
        three.as_deref(),
        Some(&UserSideError::Compound(vec![
            UserSideError::OverflowError(Span { offset: 0, len: 1 }),
            UserSideError::OverflowError(Span { offset: 0, len: 1 }),
            UserSideError::UnokwenToken(Span { offset: 1, len: 1 }),
        ]))
    );
    let four = combine_errors(combine_errors(u(), u()), combine_errors(o(), o()));
    match four.as_deref() {
        Some(UserSideError::Compound(v)) => assert_eq!(v.len(), 4),
        other => panic!("unexpected {:?}", other),
    }
}

#[test]
fn cursor_lines_and_offsets() {
    let src = chars_of("ab\ncd\nef");
    let c = Cursor::new(&src).advance(4);
    assert_eq!(c.location_offset(), 4);
    assert_eq!(c.location_line(), 2);
    assert_eq!(c.advance(3).location_line(), 3);
    assert_eq!(Cursor::new(&src).location_line(), 1);
    let (next, t) = lext_text(c).unwrap();
    assert_eq!(frag(&src, &t.span), "d");
    assert_eq!(next.pos, 5);
}

#[test]
fn token_slices_split_at_a_count() {
    let tokens = lex_full_text("a b c");
    let slice = TokenSlice::new(&tokens);
    assert_eq!(slice.input_len(), 3);
    assert_eq!(slice.last().map(|t| t.span.offset), Some(4));
    assert_eq!(slice.spans(), vec![Span { offset: 0, len: 1 }, Span { offset: 2, len: 1 }, Span { offset: 4, len: 1 }]);
    let (taken, rest) = slice.take_err(1).unwrap();
    assert_eq!(taken.input_len(), 1);
    assert_eq!(rest.input_len(), 2);
    assert_eq!(rest.spans()[0].offset, 2);
    assert!(slice.take_err(4).is_err());
    assert!(TokenSlice::new(&[]).last().is_none());
}

#[test]
fn gatherer_cuts_at_key_bytes() {
    let code = b"x a = 1;\n b {c} d";
    let mut g = Gatherer::new(code);
    match g.next() {
        Some(BasicType::Statment(t)) => {
            assert_eq!(t.code, b" a = 1");
            assert_eq!(t.line, 1);
        }
        _ => panic!("expected a statement"),
    }
    assert_eq!(g.index(), 8);
    match g.next() {
        Some(BasicType::Remainer(t)) => {
            assert_eq!(t.code, b"\n b ");
            assert_eq!(t.line, 1);
        }
        _ => panic!("expected a remainder"),
    }
    assert_eq!(g.line(), 2);
    assert_eq!(g.index(), 12);
    g.consume(3);
    assert_eq!(g.index(), 15);
    match g.next() {
        Some(BasicType::Remainer(t)) => assert_eq!(t.code, b" d"),
        _ => panic!("expected the last remainder"),
    }
    assert!(g.next().is_none());
}

#[test]
fn cursor_take_splits_or_fails() {
    let src = chars_of("abcd");
    let c = Cursor::new(&src).advance(1);
    let (span, rest) = c.take(2).unwrap();
    assert_eq!(span, Span { offset: 1, len: 2 });
    assert_eq!(rest.pos, 3);
    assert!(c.take(4).is_err());
    assert!(c.take(3).is_ok());
}

#[test]
fn fraction_keeps_its_leading_zeros() {
    let src = chars_of("1.05");
    let (rest, t) = lex_number(Cursor::new(&src)).unwrap();
    assert_eq!(rest.rest_len(), 0);
    assert!(t.error.is_none());
    assert_eq!(t.tag, LexTag::Float(FloatLit { negative: false, whole: 1, frac: 5, frac_digits: 2 }));
    let src = chars_of("1.5");
    let (_, t) = lex_number(Cursor::new(&src)).unwrap();
    assert_eq!(t.tag, LexTag::Float(FloatLit { negative: false, whole: 1, frac: 5, frac_digits: 1 }));
    let src = chars_of("0.0_07");
    let (_, t) = lex_number(Cursor::new(&src)).unwrap();
    assert_eq!(t.tag, LexTag::Float(FloatLit { negative: false, whole: 0, frac: 7, frac_digits: 3 }));
}

#[test]
fn lines_joined_by_a_break_scan_as_their_parts() {
    let a = "total = 1_000 + 2.05 # sum";
    let b = "  'ok' |> print(:done)";
    let joined = format!("{}\n{}", a, b);
    let whole = lex_full_text(&joined);
    let first = lex_full_text(a);
    let second = lex_full_text(b);
    let shift = a.len() + 1;
    assert_eq!(whole.len(), first.len() + second.len());
    for (x, y) in whole.iter().zip(first.iter()) {
        assert_eq!(x, y);
    }
    for (x, y) in whole[first.len()..].iter().zip(second.iter()) {
        assert_eq!(x.tag, y.tag);
        assert_eq!(x.span, Span { offset: y.span.offset + shift, len: y.span.len });
        assert_eq!(x.error.is_none(), y.error.is_none());
    }
}

#[test]
fn spans_count_bytes() {
    let text = "é \"ü\" ok";
    let tokens = lex_full_text(text);
    assert_eq!(tokens.len(), 3);
    assert_eq!(tokens[0].tag, LexTag::Word());
    assert_eq!(tokens[0].span, Span { offset: 0, len: 2 });
    assert_eq!(tokens[1].span, Span { offset: 3, len: 4 });
    assert_eq!(&text[tokens[1].span.offset..tokens[1].span.offset + tokens[1].span.len], "\"ü\"");
    assert_eq!(tokens[2].span, Span { offset: 8, len: 2 });
    let body = chars_of("é\"");
    assert_eq!(skip_to_str_end(&body, '"'), Ok(3));
    let src = chars_of("é\nx");
    let c = Cursor::new(&src).advance(2);
    assert_eq!(c.location_offset(), 3);
}

#[test]
fn line_break_shift_is_in_bytes() {
    let a = "é";
    let joined = format!("{}\n{}", a, "x");
    let tokens = lex_full_text(&joined);
    assert_eq!(tokens[1].span, Span { offset: 3, len: 1 });
    let unknown = lex_full_text("→ a");
    assert_eq!(unknown[0].error.as_deref(), Some(&UserSideError::UnokwenToken(Span { offset: 0, len: 3 })));
    assert_eq!(unknown[1].span, Span { offset: 4, len: 1 });
}
