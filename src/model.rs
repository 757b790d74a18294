//! What each scanning rule makes of a text, stated over the sequence of its
//! characters `s` and the index `i` at which the rule starts.
use vstd::prelude::*;

use crate::cursor::{in_class, is_digit, run_end, CharClass};
use crate::errors::UserSideError;
use crate::token::{mk_span, tok, BinaryOp, FloatLit, LexTag, Tok};

verus! {

/// The end of a word or of an atom's name that starts at `i`: a run of
/// letters and `_`, then a run of letters, numerals and `_`.
pub open spec fn word_end(s: Seq<char>, i: int) -> int {
    run_end(s, run_end(s, i, CharClass::WordStart), CharClass::WordChar)
}

pub open spec fn spec_word(s: Seq<char>, i: int) -> Option<Tok> {
    if 0 <= i < s.len() && in_class(CharClass::WordStart, s[i]) {
        Some(tok(i, word_end(s, i), LexTag::Word(), Seq::empty()))
    } else {
        None
    }
}

pub open spec fn spec_atom(s: Seq<char>, i: int) -> Option<Tok> {
    if 0 <= i && i + 1 < s.len() && (s[i] == '%' || s[i] == ':') && in_class(
        CharClass::WordStart,
        s[i + 1],
    ) {
        Some(tok(i, word_end(s, i + 1), LexTag::Atom(), Seq::empty()))
    } else {
        None
    }
}

pub open spec fn is_ender(c: char) -> bool {
    c == ';' || c == ','
}

pub open spec fn is_delimiter(c: char) -> bool {
    c == '{' || c == '}' || c == '[' || c == ']' || c == '(' || c == ')'
}

pub open spec fn spec_ender(s: Seq<char>, i: int) -> Option<Tok> {
    if 0 <= i < s.len() && is_ender(s[i]) {
        Some(tok(i, i + 1, LexTag::Ender(s[i]), Seq::empty()))
    } else {
        None
    }
}

pub open spec fn spec_delimiter(s: Seq<char>, i: int) -> Option<Tok> {
    if 0 <= i < s.len() && is_delimiter(s[i]) {
        Some(tok(i, i + 1, LexTag::Delimiter(s[i]), Seq::empty()))
    } else {
        None
    }
}

/// The one-character operators that no two-character spelling starts with.
pub open spec fn lead_op(c: char) -> Option<BinaryOp> {
    if c == '+' {
        Some(BinaryOp::Add)
    } else if c == '/' {
        Some(BinaryOp::Div)
    } else if c == '.' {
        Some(BinaryOp::Dot)
    } else if c == '%' {
        Some(BinaryOp::Mod)
    } else {
        None
    }
}

/// The two-character operator spellings.
pub open spec fn pair_op(a: char, b: char) -> Option<BinaryOp> {
    if a == '|' && b == '>' {
        Some(BinaryOp::Pipe)
    } else if a == '*' && b == '*' {
        Some(BinaryOp::Exp)
    } else if a == '&' && b == '&' {
        Some(BinaryOp::And)
    } else if a == '|' && b == '|' {
        Some(BinaryOp::Or)
    } else if a == '^' && b == '^' {
        Some(BinaryOp::Xor)
    } else if a == '=' && b == '=' {
        Some(BinaryOp::TwoEqul)
    } else if a == '!' && b == '=' {
        Some(BinaryOp::NotEqual)
    } else if a == '<' && b == '=' {
        Some(BinaryOp::SmallerEqual)
    } else if a == '>' && b == '=' {
        Some(BinaryOp::BiggerEqual)
    } else if a == '=' && b == '>' {
        Some(BinaryOp::FatArrow)
    } else if a == '-' && b == '>' {
        Some(BinaryOp::SmallArrow)
    } else if a == ':' && b == ':' {
        Some(BinaryOp::DoubleDots)
    } else {
        None
    }
}

/// The one-character operators that are tried after the two-character ones.
pub open spec fn single_op(c: char) -> Option<BinaryOp> {
    if c == '-' {
        Some(BinaryOp::Sub)
    } else if c == '=' {
        Some(BinaryOp::OneEqul)
    } else if c == '*' {
        Some(BinaryOp::Mul)
    } else if c == '<' {
        Some(BinaryOp::Smaller)
    } else if c == '>' {
        Some(BinaryOp::Bigger)
    } else if c == '|' {
        Some(BinaryOp::SingleOr)
    } else if c == ':' {
        Some(BinaryOp::Dots)
    } else if c == '^' {
        Some(BinaryOp::Exp)
    } else {
        None
    }
}

/// The longest operator spelling at `i`.
pub open spec fn spec_operator(s: Seq<char>, i: int) -> Option<Tok> {
    if !(0 <= i < s.len()) {
        None
    } else if lead_op(s[i]) is Some {
        Some(tok(i, i + 1, LexTag::Op(lead_op(s[i])->0), Seq::empty()))
    } else if i + 1 < s.len() && pair_op(s[i], s[i + 1]) is Some {
        Some(tok(i, i + 2, LexTag::Op(pair_op(s[i], s[i + 1])->0), Seq::empty()))
    } else if single_op(s[i]) is Some {
        Some(tok(i, i + 1, LexTag::Op(single_op(s[i])->0), Seq::empty()))
    } else {
        None
    }
}

/// A comment runs from `#` to the end of its line, the line break excluded.
pub open spec fn spec_comment(s: Seq<char>, i: int) -> Option<Tok> {
    if 0 <= i < s.len() && s[i] == '#' {
        Some(tok(i, run_end(s, i + 1, CharClass::NotNewline), LexTag::Comment(), Seq::empty()))
    } else {
        None
    }
}

pub open spec fn digit_value(c: char) -> nat {
    ((c as u32) - ('0' as u32)) as nat
}

/// The value of a decimal numeral, where `_` separators are skipped.
pub open spec fn digits_value(ds: Seq<char>) -> nat
    decreases ds.len(),
{
    if ds.len() == 0 {
        0
    } else if is_digit(ds.last()) {
        digits_value(ds.drop_last()) * 10 + digit_value(ds.last())
    } else {
        digits_value(ds.drop_last())
    }
}

/// The number of digits in a numeral, `_` separators not counted.
pub open spec fn digit_count(ds: Seq<char>) -> nat
    decreases ds.len(),
{
    if ds.len() == 0 {
        0
    } else if is_digit(ds.last()) {
        digit_count(ds.drop_last()) + 1
    } else {
        digit_count(ds.drop_last())
    }
}

/// The end of a group of digit runs, each after the first behind one `_`,
/// where `j` stands just after a digit of the group.
pub open spec fn uint_scan(s: Seq<char>, j: int) -> int
    decreases s.len() - j,
{
    if 0 <= j < s.len() && is_digit(s[j]) {
        uint_scan(s, j + 1)
    } else if 0 <= j && j + 1 < s.len() && s[j] == '_' && is_digit(s[j + 1]) {
        uint_scan(s, j + 2)
    } else {
        j
    }
}

/// The end of the digit group that starts with a digit at `i`.
pub open spec fn uint_end(s: Seq<char>, i: int) -> int {
    uint_scan(s, i + 1)
}

/// The value of the digit group that starts at `i`.
pub open spec fn uint_value(s: Seq<char>, i: int) -> nat {
    digits_value(s.subrange(i, uint_end(s, i)))
}

/// A digit group's value where it fits in 64 bits; the sentinel `i64::MAX`
/// where it does not.
pub open spec fn clamp_u64(v: nat) -> u64 {
    if v <= u64::MAX {
        v as u64
    } else {
        i64::MAX as u64
    }
}

/// The fault of a digit group `i..e` of value `v`: an overflow where `v`
/// does not fit in 64 bits.
pub open spec fn overflow_faults(i: int, e: int, v: nat) -> Seq<UserSideError> {
    if v > u64::MAX {
        seq![UserSideError::OverflowError(mk_span(i, e))]
    } else {
        Seq::empty()
    }
}

pub open spec fn sign_len(s: Seq<char>, i: int) -> int {
    if 0 <= i < s.len() && (s[i] == '+' || s[i] == '-') {
        1
    } else {
        0
    }
}

/// The integer that a magnitude `w` and a sign give, with the sentinel
/// magnitude `i64::MAX` where `w` does not fit in 64 signed bits.
pub open spec fn signed_value(negative: bool, w: u64) -> i64 {
    let mag: i64 = if w <= i64::MAX as u64 {
        w as i64
    } else {
        i64::MAX
    };
    if negative {
        (-mag) as i64
    } else {
        mag
    }
}

/// The fault of an integer literal `i..e` of magnitude `w` that does not fit
/// in 64 signed bits.
pub open spec fn int_faults(i: int, e: int, w: u64) -> Seq<UserSideError> {
    if w <= i64::MAX as u64 {
        Seq::empty()
    } else {
        seq![UserSideError::IntOverflowError(mk_span(i, e), w)]
    }
}

/// A number: an optional sign, a digit group, and optionally a `.` with a
/// second digit group.
pub open spec fn spec_number(s: Seq<char>, i: int) -> Option<Tok> {
    let j = i + sign_len(s, i);
    if !(0 <= i && j < s.len() && is_digit(s[j])) {
        None
    } else {
        let e1 = uint_end(s, j);
        let v1 = uint_value(s, j);
        let f1 = overflow_faults(j, e1, v1);
        let w = clamp_u64(v1);
        let negative = sign_len(s, i) == 1 && s[i] == '-';
        if e1 < s.len() && s[e1] == '.' {
            let d = e1 + 1;
            if d < s.len() && is_digit(s[d]) {
                let e2 = uint_end(s, d);
                let v2 = uint_value(s, d);
                Some(
                    tok(
                        i,
                        e2,
                        LexTag::Float(
                            FloatLit {
                                negative,
                                whole: w,
                                frac: clamp_u64(v2),
                                frac_digits: digit_count(s.subrange(d, e2)) as usize,
                            },
                        ),
                        f1 + overflow_faults(d, e2, v2),
                    ),
                )
            } else {
                Some(tok(i, d, LexTag::Float(FloatLit { negative, whole: w, frac: 0, frac_digits: 0 }), f1))
            }
        } else {
            Some(
                tok(i, e1, LexTag::Int(signed_value(negative, w)), f1 + int_faults(i, e1, w)),
            )
        }
    }
}

/// Scans a string literal's body from `j` for the closing quote `del`: where
/// it is found, `(true, e)` with `e` just after it; else `(false, e)`, with
/// `e` just after the fault: a line break (taken in), a `\` before a line
/// break or at the end (the break left out), or the end of the text.
pub open spec fn str_scan(s: Seq<char>, j: int, del: char) -> (bool, int)
    decreases s.len() - j,
{
    if !(0 <= j < s.len()) {
        (false, j)
    } else if s[j] == '\\' {
        if j + 1 >= s.len() || s[j + 1] == '\n' {
            (false, j + 1)
        } else {
            str_scan(s, j + 2, del)
        }
    } else if s[j] == del {
        (true, j + 1)
    } else if s[j] == '\n' {
        (false, j + 1)
    } else {
        str_scan(s, j + 1, del)
    }
}

pub open spec fn is_quote(c: char) -> bool {
    c == '"' || c == '\''
}

pub open spec fn spec_string(s: Seq<char>, i: int) -> Option<Tok> {
    if 0 <= i < s.len() && is_quote(s[i]) {
        let del = s[i];
        let (closed, e) = str_scan(s, i + 1, del);
        if closed {
            Some(tok(i, e, LexTag::String(del), Seq::empty()))
        } else {
            Some(
                tok(
                    i,
                    e,
                    LexTag::PoisonString(del),
                    seq![UserSideError::UnclosedString(mk_span(i, e), del)],
                ),
            )
        }
    } else {
        None
    }
}

/// Anything else: one character and the non-ASCII characters after it.
pub open spec fn spec_unknown(s: Seq<char>, i: int) -> Option<Tok> {
    if 0 <= i < s.len() {
        let e = run_end(s, i + 1, CharClass::NonAscii);
        Some(tok(i, e, LexTag::Unknowen(), seq![UserSideError::UnokwenToken(mk_span(i, e))]))
    } else {
        None
    }
}

/// The rules, tried in order at `i`; the first that matches makes the token.
pub open spec fn spec_rules(s: Seq<char>, i: int) -> Option<Tok> {
    if spec_word(s, i) is Some {
        spec_word(s, i)
    } else if spec_atom(s, i) is Some {
        spec_atom(s, i)
    } else if spec_ender(s, i) is Some {
        spec_ender(s, i)
    } else if spec_delimiter(s, i) is Some {
        spec_delimiter(s, i)
    } else if spec_operator(s, i) is Some {
        spec_operator(s, i)
    } else if spec_comment(s, i) is Some {
        spec_comment(s, i)
    } else if spec_number(s, i) is Some {
        spec_number(s, i)
    } else if spec_string(s, i) is Some {
        spec_string(s, i)
    } else {
        spec_unknown(s, i)
    }
}

/// One step of the scanner from `p`: skip whitespace, then apply the rules.
pub open spec fn spec_step(s: Seq<char>, p: int) -> Option<Tok> {
    spec_rules(s, run_end(s, p, CharClass::White))
}

/// The tokens of `s` from `p` on.
pub open spec fn spec_lex(s: Seq<char>, p: int) -> Seq<Tok>
    decreases s.len() - p,
{
    match spec_step(s, p) {
        Some(t) => if p < t.span.end() <= s.len() {
            seq![t] + spec_lex(s, t.span.end())
        } else {
            Seq::empty()
        },
        None => Seq::empty(),
    }
}

} // verus!
