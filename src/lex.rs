use vstd::prelude::*;

use crate::cursor::{
    byte_offset_from, byte_pos, class_holds, fits, is_digit, lemma_byte_pos_mono, lemma_encoded_len,
    lemma_run_end, run_end, run_while, skip_whitespace, CharClass, Cursor,
};
use crate::errors::{combine_errors, faults_of, flat_error, UserSideError};
use crate::model::{
    clamp_u64, digit_count, digits_value, lead_op, overflow_faults, pair_op, sign_len, single_op, spec_atom,
    spec_comment, spec_delimiter, spec_ender, spec_lex, spec_number, spec_operator, spec_rules,
    spec_step, spec_string, spec_unknown, spec_word, str_scan, uint_end, uint_scan, uint_value,
};
use crate::token::{
    byte_fault, byte_span, byte_tok, bytes_faults, lemma_bytes_faults_concat,
    lemma_bytes_faults_none, lemma_bytes_faults_one, mk_span, BinaryOp, FloatLit, LexTag, LexToken,
    Span, Tok,
};

verus! {

/// What a scanning rule returns: the cursor after the token and the token,
/// or a failure that consumed nothing.
pub type LexResult<'a> = Result<(Cursor<'a>, LexToken), ()>;

/// `r` is what a rule whose model gives `m` must return at `input`.
pub open spec fn rule_result<'a>(input: Cursor<'a>, r: LexResult<'a>, m: Option<Tok>) -> bool {
    match m {
        None => r is Err,
        Some(t) => match r {
            Ok((c, tk)) => c.src == input.src && c.pos == t.span.end() && c.wf() && tk@
                == byte_tok(input.src@, t) && tk.wf(),
            Err(_) => false,
        },
    }
}

/// The byte span of the characters `i..e`, where `bi` is the byte offset
/// of `i`, and the byte offset of `e`.
fn span_of(s: &[char], i: usize, bi: usize, e: usize) -> (r: (Span, usize))
    requires
        i <= e <= s@.len(),
        bi == byte_pos(s@, i as int),
        fits(s@),
    ensures
        r.0 == byte_span(s@, mk_span(i as int, e as int)),
        r.1 == byte_pos(s@, e as int),
{
    let be: usize = byte_offset_from(s, i, bi, e);
    proof {
        lemma_byte_pos_mono(s@, i as int, e as int);
    }
    (Span { offset: bi, len: be - bi }, be)
}

pub fn lex_word<'a>(input: Cursor<'a>) -> (r: LexResult<'a>)
    requires
        input.wf(),
    ensures
        rule_result(input, r, spec_word(input.src@, input.pos as int)),
{
    let s = input.src;
    let i: usize = input.pos;
    if i < s.len() && class_holds(CharClass::WordStart, s[i]) {
        let m: usize = run_while(s, i, CharClass::WordStart);
        let e: usize = run_while(s, m, CharClass::WordChar);
        { let (sp, be) = span_of(s, i, input.byte, e); proof { lemma_bytes_faults_none(s@); } Ok((Cursor { src: s, pos: e, byte: be }, LexToken::new(sp, LexTag::Word()))) }
    } else {
        Err(())
    }
}

pub fn lex_atom<'a>(input: Cursor<'a>) -> (r: LexResult<'a>)
    requires
        input.wf(),
    ensures
        rule_result(input, r, spec_atom(input.src@, input.pos as int)),
{
    let s = input.src;
    let i: usize = input.pos;
    if i < s.len() && i + 1 < s.len() && (s[i] == '%' || s[i] == ':') && class_holds(
        CharClass::WordStart,
        s[i + 1],
    ) {
        let m: usize = run_while(s, i + 1, CharClass::WordStart);
        let e: usize = run_while(s, m, CharClass::WordChar);
        { let (sp, be) = span_of(s, i, input.byte, e); proof { lemma_bytes_faults_none(s@); } Ok((Cursor { src: s, pos: e, byte: be }, LexToken::new(sp, LexTag::Atom()))) }
    } else {
        Err(())
    }
}

pub fn lex_ender<'a>(input: Cursor<'a>) -> (r: LexResult<'a>)
    requires
        input.wf(),
    ensures
        rule_result(input, r, spec_ender(input.src@, input.pos as int)),
{
    let s = input.src;
    let i: usize = input.pos;
    if i < s.len() && (s[i] == ';' || s[i] == ',') {
        { let (sp, be) = span_of(s, i, input.byte, i + 1); proof { lemma_bytes_faults_none(s@); } Ok((Cursor { src: s, pos: i + 1, byte: be }, LexToken::new(sp, LexTag::Ender(s[i])))) }
    } else {
        Err(())
    }
}

pub fn lex_delimiter<'a>(input: Cursor<'a>) -> (r: LexResult<'a>)
    requires
        input.wf(),
    ensures
        rule_result(input, r, spec_delimiter(input.src@, input.pos as int)),
{
    let s = input.src;
    let i: usize = input.pos;
    if i < s.len() {
        let c = s[i];
        if c == '{' || c == '}' || c == '[' || c == ']' || c == '(' || c == ')' {
            return { let (sp, be) = span_of(s, i, input.byte, i + 1); proof { lemma_bytes_faults_none(s@); } Ok((Cursor { src: s, pos: i + 1, byte: be }, LexToken::new(sp, LexTag::Delimiter(c)))) };
        }
    }
    Err(())
}

fn lead_op_of(c: char) -> (r: Option<BinaryOp>)
    ensures
        r == lead_op(c),
{
    match c {
        '+' => Some(BinaryOp::Add),
        '/' => Some(BinaryOp::Div),
        '.' => Some(BinaryOp::Dot),
        '%' => Some(BinaryOp::Mod),
        _ => None,
    }
}

fn pair_op_of(a: char, b: char) -> (r: Option<BinaryOp>)
    ensures
        r == pair_op(a, b),
{
    match (a, b) {
        ('|', '>') => Some(BinaryOp::Pipe),
        ('*', '*') => Some(BinaryOp::Exp),
        ('&', '&') => Some(BinaryOp::And),
        ('|', '|') => Some(BinaryOp::Or),
        ('^', '^') => Some(BinaryOp::Xor),
        ('=', '=') => Some(BinaryOp::TwoEqul),
        ('!', '=') => Some(BinaryOp::NotEqual),
        ('<', '=') => Some(BinaryOp::SmallerEqual),
        ('>', '=') => Some(BinaryOp::BiggerEqual),
        ('=', '>') => Some(BinaryOp::FatArrow),
        ('-', '>') => Some(BinaryOp::SmallArrow),
        (':', ':') => Some(BinaryOp::DoubleDots),
        _ => None,
    }
}

fn single_op_of(c: char) -> (r: Option<BinaryOp>)
    ensures
        r == single_op(c),
{
    match c {
        '-' => Some(BinaryOp::Sub),
        '=' => Some(BinaryOp::OneEqul),
        '*' => Some(BinaryOp::Mul),
        '<' => Some(BinaryOp::Smaller),
        '>' => Some(BinaryOp::Bigger),
        '|' => Some(BinaryOp::SingleOr),
        ':' => Some(BinaryOp::Dots),
        '^' => Some(BinaryOp::Exp),
        _ => None,
    }
}

/// The longest operator spelling at the cursor.
pub fn lex_operator<'a>(input: Cursor<'a>) -> (r: LexResult<'a>)
    requires
        input.wf(),
    ensures
        rule_result(input, r, spec_operator(input.src@, input.pos as int)),
{
    let s = input.src;
    let i: usize = input.pos;
    if i >= s.len() {
        return Err(());
    }
    if let Some(op) = lead_op_of(s[i]) {
        return { let (sp, be) = span_of(s, i, input.byte, i + 1); proof { lemma_bytes_faults_none(s@); } Ok((Cursor { src: s, pos: i + 1, byte: be }, LexToken::new(sp, LexTag::Op(op)))) };
    }
    if i + 1 < s.len() {
        if let Some(op) = pair_op_of(s[i], s[i + 1]) {
            return { let (sp, be) = span_of(s, i, input.byte, i + 2); proof { lemma_bytes_faults_none(s@); } Ok((Cursor { src: s, pos: i + 2, byte: be }, LexToken::new(sp, LexTag::Op(op)))) };
        }
    }
    match single_op_of(s[i]) {
        Some(op) => { let (sp, be) = span_of(s, i, input.byte, i + 1); proof { lemma_bytes_faults_none(s@); } Ok((Cursor { src: s, pos: i + 1, byte: be }, LexToken::new(sp, LexTag::Op(op)))) },
        None => Err(()),
    }
}

/// A comment: from `#` to the end of the line, the line break left out.
pub fn lex_comment<'a>(input: Cursor<'a>) -> (r: LexResult<'a>)
    requires
        input.wf(),
    ensures
        rule_result(input, r, spec_comment(input.src@, input.pos as int)),
{
    let s = input.src;
    let i: usize = input.pos;
    if i < s.len() && s[i] == '#' {
        let e: usize = run_while(s, i + 1, CharClass::NotNewline);
        { let (sp, be) = span_of(s, i, input.byte, e); proof { lemma_bytes_faults_none(s@); } Ok((Cursor { src: s, pos: e, byte: be }, LexToken::new(sp, LexTag::Comment()))) }
    } else {
        Err(())
    }
}

/// The fallback rule: one character of any kind and the non-ASCII characters
/// after it, reported as unknown.
pub fn lex_unknowen<'a>(input: Cursor<'a>) -> (r: LexResult<'a>)
    requires
        input.wf(),
    ensures
        rule_result(input, r, spec_unknown(input.src@, input.pos as int)),
{
    let s = input.src;
    let i: usize = input.pos;
    if i < s.len() {
        let e: usize = run_while(s, i + 1, CharClass::NonAscii);
        let (span, be) = span_of(s, i, input.byte, e);
        proof {
            lemma_bytes_faults_one(s@, UserSideError::UnokwenToken(mk_span(i as int, e as int)));
        }
        Ok(
            (
                Cursor { src: s, pos: e, byte: be },
                LexToken::err_new(span, LexTag::Unknowen(), UserSideError::UnokwenToken(span)),
            ),
        )
    } else {
        Err(())
    }
}


pub proof fn lemma_uint_scan(s: Seq<char>, j: int)
    requires
        0 <= j <= s.len(),
    ensures
        j <= uint_scan(s, j) <= s.len(),
    decreases s.len() - j,
{
    if j < s.len() && is_digit(s[j]) {
        lemma_uint_scan(s, j + 1);
    } else if j + 1 < s.len() && s[j] == '_' && is_digit(s[j + 1]) {
        lemma_uint_scan(s, j + 2);
    }
}

fn is_digit_char(c: char) -> (r: bool)
    ensures
        r == is_digit(c),
{
    '0' <= c && c <= '9'
}

/// The end of the digit group that goes on at `j`.
fn uint_scan_exec(s: &[char], j: usize) -> (e: usize)
    requires
        j <= s@.len(),
    ensures
        e == uint_scan(s@, j as int),
        j <= e <= s@.len(),
{
    proof {
        lemma_uint_scan(s@, j as int);
    }
    let n: usize = s.len();
    let mut k: usize = j;
    while k < n && (is_digit_char(s[k]) || (k + 1 < n && s[k] == '_' && is_digit_char(s[k + 1])))
        invariant
            j <= k <= n,
            n == s@.len(),
            uint_scan(s@, k as int) == uint_scan(s@, j as int),
        decreases n - k,
    {
        if is_digit_char(s[k]) {
            k = k + 1;
        } else {
            k = k + 2;
        }
    }
    k
}

/// The value of the numeral `s[i..e]` where it fits in 64 bits, and whether
/// it does not.
fn digits_fold(s: &[char], i: usize, e: usize) -> (r: (u64, bool))
    requires
        i <= e <= s@.len(),
    ensures
        r.1 == (digits_value(s@.subrange(i as int, e as int)) > u64::MAX),
        !r.1 ==> r.0 == digits_value(s@.subrange(i as int, e as int)),
{
    let mut acc: u64 = 0;
    let mut over: bool = false;
    let mut k: usize = i;
    assert(s@.subrange(i as int, i as int).len() == 0);
    while k < e
        invariant
            i <= k <= e <= s@.len(),
            over == (digits_value(s@.subrange(i as int, k as int)) > u64::MAX),
            !over ==> acc == digits_value(s@.subrange(i as int, k as int)),
        decreases e - k,
    {
        let ghost before = s@.subrange(i as int, k as int);
        let ghost after = s@.subrange(i as int, k + 1);
        assert(after.drop_last() =~= before);
        assert(after.last() == s@[k as int]);
        let c = s[k];
        if is_digit_char(c) {
            if !over {
                let next: u128 = (acc as u128) * 10 + ((c as u32 - '0' as u32) as u128);
                if next > u64::MAX as u128 {
                    over = true;
                } else {
                    acc = next as u64;
                }
            }
        }
        k = k + 1;
    }
    (acc, over)
}

/// The number of digits in `s[i..e]`.
fn count_digits(s: &[char], i: usize, e: usize) -> (r: usize)
    requires
        i <= e <= s@.len(),
    ensures
        r == digit_count(s@.subrange(i as int, e as int)),
{
    let mut n: usize = 0;
    let mut k: usize = i;
    assert(s@.subrange(i as int, i as int).len() == 0);
    while k < e
        invariant
            i <= k <= e <= s@.len(),
            n == digit_count(s@.subrange(i as int, k as int)),
            n <= k - i,
        decreases e - k,
    {
        let ghost after = s@.subrange(i as int, k + 1);
        assert(after.drop_last() =~= s@.subrange(i as int, k as int));
        if is_digit_char(s[k]) {
            n = n + 1;
        }
        k = k + 1;
    }
    n
}

/// What `uint_underscored` hands back: the value of the group clamped to the
/// sentinel, and the overflow fault if there is one.
pub type UintResult<'a> = Result<(Cursor<'a>, (u64, Option<Box<UserSideError>>)), ()>;

/// Reads a digit group: digit runs, each after the first behind one `_`.
pub fn uint_underscored<'a>(input: Cursor<'a>) -> (r: UintResult<'a>)
    requires
        input.wf(),
    ensures
        ({
            let s = input.src@;
            let i = input.pos as int;
            match r {
                Err(_) => !(i < s.len() && is_digit(s[i])),
                Ok((c, (v, err))) => i < s.len() && is_digit(s[i]) && c.src == input.src && c.pos
                    == uint_end(s, i) && c.wf() && v == clamp_u64(uint_value(s, i)) && faults_of(
                    err,
                ) == bytes_faults(s, overflow_faults(i, uint_end(s, i), uint_value(s, i))) && (err is Some
                    ==> flat_error(*err->0)),
            }
        }),
{
    let s = input.src;
    let i: usize = input.pos;
    if !(i < s.len() && is_digit_char(s[i])) {
        return Err(());
    }
    let e: usize = uint_scan_exec(s, i + 1);
    let (acc, over) = digits_fold(s, i, e);
    let (span, be) = span_of(s, i, input.byte, e);
    if over {
        proof {
            lemma_bytes_faults_one(s@, UserSideError::OverflowError(mk_span(i as int, e as int)));
        }
        let err = UserSideError::OverflowError(span);
        Ok((Cursor { src: s, pos: e, byte: be }, (i64::MAX as u64, Some(Box::new(err)))))
    } else {
        proof {
            lemma_bytes_faults_none(s@);
        }
        Ok((Cursor { src: s, pos: e, byte: be }, (acc, None)))
    }
}

/// A number: an optional sign, a digit group, and optionally a `.` and a
/// second digit group. A group that overflows 64 bits reads as `i64::MAX`
/// and brings an overflow fault; an integer whose magnitude does not fit in
/// 64 signed bits reads as `i64::MAX` with the sign and brings an integer
/// overflow fault. Either way the token is made.
pub fn lex_number<'a>(input: Cursor<'a>) -> (r: LexResult<'a>)
    requires
        input.wf(),
    ensures
        rule_result(input, r, spec_number(input.src@, input.pos as int)),
{
    let s = input.src;
    let i: usize = input.pos;
    let n: usize = s.len();
    let mut j: usize = i;
    let mut negative: bool = false;
    if i < n && (s[i] == '+' || s[i] == '-') {
        negative = s[i] == '-';
        j = i + 1;
    }
    let bj: usize = byte_offset_from(s, i, input.byte, j);
    let (after, (w, err1)) = match uint_underscored(Cursor { src: s, pos: j, byte: bj }) {
        Ok(x) => x,
        Err(_) => {
            return Err(());
        },
    };
    let e1: usize = after.pos;
    proof {
        lemma_uint_scan(s@, j + 1);
    }
    if e1 < n && s[e1] == '.' {
        let d: usize = e1 + 1;
        let bd: usize = byte_offset_from(s, e1, after.byte, d);
        match uint_underscored(Cursor { src: s, pos: d, byte: bd }) {
            Ok((after2, (frac, err2))) => {
                let e2: usize = after2.pos;
                proof {
                    lemma_uint_scan(s@, d + 1);
                }
                let error = combine_errors(err1, err2);
                let frac_digits: usize = count_digits(s, d, e2);
                let lit = FloatLit { negative, whole: w, frac, frac_digits };
                let (span, be) = span_of(s, i, input.byte, e2);
                proof {
                    lemma_bytes_faults_concat(
                        s@,
                        overflow_faults(j as int, e1 as int, uint_value(s@, j as int)),
                        overflow_faults(d as int, e2 as int, uint_value(s@, d as int)),
                    );
                }
                Ok((Cursor { src: s, pos: e2, byte: be }, LexToken { span, tag: LexTag::Float(lit), error }))
            },
            Err(_) => {
                let lit = FloatLit { negative, whole: w, frac: 0, frac_digits: 0 };
                let (span, be) = span_of(s, i, input.byte, d);
                Ok((Cursor { src: s, pos: d, byte: be }, LexToken { span, tag: LexTag::Float(lit), error: err1 }))
            },
        }
    } else {
        let (span, be) = span_of(s, i, input.byte, e1);
        let ghost w_spec = w;
        proof {
            lemma_bytes_faults_none(s@);
            lemma_bytes_faults_one(s@, UserSideError::IntOverflowError(mk_span(i as int, e1 as int), w));
            lemma_bytes_faults_concat(
                s@,
                overflow_faults(j as int, e1 as int, uint_value(s@, j as int)),
                crate::model::int_faults(i as int, e1 as int, w),
            );
        }
        let mut err2: Option<Box<UserSideError>> = None;
        let mag: i64 = if w <= i64::MAX as u64 {
            w as i64
        } else {
            err2 = Some(Box::new(UserSideError::IntOverflowError(span, w)));
            i64::MAX
        };
        let value: i64 = if negative {
            -mag
        } else {
            mag
        };
        let error = combine_errors(err1, err2);
        Ok((Cursor { src: s, pos: e1, byte: be }, LexToken { span, tag: LexTag::Int(value), error }))
    }
}


pub proof fn lemma_str_scan(s: Seq<char>, j: int, del: char)
    requires
        0 <= j <= s.len(),
    ensures
        j <= str_scan(s, j, del).1 <= s.len(),
        j < s.len() ==> j < str_scan(s, j, del).1,
    decreases s.len() - j,
{
    if j < s.len() {
        if s[j] == '\\' {
            if !(j + 1 >= s.len() || s[j + 1] == '\n') {
                lemma_str_scan(s, j + 2, del);
            }
        } else if s[j] != del && s[j] != '\n' {
            lemma_str_scan(s, j + 1, del);
        }
    }
}

/// Scanning the tail `s[k..]` of a text gives what scanning the text does,
/// moved back by `k`.
pub proof fn lemma_str_scan_suffix(s: Seq<char>, k: int, j: int, del: char)
    requires
        0 <= k <= j <= s.len(),
    ensures
        str_scan(s.subrange(k, s.len() as int), j - k, del) == (
            str_scan(s, j, del).0,
            str_scan(s, j, del).1 - k,
        ),
    decreases s.len() - j,
{
    let t = s.subrange(k, s.len() as int);
    if j < s.len() {
        assert(t[j - k] == s[j]);
        if s[j] == '\\' {
            if j + 1 < s.len() {
                assert(t[j - k + 1] == s[j + 1]);
            }
            if !(j + 1 >= s.len() || s[j + 1] == '\n') {
                lemma_str_scan_suffix(s, k, j + 2, del);
            }
        } else if s[j] != del && s[j] != '\n' {
            lemma_str_scan_suffix(s, k, j + 1, del);
        }
    }
}

/// Scans a string literal's body from `j` for the closing quote `del`.
fn str_end(s: &[char], j: usize, del: char) -> (r: (bool, usize))
    requires
        j <= s@.len(),
    ensures
        r.0 == str_scan(s@, j as int, del).0,
        r.1 == str_scan(s@, j as int, del).1,
        j <= r.1 <= s@.len(),
{
    proof {
        lemma_str_scan(s@, j as int, del);
    }
    let n: usize = s.len();
    let mut count: usize = j;
    while count < n
        invariant
            j <= count <= n,
            n == s@.len(),
            str_scan(s@, count as int, del) == str_scan(s@, j as int, del),
        decreases n - count,
    {
        let c = s[count];
        count = count + 1;
        if c == '\\' {
            if count < n {
                let c2 = s[count];
                if c2 == '\n' {
                    return (false, count);
                }
                count = count + 1;
            } else {
                return (false, count);
            }
        } else if c == del {
            return (true, count);
        } else if c == '\n' {
            return (false, count);
        }
    }
    (false, count)
}

/// Where the closing quote `del` of a string literal whose body is `input`
/// stands: `Ok(n)` where the first `n` bytes end with it, else `Err(n)`
/// where the first `n` bytes end at the fault.
pub fn skip_to_str_end(input: &[char], del: char) -> (r: Result<usize, usize>)
    requires
        fits(input@),
    ensures
        r == (if str_scan(input@, 0, del).0 {
            Ok::<usize, usize>(byte_pos(input@, str_scan(input@, 0, del).1) as usize)
        } else {
            Err::<usize, usize>(byte_pos(input@, str_scan(input@, 0, del).1) as usize)
        }),
{
    let (closed, e) = str_end(input, 0, del);
    let b: usize = byte_offset_from(input, 0, 0, e);
    if closed {
        Ok(b)
    } else {
        Err(b)
    }
}

/// A string literal: it opens with `"` or `'` and closes with the same quote.
/// A `\` takes the next character in, unless it is a line break; a line
/// break, a `\` before one, or the end of the text before the closing quote
/// makes a poisoned string with an unclosed-string fault.
pub fn lex_string<'a>(input: Cursor<'a>) -> (r: LexResult<'a>)
    requires
        input.wf(),
    ensures
        rule_result(input, r, spec_string(input.src@, input.pos as int)),
{
    let s = input.src;
    let i: usize = input.pos;
    let n: usize = s.len();
    if !(i < n && (s[i] == '"' || s[i] == '\'')) {
        return Err(());
    }
    let del = s[i];
    proof {
        lemma_str_scan(s@, i + 1, del);
    }
    let (closed, e) = str_end(s, i + 1, del);
    let (span, be) = span_of(s, i, input.byte, e);
    if closed {
        proof {
            lemma_bytes_faults_none(s@);
        }
        Ok((Cursor { src: s, pos: e, byte: be }, LexToken::new(span, LexTag::String(del))))
    } else {
        proof {
            lemma_bytes_faults_one(
                s@,
                UserSideError::UnclosedString(mk_span(i as int, e as int), del),
            );
        }
        Ok(
            (
                Cursor { src: s, pos: e, byte: be },
                LexToken::err_new(span, LexTag::PoisonString(del), UserSideError::UnclosedString(span, del)),
            ),
        )
    }
}

/// Every rule that matches at `i` makes a token that starts at `i` and takes
/// at least one character; at the end of the text none matches, and before
/// it one always does.
pub proof fn lemma_rules_progress(s: Seq<char>, i: int)
    requires
        0 <= i <= s.len() <= usize::MAX,
    ensures
        spec_rules(s, i) is None <==> i == s.len(),
        spec_rules(s, i) is Some ==> spec_rules(s, i)->0.span.offset == i && i
            < spec_rules(s, i)->0.span.end() <= s.len(),
{
    if i < s.len() {
        lemma_run_end(s, i, CharClass::WordStart);
        lemma_run_end(s, i + 1, CharClass::NotNewline);
        lemma_run_end(s, i + 1, CharClass::NonAscii);
        lemma_run_end(s, run_end(s, i, CharClass::WordStart), CharClass::WordChar);
        if i + 1 < s.len() {
            lemma_run_end(s, i + 1, CharClass::WordStart);
            lemma_run_end(s, run_end(s, i + 1, CharClass::WordStart), CharClass::WordChar);
        }
        lemma_str_scan(s, i + 1, s[i]);
        let j = i + sign_len(s, i);
        if j < s.len() && is_digit(s[j]) {
            lemma_uint_scan(s, j + 1);
            let e1 = uint_end(s, j);
            if e1 + 1 < s.len() {
                lemma_uint_scan(s, e1 + 2);
            }
        }
    }
}

/// One step of the scanner: skips whitespace, then applies the rules in
/// order (words, atoms, enders, delimiters, operators, comments, numbers,
/// strings, and the fallback). Fails only where nothing but whitespace is
/// left.
pub fn lext_text<'a>(input: Cursor<'a>) -> (r: LexResult<'a>)
    requires
        input.wf(),
    ensures
        rule_result(input, r, spec_step(input.src@, input.pos as int)),
{
    let c = skip_whitespace(input);
    let r = lex_word(c);
    if r.is_ok() {
        return r;
    }
    let r = lex_atom(c);
    if r.is_ok() {
        return r;
    }
    let r = lex_ender(c);
    if r.is_ok() {
        return r;
    }
    let r = lex_delimiter(c);
    if r.is_ok() {
        return r;
    }
    let r = lex_operator(c);
    if r.is_ok() {
        return r;
    }
    let r = lex_comment(c);
    if r.is_ok() {
        return r;
    }
    let r = lex_number(c);
    if r.is_ok() {
        return r;
    }
    let r = lex_string(c);
    if r.is_ok() {
        return r;
    }
    lex_unknowen(c)
}

/// The models of a sequence of tokens.
pub open spec fn views(ts: Seq<LexToken>) -> Seq<Tok> {
    ts.map_values(|t: LexToken| t@)
}

pub open spec fn all_wf(ts: Seq<LexToken>) -> bool {
    forall|k: int| 0 <= k < ts.len() ==> (#[trigger] ts[k]).wf()
}

/// The tokens of `s` from `p` on, with their spans in bytes.
pub open spec fn lex_bytes_from(s: Seq<char>, p: int) -> Seq<Tok> {
    spec_lex(s, p).map_values(|t: Tok| byte_tok(s, t))
}

/// Scans the whole text into its tokens, in order; spans are byte offsets
/// and lengths in `input`.
pub fn lex_full_text(input: &str) -> (r: Vec<LexToken>)
    ensures
        views(r@) == lex_bytes_from(input@, 0),
        all_wf(r@),
{
    let chars = crate::chars_of(input);
    let src = chars.as_slice();
    let ghost s = input@;
    let _len: usize = src.len();
    let _bytes: usize = input.as_bytes().len();
    proof {
        lemma_encoded_len(s);
    }
    let mut cursor = Cursor::new(src);
    let mut ans: Vec<LexToken> = Vec::new();
    assert(views(ans@) =~= Seq::<Tok>::empty());
    loop
        invariant
            cursor.wf(),
            cursor.src@ == s,
            s.len() <= usize::MAX,
            lex_bytes_from(s, 0) == views(ans@) + lex_bytes_from(s, cursor.pos as int),
            all_wf(ans@),
        ensures
            lex_bytes_from(s, 0) == views(ans@),
            all_wf(ans@),
        decreases s.len() - cursor.pos,
    {
        proof {
            lemma_run_end(s, cursor.pos as int, CharClass::White);
            lemma_rules_progress(s, run_end(s, cursor.pos as int, CharClass::White));
        }
        match lext_text(cursor) {
            Ok((next, token)) => {
                let ghost mt = spec_step(s, cursor.pos as int)->0;
                let ghost t = token@;
                let ghost old_ans = ans@;
                ans.push(token);
                assert(views(ans@) =~= views(old_ans) + seq![t]);
                assert(spec_lex(s, cursor.pos as int) == seq![mt] + spec_lex(s, next.pos as int));
                assert(lex_bytes_from(s, cursor.pos as int) =~= seq![t] + lex_bytes_from(
                    s,
                    next.pos as int,
                ));
                assert(views(ans@) + lex_bytes_from(s, next.pos as int) =~= views(old_ans) + (
                seq![t] + lex_bytes_from(s, next.pos as int)));
                cursor = next;
            },
            Err(_) => {
                assert(lex_bytes_from(s, cursor.pos as int) =~= Seq::<Tok>::empty());
                assert(views(ans@) + lex_bytes_from(s, cursor.pos as int) =~= views(ans@));
                break ;
            },
        }
    }
    ans
}

/// A word somewhere ahead: skips everything up to the next letter, numeral
/// or `_`, then reads a word there.
pub fn lex_delimited_word<'a>(input: Cursor<'a>) -> (r: LexResult<'a>)
    requires
        input.wf(),
    ensures
        rule_result(
            input,
            r,
            spec_word(input.src@, run_end(input.src@, input.pos as int, CharClass::NotWordChar)),
        ),
{
    let j: usize = run_while(input.src, input.pos, CharClass::NotWordChar);
    let bj: usize = byte_offset_from(input.src, input.pos, input.byte, j);
    lex_word(Cursor { src: input.src, pos: j, byte: bj })
}

} // verus!
