//! Properties of the scanner as a whole, proved over the model.
use vstd::prelude::*;

use crate::cursor::{
    byte_pos, fits, in_class, is_digit, lemma_byte_pos_head, lemma_byte_pos_mono,
    lemma_byte_pos_tail, lemma_run_end, run_end, CharClass,
};
use crate::errors::{is_leaf, UserSideError};
use crate::lex::{lemma_rules_progress, lemma_str_scan, lemma_uint_scan, lex_bytes_from};
use crate::locality::{
    head, lemma_lex_prefix, lemma_lex_suffix, lemma_poison_head, lemma_rules_before_newline,
    lemma_rules_prefix, lemma_run_extend, lemma_run_skip, reaches, shift_fault, shift_span,
    shift_tok, shift_toks, tail,
};
use crate::model::{
    digits_value, pair_op, spec_lex, spec_number, spec_operator, spec_rules, spec_step, spec_string,
    str_scan, uint_scan,
};
use crate::token::{byte_fault, byte_span, byte_tok, mk_span, tok, BinaryOp, LexTag, Span, Tok};

verus! {

/// The tokens `ts`, read from `p` on, cover `s[p..]`: each token is
/// non-empty and follows the one before it, and what lies before, between
/// and after them is whitespace.
pub open spec fn covers(s: Seq<char>, p: int, ts: Seq<Tok>) -> bool
    decreases ts.len(),
{
    if ts.len() == 0 {
        forall|j: int| p <= j < s.len() ==> in_class(CharClass::White, #[trigger] s[j])
    } else {
        let t = ts[0];
        &&& p <= t.span.offset < t.span.end() <= s.len()
        &&& forall|j: int| p <= j < t.span.offset ==> in_class(CharClass::White, #[trigger] s[j])
        &&& covers(s, t.span.end(), ts.drop_first())
    }
}

proof fn lemma_covers_from(s: Seq<char>, p: int)
    requires
        0 <= p <= s.len() <= usize::MAX,
    ensures
        covers(s, p, spec_lex(s, p)),
        spec_lex(s, p).len() <= s.len() - p,
    decreases s.len() - p,
{
    let i = run_end(s, p, CharClass::White);
    lemma_run_end(s, p, CharClass::White);
    lemma_rules_progress(s, i);
    match spec_step(s, p) {
        Some(t) => {
            lemma_covers_from(s, t.span.end());
            assert(spec_lex(s, p).drop_first() =~= spec_lex(s, t.span.end()));
        },
        None => {},
    }
}

/// Scanning ends, with no more tokens than characters, and the tokens and
/// the whitespace skipped between them make up the whole text, in order,
/// without overlap.
pub proof fn lemma_lex_covers_text(s: Seq<char>)
    requires
        s.len() <= usize::MAX,
    ensures
        covers(s, 0, spec_lex(s, 0)),
        spec_lex(s, 0).len() <= s.len(),
{
    lemma_covers_from(s, 0);
}

proof fn lemma_covers_ordered(s: Seq<char>, p: int, ts: Seq<Tok>)
    requires
        covers(s, p, ts),
    ensures
        forall|k: int|
            0 <= k < ts.len() ==> p <= (#[trigger] ts[k]).span.offset < ts[k].span.end() <= s.len(),
        forall|k: int|
            0 <= k < ts.len() - 1 ==> (#[trigger] ts[k]).span.end() <= ts[k + 1].span.offset,
    decreases ts.len(),
{
    if ts.len() > 0 {
        let rest = ts.drop_first();
        lemma_covers_ordered(s, ts[0].span.end(), rest);
        assert forall|k: int| 0 < k < ts.len() implies ts[k] == rest[k - 1] by {}
    }
}

/// In bytes: the tokens' byte spans are non-empty, in order and do not
/// overlap, and each is the byte image of the token's characters, which
/// (with the whitespace between them) make up the text.
pub proof fn lemma_lex_covers_bytes(s: Seq<char>)
    requires
        fits(s),
    ensures
        covers(s, 0, spec_lex(s, 0)),
        lex_bytes_from(s, 0).len() == spec_lex(s, 0).len(),
        forall|k: int|
            0 <= k < lex_bytes_from(s, 0).len() ==> (#[trigger] lex_bytes_from(s, 0)[k]) == byte_tok(
                s,
                spec_lex(s, 0)[k],
            ) && lex_bytes_from(s, 0)[k].span.len > 0 && lex_bytes_from(s, 0)[k].span.end()
                <= byte_pos(s, s.len() as int),
        forall|k: int|
            0 <= k < lex_bytes_from(s, 0).len() - 1 ==> (#[trigger] lex_bytes_from(s, 0)[k]).span.end()
                <= lex_bytes_from(s, 0)[k + 1].span.offset,
{
    lemma_byte_pos_mono(s, 0, s.len() as int);
    lemma_covers_from(s, 0);
    let ts = spec_lex(s, 0);
    lemma_covers_ordered(s, 0, ts);
    let bs = lex_bytes_from(s, 0);
    assert forall|k: int| 0 <= k < bs.len() implies (#[trigger] bs[k]) == byte_tok(s, ts[k])
        && bs[k].span.len > 0 && bs[k].span.end() <= byte_pos(s, s.len() as int) by {
        let sp = ts[k].span;
        lemma_byte_pos_mono(s, sp.offset as int, sp.end());
        lemma_byte_pos_mono(s, sp.end(), s.len() as int);
        lemma_byte_pos_mono(s, 0, sp.offset as int);
    }
    assert forall|k: int| 0 <= k < bs.len() - 1 implies (#[trigger] bs[k]).span.end()
        <= bs[k + 1].span.offset by {
        let sp = ts[k].span;
        let sq = ts[k + 1].span;
        lemma_byte_pos_mono(s, sp.offset as int, sp.end());
        lemma_byte_pos_mono(s, sp.end(), sq.offset as int);
        lemma_byte_pos_mono(s, sq.offset as int, s.len() as int);
        lemma_byte_pos_mono(s, 0, sp.offset as int);
    }
}

/// Digit runs, each after the first behind a single `_`.
pub open spec fn is_digit_group(ds: Seq<char>) -> bool {
    &&& ds.len() > 0
    &&& is_digit(ds[0])
    &&& is_digit(ds.last())
    &&& forall|k: int|
        0 <= k < ds.len() ==> is_digit(#[trigger] ds[k]) || (ds[k] == '_' && 0 < k && k + 1
            < ds.len() && is_digit(ds[k - 1]) && is_digit(ds[k + 1]))
}

proof fn lemma_group_scan(s: Seq<char>, start: int, end: int, j: int)
    requires
        0 <= start < j <= end <= s.len(),
        is_digit_group(s.subrange(start, end)),
        is_digit(s[j - 1]),
        end == s.len() || !(is_digit(s[end]) || s[end] == '_'),
    ensures
        uint_scan(s, j) == end,
    decreases end - j,
{
    let g = s.subrange(start, end);
    if j < end {
        assert(g[j - start] == s[j]);
        if is_digit(s[j]) {
            lemma_group_scan(s, start, end, j + 1);
        } else {
            assert(g[j - start + 1] == s[j + 1]);
            lemma_group_scan(s, start, end, j + 2);
        }
    } else {
        assert(g[end - 1 - start] == s[end - 1]);
    }
}

/// A digit group that is the whole text, or ends the text, scans to its end.
proof fn lemma_group_end(s: Seq<char>, start: int, end: int)
    requires
        0 <= start < end <= s.len(),
        is_digit_group(s.subrange(start, end)),
        end == s.len() || !(is_digit(s[end]) || s[end] == '_'),
    ensures
        uint_scan(s, start + 1) == end,
        is_digit(s[start]),
{
    let g = s.subrange(start, end);
    assert(g[0] == s[start]);
    lemma_group_scan(s, start, end, start + 1);
}

/// A digit group whose value fits in 64 signed bits reads as that value,
/// with no fault.
pub proof fn lemma_int_value(ds: Seq<char>)
    requires
        is_digit_group(ds),
        digits_value(ds) <= i64::MAX,
        ds.len() <= usize::MAX,
    ensures
        spec_number(ds, 0) == Some(
            tok(0, ds.len() as int, LexTag::Int(digits_value(ds) as i64), Seq::empty()),
        ),
{
    lemma_group_end(ds, 0, ds.len() as int);
    assert(ds.subrange(0, ds.len() as int) =~= ds);
    assert(Seq::<UserSideError>::empty() + Seq::<UserSideError>::empty() =~= Seq::<
        UserSideError,
    >::empty());
}

/// A digit group whose value does not fit in 64 bits reads as an integer
/// with an overflow fault over the whole group.
pub proof fn lemma_u64_overflow(ds: Seq<char>)
    requires
        is_digit_group(ds),
        digits_value(ds) > u64::MAX,
        ds.len() <= usize::MAX,
    ensures
        spec_number(ds, 0) matches Some(t) && t.tag is Int && t.faults == seq![
            UserSideError::OverflowError(mk_span(0, ds.len() as int)),
        ],
{
    lemma_group_end(ds, 0, ds.len() as int);
    assert(ds.subrange(0, ds.len() as int) =~= ds);
    assert(seq![UserSideError::OverflowError(mk_span(0, ds.len() as int))] + Seq::<
        UserSideError,
    >::empty() =~= seq![UserSideError::OverflowError(mk_span(0, ds.len() as int))]);
}

/// A digit group whose value fits in 64 bits but not in 64 signed bits
/// reads as an integer with an integer overflow fault carrying the value.
pub proof fn lemma_i64_overflow(ds: Seq<char>)
    requires
        is_digit_group(ds),
        i64::MAX < digits_value(ds) <= u64::MAX,
        ds.len() <= usize::MAX,
    ensures
        spec_number(ds, 0) matches Some(t) && t.tag is Int && t.faults == seq![
            UserSideError::IntOverflowError(mk_span(0, ds.len() as int), digits_value(ds) as u64),
        ],
{
    lemma_group_end(ds, 0, ds.len() as int);
    assert(ds.subrange(0, ds.len() as int) =~= ds);
    let f = seq![
        UserSideError::IntOverflowError(mk_span(0, ds.len() as int), digits_value(ds) as u64),
    ];
    assert(Seq::<UserSideError>::empty() + f =~= f);
}

/// A number whose whole part and fractional part both overflow 64 bits
/// carries both overflow faults, the whole part's first.
pub proof fn lemma_float_double_overflow(a: Seq<char>, b: Seq<char>)
    requires
        is_digit_group(a),
        is_digit_group(b),
        digits_value(a) > u64::MAX,
        digits_value(b) > u64::MAX,
        a.len() as int + 1 + b.len() as int <= usize::MAX,
    ensures
        ({
            let s = a + seq!['.'] + b;
            spec_number(s, 0) matches Some(t) && t.tag is Float && t.faults == seq![
                UserSideError::OverflowError(mk_span(0, a.len() as int)),
                UserSideError::OverflowError(mk_span(a.len() as int + 1, s.len() as int)),
            ]
        }),
{
    let s = a + seq!['.'] + b;
    let n = a.len() as int;
    assert(s.subrange(0, n) =~= a);
    assert(s.subrange(n + 1, s.len() as int) =~= b);
    assert(s[n] == '.');
    lemma_group_end(s, 0, n);
    lemma_group_end(s, n + 1, s.len() as int);
}

/// Text that a string literal may hold up to its closing quote `del`:
/// characters other than `\`, `del` and a line break, and escapes of a `\`
/// followed by anything but a line break.
pub open spec fn is_plain_body(b: Seq<char>, del: char) -> bool
    decreases b.len(),
{
    if b.len() == 0 {
        true
    } else if b[0] == '\\' {
        b.len() >= 2 && b[1] != '\n' && is_plain_body(b.subrange(2, b.len() as int), del)
    } else {
        b[0] != del && b[0] != '\n' && is_plain_body(b.drop_first(), del)
    }
}

/// Scanning a plain body that `s` holds at `j..j + b.len() as int` reaches its end
/// with no fault.
proof fn lemma_plain_scan(s: Seq<char>, j: int, b: Seq<char>, del: char)
    requires
        0 <= j,
        j + b.len() as int <= s.len(),
        s.subrange(j, j + b.len() as int) == b,
        is_plain_body(b, del),
    ensures
        str_scan(s, j, del) == str_scan(s, j + b.len() as int, del),
    decreases b.len(),
{
    if b.len() > 0 {
        assert(s[j] == b[0]);
        if b[0] == '\\' {
            assert(s[j + 1] == b[1]);
            let rest = b.subrange(2, b.len() as int);
            assert(s.subrange(j + 2, j + 2 + rest.len() as int) =~= rest);
            lemma_plain_scan(s, j + 2, rest, del);
        } else {
            let rest = b.drop_first();
            assert(s.subrange(j + 1, j + 1 + rest.len() as int) =~= rest);
            lemma_plain_scan(s, j + 1, rest, del);
        }
    }
}

/// A quote, a plain body and the same quote again make a string token over
/// all of them, whatever follows.
pub proof fn lemma_closed_string(q: char, b: Seq<char>, rest: Seq<char>)
    requires
        q == '"' || q == '\'',
        is_plain_body(b, q),
        b.len() as int + 2 + rest.len() as int <= usize::MAX,
    ensures
        spec_string(seq![q] + b + seq![q] + rest, 0) == Some(
            tok(0, b.len() as int + 2, LexTag::String(q), Seq::empty()),
        ),
{
    let s = seq![q] + b + seq![q] + rest;
    assert(s.subrange(1, 1 + b.len() as int) =~= b);
    lemma_plain_scan(s, 1, b, q);
    assert(s[b.len() as int + 1] == q);
}

/// A quote and a plain body that the text ends with make a poisoned string
/// over all of it, with its unclosed-string fault.
pub proof fn lemma_unclosed_at_end(q: char, b: Seq<char>)
    requires
        q == '"' || q == '\'',
        is_plain_body(b, q),
        b.len() as int + 1 <= usize::MAX,
    ensures
        ({
            let e = b.len() as int + 1;
            spec_string(seq![q] + b, 0) == Some(
                tok(
                    0,
                    e,
                    LexTag::PoisonString(q),
                    seq![UserSideError::UnclosedString(mk_span(0, e), q)],
                ),
            )
        }),
{
    let s = seq![q] + b;
    assert(s.subrange(1, 1 + b.len() as int) =~= b);
    lemma_plain_scan(s, 1, b, q);
}

/// A quote and a plain body followed by a line break make a poisoned string
/// that ends just after the break, with its unclosed-string fault.
pub proof fn lemma_unclosed_at_newline(q: char, b: Seq<char>, rest: Seq<char>)
    requires
        q == '"' || q == '\'',
        is_plain_body(b, q),
        b.len() as int + 2 + rest.len() as int <= usize::MAX,
    ensures
        ({
            let e = b.len() as int + 2;
            spec_string(seq![q] + b + seq!['\n'] + rest, 0) == Some(
                tok(
                    0,
                    e,
                    LexTag::PoisonString(q),
                    seq![UserSideError::UnclosedString(mk_span(0, e), q)],
                ),
            )
        }),
{
    let s = seq![q] + b + seq!['\n'] + rest;
    assert(s.subrange(1, 1 + b.len() as int) =~= b);
    lemma_plain_scan(s, 1, b, q);
    assert(s[b.len() as int + 1] == '\n');
}

/// A quote and a plain body followed by a `\` and a line break make a
/// poisoned string that ends just after the `\`, with its unclosed-string
/// fault.
pub proof fn lemma_unclosed_at_escaped_newline(q: char, b: Seq<char>, rest: Seq<char>)
    requires
        q == '"' || q == '\'',
        is_plain_body(b, q),
        b.len() as int + 3 + rest.len() as int <= usize::MAX,
    ensures
        ({
            let e = b.len() as int + 2;
            spec_string(seq![q] + b + seq!['\\', '\n'] + rest, 0) == Some(
                tok(
                    0,
                    e,
                    LexTag::PoisonString(q),
                    seq![UserSideError::UnclosedString(mk_span(0, e), q)],
                ),
            )
        }),
{
    let s = seq![q] + b + seq!['\\', '\n'] + rest;
    assert(s.subrange(1, 1 + b.len() as int) =~= b);
    lemma_plain_scan(s, 1, b, q);
    assert(s[b.len() as int + 1] == '\\');
    assert(s[b.len() as int + 2] == '\n');
}

/// Longest match: where an operator token of one character is made, no
/// two-character spelling starts there.
pub proof fn lemma_operator_longest(s: Seq<char>, i: int)
    requires
        0 <= i,
        i + 1 < s.len() <= usize::MAX,
        spec_operator(s, i) is Some,
        spec_operator(s, i)->0.span.len == 1,
    ensures
        pair_op(s[i], s[i + 1]) is None,
{
}

/// `|>` is one pipe operator, never two bars, also when all the rules are
/// tried in order.
pub proof fn lemma_pipe(s: Seq<char>, p: int)
    requires
        0 <= p,
        p + 1 < s.len() <= usize::MAX,
        s[p] == '|',
        s[p + 1] == '>',
    ensures
        spec_operator(s, p) == Some(tok(p, p + 2, LexTag::Op(BinaryOp::Pipe), Seq::empty())),
        spec_rules(s, p) == Some(tok(p, p + 2, LexTag::Op(BinaryOp::Pipe), Seq::empty())),
{
}


/// No context leaks across a token boundary: where scanning `a` followed by
/// `b` stops at the end of `a` on its way, it makes the tokens of `a`
/// followed by the tokens of `b`, moved on by the length of `a` (in the
/// model's character positions).
pub proof fn lemma_lex_concat(a: Seq<char>, b: Seq<char>)
    requires
        a.len() + b.len() <= usize::MAX,
        reaches(a + b, 0, a.len() as int),
    ensures
        spec_lex(a + b, 0) == spec_lex(a, 0) + shift_toks(spec_lex(b, 0), a.len() as int),
{
    let s = a + b;
    let m = a.len() as int;
    assert(head(s, m) =~= a);
    assert(tail(s, m) =~= b);
    lemma_lex_prefix(s, m, 0);
    lemma_lex_suffix(s, m, m);
}


/// No token of `ts` is a string left open.
pub open spec fn no_open_string(ts: Seq<Tok>) -> bool {
    forall|k: int| 0 <= k < ts.len() ==> !((#[trigger] ts[k]).tag is PoisonString)
}

/// Scanning `a`, a line break and `b` from `p` inside `a` makes the tokens
/// of `a` from `p`, then goes on after the line break.
proof fn lemma_lex_line_head(a: Seq<char>, b: Seq<char>, p: int)
    requires
        0 <= p <= a.len(),
        a.len() + 1 + b.len() <= usize::MAX,
        no_open_string(spec_lex(a, p)),
    ensures
        spec_lex(a + seq!['\n'] + b, p) == spec_lex(a, p) + spec_lex(
            a + seq!['\n'] + b,
            a.len() as int + 1,
        ),
    decreases a.len() - p,
{
    let s = a + seq!['\n'] + b;
    let m = a.len() as int;
    assert(head(s, m) =~= a);
    assert(s[m] == '\n');
    let i = run_end(a, p, CharClass::White);
    lemma_run_end(a, p, CharClass::White);
    if i == m {
        assert forall|j: int| p <= j < m + 1 implies in_class(CharClass::White, #[trigger] s[j]) by {
            if j < m {
                assert(s[j] == a[j]);
            }
        }
        lemma_run_skip(s, p, m + 1, CharClass::White);
        lemma_run_end(s, m + 1, CharClass::White);
        let k = run_end(s, m + 1, CharClass::White);
        lemma_rules_progress(s, k);
        lemma_rules_progress(a, m);
        assert(spec_lex(a, p) =~= Seq::<Tok>::empty());
        assert(spec_lex(s, p) == spec_lex(s, m + 1));
        assert(spec_lex(s, p) =~= spec_lex(a, p) + spec_lex(s, m + 1));
    } else {
        lemma_run_extend(s, m, p, CharClass::White);
        lemma_rules_progress(a, i);
        lemma_rules_progress(s, i);
        lemma_rules_before_newline(s, m, i);
        if spec_rules(s, i)->0.tag is PoisonString {
            lemma_poison_head(s, m, i);
            assert(spec_lex(a, p)[0] == spec_rules(a, i)->0);
            assert(false);
        }
        lemma_rules_prefix(s, m, i);
        let t = spec_rules(a, i)->0;
        let e = t.span.end();
        assert(spec_lex(a, p).drop_first() =~= spec_lex(a, e));
        assert(no_open_string(spec_lex(a, e))) by {
            assert forall|k: int| 0 <= k < spec_lex(a, e).len() implies !((#[trigger] spec_lex(
                a,
                e,
            )[k]).tag is PoisonString) by {
                assert(spec_lex(a, e)[k] == spec_lex(a, p)[k + 1]);
            }
        }
        lemma_lex_line_head(a, b, e);
        assert(spec_lex(s, p) =~= spec_lex(a, p) + spec_lex(s, m + 1));
    }
}

/// No context leaks across a line break: where no string is left open in
/// `a`, scanning `a`, a line break and `b` makes the tokens of `a` followed
/// by the tokens of `b`, moved on by the length of `a` and the break; here
/// spans count characters, as the model does.
pub proof fn lemma_lex_lines(a: Seq<char>, b: Seq<char>)
    requires
        a.len() + 1 + b.len() <= usize::MAX,
        no_open_string(spec_lex(a, 0)),
    ensures
        spec_lex(a + seq!['\n'] + b, 0) == spec_lex(a, 0) + shift_toks(
            spec_lex(b, 0),
            a.len() as int + 1,
        ),
{
    let s = a + seq!['\n'] + b;
    let m = a.len() as int;
    lemma_lex_line_head(a, b, 0);
    assert(tail(s, m + 1) =~= b);
    lemma_lex_suffix(s, m + 1, m + 1);
}


/// The span of a single fault.
pub open spec fn fault_span(e: UserSideError) -> Span {
    match e {
        UserSideError::OverflowError(sp) => sp,
        UserSideError::IntOverflowError(sp, _) => sp,
        UserSideError::UnokwenToken(sp) => sp,
        UserSideError::UnclosedString(sp, _) => sp,
        UserSideError::Compound(_) => Span { offset: 0, len: 0 },
    }
}

pub open spec fn span_in(sp: Span, lo: int, hi: int) -> bool {
    lo <= sp.offset && sp.end() <= hi
}

/// The token and each of its faults, all single, lie within `lo..hi`.
pub open spec fn tok_in(t: Tok, lo: int, hi: int) -> bool {
    &&& span_in(t.span, lo, hi)
    &&& forall|k: int|
        0 <= k < t.faults.len() ==> is_leaf(#[trigger] t.faults[k]) && span_in(
            fault_span(t.faults[k]),
            lo,
            hi,
        )
}

proof fn lemma_rules_within(s: Seq<char>, i: int)
    requires
        0 <= i <= s.len() <= usize::MAX,
        spec_rules(s, i) is Some,
    ensures
        tok_in(spec_rules(s, i)->0, i, spec_rules(s, i)->0.span.end()),
{
    lemma_rules_progress(s, i);
    let j = i + crate::model::sign_len(s, i);
    if j < s.len() && is_digit(s[j]) {
        lemma_uint_scan(s, j + 1);
        let e1 = uint_scan(s, j + 1);
        if e1 + 1 < s.len() {
            lemma_uint_scan(s, e1 + 2);
        }
    }
    if i < s.len() {
        lemma_str_scan(s, i + 1, s[i]);
        lemma_run_end(s, i + 1, CharClass::NonAscii);
    }
}

proof fn lemma_lex_within(s: Seq<char>, p: int)
    requires
        0 <= p <= s.len() <= usize::MAX,
    ensures
        forall|k: int|
            0 <= k < spec_lex(s, p).len() ==> tok_in(#[trigger] spec_lex(s, p)[k], p, s.len() as int),
    decreases s.len() - p,
{
    let i = run_end(s, p, CharClass::White);
    lemma_run_end(s, p, CharClass::White);
    lemma_rules_progress(s, i);
    if let Some(t) = spec_step(s, p) {
        lemma_rules_within(s, i);
        lemma_lex_within(s, t.span.end());
        assert forall|k: int| 0 <= k < spec_lex(s, p).len() implies tok_in(
            #[trigger] spec_lex(s, p)[k],
            p,
            s.len() as int,
        ) by {
            if k > 0 {
                assert(spec_lex(s, p)[k] == spec_lex(s, t.span.end())[k - 1]);
            }
        }
    }
}

proof fn lemma_byte_tok_head(s: Seq<char>, m: int, t: Tok)
    requires
        0 <= m <= s.len() <= usize::MAX,
        tok_in(t, 0, m),
    ensures
        byte_tok(s, t) == byte_tok(head(s, m), t),
{
    let h = head(s, m);
    lemma_byte_pos_head(s, m, t.span.offset as int);
    lemma_byte_pos_head(s, m, t.span.end());
    assert forall|k: int| 0 <= k < t.faults.len() implies byte_fault(s, #[trigger] t.faults[k])
        == byte_fault(h, t.faults[k]) by {
        let sp = fault_span(t.faults[k]);
        lemma_byte_pos_head(s, m, sp.offset as int);
        lemma_byte_pos_head(s, m, sp.end());
    }
    assert(byte_tok(s, t).faults =~= byte_tok(h, t).faults);
}

proof fn lemma_byte_span_shift(s: Seq<char>, k: int, sp: Span)
    requires
        0 <= k <= s.len(),
        fits(s),
        span_in(sp, 0, s.len() - k),
    ensures
        byte_span(s, shift_span(sp, k)) == shift_span(byte_span(tail(s, k), sp), byte_pos(s, k) as int),
{
    let t = tail(s, k);
    lemma_byte_pos_mono(s, 0, s.len() as int);
    lemma_byte_pos_tail(s, k, sp.offset as int);
    lemma_byte_pos_tail(s, k, sp.end());
    lemma_byte_pos_mono(s, k + sp.offset, k + sp.end());
    lemma_byte_pos_mono(s, k + sp.end(), s.len() as int);
    lemma_byte_pos_mono(s, 0, k);
}

proof fn lemma_byte_tok_shift(s: Seq<char>, k: int, t: Tok)
    requires
        0 <= k <= s.len(),
        fits(s),
        tok_in(t, 0, s.len() - k),
    ensures
        byte_tok(s, shift_tok(t, k)) == shift_tok(byte_tok(tail(s, k), t), byte_pos(s, k) as int),
{
    lemma_byte_span_shift(s, k, t.span);
    assert forall|j: int| 0 <= j < t.faults.len() implies byte_fault(
        s,
        shift_fault(#[trigger] t.faults[j], k),
    ) == shift_fault(byte_fault(tail(s, k), t.faults[j]), byte_pos(s, k) as int) by {
        lemma_byte_span_shift(s, k, fault_span(t.faults[j]));
    }
    assert(byte_tok(s, shift_tok(t, k)).faults =~= shift_tok(
        byte_tok(tail(s, k), t),
        byte_pos(s, k) as int,
    ).faults);
}

/// No context leaks across a line break, with spans in bytes: where no
/// string is left open in `a`, scanning `a`, a line break and `b` makes the
/// tokens of `a` followed by the tokens of `b`, moved on by the byte length
/// of `a` and the break.
pub proof fn lemma_lex_lines_bytes(a: Seq<char>, b: Seq<char>)
    requires
        fits(a + seq!['\n'] + b),
        no_open_string(spec_lex(a, 0)),
    ensures
        lex_bytes_from(a + seq!['\n'] + b, 0) == lex_bytes_from(a, 0) + shift_toks(
            lex_bytes_from(b, 0),
            byte_pos(a, a.len() as int) as int + 1,
        ),
{
    let s = a + seq!['\n'] + b;
    let m = a.len() as int;
    lemma_byte_pos_mono(s, 0, s.len() as int);
    lemma_lex_lines(a, b);
    assert(head(s, m) =~= a);
    assert(tail(s, m + 1) =~= b);
    lemma_byte_pos_head(s, m, m);
    assert(s[m] == '\n');
    let shift = byte_pos(a, m) as int + 1;
    assert(byte_pos(s, m + 1) == shift);
    let la = spec_lex(a, 0);
    let lb = spec_lex(b, 0);
    lemma_lex_within(a, 0);
    lemma_lex_within(b, 0);
    assert forall|k: int| 0 <= k < la.len() implies byte_tok(s, #[trigger] la[k]) == byte_tok(
        a,
        la[k],
    ) by {
        lemma_byte_tok_head(s, m, la[k]);
    }
    assert forall|k: int| 0 <= k < lb.len() implies byte_tok(
        s,
        shift_tok(#[trigger] lb[k], m + 1),
    ) == shift_tok(byte_tok(b, lb[k]), shift) by {
        lemma_byte_tok_shift(s, m + 1, lb[k]);
    }
    assert(lex_bytes_from(s, 0) =~= lex_bytes_from(a, 0) + shift_toks(lex_bytes_from(b, 0), shift));
}

} // verus!
