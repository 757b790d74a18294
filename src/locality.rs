//! The scanner looks only forward, and only as far as the token it makes:
//! scanning a tail of a text gives the same tokens moved back, and scanning
//! a head of a text gives the same tokens wherever they end inside it.
use vstd::prelude::*;

use crate::cursor::{in_class, is_digit, run_end, CharClass};
use crate::errors::UserSideError;
use crate::lex::lemma_str_scan_suffix;
use crate::model::{
    sign_len, spec_atom, spec_comment, spec_delimiter, spec_ender, spec_lex, spec_number,
    spec_operator, spec_rules, spec_step, spec_string, spec_unknown, spec_word, str_scan, uint_scan,
};
use crate::token::{Span, Tok};

verus! {

pub open spec fn shift_span(sp: Span, k: int) -> Span {
    Span { offset: (sp.offset + k) as usize, len: sp.len }
}

/// A fault with its span moved `k` characters on.
pub open spec fn shift_fault(e: UserSideError, k: int) -> UserSideError {
    match e {
        UserSideError::OverflowError(sp) => UserSideError::OverflowError(shift_span(sp, k)),
        UserSideError::IntOverflowError(sp, v) => UserSideError::IntOverflowError(
            shift_span(sp, k),
            v,
        ),
        UserSideError::UnokwenToken(sp) => UserSideError::UnokwenToken(shift_span(sp, k)),
        UserSideError::UnclosedString(sp, c) => UserSideError::UnclosedString(shift_span(sp, k), c),
        UserSideError::Compound(v) => UserSideError::Compound(v),
    }
}

/// A token with its spans moved `k` characters on.
pub open spec fn shift_tok(t: Tok, k: int) -> Tok {
    Tok {
        span: shift_span(t.span, k),
        tag: t.tag,
        faults: t.faults.map_values(|e: UserSideError| shift_fault(e, k)),
    }
}

pub open spec fn shift_opt(o: Option<Tok>, k: int) -> Option<Tok> {
    match o {
        Some(t) => Some(shift_tok(t, k)),
        None => None,
    }
}

pub open spec fn shift_toks(ts: Seq<Tok>, k: int) -> Seq<Tok> {
    ts.map_values(|t: Tok| shift_tok(t, k))
}

pub open spec fn tail(s: Seq<char>, k: int) -> Seq<char> {
    s.subrange(k, s.len() as int)
}

proof fn lemma_run_suffix(s: Seq<char>, k: int, j: int, c: CharClass)
    requires
        0 <= k <= j <= s.len(),
    ensures
        run_end(tail(s, k), j - k, c) == run_end(s, j, c) - k,
    decreases s.len() - j,
{
    if j < s.len() {
        assert(tail(s, k)[j - k] == s[j]);
        if in_class(c, s[j]) {
            lemma_run_suffix(s, k, j + 1, c);
        }
    }
}

proof fn lemma_uint_suffix(s: Seq<char>, k: int, j: int)
    requires
        0 <= k <= j <= s.len(),
    ensures
        uint_scan(tail(s, k), j - k) == uint_scan(s, j) - k,
    decreases s.len() - j,
{
    let t = tail(s, k);
    if j < s.len() {
        assert(t[j - k] == s[j]);
        if j + 1 < s.len() {
            assert(t[j - k + 1] == s[j + 1]);
        }
        if is_digit(s[j]) {
            lemma_uint_suffix(s, k, j + 1);
        } else if j + 1 < s.len() && s[j] == '_' && is_digit(s[j + 1]) {
            lemma_uint_suffix(s, k, j + 2);
        }
    }
}

/// Each rule on the tail of a text from `k` gives what it gives on the
/// text, moved back by `k`.
pub proof fn lemma_rules_suffix(s: Seq<char>, k: int, i: int)
    requires
        0 <= k <= i <= s.len() <= usize::MAX,
    ensures
        spec_rules(s, i) == shift_opt(spec_rules(tail(s, k), i - k), k),
{
    let t = tail(s, k);
    let ik = i - k;
    if i < s.len() {
        assert(t[ik] == s[i]);
        if i + 1 < s.len() {
            assert(t[ik + 1] == s[i + 1]);
        }
        crate::cursor::lemma_run_end(s, i, CharClass::WordStart);
        crate::cursor::lemma_run_end(s, i + 1, CharClass::NotNewline);
        crate::cursor::lemma_run_end(s, i + 1, CharClass::NonAscii);
        crate::cursor::lemma_run_end(s, run_end(s, i, CharClass::WordStart), CharClass::WordChar);
        crate::lex::lemma_str_scan(s, i + 1, s[i]);
        lemma_run_suffix(s, k, i, CharClass::WordStart);
        lemma_run_suffix(s, k, run_end(s, i, CharClass::WordStart), CharClass::WordChar);
        lemma_run_suffix(s, k, i + 1, CharClass::NotNewline);
        lemma_run_suffix(s, k, i + 1, CharClass::NonAscii);
        lemma_str_scan_suffix(s, k, i + 1, s[i]);
        if i + 1 < s.len() {
            crate::cursor::lemma_run_end(s, i + 1, CharClass::WordStart);
            crate::cursor::lemma_run_end(
                s,
                run_end(s, i + 1, CharClass::WordStart),
                CharClass::WordChar,
            );
            lemma_run_suffix(s, k, i + 1, CharClass::WordStart);
            lemma_run_suffix(s, k, run_end(s, i + 1, CharClass::WordStart), CharClass::WordChar);
        }
        lemma_word_suffix(s, k, i);
        lemma_atom_suffix(s, k, i);
        lemma_simple_suffix(s, k, i);
        lemma_number_suffix(s, k, i);
        lemma_string_suffix(s, k, i);
    }
}

proof fn lemma_word_suffix(s: Seq<char>, k: int, i: int)
    requires
        0 <= k <= i < s.len() <= usize::MAX,
        tail(s, k)[i - k] == s[i],
        run_end(tail(s, k), i - k, CharClass::WordStart) == run_end(s, i, CharClass::WordStart)
            - k,
        run_end(tail(s, k), run_end(s, i, CharClass::WordStart) - k, CharClass::WordChar)
            == run_end(s, run_end(s, i, CharClass::WordStart), CharClass::WordChar) - k,
        i <= run_end(s, i, CharClass::WordStart) <= run_end(
            s,
            run_end(s, i, CharClass::WordStart),
            CharClass::WordChar,
        ) <= s.len(),
    ensures
        spec_word(s, i) == shift_opt(spec_word(tail(s, k), i - k), k),
{
    if spec_word(s, i) is Some {
        let t = spec_word(tail(s, k), i - k)->0;
        assert(t.faults.map_values(|e: UserSideError| shift_fault(e, k)) =~= Seq::<
            UserSideError,
        >::empty());
    }
}

proof fn lemma_atom_suffix(s: Seq<char>, k: int, i: int)
    requires
        0 <= k <= i < s.len() <= usize::MAX,
        tail(s, k)[i - k] == s[i],
        i + 1 < s.len() ==> tail(s, k)[i - k + 1] == s[i + 1],
        i + 1 < s.len() ==> run_end(tail(s, k), i + 1 - k, CharClass::WordStart) == run_end(
            s,
            i + 1,
            CharClass::WordStart,
        ) - k,
        i + 1 < s.len() ==> run_end(
            tail(s, k),
            run_end(s, i + 1, CharClass::WordStart) - k,
            CharClass::WordChar,
        ) == run_end(s, run_end(s, i + 1, CharClass::WordStart), CharClass::WordChar) - k,
        i + 1 < s.len() ==> i + 1 <= run_end(s, i + 1, CharClass::WordStart) <= run_end(
            s,
            run_end(s, i + 1, CharClass::WordStart),
            CharClass::WordChar,
        ) <= s.len(),
    ensures
        spec_atom(s, i) == shift_opt(spec_atom(tail(s, k), i - k), k),
{
    if spec_atom(s, i) is Some {
        let t = spec_atom(tail(s, k), i - k)->0;
        assert(t.faults.map_values(|e: UserSideError| shift_fault(e, k)) =~= Seq::<
            UserSideError,
        >::empty());
    }
}

proof fn lemma_simple_suffix(s: Seq<char>, k: int, i: int)
    requires
        0 <= k <= i < s.len() <= usize::MAX,
        tail(s, k)[i - k] == s[i],
        i + 1 < s.len() ==> tail(s, k)[i - k + 1] == s[i + 1],
        run_end(tail(s, k), i + 1 - k, CharClass::NotNewline) == run_end(
            s,
            i + 1,
            CharClass::NotNewline,
        ) - k,
        run_end(tail(s, k), i + 1 - k, CharClass::NonAscii) == run_end(
            s,
            i + 1,
            CharClass::NonAscii,
        ) - k,
        i + 1 <= run_end(s, i + 1, CharClass::NotNewline) <= s.len(),
        i + 1 <= run_end(s, i + 1, CharClass::NonAscii) <= s.len(),
    ensures
        spec_ender(s, i) == shift_opt(spec_ender(tail(s, k), i - k), k),
        spec_delimiter(s, i) == shift_opt(spec_delimiter(tail(s, k), i - k), k),
        spec_operator(s, i) == shift_opt(spec_operator(tail(s, k), i - k), k),
        spec_comment(s, i) == shift_opt(spec_comment(tail(s, k), i - k), k),
        spec_unknown(s, i) == shift_opt(spec_unknown(tail(s, k), i - k), k),
{
    let empty = Seq::<UserSideError>::empty();
    assert(empty.map_values(|e: UserSideError| shift_fault(e, k)) =~= empty);
    let e = run_end(s, i + 1, CharClass::NonAscii);
    let f = seq![UserSideError::UnokwenToken(crate::token::mk_span(i - k, e - k))];
    assert(f.map_values(|e: UserSideError| shift_fault(e, k)) =~= seq![
        UserSideError::UnokwenToken(crate::token::mk_span(i, e)),
    ]);
}

proof fn lemma_number_suffix(s: Seq<char>, k: int, i: int)
    requires
        0 <= k <= i < s.len() <= usize::MAX,
    ensures
        spec_number(s, i) == shift_opt(spec_number(tail(s, k), i - k), k),
{
    let t = tail(s, k);
    let ik = i - k;
    assert(t[ik] == s[i]);
    let j = i + sign_len(s, i);
    assert(sign_len(t, ik) == sign_len(s, i));
    if j < s.len() {
        assert(t[j - k] == s[j]);
    }
    if j < s.len() && is_digit(s[j]) {
        lemma_uint_suffix(s, k, j + 1);
        crate::lex::lemma_uint_scan(s, j + 1);
        let e1 = uint_scan(s, j + 1);
        assert(t.subrange(j - k, e1 - k) =~= s.subrange(j, e1));
        if e1 < s.len() {
            assert(t[e1 - k] == s[e1]);
        }
        let d = e1 + 1;
        if d < s.len() {
            assert(t[d - k] == s[d]);
        }
        if e1 < s.len() && s[e1] == '.' && d < s.len() && is_digit(s[d]) {
            lemma_uint_suffix(s, k, d + 1);
            crate::lex::lemma_uint_scan(s, d + 1);
            let e2 = uint_scan(s, d + 1);
            assert(t.subrange(d - k, e2 - k) =~= s.subrange(d, e2));
        }
        let tt = spec_number(t, ik)->0;
        let st = spec_number(s, i)->0;
        assert(tt.faults.map_values(|e: UserSideError| shift_fault(e, k)) =~= st.faults);
    }
}

proof fn lemma_string_suffix(s: Seq<char>, k: int, i: int)
    requires
        0 <= k <= i < s.len() <= usize::MAX,
        tail(s, k)[i - k] == s[i],
        str_scan(tail(s, k), i + 1 - k, s[i]) == (
            str_scan(s, i + 1, s[i]).0,
            str_scan(s, i + 1, s[i]).1 - k,
        ),
        i + 1 <= str_scan(s, i + 1, s[i]).1 <= s.len(),
    ensures
        spec_string(s, i) == shift_opt(spec_string(tail(s, k), i - k), k),
{
    if spec_string(s, i) is Some {
        let tt = spec_string(tail(s, k), i - k)->0;
        let st = spec_string(s, i)->0;
        assert(tt.faults.map_values(|e: UserSideError| shift_fault(e, k)) =~= st.faults);
    }
}


pub open spec fn head(s: Seq<char>, m: int) -> Seq<char> {
    s.subrange(0, m)
}

proof fn lemma_run_prefix(s: Seq<char>, m: int, j: int, c: CharClass)
    requires
        0 <= j <= m <= s.len(),
        run_end(s, j, c) <= m,
    ensures
        run_end(head(s, m), j, c) == run_end(s, j, c),
    decreases s.len() - j,
{
    if j < m {
        assert(head(s, m)[j] == s[j]);
        if in_class(c, s[j]) {
            lemma_run_prefix(s, m, j + 1, c);
        }
    } else if j < s.len() && in_class(c, s[j]) {
        crate::cursor::lemma_run_end(s, j + 1, c);
    }
}

proof fn lemma_uint_prefix(s: Seq<char>, m: int, j: int)
    requires
        0 <= j <= m <= s.len(),
        uint_scan(s, j) <= m,
    ensures
        uint_scan(head(s, m), j) == uint_scan(s, j),
    decreases s.len() - j,
{
    let h = head(s, m);
    if j < m {
        assert(h[j] == s[j]);
        if j + 1 < m {
            assert(h[j + 1] == s[j + 1]);
        }
        if is_digit(s[j]) {
            crate::lex::lemma_uint_scan(s, j + 1);
            lemma_uint_prefix(s, m, j + 1);
        } else if j + 1 < s.len() && s[j] == '_' && is_digit(s[j + 1]) {
            crate::lex::lemma_uint_scan(s, j + 2);
            lemma_uint_prefix(s, m, j + 2);
        }
    } else if j < s.len() {
        if is_digit(s[j]) {
            crate::lex::lemma_uint_scan(s, j + 1);
        } else if j + 1 < s.len() && s[j] == '_' && is_digit(s[j + 1]) {
            crate::lex::lemma_uint_scan(s, j + 2);
        }
    }
}

proof fn lemma_str_prefix(s: Seq<char>, m: int, j: int, del: char)
    requires
        0 <= j <= m <= s.len(),
        str_scan(s, j, del).1 <= m,
    ensures
        str_scan(head(s, m), j, del) == str_scan(s, j, del),
    decreases s.len() - j,
{
    let h = head(s, m);
    crate::lex::lemma_str_scan(s, j, del);
    if j < m {
        assert(h[j] == s[j]);
        if j + 1 < m {
            assert(h[j + 1] == s[j + 1]);
        }
        if s[j] == '\\' {
            if !(j + 1 >= s.len() || s[j + 1] == '\n') {
                crate::lex::lemma_str_scan(s, j + 2, del);
                lemma_str_prefix(s, m, j + 2, del);
            }
        } else if s[j] != del && s[j] != '\n' {
            crate::lex::lemma_str_scan(s, j + 1, del);
            lemma_str_prefix(s, m, j + 1, del);
        }
    }
}

/// What a rule does on a text and on its head `s[..m]` at `i < m`: where
/// it fails on the text it fails on the head, and where it makes a token
/// that ends inside the head it makes the same one there.
pub open spec fn agrees_on_head(x: Option<Tok>, y: Option<Tok>, m: int) -> bool {
    &&& x is None ==> y is None
    &&& (x is Some && x->0.span.end() <= m) ==> y == x
}

proof fn lemma_rules_prefix_each(s: Seq<char>, m: int, i: int)
    requires
        0 <= i < m <= s.len() <= usize::MAX,
    ensures
        agrees_on_head(spec_word(s, i), spec_word(head(s, m), i), m),
        agrees_on_head(spec_atom(s, i), spec_atom(head(s, m), i), m),
        agrees_on_head(spec_ender(s, i), spec_ender(head(s, m), i), m),
        agrees_on_head(spec_delimiter(s, i), spec_delimiter(head(s, m), i), m),
        agrees_on_head(spec_operator(s, i), spec_operator(head(s, m), i), m),
        agrees_on_head(spec_comment(s, i), spec_comment(head(s, m), i), m),
        agrees_on_head(spec_number(s, i), spec_number(head(s, m), i), m),
        agrees_on_head(spec_string(s, i), spec_string(head(s, m), i), m),
        agrees_on_head(spec_unknown(s, i), spec_unknown(head(s, m), i), m),
{
    let h = head(s, m);
    assert(h[i] == s[i]);
    if i + 1 < m {
        assert(h[i + 1] == s[i + 1]);
    }
    let w1 = run_end(s, i, CharClass::WordStart);
    crate::cursor::lemma_run_end(s, i, CharClass::WordStart);
    crate::cursor::lemma_run_end(s, w1, CharClass::WordChar);
    if run_end(s, w1, CharClass::WordChar) <= m {
        lemma_run_prefix(s, m, i, CharClass::WordStart);
        lemma_run_prefix(s, m, w1, CharClass::WordChar);
    }
    if i + 1 < s.len() {
        let a1 = run_end(s, i + 1, CharClass::WordStart);
        crate::cursor::lemma_run_end(s, i + 1, CharClass::WordStart);
        crate::cursor::lemma_run_end(s, a1, CharClass::WordChar);
        if run_end(s, a1, CharClass::WordChar) <= m {
            lemma_run_prefix(s, m, i + 1, CharClass::WordStart);
            lemma_run_prefix(s, m, a1, CharClass::WordChar);
        }
    }
    crate::cursor::lemma_run_end(s, i + 1, CharClass::NotNewline);
    if run_end(s, i + 1, CharClass::NotNewline) <= m {
        lemma_run_prefix(s, m, i + 1, CharClass::NotNewline);
    }
    crate::cursor::lemma_run_end(s, i + 1, CharClass::NonAscii);
    if run_end(s, i + 1, CharClass::NonAscii) <= m {
        lemma_run_prefix(s, m, i + 1, CharClass::NonAscii);
    }
    crate::lex::lemma_str_scan(s, i + 1, s[i]);
    if str_scan(s, i + 1, s[i]).1 <= m {
        lemma_str_prefix(s, m, i + 1, s[i]);
    }
    lemma_number_prefix(s, m, i);
}

proof fn lemma_number_prefix(s: Seq<char>, m: int, i: int)
    requires
        0 <= i < m <= s.len() <= usize::MAX,
    ensures
        agrees_on_head(spec_number(s, i), spec_number(head(s, m), i), m),
{
    let h = head(s, m);
    assert(h[i] == s[i]);
    let j = i + sign_len(s, i);
    if j < m {
        assert(h[j] == s[j]);
    }
    assert(sign_len(h, i) == sign_len(s, i));
    if j < s.len() && is_digit(s[j]) {
        crate::lex::lemma_uint_scan(s, j + 1);
        let e1 = uint_scan(s, j + 1);
        let d = e1 + 1;
        let two = e1 < s.len() && s[e1] == '.' && d < s.len() && is_digit(s[d]);
        if two {
            crate::lex::lemma_uint_scan(s, d + 1);
        }
        let e = if e1 < s.len() && s[e1] == '.' {
            if two {
                uint_scan(s, d + 1)
            } else {
                d
            }
        } else {
            e1
        };
        assert(spec_number(s, i)->0.span.end() == e);
        if e <= m {
            lemma_uint_prefix(s, m, j + 1);
            assert(h.subrange(j, e1) =~= s.subrange(j, e1));
            if e1 < m {
                assert(h[e1] == s[e1]);
            }
            if d < m {
                assert(h[d] == s[d]);
            }
            if two {
                let e2 = uint_scan(s, d + 1);
                lemma_uint_prefix(s, m, d + 1);
                assert(h.subrange(d, e2) =~= s.subrange(d, e2));
            }
        }
    }
}

/// Where the rules make a token on a text that ends inside its head
/// `s[..m]`, they make the same token on the head.
pub proof fn lemma_rules_prefix(s: Seq<char>, m: int, i: int)
    requires
        0 <= i < m <= s.len() <= usize::MAX,
        spec_rules(s, i) is Some,
        spec_rules(s, i)->0.span.end() <= m,
    ensures
        spec_rules(head(s, m), i) == spec_rules(s, i),
{
    lemma_rules_prefix_each(s, m, i);
}


/// Scanning `s` from `p` stops at `q` on its way: `q` is `p`, or the end of
/// a token made from `p` from which scanning reaches `q` in turn.
pub open spec fn reaches(s: Seq<char>, p: int, q: int) -> bool
    decreases q - p,
{
    if p == q {
        true
    } else if p < q {
        match spec_step(s, p) {
            Some(t) => if p < t.span.end() <= q {
                reaches(s, t.span.end(), q)
            } else {
                false
            },
            None => false,
        }
    } else {
        false
    }
}

/// Scanning from `p` up to a point `m` that it reaches makes the tokens that
/// scanning the head `s[..m]` makes, and goes on from `m`.
pub proof fn lemma_lex_prefix(s: Seq<char>, m: int, p: int)
    requires
        0 <= p <= m <= s.len() <= usize::MAX,
        reaches(s, p, m),
    ensures
        spec_lex(s, p) == spec_lex(head(s, m), p) + spec_lex(s, m),
    decreases m - p,
{
    let h = head(s, m);
    if p == m {
        crate::cursor::lemma_run_end(h, m, CharClass::White);
        crate::lex::lemma_rules_progress(h, m);
        assert(spec_lex(h, m) =~= Seq::<Tok>::empty());
        assert(spec_lex(s, m) =~= spec_lex(h, p) + spec_lex(s, m));
    } else {
        let i = run_end(s, p, CharClass::White);
        crate::cursor::lemma_run_end(s, p, CharClass::White);
        crate::lex::lemma_rules_progress(s, i);
        let t = spec_step(s, p)->0;
        lemma_run_prefix(s, m, p, CharClass::White);
        lemma_rules_prefix(s, m, i);
        lemma_lex_prefix(s, m, t.span.end());
        assert(spec_lex(s, p) =~= spec_lex(h, p) + spec_lex(s, m));
    }
}

/// Scanning a text from `p` makes the tokens that scanning its tail from
/// `k` makes from `p - k`, moved on by `k`.
pub proof fn lemma_lex_suffix(s: Seq<char>, k: int, p: int)
    requires
        0 <= k <= p <= s.len() <= usize::MAX,
    ensures
        spec_lex(s, p) == shift_toks(spec_lex(tail(s, k), p - k), k),
    decreases s.len() - p,
{
    let t = tail(s, k);
    let i = run_end(s, p, CharClass::White);
    crate::cursor::lemma_run_end(s, p, CharClass::White);
    lemma_run_suffix(s, k, p, CharClass::White);
    lemma_rules_suffix(s, k, i);
    crate::lex::lemma_rules_progress(s, i);
    crate::lex::lemma_rules_progress(t, i - k);
    match spec_step(t, p - k) {
        Some(tt) => {
            let e = tt.span.end();
            lemma_lex_suffix(s, k, e + k);
            assert(shift_toks(seq![tt] + spec_lex(t, e), k) =~= seq![shift_tok(tt, k)]
                + shift_toks(spec_lex(t, e), k));
        },
        None => {
            assert(shift_toks(Seq::<Tok>::empty(), k) =~= Seq::<Tok>::empty());
        },
    }
}


pub proof fn lemma_run_extend(s: Seq<char>, m: int, j: int, c: CharClass)
    requires
        0 <= j <= m <= s.len(),
        run_end(head(s, m), j, c) < m,
    ensures
        run_end(s, j, c) == run_end(head(s, m), j, c),
    decreases m - j,
{
    if j < m {
        assert(head(s, m)[j] == s[j]);
        if in_class(c, s[j]) {
            lemma_run_extend(s, m, j + 1, c);
        }
    }
}

/// Skipping a run from `p` or from a later `q` ends at the same place where
/// everything between them is in the class.
pub proof fn lemma_run_skip(s: Seq<char>, p: int, q: int, c: CharClass)
    requires
        0 <= p <= q <= s.len(),
        forall|j: int| p <= j < q ==> in_class(c, #[trigger] s[j]),
    ensures
        run_end(s, p, c) == run_end(s, q, c),
    decreases q - p,
{
    if p < q {
        lemma_run_skip(s, p + 1, q, c);
    }
}

proof fn lemma_str_extend(s: Seq<char>, m: int, j: int, del: char)
    requires
        0 <= j <= m <= s.len(),
        str_scan(head(s, m), j, del).0,
    ensures
        str_scan(s, j, del) == str_scan(head(s, m), j, del),
    decreases m - j,
{
    let h = head(s, m);
    if j < m {
        assert(h[j] == s[j]);
        if j + 1 < m {
            assert(h[j + 1] == s[j + 1]);
        }
        if s[j] == '\\' {
            if j + 1 < m && s[j + 1] != '\n' {
                lemma_str_extend(s, m, j + 2, del);
            }
        } else if s[j] != del && s[j] != '\n' {
            lemma_str_extend(s, m, j + 1, del);
        }
    }
}

proof fn lemma_run_bounded(s: Seq<char>, j: int, m: int, c: CharClass)
    requires
        0 <= j <= m < s.len(),
        !in_class(c, s[m]),
    ensures
        run_end(s, j, c) <= m,
    decreases m - j,
{
    if j < m && in_class(c, s[j]) {
        lemma_run_bounded(s, j + 1, m, c);
    }
}

proof fn lemma_uint_bounded(s: Seq<char>, j: int, m: int)
    requires
        0 <= j <= m < s.len(),
        s[m] == '\n',
    ensures
        uint_scan(s, j) <= m,
    decreases m - j,
{
    if j < m {
        if is_digit(s[j]) {
            lemma_uint_bounded(s, j + 1, m);
        } else if j + 1 < s.len() && s[j] == '_' && is_digit(s[j + 1]) {
            lemma_uint_bounded(s, j + 2, m);
        }
    }
}

proof fn lemma_str_closed_bounded(s: Seq<char>, j: int, m: int, del: char)
    requires
        0 <= j <= m < s.len(),
        s[m] == '\n',
        del != '\n',
        str_scan(s, j, del).0,
    ensures
        str_scan(s, j, del).1 <= m,
    decreases m - j,
{
    if j < m {
        if s[j] == '\\' {
            if !(j + 1 >= s.len() || s[j + 1] == '\n') {
                lemma_str_closed_bounded(s, j + 2, m, del);
            }
        } else if s[j] != del && s[j] != '\n' {
            lemma_str_closed_bounded(s, j + 1, m, del);
        }
    }
}

/// Before a line break at `m`, every token ends at `m` at the latest,
/// unless it is a string left open.
pub proof fn lemma_rules_before_newline(s: Seq<char>, m: int, i: int)
    requires
        0 <= i < m < s.len() <= usize::MAX,
        s[m] == '\n',
    ensures
        spec_rules(s, i) is Some,
        spec_rules(s, i)->0.span.end() <= m || spec_rules(s, i)->0.tag is PoisonString,
{
    crate::lex::lemma_rules_progress(s, i);
    let w1 = run_end(s, i, CharClass::WordStart);
    lemma_run_bounded(s, i, m, CharClass::WordStart);
    crate::cursor::lemma_run_end(s, i, CharClass::WordStart);
    lemma_run_bounded(s, w1, m, CharClass::WordChar);
    crate::cursor::lemma_run_end(s, w1, CharClass::WordChar);
    crate::cursor::lemma_run_end(s, i + 1, CharClass::NotNewline);
    crate::cursor::lemma_run_end(s, i + 1, CharClass::NonAscii);
    crate::lex::lemma_str_scan(s, i + 1, s[i]);
    if i + 1 < m {
        let a1 = run_end(s, i + 1, CharClass::WordStart);
        lemma_run_bounded(s, i + 1, m, CharClass::WordStart);
        crate::cursor::lemma_run_end(s, i + 1, CharClass::WordStart);
        lemma_run_bounded(s, a1, m, CharClass::WordChar);
        crate::cursor::lemma_run_end(s, a1, CharClass::WordChar);
    }
    lemma_run_bounded(s, i + 1, m, CharClass::NotNewline);
    lemma_run_bounded(s, i + 1, m, CharClass::NonAscii);
    if is_quote_char(s[i]) && str_scan(s, i + 1, s[i]).0 {
        lemma_str_closed_bounded(s, i + 1, m, s[i]);
    }
    let j = i + sign_len(s, i);
    if j < s.len() && is_digit(s[j]) {
        lemma_uint_bounded(s, j + 1, m);
        crate::lex::lemma_uint_scan(s, j + 1);
        let e1 = uint_scan(s, j + 1);
        if e1 < s.len() && s[e1] == '.' && e1 + 1 < s.len() && is_digit(s[e1 + 1]) {
            lemma_uint_bounded(s, e1 + 2, m);
            crate::lex::lemma_uint_scan(s, e1 + 2);
        }
    }
}

spec fn is_quote_char(c: char) -> bool {
    c == '"' || c == '\''
}

/// Where the rules leave a string open on a text, they leave one open on
/// any head of it that holds the opening quote.
pub proof fn lemma_poison_head(s: Seq<char>, m: int, i: int)
    requires
        0 <= i < m <= s.len() <= usize::MAX,
        spec_rules(s, i) is Some,
        spec_rules(s, i)->0.tag is PoisonString,
    ensures
        spec_rules(head(s, m), i) is Some,
        spec_rules(head(s, m), i)->0.tag is PoisonString,
{
    lemma_rules_prefix_each(s, m, i);
    let h = head(s, m);
    assert(h[i] == s[i]);
    if str_scan(h, i + 1, s[i]).0 {
        lemma_str_extend(s, m, i + 1, s[i]);
    }
}

} // verus!
