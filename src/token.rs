use vstd::prelude::*;

use crate::cursor::byte_pos;
use crate::errors::{faults_of, flat_error, UserSideError};

verus! {

/// A stretch of the source text: `len` bytes starting at the byte offset
/// `offset` of the text's UTF-8 encoding.
#[derive(Clone, Copy, Debug, PartialEq, Eq)]
pub struct Span {
    pub offset: usize,
    pub len: usize,
}

impl Span {
    /// One past the last character of the span.
    pub open spec fn end(self) -> int {
        self.offset + self.len
    }

    /// The span lies inside a text of `n` characters.
    pub open spec fn within(self, n: int) -> bool {
        self.offset + self.len <= n
    }
}

/// The span that starts at `i` and ends just before `e`.
pub open spec fn mk_span(i: int, e: int) -> Span {
    Span { offset: i as usize, len: (e - i) as usize }
}

/// The byte span, in the UTF-8 encoding of `s`, of the characters that
/// `sp` counts by character index.
pub open spec fn byte_span(s: Seq<char>, sp: Span) -> Span {
    Span {
        offset: byte_pos(s, sp.offset as int) as usize,
        len: (byte_pos(s, sp.end()) - byte_pos(s, sp.offset as int)) as usize,
    }
}

/// A fault whose span counts characters of `s`, with its span in bytes.
pub open spec fn byte_fault(s: Seq<char>, e: UserSideError) -> UserSideError {
    match e {
        UserSideError::OverflowError(sp) => UserSideError::OverflowError(byte_span(s, sp)),
        UserSideError::IntOverflowError(sp, v) => UserSideError::IntOverflowError(
            byte_span(s, sp),
            v,
        ),
        UserSideError::UnokwenToken(sp) => UserSideError::UnokwenToken(byte_span(s, sp)),
        UserSideError::UnclosedString(sp, c) => UserSideError::UnclosedString(byte_span(s, sp), c),
        UserSideError::Compound(v) => UserSideError::Compound(v),
    }
}

pub open spec fn bytes_faults(s: Seq<char>, fs: Seq<UserSideError>) -> Seq<UserSideError> {
    fs.map_values(|e: UserSideError| byte_fault(s, e))
}

/// A model token whose spans count characters of `s`, with its spans in
/// bytes.
pub open spec fn byte_tok(s: Seq<char>, t: Tok) -> Tok {
    Tok { span: byte_span(s, t.span), tag: t.tag, faults: bytes_faults(s, t.faults) }
}

pub proof fn lemma_bytes_faults_none(s: Seq<char>)
    ensures
        bytes_faults(s, Seq::empty()) == Seq::<UserSideError>::empty(),
{
    assert(bytes_faults(s, Seq::empty()) =~= Seq::<UserSideError>::empty());
}

pub proof fn lemma_bytes_faults_one(s: Seq<char>, e: UserSideError)
    ensures
        bytes_faults(s, seq![e]) == seq![byte_fault(s, e)],
{
    assert(bytes_faults(s, seq![e]) =~= seq![byte_fault(s, e)]);
}

pub proof fn lemma_bytes_faults_concat(s: Seq<char>, f1: Seq<UserSideError>, f2: Seq<UserSideError>)
    ensures
        bytes_faults(s, f1 + f2) == bytes_faults(s, f1) + bytes_faults(s, f2),
{
    assert(bytes_faults(s, f1 + f2) =~= bytes_faults(s, f1) + bytes_faults(s, f2));
}

/// The binary operators of the language.
#[derive(Clone, Copy, Debug, PartialEq, Eq)]
pub enum BinaryOp {
    Pipe,
    Dot,
    Dots,
    DoubleDots,
    Add,
    Sub,
    Mul,
    Div,
    Mod,
    Exp,
    FatArrow,
    SmallArrow,
    SingleOr,
    Or,
    And,
    Xor,
    OneEqul,
    TwoEqul,
    NotEqual,
    SmallerEqual,
    Smaller,
    Bigger,
    BiggerEqual,
}

/// A decimal literal with a fractional part, kept exactly as it was read:
/// its value is `whole + frac / 10^frac_digits`, negated when `negative`
/// holds, where `frac_digits` counts the digits written after the `.`
/// (separators excluded), so that leading zeros of the fraction count.
#[derive(Clone, Copy, Debug, PartialEq, Eq)]
pub struct FloatLit {
    pub negative: bool,
    pub whole: u64,
    pub frac: u64,
    pub frac_digits: usize,
}

/// The classification of a token.
#[derive(Clone, Copy, Debug, PartialEq, Eq)]
pub enum LexTag {
    Comment(),
    Word(),
    Atom(),
    Float(FloatLit),
    Int(i64),
    Delimiter(char),
    Ender(char),
    Op(BinaryOp),
    String(char),
    PoisonString(char),
    Unknowen(),
}

/// The mathematical content of a token: where it stands, what it is, and the
/// faults found in it, in the order in which they were found.
pub struct Tok {
    pub span: Span,
    pub tag: LexTag,
    pub faults: Seq<UserSideError>,
}

/// The token model for the characters `i..e`.
pub open spec fn tok(i: int, e: int, tag: LexTag, faults: Seq<UserSideError>) -> Tok {
    Tok { span: mk_span(i, e), tag, faults }
}

/// One lexical unit: where it stands in the source, its classification, and
/// the fault attached to it, if any.
#[derive(Debug, PartialEq)]
pub struct LexToken {
    pub span: Span,
    pub tag: LexTag,
    pub error: Option<Box<UserSideError>>,
}

impl LexToken {
    pub open spec fn view(&self) -> Tok {
        Tok { span: self.span, tag: self.tag, faults: faults_of(self.error) }
    }

    /// An attached error is a single fault or a flat compound of several.
    pub open spec fn wf(&self) -> bool {
        match self.error {
            Some(e) => flat_error(*e),
            None => true,
        }
    }

    pub fn new(span: Span, tag: LexTag) -> (r: LexToken)
        ensures
            r.wf(),
            r@ == (Tok { span, tag, faults: Seq::<UserSideError>::empty() }),
            r.error is None,
    {
        LexToken { span, tag, error: None }
    }

    pub fn err_new(span: Span, tag: LexTag, error: UserSideError) -> (r: LexToken)
        requires
            flat_error(error),
        ensures
            r.wf(),
            r.span == span,
            r.tag == tag,
            r.error == Some(Box::new(error)),
    {
        LexToken { span, tag, error: Some(Box::new(error)) }
    }
}


/// A borrowed run of tokens, read from the front as a parser reads input.
pub struct TokenSlice<'b> {
    tokens: &'b [LexToken],
}

impl<'b> TokenSlice<'b> {
    pub closed spec fn view(&self) -> Seq<LexToken> {
        self.tokens@
    }

    pub fn new(tokens: &'b [LexToken]) -> (r: Self)
        ensures
            r@ == tokens@,
    {
        TokenSlice { tokens }
    }

    /// The number of tokens.
    pub fn input_len(&self) -> (r: usize)
        ensures
            r == self@.len(),
    {
        self.tokens.len()
    }

    /// The last token, if there is one.
    pub fn last(&self) -> (r: Option<&LexToken>)
        ensures
            self@.len() == 0 ==> r is None,
            self@.len() > 0 ==> r == Some(&self@.last()),
    {
        let n: usize = self.tokens.len();
        if n == 0 {
            None
        } else {
            Some(&self.tokens[n - 1])
        }
    }

    /// The spans of the tokens, in order.
    pub fn spans(&self) -> (r: Vec<Span>)
        ensures
            r@ == self@.map_values(|t: LexToken| t.span),
    {
        let mut v: Vec<Span> = Vec::new();
        let n: usize = self.tokens.len();
        let mut k: usize = 0;
        while k < n
            invariant
                k <= n,
                n == self@.len(),
                v@ == self@.subrange(0, k as int).map_values(|t: LexToken| t.span),
            decreases n - k,
        {
            v.push(self.tokens[k].span);
            k = k + 1;
            assert(v@ =~= self@.subrange(0, k as int).map_values(|t: LexToken| t.span));
        }
        assert(self@.subrange(0, n as int) =~= self@);
        v
    }

    /// Splits off the first `count` tokens: `(taken, remaining)`. Fails,
    /// taking nothing, where fewer than `count` are left.
    pub fn take_err(&self, count: usize) -> (r: Result<(Self, Self), ()>)
        ensures
            count <= self@.len() <==> r is Ok,
            r matches Ok((taken, rest)) ==> taken@ == self@.subrange(0, count as int) && rest@
                == self@.subrange(count as int, self@.len() as int),
    {
        let n: usize = self.tokens.len();
        if count <= n {
            let taken = vstd::slice::slice_subrange(self.tokens, 0, count);
            let rest = vstd::slice::slice_subrange(self.tokens, count, n);
            Ok((TokenSlice { tokens: taken }, TokenSlice { tokens: rest }))
        } else {
            Err(())
        }
    }
}

} // verus!
