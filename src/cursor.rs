use vstd::prelude::*;

use crate::token::Span;

verus! {

/// Whether `c` has Unicode's White_Space property: the characters U+0009
/// to U+000D, U+0020, U+0085, U+00A0, U+1680, U+2000 to U+200A, U+2028,
/// U+2029, U+202F, U+205F and U+3000.
pub open spec fn white(c: char) -> bool {
    let u = c as u32;
    (0x9 <= u && u <= 0xd) || u == 0x20 || u == 0x85 || u == 0xa0 || u == 0x1680 || (0x2000 <= u
        && u <= 0x200a) || u == 0x2028 || u == 0x2029 || u == 0x202f || u == 0x205f || u == 0x3000
}

/// Whether `c` has Unicode's Alphabetic property.
pub uninterp spec fn alphabetic(c: char) -> bool;

/// Whether `c` is alphabetic or numeric in Unicode's sense.
pub uninterp spec fn alphanumeric(c: char) -> bool;

/// Whether `c` is whitespace in Unicode's sense.
fn char_is_whitespace(c: char) -> (r: bool)
    ensures
        r == white(c),
{
    let u = c as u32;
    (0x9 <= u && u <= 0xd) || u == 0x20 || u == 0x85 || u == 0xa0 || u == 0x1680 || (0x2000 <= u
        && u <= 0x200a) || u == 0x2028 || u == 0x2029 || u == 0x202f || u == 0x205f || u == 0x3000
}

/// Relies on `char::is_alphabetic`, which depends on `c` alone.
#[verifier::external_body]
fn char_is_alphabetic(c: char) -> (r: bool)
    ensures
        r == alphabetic(c),
{
    c.is_alphabetic()
}

/// Relies on `char::is_alphanumeric`, which depends on `c` alone.
#[verifier::external_body]
fn char_is_alphanumeric(c: char) -> (r: bool)
    ensures
        r == alphanumeric(c),
{
    c.is_alphanumeric()
}

pub open spec fn is_digit(c: char) -> bool {
    '0' <= c && c <= '9'
}

pub open spec fn is_ascii_char(c: char) -> bool {
    (c as u32) < 128
}

pub open spec fn is_ascii_letter(c: char) -> bool {
    ('a' <= c && c <= 'z') || ('A' <= c && c <= 'Z')
}

/// What may start a word. Among ASCII characters, Unicode's Alphabetic
/// property holds of the letters alone, so that case is decided here.
pub open spec fn word_start(c: char) -> bool {
    if is_ascii_char(c) {
        is_ascii_letter(c) || c == '_'
    } else {
        alphabetic(c)
    }
}

/// What may continue a word. Among ASCII characters, the alphabetic and
/// numeric ones are the letters and the digits, so that case is decided
/// here.
pub open spec fn word_char(c: char) -> bool {
    if is_ascii_char(c) {
        is_ascii_letter(c) || is_digit(c) || c == '_'
    } else {
        alphanumeric(c)
    }
}

fn is_word_start(c: char) -> (r: bool)
    ensures
        r == word_start(c),
{
    if (c as u32) < 128 {
        ('a' <= c && c <= 'z') || ('A' <= c && c <= 'Z') || c == '_'
    } else {
        char_is_alphabetic(c)
    }
}

fn is_word_char(c: char) -> (r: bool)
    ensures
        r == word_char(c),
{
    if (c as u32) < 128 {
        ('a' <= c && c <= 'z') || ('A' <= c && c <= 'Z') || ('0' <= c && c <= '9') || c == '_'
    } else {
        char_is_alphanumeric(c)
    }
}

/// The classes of characters that the scanner takes runs of.
#[derive(Clone, Copy, Debug, PartialEq, Eq)]
pub enum CharClass {
    White,
    /// What may start a word: a letter or `_`.
    WordStart,
    /// What may continue a word: a letter, a numeral or `_`.
    WordChar,
    /// Anything but what may continue a word.
    NotWordChar,
    Digit,
    NotNewline,
    NonAscii,
}

pub open spec fn in_class(k: CharClass, c: char) -> bool {
    match k {
        CharClass::White => white(c),
        CharClass::WordStart => word_start(c),
        CharClass::WordChar => word_char(c),
        CharClass::NotWordChar => !word_char(c),
        CharClass::Digit => is_digit(c),
        CharClass::NotNewline => c != '\n',
        CharClass::NonAscii => !is_ascii_char(c),
    }
}

pub fn class_holds(k: CharClass, c: char) -> (r: bool)
    ensures
        r == in_class(k, c),
{
    match k {
        CharClass::White => char_is_whitespace(c),
        CharClass::WordStart => is_word_start(c),
        CharClass::WordChar => is_word_char(c),
        CharClass::NotWordChar => !is_word_char(c),
        CharClass::Digit => '0' <= c && c <= '9',
        CharClass::NotNewline => c != '\n',
        CharClass::NonAscii => (c as u32) >= 128,
    }
}

/// The end of the longest run of characters of class `k` that starts at `i`.
pub open spec fn run_end(s: Seq<char>, i: int, k: CharClass) -> int
    decreases s.len() - i,
{
    if 0 <= i < s.len() && in_class(k, s[i]) {
        run_end(s, i + 1, k)
    } else {
        i
    }
}

pub proof fn lemma_run_end(s: Seq<char>, i: int, k: CharClass)
    requires
        0 <= i <= s.len(),
    ensures
        i <= run_end(s, i, k) <= s.len(),
        forall|j: int| i <= j < run_end(s, i, k) ==> in_class(k, #[trigger] s[j]),
        run_end(s, i, k) < s.len() ==> !in_class(k, s[run_end(s, i, k)]),
    decreases s.len() - i,
{
    if i < s.len() && in_class(k, s[i]) {
        lemma_run_end(s, i + 1, k);
    }
}

/// Finds the end of the longest run of characters of class `k` from `i`.
pub fn run_while(src: &[char], i: usize, k: CharClass) -> (e: usize)
    requires
        i <= src@.len(),
    ensures
        e == run_end(src@, i as int, k),
        i <= e <= src@.len(),
{
    proof {
        lemma_run_end(src@, i as int, k);
    }
    let mut j: usize = i;
    while j < src.len() && class_holds(k, src[j])
        invariant
            i <= j <= src@.len(),
            run_end(src@, j as int, k) == run_end(src@, i as int, k),
        decreases src@.len() - j,
    {
        j = j + 1;
    }
    j
}

/// The number of bytes that UTF-8 takes for `c`.
pub open spec fn utf8_len(c: char) -> nat {
    let u = c as u32;
    if u < 0x80 {
        1
    } else if u < 0x800 {
        2
    } else if u < 0x10000 {
        3
    } else {
        4
    }
}

/// The byte offset, in UTF-8, of the character at index `i` of `s`.
pub open spec fn byte_pos(s: Seq<char>, i: int) -> nat
    decreases i,
{
    if i <= 0 {
        0
    } else {
        byte_pos(s, i - 1) + utf8_len(s[i - 1])
    }
}

/// The text is short enough that its byte offsets fit in a `usize`.
pub open spec fn fits(s: Seq<char>) -> bool {
    byte_pos(s, s.len() as int) <= usize::MAX
}

pub proof fn lemma_byte_pos_mono(s: Seq<char>, i: int, j: int)
    requires
        0 <= i <= j,
    ensures
        byte_pos(s, i) + (j - i) <= byte_pos(s, j),
    decreases j - i,
{
    if i < j {
        lemma_byte_pos_mono(s, i, j - 1);
    }
}

pub proof fn lemma_byte_pos_head(s: Seq<char>, m: int, i: int)
    requires
        0 <= i <= m <= s.len(),
    ensures
        byte_pos(s.subrange(0, m), i) == byte_pos(s, i),
    decreases i,
{
    if i > 0 {
        lemma_byte_pos_head(s, m, i - 1);
        assert(s.subrange(0, m)[i - 1] == s[i - 1]);
    }
}

pub proof fn lemma_byte_pos_tail(s: Seq<char>, k: int, i: int)
    requires
        0 <= k <= s.len(),
        0 <= i <= s.len() - k,
    ensures
        byte_pos(s, k + i) == byte_pos(s, k) + byte_pos(s.subrange(k, s.len() as int), i),
    decreases i,
{
    if i > 0 {
        lemma_byte_pos_tail(s, k, i - 1);
        assert(s.subrange(k, s.len() as int)[i - 1] == s[k + i - 1]);
    }
}

/// The byte length that `byte_pos` gives a text is the length of its UTF-8
/// encoding.
pub proof fn lemma_encoded_len(s: Seq<char>)
    ensures
        vstd::utf8::encode_utf8(s).len() == byte_pos(s, s.len() as int),
    decreases s.len(),
{
    if s.len() > 0 {
        let t = s.drop_first();
        lemma_encoded_len(t);
        lemma_byte_pos_tail(s, 1, s.len() - 1);
        assert(s.subrange(1, s.len() as int) =~= t);
        vstd::utf8::char_is_scalar(s[0]);
        let u = s[0] as u32;
        assert(vstd::utf8::encode_scalar(u).len() == utf8_len(s[0]));
        assert(byte_pos(s, 0) == 0);
        assert(byte_pos(s, 1) == utf8_len(s[0]));
        assert(vstd::utf8::encode_utf8(s) == vstd::utf8::encode_scalar(u) + vstd::utf8::encode_utf8(
            t,
        ));
        assert(byte_pos(s, s.len() as int) == byte_pos(s, 1) + byte_pos(t, t.len() as int));
    }
}

/// The number of bytes that UTF-8 takes for `c`.
pub fn utf8_len_of(c: char) -> (r: usize)
    ensures
        r == utf8_len(c),
{
    let u = c as u32;
    if u < 0x80 {
        1
    } else if u < 0x800 {
        2
    } else if u < 0x10000 {
        3
    } else {
        4
    }
}

/// The byte offset of index `e`, counted on from the byte offset `bi` of
/// index `i`.
pub fn byte_offset_from(src: &[char], i: usize, bi: usize, e: usize) -> (r: usize)
    requires
        i <= e <= src@.len(),
        bi == byte_pos(src@, i as int),
        fits(src@),
    ensures
        r == byte_pos(src@, e as int),
{
    let mut k: usize = i;
    let mut b: usize = bi;
    while k < e
        invariant
            i <= k <= e <= src@.len(),
            b == byte_pos(src@, k as int),
            fits(src@),
        decreases e - k,
    {
        proof {
            lemma_byte_pos_mono(src@, k + 1, src@.len() as int);
        }
        b = b + utf8_len_of(src[k]);
        k = k + 1;
    }
    b
}

/// A position in a source text: the text, the index of the first character
/// not yet consumed, and the byte offset of that character in the text's
/// UTF-8 encoding. Scanning makes new cursors and never moves one back.
#[derive(Clone, Copy, Debug, PartialEq)]
pub struct Cursor<'a> {
    pub src: &'a [char],
    pub pos: usize,
    pub byte: usize,
}

/// The number of line breaks among the first `n` characters of `s`.
pub open spec fn newlines(s: Seq<char>, n: int) -> nat
    decreases n,
{
    if n <= 0 {
        0
    } else {
        newlines(s, n - 1) + if s[n - 1] == '\n' {
            1nat
        } else {
            0nat
        }
    }
}

impl<'a> Cursor<'a> {
    pub open spec fn wf(&self) -> bool {
        &&& self.pos <= self.src@.len()
        &&& self.byte == byte_pos(self.src@, self.pos as int)
        &&& fits(self.src@)
    }

    /// What is left to scan.
    pub open spec fn rest(&self) -> Seq<char> {
        self.src@.subrange(self.pos as int, self.src@.len() as int)
    }

    /// A cursor at the start of `src`.
    pub fn new(src: &'a [char]) -> (r: Cursor<'a>)
        requires
            fits(src@),
        ensures
            r.src@ == src@,
            r.pos == 0,
            r.wf(),
    {
        Cursor { src, pos: 0, byte: 0 }
    }

    /// The cursor `n` characters further on.
    pub fn advance(&self, n: usize) -> (r: Cursor<'a>)
        requires
            self.wf(),
            self.pos + n <= self.src@.len(),
        ensures
            r.src@ == self.src@,
            r.pos == self.pos + n,
            r.wf(),
    {
        let _len: usize = self.src.len();
        let e: usize = self.pos + n;
        Cursor { src: self.src, pos: e, byte: byte_offset_from(self.src, self.pos, self.byte, e) }
    }

    /// Splits off the next `n` characters: the span of their bytes and the
    /// cursor after them. Fails, taking nothing, where fewer than `n` are left.
    pub fn take(&self, n: usize) -> (r: Result<(Span, Cursor<'a>), ()>)
        requires
            self.wf(),
        ensures
            r is Ok <==> n <= self.rest().len(),
            r matches Ok((sp, c)) ==> sp.offset == self.byte && sp.offset + sp.len == byte_pos(
                self.src@,
                self.pos + n,
            ) && c.src == self.src && c.pos == self.pos + n && c.wf(),
    {
        if n <= self.src.len() - self.pos {
            let c = self.advance(n);
            proof {
                lemma_byte_pos_mono(self.src@, self.pos as int, c.pos as int);
            }
            Ok((Span { offset: self.byte, len: c.byte - self.byte }, c))
        } else {
            Err(())
        }
    }

    /// Nothing is left to scan.
    pub fn is_empty(&self) -> (r: bool)
        requires
            self.wf(),
        ensures
            r == (self.rest().len() == 0),
    {
        self.pos == self.src.len()
    }

    /// The number of characters left to scan.
    pub fn rest_len(&self) -> (r: usize)
        requires
            self.wf(),
        ensures
            r == self.rest().len(),
    {
        self.src.len() - self.pos
    }

    /// The byte offset of the cursor's position in the whole text.
    pub fn location_offset(&self) -> (r: usize)
        requires
            self.wf(),
        ensures
            r == byte_pos(self.src@, self.pos as int),
    {
        self.byte
    }

    /// The line of the cursor's position, counted from 1: one more than the
    /// number of line breaks before it.
    pub fn location_line(&self) -> (r: usize)
        requires
            self.wf(),
            self.pos < usize::MAX,
        ensures
            r == newlines(self.src@, self.pos as int) + 1,
    {
        let mut n: usize = 0;
        let mut j: usize = 0;
        while j < self.pos
            invariant
                j <= self.pos <= self.src@.len(),
                self.pos < usize::MAX,
                n == newlines(self.src@, j as int),
                n <= j,
            decreases self.pos - j,
        {
            if self.src[j] == '\n' {
                n = n + 1;
            }
            j = j + 1;
        }
        n + 1
    }
}

/// Skips the run of whitespace at the cursor.
pub fn skip_whitespace<'a>(input: Cursor<'a>) -> (r: Cursor<'a>)
    requires
        input.wf(),
    ensures
        r.src == input.src,
        r.pos == run_end(input.src@, input.pos as int, CharClass::White),
        r.wf(),
{
    let e: usize = run_while(input.src, input.pos, CharClass::White);
    Cursor { src: input.src, pos: e, byte: byte_offset_from(input.src, input.pos, input.byte, e) }
}

} // verus!
