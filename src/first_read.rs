//! A first, coarse pass over raw bytes: it cuts the text at the bytes that
//! matter to the structure of a program (brackets, quotes, `;` and `#`),
//! keeping line numbers as it goes.
use vstd::prelude::*;

verus! {

/// A stretch of raw source and the line it starts on.
pub struct RawToken<'a> {
    pub code: &'a [u8],
    pub line: usize,
}

/// A bracketed group and what was read inside it.
pub struct ParenStatment<'a> {
    pub content: Vec<BasicType<'a>>,
    pub code: &'a [u8],
    pub closed: bool,
}

/// What the coarse pass makes of a stretch of source.
pub enum BasicType<'a> {
    Comment(RawToken<'a>),
    Statment(RawToken<'a>),
    Remainer(RawToken<'a>),
    Parens(ParenStatment<'a>),
    ErrorClosingParens(&'a u8),
    End(),
}

pub open spec fn is_ws_byte(b: u8) -> bool {
    b == 32u8 || b == 9u8 || b == 10u8
}

/// The bytes that end a stretch: `{ } ( ) " ' ; #`.
pub open spec fn is_key_byte(b: u8) -> bool {
    b == 123u8 || b == 125u8 || b == 40u8 || b == 41u8 || b == 34u8 || b == 39u8 || b == 59u8
        || b == 35u8
}

/// The first index from `i` on that holds a blank (space, tab or line
/// break), or the length where there is none.
pub open spec fn first_ws(code: Seq<u8>, i: int) -> int
    decreases code.len() - i,
{
    if 0 <= i < code.len() && !is_ws_byte(code[i]) {
        first_ws(code, i + 1)
    } else {
        i
    }
}

/// The first index from `i` on that holds a key byte, or the length where
/// there is none.
pub open spec fn first_key(code: Seq<u8>, i: int) -> int
    decreases code.len() - i,
{
    if 0 <= i < code.len() && !is_key_byte(code[i]) {
        first_key(code, i + 1)
    } else {
        i
    }
}

/// The number of line breaks in `code[i..j]`.
pub open spec fn line_breaks(code: Seq<u8>, i: int, j: int) -> nat
    decreases j - i,
{
    if j <= i {
        0
    } else {
        line_breaks(code, i, j - 1) + if code[j - 1] == 10u8 {
            1nat
        } else {
            0nat
        }
    }
}

proof fn lemma_first_ws(code: Seq<u8>, i: int)
    requires
        0 <= i <= code.len(),
    ensures
        i <= first_ws(code, i) <= code.len(),
        first_ws(code, i) < code.len() ==> is_ws_byte(code[first_ws(code, i)]),
    decreases code.len() - i,
{
    if i < code.len() && !is_ws_byte(code[i]) {
        lemma_first_ws(code, i + 1);
    }
}

proof fn lemma_first_key(code: Seq<u8>, i: int)
    requires
        0 <= i <= code.len(),
    ensures
        i <= first_key(code, i) <= code.len(),
        first_key(code, i) < code.len() ==> is_key_byte(code[first_key(code, i)]),
    decreases code.len() - i,
{
    if i < code.len() && !is_key_byte(code[i]) {
        lemma_first_key(code, i + 1);
    }
}

proof fn lemma_line_breaks_bound(code: Seq<u8>, i: int, j: int)
    ensures
        i <= j ==> line_breaks(code, i, j) <= j - i,
    decreases j - i,
{
    if i < j {
        lemma_line_breaks_bound(code, i, j - 1);
    }
}

/// The coarse pass over one text: its position and the current line.
pub struct Gatherer<'a> {
    line_num: usize,
    current_index: usize,
    pub full_code: &'a [u8],
}

impl<'a> Gatherer<'a> {
    pub closed spec fn line_spec(&self) -> usize {
        self.line_num
    }

    /// The text being read.
    pub closed spec fn code_spec(&self) -> Seq<u8> {
        self.full_code@
    }

    pub closed spec fn index_spec(&self) -> usize {
        self.current_index
    }

    /// The position lies in the text, and counting every line break that is
    /// left cannot overflow the line number.
    pub closed spec fn wf(&self) -> bool {
        &&& self.current_index <= self.full_code@.len()
        &&& self.line_num + (self.full_code@.len() - self.current_index) <= usize::MAX
    }

    /// A pass that starts at the first byte, on line 1.
    pub fn new(full_code: &'a [u8]) -> (r: Self)
        requires
            full_code@.len() < usize::MAX,
        ensures
            r.wf(),
            r.code_spec() == full_code@,
            r.line_spec() == 1,
            r.index_spec() == 0,
    {
        Self { line_num: 1, current_index: 0, full_code }
    }

    /// Reads the next stretch: from the next blank up to the next key byte.
    /// A stretch closed by `;` is a statement, and the `;` is consumed; any
    /// other is a remainder. `None` where no blank is left.
    pub fn next(&mut self) -> (r: Option<BasicType<'a>>)
        requires
            old(self).wf(),
        ensures
            final(self).wf(),
            final(self).code_spec() == old(self).code_spec(),
            ({
                let code = old(self).code_spec();
                let st = first_ws(code, old(self).index_spec() as int);
                let k = first_key(code, st);
                if st == code.len() {
                    r is None && final(self).index_spec() == code.len() && final(self).line_spec()
                        == old(self).line_spec()
                } else {
                    &&& final(self).line_spec() == old(self).line_spec() + line_breaks(code, st, k)
                    &&& match r {
                        Some(BasicType::Statment(t)) => k < code.len() && code[k] == 59u8
                            && final(self).index_spec() == k + 1 && t.code@ == code.subrange(st, k)
                            && t.line == old(self).line_spec(),
                        Some(BasicType::Remainer(t)) => (k == code.len() || code[k] != 59u8)
                            && final(self).index_spec() == k && t.code@ == code.subrange(st, k)
                            && t.line == old(self).line_spec(),
                        _ => false,
                    }
                }
            }),
    {
        if !self.get_valid_start() {
            return None;
        }
        let start: usize = self.current_index;
        let line: usize = self.line_num;
        proof {
            lemma_first_key(self.full_code@, start as int);
        }
        let is_last = !self.skip_non_keybytes();
        let code = vstd::slice::slice_subrange(self.full_code, start, self.current_index);
        let token = RawToken { code, line };
        if is_last {
            return Some(BasicType::Remainer(token));
        }
        if self.full_code[self.current_index] == 59u8 {
            self.current_index = self.current_index + 1;
            Some(BasicType::Statment(token))
        } else {
            Some(BasicType::Remainer(token))
        }
    }

    /// Moves to the next blank; whether there is one.
    fn get_valid_start(&mut self) -> (r: bool)
        requires
            old(self).wf(),
        ensures
            final(self).wf(),
            final(self).code_spec() == old(self).code_spec(),
            final(self).line_num == old(self).line_num,
            final(self).current_index == first_ws(
                old(self).full_code@,
                old(self).current_index as int,
            ),
            r == (final(self).current_index < final(self).code_spec().len()),
    {
        proof {
            lemma_first_ws(self.full_code@, self.current_index as int);
        }
        while self.current_index < self.full_code.len()
            invariant
                self.wf(),
                self.full_code@ == old(self).full_code@,
                self.line_num == old(self).line_num,
                old(self).current_index <= self.current_index,
                first_ws(self.full_code@, self.current_index as int) == first_ws(
                    old(self).full_code@,
                    old(self).current_index as int,
                ),
            decreases self.full_code@.len() - self.current_index,
        {
            let byte = self.full_code[self.current_index];
            if byte == 32u8 || byte == 9u8 || byte == 10u8 {
                return true;
            }
            self.current_index = self.current_index + 1;
        }
        false
    }

    /// Moves to the next key byte, counting the line breaks passed; whether
    /// there is one.
    fn skip_non_keybytes(&mut self) -> (r: bool)
        requires
            old(self).wf(),
        ensures
            final(self).wf(),
            final(self).code_spec() == old(self).code_spec(),
            final(self).current_index == first_key(
                old(self).full_code@,
                old(self).current_index as int,
            ),
            final(self).line_num == old(self).line_num + line_breaks(
                old(self).full_code@,
                old(self).current_index as int,
                final(self).current_index as int,
            ),
            r == (final(self).current_index < final(self).code_spec().len()),
    {
        proof {
            lemma_first_key(self.full_code@, self.current_index as int);
        }
        while self.current_index < self.full_code.len()
            invariant
                self.wf(),
                self.full_code@ == old(self).full_code@,
                old(self).current_index <= self.current_index,
                first_key(self.full_code@, self.current_index as int) == first_key(
                    old(self).full_code@,
                    old(self).current_index as int,
                ),
                self.line_num == old(self).line_num + line_breaks(
                    old(self).full_code@,
                    old(self).current_index as int,
                    self.current_index as int,
                ),
            decreases self.full_code@.len() - self.current_index,
        {
            let byte = self.full_code[self.current_index];
            if byte == 123u8 || byte == 125u8 || byte == 40u8 || byte == 41u8 || byte == 34u8
                || byte == 39u8 || byte == 59u8 || byte == 35u8 {
                return true;
            }
            if byte == 10u8 {
                self.line_num = self.line_num + 1;
            }
            self.current_index = self.current_index + 1;
        }
        false
    }

    /// The current line, counted from 1.
    pub fn line(&self) -> (r: usize)
        ensures
            r == self.line_spec(),
    {
        self.line_num
    }

    /// The index of the next byte to read.
    pub fn index(&self) -> (r: usize)
        ensures
            r == self.index_spec(),
    {
        self.current_index
    }

    /// Consumes the next `amount` bytes, counting the line breaks among them.
    pub fn consume(&mut self, amount: usize)
        requires
            old(self).wf(),
            old(self).index_spec() + amount <= old(self).code_spec().len(),
        ensures
            final(self).wf(),
            final(self).code_spec() == old(self).code_spec(),
            final(self).index_spec() == old(self).index_spec() + amount,
            final(self).line_spec() == old(self).line_spec() + line_breaks(
                old(self).code_spec(),
                old(self).index_spec() as int,
                old(self).index_spec() + amount,
            ),
    {
        let _len: usize = self.full_code.len();
        let start: usize = self.current_index;
        let end: usize = start + amount;
        let mut i: usize = start;
        while i < end
            invariant
                end == start + amount,
                start == old(self).current_index,
                start + amount <= self.full_code@.len(),
                start <= i <= start + amount,
                self.full_code@ == old(self).full_code@,
                self.current_index == start,
                self.line_num == old(self).line_num + line_breaks(
                    self.full_code@,
                    start as int,
                    i as int,
                ),
                old(self).wf(),
            decreases end - i,
        {
            proof {
                lemma_line_breaks_bound(self.full_code@, start as int, i as int);
            }
            if self.full_code[i] == 10u8 {
                self.line_num = self.line_num + 1;
            }
            i = i + 1;
        }
        proof {
            lemma_line_breaks_bound(self.full_code@, start as int, start + amount);
        }
        self.current_index = end;
    }
}

} // verus!
