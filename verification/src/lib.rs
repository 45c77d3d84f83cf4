//! Front end of a small toy language: lexer, parser into arenas, and a type
//! checker, all working on the UTF-8 bytes of the source text.

pub mod lexer;
pub mod ast;
pub mod parser;
pub mod typecheck;
pub mod grammar;

use vstd::prelude::*;
use vstd::utf8::encode_utf8;
use crate::lexer::{Lexer, Span};

verus! {

/// Width of every arena index.
pub type IdSize = u32;

/// An error as the specifications write it: its message and the span it
/// points at.
pub type ErrSpec = (Seq<char>, Span);

pub type FrontendErrAlias = FrontendErr;

/// Line starts as the lexer records them: the first line starts at 0 and
/// the starts are strictly increasing.
pub open spec fn line_starts_ok(lines: Seq<u32>) -> bool {
    &&& lines.len() > 0
    &&& lines[0] == 0
    &&& forall|i: int, j: int| 0 <= i < j < lines.len() ==> lines[i] < lines[j]
}

/// `line` is the index of the last line start at or before `pos`, and
/// `column` is the distance from that start to `pos`.
pub open spec fn locates(lines: Seq<u32>, pos: u32, line: int, column: int) -> bool {
    &&& 0 <= line < lines.len()
    &&& lines[line] <= pos
    &&& line + 1 < lines.len() ==> pos < lines[line + 1]
    &&& column == pos - lines[line]
}

/// An error of the front end: its message, the span it points at, the
/// bytes of that span, and the (zero-based) line and column of its start.
#[derive(Debug, Clone)]
pub struct FrontendErr {
    pub msg: String,
    pub span: Span,
    pub str: Vec<u8>,
    pub column: usize,
    pub line: usize,
}

/// The digits of `n` in base ten, as ASCII bytes.
pub open spec fn decimal(n: nat) -> Seq<u8>
    decreases n,
{
    if n < 10 {
        seq![(48 + n) as u8]
    } else {
        decimal(n / 10).push((48 + n % 10) as u8)
    }
}

/// Appends the bytes of `b` to `out`.
fn push_bytes(out: &mut Vec<u8>, b: &[u8])
    ensures
        final(out)@ == old(out)@ + b@,
{
    let mut i: usize = 0;
    while i < b.len()
        invariant
            i <= b@.len(),
            out@ == old(out)@ + b@.subrange(0, i as int),
        decreases b@.len() - i,
    {
        out.push(b[i]);
        i = i + 1;
        assert(out@ =~= old(out)@ + b@.subrange(0, i as int));
    }
    assert(b@.subrange(0, b@.len() as int) =~= b@);
}

/// Appends the decimal digits of `n` to `out`.
fn push_decimal(out: &mut Vec<u8>, n: u128)
    ensures
        final(out)@ == old(out)@ + decimal(n as nat),
    decreases n,
{
    if n >= 10 {
        push_decimal(out, n / 10);
    }
    let digit: u8 = (48 + n % 10) as u8;
    out.push(digit);
    assert(out@ =~= old(out)@ + decimal(n as nat));
}

impl FrontendErr {
    /// The error as the user reads it: `msg at token: 'text', line: L,
    /// column: C`, with lines and columns counted from 1, as UTF-8 bytes.
    pub open spec fn text_spec(&self) -> Seq<u8> {
        encode_utf8(self.msg@) + encode_utf8(" at token: '"@) + self.str@ + encode_utf8(
            "', line: "@,
        ) + decimal((self.line + 1) as nat) + encode_utf8(", column: "@) + decimal((self.column + 1) as nat)
    }

    /// The error as the user reads it (see `text_spec`).
    pub fn text(&self) -> (r: Vec<u8>)
        ensures
            r@ == self.text_spec(),
    {
        let mut out: Vec<u8> = Vec::new();
        push_bytes(&mut out, self.msg.as_str().as_bytes());
        push_bytes(&mut out, " at token: '".as_bytes());
        push_bytes(&mut out, self.str.as_slice());
        push_bytes(&mut out, "', line: ".as_bytes());
        push_decimal(&mut out, self.line as u128 + 1);
        push_bytes(&mut out, ", column: ".as_bytes());
        push_decimal(&mut out, self.column as u128 + 1);
        out
    }

    /// This error reports `msg` at `span` of the source `src` whose line
    /// starts are `lines`.
    pub open spec fn describes(&self, src: Seq<u8>, lines: Seq<u32>, msg: Seq<char>, span: Span) -> bool {
        &&& self.msg@ == msg
        &&& self.span == span
        &&& self.str@ == src.subrange(span.start as int, span.end as int)
        &&& locates(lines, span.start, self.line as int, self.column as int)
    }

    /// The error `msg` at `span`, with the line whose start is the last
    /// one at or before the span's start (found by binary search, so the
    /// only such line when the starts increase).
    pub fn new(lexer: &Lexer, msg: &str, span: Span) -> (r: Self)
        requires
            lexer.line_offsets@.len() > 0,
            lexer.line_offsets@[0] <= span.start,
            span.start <= span.end <= lexer.src@.len(),
        ensures
            r.describes(lexer.src@, lexer.line_offsets@, msg@, span),
    {
        let lines = &lexer.line_offsets;
        let mut lo: usize = 0;
        let mut hi: usize = lines.len();
        while hi - lo > 1
            invariant
                lines@.len() > 0,
                0 <= lo < hi <= lines@.len(),
                lines@[lo as int] <= span.start,
                hi < lines@.len() ==> span.start < lines@[hi as int],
            decreases hi - lo,
        {
            let mid = lo + (hi - lo) / 2;
            if lines[mid] <= span.start {
                lo = mid;
            } else {
                hi = mid;
            }
        }
        let line = lo;
        let column = (span.start - lines[line]) as usize;
        let text = vstd::slice::slice_to_vec(span.get_str(lexer.src.as_slice()));
        FrontendErr { msg: msg.to_owned(), span, str: text, line, column }
    }
}

} // verus!
