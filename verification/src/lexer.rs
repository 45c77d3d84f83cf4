//! Tokens, byte classification and the lexer.

use vstd::prelude::*;

verus! {

/// A half-open byte range `[start, end)` of the source.
#[derive(Debug, Clone, Copy, PartialEq, Eq, Structural)]
pub struct Span {
    pub start: u32,
    pub end: u32,
}

impl Span {
    /// Number of bytes covered by the span.
    pub fn len(&self) -> (r: u32)
        requires
            self.start <= self.end,
        ensures
            r == self.end - self.start,
    {
        self.end - self.start
    }

    /// The bytes of `src` that the span covers.
    pub fn get_str<'b>(&self, src: &'b [u8]) -> (r: &'b [u8])
        requires
            self.start <= self.end <= src@.len(),
        ensures
            r@ == src@.subrange(self.start as int, self.end as int),
    {
        &src[self.start as usize..self.end as usize]
    }
}

impl Default for Span {
    fn default() -> (r: Self)
        ensures
            r == (Span { start: 0, end: 0 }),
    {
        Span { start: 0, end: 0 }
    }
}

/// The reserved words of the language.
#[derive(Debug, Clone, Copy, PartialEq, Eq, Structural)]
pub enum KeywordKind {
    If,
    Else,
    While,
    Fn,
    Return,
    Struct,
    True,
    False,
    And,
    Or,
    Not,
    Let,
    Const,
    Int,
    Float,
    Bool,
}

/// The kinds of tokens the lexer produces.
#[derive(Debug, Clone, Copy, PartialEq, Eq, Structural)]
pub enum TokenKind {
    Error,
    Eof,
    Assign,
    Comma,
    Dot,
    Colon,
    Semicolon,
    TokQuote,
    Tok2Quotes,
    Arrow,
    ParenL,
    ParenR,
    BraceL,
    BraceR,
    CurlyL,
    CurlyR,
    Plus,
    Star,
    Minus,
    Slash,
    Perc,
    Caret,
    Eq,
    Bang,
    NotEq,
    Great,
    Less,
    GreatEq,
    LessEq,
    Keyword(KeywordKind),
    Ident,
    IntLit,
    FloatLit,
}

impl Default for TokenKind {
    fn default() -> (r: Self)
        ensures
            r == TokenKind::Error,
    {
        TokenKind::Error
    }
}

impl TokenKind {
    /// Kinds that may continue an expression after its first operand:
    /// infix operators and the postfix `(`, `[` and `.`.
    pub open spec fn op(self) -> bool {
        match self {
            TokenKind::Plus | TokenKind::Star | TokenKind::Minus | TokenKind::Slash
            | TokenKind::Perc | TokenKind::Caret | TokenKind::ParenL | TokenKind::BraceL
            | TokenKind::Dot | TokenKind::Eq | TokenKind::NotEq | TokenKind::Great
            | TokenKind::GreatEq | TokenKind::Less | TokenKind::LessEq => true,
            TokenKind::Keyword(k) => k == KeywordKind::And || k == KeywordKind::Or || k
                == KeywordKind::Not,
            _ => false,
        }
    }

    /// Kinds at which recovery after a top-level error may resume.
    pub open spec fn safe_toplvl(self) -> bool {
        match self {
            TokenKind::Semicolon => true,
            TokenKind::Keyword(k) => k == KeywordKind::Fn || k == KeywordKind::Struct,
            _ => false,
        }
    }

    /// Kinds at which recovery after an error may resume.
    pub open spec fn safe(self) -> bool {
        self.safe_toplvl() || match self {
            TokenKind::Comma | TokenKind::ParenL | TokenKind::BraceL | TokenKind::CurlyL => true,
            TokenKind::Keyword(k) => k == KeywordKind::If || k == KeywordKind::Else || k
                == KeywordKind::While,
            _ => false,
        }
    }

    pub fn is_op(&self) -> (r: bool)
        ensures
            r == self.op(),
    {
        match self {
            TokenKind::Plus | TokenKind::Star | TokenKind::Minus | TokenKind::Slash
            | TokenKind::Perc | TokenKind::Caret | TokenKind::ParenL | TokenKind::BraceL
            | TokenKind::Dot | TokenKind::Eq | TokenKind::NotEq | TokenKind::Great
            | TokenKind::GreatEq | TokenKind::Less | TokenKind::LessEq => true,
            TokenKind::Keyword(KeywordKind::And) | TokenKind::Keyword(KeywordKind::Or)
            | TokenKind::Keyword(KeywordKind::Not) => true,
            _ => false,
        }
    }

    pub fn is_safe(&self) -> (r: bool)
        ensures
            r == self.safe(),
    {
        self.is_safe_toplvl() || match self {
            TokenKind::Comma | TokenKind::ParenL | TokenKind::BraceL | TokenKind::CurlyL
            | TokenKind::Keyword(KeywordKind::If) | TokenKind::Keyword(KeywordKind::Else)
            | TokenKind::Keyword(KeywordKind::While) => true,
            _ => false,
        }
    }

    pub fn is_safe_toplvl(&self) -> (r: bool)
        ensures
            r == self.safe_toplvl(),
    {
        match self {
            TokenKind::Semicolon | TokenKind::Keyword(KeywordKind::Fn)
            | TokenKind::Keyword(KeywordKind::Struct) => true,
            _ => false,
        }
    }
}

/// Every kind at which top-level recovery resumes is also one at which
/// statement-level recovery resumes.
pub proof fn lemma_safe_toplvl_is_safe(k: TokenKind)
    ensures
        k.safe_toplvl() ==> k.safe(),
{
}

/// A token: its kind and the bytes of the source it was read from.
#[derive(Debug, Clone, Copy, PartialEq, Eq, Structural)]
pub struct Token {
    pub kind: TokenKind,
    pub span: Span,
}

impl Default for Token {
    fn default() -> (r: Self)
        ensures
            r == (Token { kind: TokenKind::Error, span: Span { start: 0, end: 0 } }),
    {
        Token { kind: TokenKind::Error, span: Span { start: 0, end: 0 } }
    }
}

/// The result of lexing: the source, the byte offset at which each line
/// starts, and the tokens.
pub struct Lexer {
    pub src: Vec<u8>,
    pub line_offsets: Vec<u32>,
    pub tokens: Vec<Token>,
}

impl Lexer {
    /// The end-of-file token: an empty span at the end of the source.
    pub fn eof(&self) -> (r: Token)
        requires
            self.src@.len() <= u32::MAX,
        ensures
            r == (Token {
                kind: TokenKind::Eof,
                span: Span { start: self.src@.len() as u32, end: self.src@.len() as u32 },
            }),
    {
        let n = self.src.len() as u32;
        let span = Span { start: n, end: n };
        Token { kind: TokenKind::Eof, span }
    }

    /// The bytes of the source that a token covers.
    pub fn get_str(&self, t: Token) -> (r: &[u8])
        requires
            t.span.start <= t.span.end <= self.src@.len(),
        ensures
            r@ == self.src@.subrange(t.span.start as int, t.span.end as int),
    {
        &self.src.as_slice()[t.span.start as usize..t.span.end as usize]
    }
}

/// The lowercase spelling of each keyword.
pub open spec fn keyword_name(k: KeywordKind) -> Seq<u8> {
    match k {
        // if
        KeywordKind::If => seq![105u8, 102u8],
        // else
        KeywordKind::Else => seq![101u8, 108u8, 115u8, 101u8],
        // while
        KeywordKind::While => seq![119u8, 104u8, 105u8, 108u8, 101u8],
        // fn
        KeywordKind::Fn => seq![102u8, 110u8],
        // return
        KeywordKind::Return => seq![114u8, 101u8, 116u8, 117u8, 114u8, 110u8],
        // struct
        KeywordKind::Struct => seq![115u8, 116u8, 114u8, 117u8, 99u8, 116u8],
        // true
        KeywordKind::True => seq![116u8, 114u8, 117u8, 101u8],
        // false
        KeywordKind::False => seq![102u8, 97u8, 108u8, 115u8, 101u8],
        // and
        KeywordKind::And => seq![97u8, 110u8, 100u8],
        // or
        KeywordKind::Or => seq![111u8, 114u8],
        // not
        KeywordKind::Not => seq![110u8, 111u8, 116u8],
        // let
        KeywordKind::Let => seq![108u8, 101u8, 116u8],
        // const
        KeywordKind::Const => seq![99u8, 111u8, 110u8, 115u8, 116u8],
        // int
        KeywordKind::Int => seq![105u8, 110u8, 116u8],
        // float
        KeywordKind::Float => seq![102u8, 108u8, 111u8, 97u8, 116u8],
        // bool
        KeywordKind::Bool => seq![98u8, 111u8, 111u8, 108u8],
    }
}

/// The keyword spelled by `w`, if any.
pub open spec fn keyword_of(w: Seq<u8>) -> Option<KeywordKind> {
    if w == keyword_name(KeywordKind::If) {
        Some(KeywordKind::If)
    } else if w == keyword_name(KeywordKind::Else) {
        Some(KeywordKind::Else)
    } else if w == keyword_name(KeywordKind::While) {
        Some(KeywordKind::While)
    } else if w == keyword_name(KeywordKind::Fn) {
        Some(KeywordKind::Fn)
    } else if w == keyword_name(KeywordKind::Return) {
        Some(KeywordKind::Return)
    } else if w == keyword_name(KeywordKind::Struct) {
        Some(KeywordKind::Struct)
    } else if w == keyword_name(KeywordKind::True) {
        Some(KeywordKind::True)
    } else if w == keyword_name(KeywordKind::False) {
        Some(KeywordKind::False)
    } else if w == keyword_name(KeywordKind::And) {
        Some(KeywordKind::And)
    } else if w == keyword_name(KeywordKind::Or) {
        Some(KeywordKind::Or)
    } else if w == keyword_name(KeywordKind::Not) {
        Some(KeywordKind::Not)
    } else if w == keyword_name(KeywordKind::Let) {
        Some(KeywordKind::Let)
    } else if w == keyword_name(KeywordKind::Const) {
        Some(KeywordKind::Const)
    } else if w == keyword_name(KeywordKind::Int) {
        Some(KeywordKind::Int)
    } else if w == keyword_name(KeywordKind::Float) {
        Some(KeywordKind::Float)
    } else if w == keyword_name(KeywordKind::Bool) {
        Some(KeywordKind::Bool)
    } else {
        None
    }
}

/// Each keyword is recognised from its own spelling, so no two keywords
/// share a spelling.
pub proof fn lemma_keyword_roundtrip(k: KeywordKind)
    ensures
        keyword_of(keyword_name(k)) == Some(k),
{
}

/// Whether two byte strings are equal.
pub fn bytes_eq(a: &[u8], b: &[u8]) -> (r: bool)
    ensures
        r == (a@ == b@),
{
    if a.len() != b.len() {
        return false;
    }
    let mut i: usize = 0;
    while i < a.len()
        invariant
            a@.len() == b@.len(),
            i <= a@.len(),
            forall|j: int| 0 <= j < i ==> a@[j] == b@[j],
        decreases a@.len() - i,
    {
        if a[i] != b[i] {
            return false;
        }
        i = i + 1;
    }
    assert(a@ =~= b@);
    true
}

/// The keyword spelled by the bytes `w`, if any.
pub fn keyword_from_bytes(w: &[u8]) -> (r: Option<KeywordKind>)
    ensures
        r == keyword_of(w@),
{
    let name: [u8; 2] = [105u8, 102u8];
    if bytes_eq(w, name.as_slice()) {
        return Some(KeywordKind::If);
    }
    let name: [u8; 4] = [101u8, 108u8, 115u8, 101u8];
    if bytes_eq(w, name.as_slice()) {
        return Some(KeywordKind::Else);
    }
    let name: [u8; 5] = [119u8, 104u8, 105u8, 108u8, 101u8];
    if bytes_eq(w, name.as_slice()) {
        return Some(KeywordKind::While);
    }
    let name: [u8; 2] = [102u8, 110u8];
    if bytes_eq(w, name.as_slice()) {
        return Some(KeywordKind::Fn);
    }
    let name: [u8; 6] = [114u8, 101u8, 116u8, 117u8, 114u8, 110u8];
    if bytes_eq(w, name.as_slice()) {
        return Some(KeywordKind::Return);
    }
    let name: [u8; 6] = [115u8, 116u8, 114u8, 117u8, 99u8, 116u8];
    if bytes_eq(w, name.as_slice()) {
        return Some(KeywordKind::Struct);
    }
    let name: [u8; 4] = [116u8, 114u8, 117u8, 101u8];
    if bytes_eq(w, name.as_slice()) {
        return Some(KeywordKind::True);
    }
    let name: [u8; 5] = [102u8, 97u8, 108u8, 115u8, 101u8];
    if bytes_eq(w, name.as_slice()) {
        return Some(KeywordKind::False);
    }
    let name: [u8; 3] = [97u8, 110u8, 100u8];
    if bytes_eq(w, name.as_slice()) {
        return Some(KeywordKind::And);
    }
    let name: [u8; 2] = [111u8, 114u8];
    if bytes_eq(w, name.as_slice()) {
        return Some(KeywordKind::Or);
    }
    let name: [u8; 3] = [110u8, 111u8, 116u8];
    if bytes_eq(w, name.as_slice()) {
        return Some(KeywordKind::Not);
    }
    let name: [u8; 3] = [108u8, 101u8, 116u8];
    if bytes_eq(w, name.as_slice()) {
        return Some(KeywordKind::Let);
    }
    let name: [u8; 5] = [99u8, 111u8, 110u8, 115u8, 116u8];
    if bytes_eq(w, name.as_slice()) {
        return Some(KeywordKind::Const);
    }
    let name: [u8; 3] = [105u8, 110u8, 116u8];
    if bytes_eq(w, name.as_slice()) {
        return Some(KeywordKind::Int);
    }
    let name: [u8; 5] = [102u8, 108u8, 111u8, 97u8, 116u8];
    if bytes_eq(w, name.as_slice()) {
        return Some(KeywordKind::Float);
    }
    let name: [u8; 4] = [98u8, 111u8, 111u8, 108u8];
    if bytes_eq(w, name.as_slice()) {
        return Some(KeywordKind::Bool);
    }
    None
}

/// Byte values the lexer tests for.
pub const NEWLINE: u8 = 10;
pub const SPACE: u8 = 32;
pub const TAB: u8 = 9;
pub const FORM_FEED: u8 = 12;
pub const CARRIAGE_RETURN: u8 = 13;
pub const BANG: u8 = 33;
pub const PERCENT: u8 = 37;
pub const PAREN_L: u8 = 40;
pub const PAREN_R: u8 = 41;
pub const STAR: u8 = 42;
pub const PLUS: u8 = 43;
pub const COMMA: u8 = 44;
pub const MINUS: u8 = 45;
pub const DOT: u8 = 46;
pub const SLASH: u8 = 47;
pub const COLON: u8 = 58;
pub const SEMICOLON: u8 = 59;
pub const LESS: u8 = 60;
pub const EQUALS: u8 = 61;
pub const GREATER: u8 = 62;
pub const BRACKET_L: u8 = 91;
pub const BRACKET_R: u8 = 93;
pub const CARET: u8 = 94;
pub const CURLY_L: u8 = 123;
pub const CURLY_R: u8 = 125;

/// ASCII whitespace other than the newline.
pub open spec fn space_byte(b: u8) -> bool {
    b == SPACE || b == TAB || b == FORM_FEED || b == CARRIAGE_RETURN
}

/// ASCII decimal digit.
pub open spec fn digit_byte(b: u8) -> bool {
    48 <= b <= 57
}

/// ASCII letter or digit.
pub open spec fn alnum_byte(b: u8) -> bool {
    digit_byte(b) || 65 <= b <= 90 || 97 <= b <= 122
}

/// Whether the character with the byte's value (a Latin-1 character) is
/// alphabetic: the ASCII letters, `ª`, `µ`, `º`, and U+00C0 to U+00FF
/// except `×` and `÷`.
pub open spec fn alpha_byte(b: u8) -> bool {
    ||| 65 <= b <= 90
    ||| 97 <= b <= 122
    ||| b == 0xaa || b == 0xb5 || b == 0xba
    ||| (0xc0 <= b && b != 0xd7 && b != 0xf7)
}

pub fn is_space_byte(b: u8) -> (r: bool)
    ensures
        r == space_byte(b),
{
    b == SPACE || b == TAB || b == FORM_FEED || b == CARRIAGE_RETURN
}

pub fn is_digit_byte(b: u8) -> (r: bool)
    ensures
        r == digit_byte(b),
{
    48 <= b && b <= 57
}

pub fn is_alnum_byte(b: u8) -> (r: bool)
    ensures
        r == alnum_byte(b),
{
    (48 <= b && b <= 57) || (65 <= b && b <= 90) || (97 <= b && b <= 122)
}

pub fn is_alpha_byte(b: u8) -> (r: bool)
    ensures
        r == alpha_byte(b),
{
    (65 <= b && b <= 90) || (97 <= b && b <= 122) || b == 0xaa || b == 0xb5 || b == 0xba || (
    0xc0 <= b && b != 0xd7 && b != 0xf7)
}

/// The classes of bytes that the lexer skips over in runs.
#[derive(Debug, Clone, Copy, PartialEq, Eq, Structural)]
pub enum ByteClass {
    Space,
    NotNewline,
    AlNum,
    Digit,
}

pub open spec fn in_class(b: u8, c: ByteClass) -> bool {
    match c {
        ByteClass::Space => space_byte(b),
        ByteClass::NotNewline => b != NEWLINE,
        ByteClass::AlNum => alnum_byte(b),
        ByteClass::Digit => digit_byte(b),
    }
}

/// The first position at or after `pos` whose byte is not in class `c`
/// (or the end of `src`).
pub open spec fn scan(src: Seq<u8>, pos: int, c: ByteClass) -> int
    decreases src.len() - pos,
{
    if 0 <= pos < src.len() && in_class(src[pos], c) {
        scan(src, pos + 1, c)
    } else {
        pos
    }
}

pub proof fn lemma_scan(src: Seq<u8>, pos: int, c: ByteClass)
    requires
        0 <= pos <= src.len(),
    ensures
        pos <= scan(src, pos, c) <= src.len(),
        forall|i: int| pos <= i < scan(src, pos, c) ==> in_class(#[trigger] src[i], c),
        scan(src, pos, c) < src.len() ==> !in_class(src[scan(src, pos, c)], c),
    decreases src.len() - pos,
{
    if pos < src.len() && in_class(src[pos], c) {
        lemma_scan(src, pos + 1, c);
    }
}

/// The byte at `i`, or 0 past either end.
pub open spec fn byte_at(src: Seq<u8>, i: int) -> u8 {
    if 0 <= i < src.len() {
        src[i]
    } else {
        0
    }
}

/// Scanning inside a block comment from `pos`, with the positions of the
/// still open `/*` in `open` and the line starts found so far in `lines`:
/// returns where scanning stops, the openings left and the line starts.
/// Comments nest; each newline inside one records the position after it
/// as a line start.
pub open spec fn scan_block(src: Seq<u8>, pos: int, open: Seq<u32>, lines: Seq<u32>) -> (
    int,
    Seq<u32>,
    Seq<u32>,
)
    decreases src.len() - pos,
{
    if !(0 <= pos < src.len()) {
        (pos, open, lines)
    } else {
        let c = src[pos];
        let n = byte_at(src, pos + 1);
        let step: (int, Seq<u32>, Seq<u32>) = if c == SLASH && n == STAR {
            (pos + 2, open.push(pos as u32), lines)
        } else if c == STAR && n == SLASH {
            (pos + 2, open.drop_last(), lines)
        } else if c == NEWLINE {
            (pos + 1, open, lines.push((pos + 1) as u32))
        } else {
            (pos + 1, open, lines)
        };
        if step.1.len() == 0 {
            step
        } else {
            scan_block(src, step.0, step.1, step.2)
        }
    }
}

pub open spec fn tok(kind: TokenKind, start: int, end: int) -> Token {
    Token { kind, span: Span { start: start as u32, end: end as u32 } }
}

/// The token that starts with the byte at `p` (which is not a space, a
/// newline or the start of a comment) and the position after it.
pub open spec fn token_at(src: Seq<u8>, p: int) -> (Token, int) {
    let c = src[p];
    let n = byte_at(src, p + 1);
    if c == PLUS {
        (tok(TokenKind::Plus, p, p + 1), p + 1)
    } else if c == STAR {
        (tok(TokenKind::Star, p, p + 1), p + 1)
    } else if c == PERCENT {
        (tok(TokenKind::Perc, p, p + 1), p + 1)
    } else if c == CARET {
        (tok(TokenKind::Caret, p, p + 1), p + 1)
    } else if c == PAREN_L {
        (tok(TokenKind::ParenL, p, p + 1), p + 1)
    } else if c == PAREN_R {
        (tok(TokenKind::ParenR, p, p + 1), p + 1)
    } else if c == BRACKET_L {
        (tok(TokenKind::BraceL, p, p + 1), p + 1)
    } else if c == BRACKET_R {
        (tok(TokenKind::BraceR, p, p + 1), p + 1)
    } else if c == CURLY_L {
        (tok(TokenKind::CurlyL, p, p + 1), p + 1)
    } else if c == CURLY_R {
        (tok(TokenKind::CurlyR, p, p + 1), p + 1)
    } else if c == COMMA {
        (tok(TokenKind::Comma, p, p + 1), p + 1)
    } else if c == DOT {
        (tok(TokenKind::Dot, p, p + 1), p + 1)
    } else if c == COLON {
        (tok(TokenKind::Colon, p, p + 1), p + 1)
    } else if c == SEMICOLON {
        (tok(TokenKind::Semicolon, p, p + 1), p + 1)
    } else if c == MINUS {
        if n == GREATER {
            (tok(TokenKind::Arrow, p, p + 1), p + 2)
        } else {
            (tok(TokenKind::Minus, p, p + 1), p + 1)
        }
    } else if c == EQUALS {
        if n == EQUALS {
            (tok(TokenKind::Eq, p, p + 1), p + 2)
        } else {
            (tok(TokenKind::Assign, p, p + 1), p + 1)
        }
    } else if c == BANG {
        if n == EQUALS {
            (tok(TokenKind::NotEq, p, p + 1), p + 2)
        } else {
            (tok(TokenKind::Bang, p, p + 1), p + 1)
        }
    } else if c == LESS {
        if n == EQUALS {
            (tok(TokenKind::LessEq, p, p + 1), p + 2)
        } else {
            (tok(TokenKind::Less, p, p + 1), p + 1)
        }
    } else if c == GREATER {
        if n == EQUALS {
            (tok(TokenKind::GreatEq, p, p + 1), p + 2)
        } else {
            (tok(TokenKind::Great, p, p + 1), p + 1)
        }
    } else if c == SLASH {
        (tok(TokenKind::Slash, p, p + 1), p + 1)
    } else if alpha_byte(c) {
        let e = scan(src, p, ByteClass::AlNum);
        let kind = match keyword_of(src.subrange(p, e)) {
            Some(k) => TokenKind::Keyword(k),
            None => TokenKind::Ident,
        };
        (tok(kind, p, e), e)
    } else if digit_byte(c) {
        let e = scan(src, p, ByteClass::Digit);
        if byte_at(src, e) == DOT {
            let f = scan(src, e + 1, ByteClass::Digit);
            (tok(TokenKind::FloatLit, p, f), f)
        } else {
            (tok(TokenKind::IntLit, p, e), e)
        }
    } else {
        (tok(TokenKind::Error, p, p + 1), p + 1)
    }
}

/// One step of the lexer from `pos`, with the line starts found so far.
pub enum LexStep {
    /// Only spaces are left.
    End,
    /// Move on to a position, with these line starts, emitting nothing.
    Skip(int, Seq<u32>),
    /// Emit a token and move on to a position.
    Emit(Token, int),
    /// A block comment opened at this position is never closed.
    Unclosed(u32, Seq<u32>),
}

pub open spec fn lex_step(src: Seq<u8>, pos: int, lines: Seq<u32>) -> LexStep {
    let p = scan(src, pos, ByteClass::Space);
    if p >= src.len() {
        LexStep::End
    } else {
        let c = src[p];
        let n = byte_at(src, p + 1);
        if c == SLASH && n == SLASH {
            LexStep::Skip(scan(src, p, ByteClass::NotNewline), lines)
        } else if c == SLASH && n == STAR {
            let b = scan_block(src, p + 2, seq![p as u32], lines);
            if b.1.len() > 0 {
                LexStep::Unclosed(b.1.last(), b.2)
            } else {
                LexStep::Skip(b.0, b.2)
            }
        } else if c == NEWLINE {
            LexStep::Skip(p + 1, lines.push((p + 1) as u32))
        } else {
            LexStep::Emit(token_at(src, p).0, token_at(src, p).1)
        }
    }
}

/// What lexing a whole source gives.
pub enum LexOutcome {
    /// The tokens and the line starts.
    Done(Seq<Token>, Seq<u32>),
    /// A block comment opened at this position is never closed; the line
    /// starts found up to that point.
    Unclosed(u32, Seq<u32>),
    /// The lexer stops moving forward: a byte that starts a word but is not
    /// an ASCII letter or digit is read as an empty word, again and again.
    Stalled,
}

/// Lexing from `pos` with the tokens and line starts found so far.
pub open spec fn lex_from(src: Seq<u8>, pos: int, toks: Seq<Token>, lines: Seq<u32>) -> LexOutcome
    decreases src.len() - pos,
{
    match lex_step(src, pos, lines) {
        LexStep::End => LexOutcome::Done(toks, lines),
        LexStep::Skip(q, l) => if pos < q <= src.len() {
            lex_from(src, q, toks, l)
        } else {
            LexOutcome::Stalled
        },
        LexStep::Emit(t, q) => if pos < q <= src.len() {
            lex_from(src, q, toks.push(t), lines)
        } else {
            LexOutcome::Stalled
        },
        LexStep::Unclosed(s, l) => LexOutcome::Unclosed(s, l),
    }
}

/// Lexing a whole source: no tokens yet and one line starting at 0.
pub open spec fn lex(src: Seq<u8>) -> LexOutcome {
    lex_from(src, 0, seq![], seq![0u32])
}

/// The first position at or after `pos` whose byte is not in class `c`.
pub fn scan_class(src: &[u8], pos: usize, c: ByteClass) -> (r: usize)
    requires
        pos <= src@.len(),
    ensures
        r == scan(src@, pos as int, c),
        pos <= r <= src@.len(),
{
    let mut i = pos;
    while i < src.len() && in_class_exec(src[i], c)
        invariant
            pos <= i <= src@.len(),
            scan(src@, pos as int, c) == scan(src@, i as int, c),
        decreases src@.len() - i,
    {
        i = i + 1;
    }
    i
}

fn in_class_exec(b: u8, c: ByteClass) -> (r: bool)
    ensures
        r == in_class(b, c),
{
    match c {
        ByteClass::Space => is_space_byte(b),
        ByteClass::NotNewline => b != NEWLINE,
        ByteClass::AlNum => is_alnum_byte(b),
        ByteClass::Digit => is_digit_byte(b),
    }
}

/// A position in a byte string.
pub struct Cursor<'a> {
    pub bytes: &'a [u8],
    pub curr: u32,
}

impl<'a> Cursor<'a> {
    /// The byte `nth` positions ahead, or 0 past the end.
    pub fn peek_nth(&self, nth: usize) -> (r: u8)
        requires
            self.curr + nth <= usize::MAX,
        ensures
            r == byte_at(self.bytes@, self.curr + nth),
    {
        let i = self.curr as usize + nth;
        if i < self.bytes.len() {
            self.bytes[i]
        } else {
            0
        }
    }

    pub fn peek(&self) -> (r: u8)
        ensures
            r == byte_at(self.bytes@, self.curr as int),
    {
        self.peek_nth(0)
    }

    pub fn curr(&self) -> (r: u32)
        ensures
            r == self.curr,
    {
        self.curr
    }

    /// All the bytes the cursor walks.
    pub fn start(&self) -> (r: &[u8])
        ensures
            r@ == self.bytes@,
    {
        self.bytes
    }

    /// The bytes from the cursor on.
    pub fn slice(&self) -> (r: &[u8])
        requires
            self.curr <= self.bytes@.len(),
        ensures
            r@ == self.bytes@.subrange(self.curr as int, self.bytes@.len() as int),
    {
        let n = self.bytes.len();
        &self.bytes[self.curr as usize..n]
    }

    /// Steps back one byte.
    pub fn undo(&mut self)
        requires
            old(self).curr > 0,
        ensures
            final(self).curr == old(self).curr - 1,
            final(self).bytes == old(self).bytes,
    {
        self.curr = self.curr - 1;
    }

    pub fn has_some(&self) -> (r: bool)
        ensures
            r == (self.curr < self.bytes@.len()),
    {
        (self.curr as usize) < self.bytes.len()
    }

    pub fn advance_nth(&mut self, n: usize)
        requires
            old(self).curr + n <= u32::MAX,
        ensures
            final(self).bytes == old(self).bytes,
            final(self).curr == old(self).curr + n,
    {
        self.curr = self.curr + n as u32;
    }

    pub fn advance(&mut self)
        requires
            old(self).curr < u32::MAX,
        ensures
            final(self).bytes == old(self).bytes,
            final(self).curr == old(self).curr + 1,
    {
        self.advance_nth(1);
    }

    /// The current byte (0 past the end); moves one byte forward.
    pub fn eat(&mut self) -> (r: u8)
        requires
            old(self).curr < u32::MAX,
        ensures
            r == byte_at(old(self).bytes@, old(self).curr as int),
            final(self).bytes == old(self).bytes,
            final(self).curr == old(self).curr + 1,
    {
        let res = self.peek();
        self.advance();
        res
    }

    /// If the byte after the current one is `target`, steps over the current
    /// byte and gives `m`; otherwise gives `o` and stays.
    pub fn match2_or1(&mut self, target: u8, m: TokenKind, o: TokenKind) -> (r: TokenKind)
        requires
            old(self).curr < u32::MAX,
        ensures
            final(self).bytes == old(self).bytes,
            byte_at(old(self).bytes@, old(self).curr + 1) == target ==> r == m && final(self).curr
                == old(self).curr + 1,
            byte_at(old(self).bytes@, old(self).curr + 1) != target ==> r == o && final(self).curr
                == old(self).curr,
    {
        if self.peek_nth(1) == target {
            self.advance();
            m
        } else {
            o
        }
    }

    /// Eats the current byte if it is `target`.
    pub fn eat_if(&mut self, target: u8) -> (r: Option<u8>)
        requires
            old(self).curr < u32::MAX,
        ensures
            final(self).bytes == old(self).bytes,
            byte_at(old(self).bytes@, old(self).curr as int) == target ==> r == Some(target)
                && final(self).curr == old(self).curr + 1,
            byte_at(old(self).bytes@, old(self).curr as int) != target ==> r is None
                && final(self).curr == old(self).curr,
    {
        if self.peek() == target {
            Some(self.eat())
        } else {
            None
        }
    }
}

pub proof fn lemma_scan_block(src: Seq<u8>, pos: int, open: Seq<u32>, lines: Seq<u32>)
    requires
        0 <= pos <= src.len() < u32::MAX,
        open.len() > 0,
        forall|i: int| 0 <= i < open.len() ==> open[i] + 2 <= pos,
        crate::line_starts_ok(lines),
        lines.last() <= pos,
    ensures
        ({
            let r = scan_block(src, pos, open, lines);
            &&& pos <= r.0 <= src.len()
            &&& crate::line_starts_ok(r.2)
            &&& r.2.last() <= r.0
            &&& forall|i: int| 0 <= i < r.1.len() ==> r.1[i] + 2 <= r.0
        }),
    decreases src.len() - pos,
{
    if 0 <= pos < src.len() {
        let c = src[pos];
        let n = byte_at(src, pos + 1);
        let step: (int, Seq<u32>, Seq<u32>) = if c == SLASH && n == STAR {
            (pos + 2, open.push(pos as u32), lines)
        } else if c == STAR && n == SLASH {
            (pos + 2, open.drop_last(), lines)
        } else if c == NEWLINE {
            (pos + 1, open, lines.push((pos + 1) as u32))
        } else {
            (pos + 1, open, lines)
        };
        assert(crate::line_starts_ok(step.2));
        if step.1.len() != 0 {
            lemma_scan_block(src, step.0, step.1, step.2);
        }
    }
}

/// Skips a block comment that starts at the cursor; gives the openings left
/// unclosed when the source ends inside the comment.
fn skip_block_comment(cursor: &mut Cursor, lines: &mut Vec<u32>) -> (openings: Vec<u32>)
    requires
        old(cursor).curr + 2 <= old(cursor).bytes@.len() < u32::MAX,
    ensures
        final(cursor).bytes == old(cursor).bytes,
        (final(cursor).curr as int, openings@, final(lines)@) == scan_block(
            old(cursor).bytes@,
            old(cursor).curr + 2,
            seq![old(cursor).curr],
            old(lines)@,
        ),
{
    let ghost src = cursor.bytes@;
    let ghost target = scan_block(src, cursor.curr + 2, seq![cursor.curr], lines@);
    let mut openings: Vec<u32> = Vec::new();
    openings.push(cursor.curr);
    cursor.advance_nth(2);
    while cursor.has_some() && openings.len() > 0
        invariant
            cursor.bytes@ == src,
            src.len() < u32::MAX,
            cursor.curr <= src.len(),
            openings@.len() > 0 ==> scan_block(src, cursor.curr as int, openings@, lines@)
                == target,
            openings@.len() == 0 ==> (cursor.curr as int, openings@, lines@) == target,
        decreases src.len() - cursor.curr,
    {
        let c = cursor.eat();
        let mut handled = false;
        if c == SLASH {
            if cursor.eat_if(STAR).is_some() {
                openings.push(cursor.curr - 2);
                handled = true;
            }
        }
        if !handled && c == STAR {
            if cursor.eat_if(SLASH).is_some() {
                openings.pop();
                handled = true;
            }
        }
        if !handled && c == NEWLINE {
            lines.push(cursor.curr);
        }
    }
    openings
}

/// Reads the token that starts at the cursor and moves past it.
fn read_token(cursor: &mut Cursor) -> (t: Token)
    requires
        old(cursor).curr < old(cursor).bytes@.len() < u32::MAX,
        !(old(cursor).bytes@[old(cursor).curr as int] == SLASH && (byte_at(
            old(cursor).bytes@,
            old(cursor).curr + 1,
        ) == SLASH || byte_at(old(cursor).bytes@, old(cursor).curr + 1) == STAR)),
        old(cursor).bytes@[old(cursor).curr as int] != NEWLINE,
    ensures
        final(cursor).bytes == old(cursor).bytes,
        (t, final(cursor).curr as int) == token_at(old(cursor).bytes@, old(cursor).curr as int),
{
    let ghost src = cursor.bytes@;
    let start = cursor.curr;
    let mut len: u32 = 1;
    let c = cursor.peek();
    let kind = if c == PLUS {
        TokenKind::Plus
    } else if c == STAR {
        TokenKind::Star
    } else if c == PERCENT {
        TokenKind::Perc
    } else if c == CARET {
        TokenKind::Caret
    } else if c == PAREN_L {
        TokenKind::ParenL
    } else if c == PAREN_R {
        TokenKind::ParenR
    } else if c == BRACKET_L {
        TokenKind::BraceL
    } else if c == BRACKET_R {
        TokenKind::BraceR
    } else if c == CURLY_L {
        TokenKind::CurlyL
    } else if c == CURLY_R {
        TokenKind::CurlyR
    } else if c == COMMA {
        TokenKind::Comma
    } else if c == DOT {
        TokenKind::Dot
    } else if c == COLON {
        TokenKind::Colon
    } else if c == SEMICOLON {
        TokenKind::Semicolon
    } else if c == MINUS {
        cursor.match2_or1(GREATER, TokenKind::Arrow, TokenKind::Minus)
    } else if c == EQUALS {
        cursor.match2_or1(EQUALS, TokenKind::Eq, TokenKind::Assign)
    } else if c == BANG {
        cursor.match2_or1(EQUALS, TokenKind::NotEq, TokenKind::Bang)
    } else if c == LESS {
        cursor.match2_or1(EQUALS, TokenKind::LessEq, TokenKind::Less)
    } else if c == GREATER {
        cursor.match2_or1(EQUALS, TokenKind::GreatEq, TokenKind::Great)
    } else if c == SLASH {
        TokenKind::Slash
    } else if is_alpha_byte(c) {
        let e = scan_class(cursor.bytes, start as usize, ByteClass::AlNum);
        len = (e - start as usize) as u32;
        let ident = &cursor.bytes[start as usize..e];
        match keyword_from_bytes(ident) {
            Some(keyword) => TokenKind::Keyword(keyword),
            None => TokenKind::Ident,
        }
    } else if is_digit_byte(c) {
        let e = scan_class(cursor.bytes, start as usize, ByteClass::Digit);
        len = (e - start as usize) as u32;
        if cursor.peek_nth(len as usize) == DOT {
            proof {
                lemma_scan(src, start as int, ByteClass::Digit);
            }
            let f = scan_class(cursor.bytes, e + 1, ByteClass::Digit);
            len = (f - start as usize) as u32;
            TokenKind::FloatLit
        } else {
            TokenKind::IntLit
        }
    } else {
        TokenKind::Error
    };
    let span = Span { start, end: start + len };
    cursor.advance_nth(len as usize);
    Token { kind, span }
}

/// Splits a source into tokens and records where its lines start.
///
/// The lexer would never finish on a source where it stops moving forward
/// (see `LexOutcome::Stalled`); such sources are left out.
pub fn tokenize(src: &[u8]) -> (r: Result<Lexer, crate::FrontendErr>)
    requires
        src@.len() < u32::MAX,
        !(lex(src@) is Stalled),
    ensures
        match lex(src@) {
            LexOutcome::Done(toks, lines) => r matches Ok(lx) && lx.src@ == src@ && lx.tokens@
                == toks && lx.line_offsets@ == lines,
            LexOutcome::Unclosed(s, lines) => r matches Err(e) && s + 2 <= src@.len()
                && e.describes(
                src@,
                lines,
                "unclosed block comment"@,
                Span { start: s, end: (s + 2) as u32 },
            ),
            LexOutcome::Stalled => false,
        },
{
    let mut lexer = Lexer {
        src: vstd::slice::slice_to_vec(src),
        tokens: Vec::new(),
        line_offsets: Vec::new(),
    };
    lexer.line_offsets.push(0);
    let mut cursor = Cursor { bytes: src, curr: 0 };
    assert(lexer.tokens@ == Seq::<Token>::empty());
    assert(lexer.line_offsets@ == seq![0u32]);
    loop
        invariant
            cursor.bytes@ == src@,
            lexer.src@ == src@,
            src@.len() < u32::MAX,
            cursor.curr <= src@.len(),
            crate::line_starts_ok(lexer.line_offsets@),
            lexer.line_offsets@.last() <= cursor.curr,
            lex_from(src@, cursor.curr as int, lexer.tokens@, lexer.line_offsets@) == lex(src@),
            !(lex(src@) is Stalled),
        decreases src@.len() - cursor.curr,
    {
        let before = cursor.curr;
        let ghost pos0 = cursor.curr as int;
        let ghost toks0 = lexer.tokens@;
        let ghost lines0 = lexer.line_offsets@;
        let spaces = scan_class(src, cursor.curr as usize, ByteClass::Space) - cursor.curr as usize;
        cursor.advance_nth(spaces);
        if !cursor.has_some() {
            return Ok(lexer);
        }
        let start = cursor.curr;
        let c = cursor.peek();
        if c == SLASH && cursor.peek_nth(1) == SLASH {
            let len = scan_class(src, start as usize, ByteClass::NotNewline) - start as usize;
            cursor.advance_nth(len);
            assert(lex_from(src@, pos0, toks0, lines0) == lex_from(
                src@,
                cursor.curr as int,
                toks0,
                lines0,
            ));
        } else if c == SLASH && cursor.peek_nth(1) == STAR {
            proof {
                lemma_scan_block(src@, start + 2, seq![start], lines0);
            }
            let mut openings = skip_block_comment(&mut cursor, &mut lexer.line_offsets);
            if openings.len() > 0 {
                let open_at = openings.pop().unwrap();
                return Err(
                    crate::FrontendErr::new(
                        &lexer,
                        "unclosed block comment",
                        Span { start: open_at, end: open_at + 2 },
                    ),
                );
            }
            assert(lex_from(src@, pos0, toks0, lines0) == lex_from(
                src@,
                cursor.curr as int,
                toks0,
                lexer.line_offsets@,
            ));
        } else if c == NEWLINE {
            cursor.advance();
            lexer.line_offsets.push(cursor.curr());
            assert(lex_from(src@, pos0, toks0, lines0) == lex_from(
                src@,
                cursor.curr as int,
                toks0,
                lexer.line_offsets@,
            ));
        } else {
            let t = read_token(&mut cursor);
            if cursor.curr <= before {
                assert(lex_from(src@, pos0, toks0, lines0) is Stalled);
                assert(false);
                return Ok(lexer);
            }
            lexer.tokens.push(t);
            assert(lex_from(src@, pos0, toks0, lines0) == lex_from(
                src@,
                cursor.curr as int,
                lexer.tokens@,
                lines0,
            ));
        }
    }
}

/// Whether the lexer would stop moving forward on `src` (see
/// `LexOutcome::Stalled`): the test to make before `tokenize`.
pub fn lex_stalls(src: &[u8]) -> (r: bool)
    requires
        src@.len() < u32::MAX,
    ensures
        r == (lex(src@) is Stalled),
{
    let mut lines: Vec<u32> = Vec::new();
    lines.push(0);
    let ghost toks: Seq<Token> = Seq::empty();
    let mut cursor = Cursor { bytes: src, curr: 0 };
    assert(lines@ == seq![0u32]);
    loop
        invariant
            cursor.bytes@ == src@,
            src@.len() < u32::MAX,
            cursor.curr <= src@.len(),
            crate::line_starts_ok(lines@),
            lines@.last() <= cursor.curr,
            lex_from(src@, cursor.curr as int, toks, lines@) == lex(src@),
        decreases src@.len() - cursor.curr,
    {
        let before = cursor.curr;
        let ghost pos0 = cursor.curr as int;
        let ghost toks0 = toks;
        let ghost lines0 = lines@;
        let spaces = scan_class(src, cursor.curr as usize, ByteClass::Space) - cursor.curr as usize;
        cursor.advance_nth(spaces);
        if !cursor.has_some() {
            return false;
        }
        let start = cursor.curr;
        let c = cursor.peek();
        if c == SLASH && cursor.peek_nth(1) == SLASH {
            proof {
                lemma_scan(src@, start as int, ByteClass::NotNewline);
                assert(src@[start as int] == SLASH);
                assert(in_class(src@[start as int], ByteClass::NotNewline));
            }
            let len = scan_class(src, start as usize, ByteClass::NotNewline) - start as usize;
            cursor.advance_nth(len);
            assert(lex_from(src@, pos0, toks0, lines0) == lex_from(
                src@,
                cursor.curr as int,
                toks0,
                lines0,
            ));
        } else if c == SLASH && cursor.peek_nth(1) == STAR {
            proof {
                lemma_scan_block(src@, start + 2, seq![start], lines0);
            }
            let openings = skip_block_comment(&mut cursor, &mut lines);
            if openings.len() > 0 {
                return false;
            }
            assert(lex_from(src@, pos0, toks0, lines0) == lex_from(
                src@,
                cursor.curr as int,
                toks0,
                lines@,
            ));
        } else if c == NEWLINE {
            cursor.advance();
            lines.push(cursor.curr());
            assert(lex_from(src@, pos0, toks0, lines0) == lex_from(
                src@,
                cursor.curr as int,
                toks0,
                lines@,
            ));
        } else {
            proof {
                lemma_token_at(src@, start as int);
            }
            let t = read_token(&mut cursor);
            if cursor.curr <= before {
                return true;
            }
            proof {
                toks = toks.push(t);
            }
            assert(lex_from(src@, pos0, toks0, lines0) == lex_from(
                src@,
                cursor.curr as int,
                toks,
                lines0,
            ));
        }
    }
}

/// Tokens that each cover a nonempty range within `bound`, in source order
/// and without overlap.
pub open spec fn tokens_in_order(toks: Seq<Token>, bound: int) -> bool {
    &&& forall|i: int|
        #![trigger toks[i]]
        0 <= i < toks.len() ==> toks[i].span.start < toks[i].span.end <= bound
    &&& forall|i: int, j: int|
        #![trigger toks[i], toks[j]]
        0 <= i < j < toks.len() ==> toks[i].span.end <= toks[j].span.start
}

/// The token read at `p` starts there and is not the end token; a word or
/// a whole number takes every letter or digit that follows (longest
/// match).
pub proof fn lemma_token_at(src: Seq<u8>, p: int)
    requires
        0 <= p < src.len() < u32::MAX,
    ensures
        ({
            let (t, q) = token_at(src, p);
            &&& t.span.start == p
            &&& p <= t.span.end <= q <= src.len()
            &&& t.span.end == p ==> alpha_byte(src[p]) && q == p && scan(
                src,
                p,
                ByteClass::AlNum,
            ) == p
            &&& t.span.end > p ==> q > p
            &&& t.kind != TokenKind::Eof
            &&& alpha_byte(src[p]) ==> q == scan(src, p, ByteClass::AlNum) && (q < src.len()
                ==> !alnum_byte(src[q]))
            &&& digit_byte(src[p]) && !(byte_at(src, scan(src, p, ByteClass::Digit)) == DOT)
                ==> q == scan(src, p, ByteClass::Digit) && (q < src.len() ==> !digit_byte(src[q]))
        }),
{
    lemma_scan(src, p, ByteClass::AlNum);
    lemma_scan(src, p, ByteClass::Digit);
    let e = scan(src, p, ByteClass::Digit);
    if e < src.len() {
        lemma_scan(src, e + 1, ByteClass::Digit);
    }
}

proof fn lemma_tokens_widen(toks: Seq<Token>, a: int, b: int)
    requires
        tokens_in_order(toks, a),
        a <= b,
    ensures
        tokens_in_order(toks, b),
{
}

proof fn lemma_tokens_push(toks: Seq<Token>, a: int, t: Token, b: int)
    requires
        tokens_in_order(toks, a),
        a <= t.span.start < t.span.end <= b,
    ensures
        tokens_in_order(toks.push(t), b),
{
    let t2 = toks.push(t);
    assert forall|i: int, j: int| #![trigger t2[i], t2[j]] 0 <= i < j < t2.len() implies t2[i].span.end
        <= t2[j].span.start by {
        if j == toks.len() {
            assert(t2[i] == toks[i]);
            assert(t2[j] == t);
            assert(toks[i].span.start < toks[i].span.end <= a);
        } else {
            assert(t2[i] == toks[i] && t2[j] == toks[j]);
        }
    }
    assert forall|i: int| #![trigger t2[i]] 0 <= i < t2.len() implies t2[i].span.start < t2[i].span.end
        <= b by {
        if i < toks.len() {
            assert(t2[i] == toks[i]);
        }
    }
}

proof fn lemma_lex_from_wf(src: Seq<u8>, pos: int, toks: Seq<Token>, lines: Seq<u32>)
    requires
        0 <= pos <= src.len() < u32::MAX,
        crate::line_starts_ok(lines),
        lines.last() <= pos,
        tokens_in_order(toks, pos),
        no_eof(toks),
    ensures
        match lex_from(src, pos, toks, lines) {
            LexOutcome::Done(t, l) => {
                &&& crate::line_starts_ok(l)
                &&& l.last() <= src.len()
                &&& tokens_in_order(t, src.len() as int)
                &&& no_eof(t)
            },
            LexOutcome::Unclosed(s, l) => crate::line_starts_ok(l) && s + 2 <= src.len(),
            LexOutcome::Stalled => true,
        },
    decreases src.len() - pos,
{
    let p = scan(src, pos, ByteClass::Space);
    lemma_scan(src, pos, ByteClass::Space);
    if p < src.len() {
        let c = src[p];
        let n = byte_at(src, p + 1);
        if c == SLASH && n == SLASH {
            lemma_scan(src, p, ByteClass::NotNewline);
            lemma_tokens_widen(toks, pos, scan(src, p, ByteClass::NotNewline));
            lemma_lex_from_wf(src, scan(src, p, ByteClass::NotNewline), toks, lines);
        } else if c == SLASH && n == STAR {
            lemma_scan_block(src, p + 2, seq![p as u32], lines);
            let b = scan_block(src, p + 2, seq![p as u32], lines);
            if b.1.len() == 0 {
                lemma_tokens_widen(toks, pos, b.0);
                lemma_lex_from_wf(src, b.0, toks, b.2);
            } else {
                assert(b.1[b.1.len() - 1] + 2 <= b.0);
            }
        } else if c == NEWLINE {
            let l2 = lines.push((p + 1) as u32);
            assert(crate::line_starts_ok(l2));
            lemma_tokens_widen(toks, pos, p + 1);
            lemma_lex_from_wf(src, p + 1, toks, l2);
        } else {
            lemma_token_at(src, p);
            let (t, q) = token_at(src, p);
            if pos < q {
                let t2 = toks.push(t);
                if t.span.end == p {
                    // an empty word: the next step reads the same empty word
                    lemma_scan(src, q, ByteClass::Space);
                    assert(scan(src, q, ByteClass::Space) == q);
                    assert(lex_step(src, q, lines) == LexStep::Emit(t, q));
                    assert(lex_from(src, q, t2, lines) is Stalled);
                } else {
                    lemma_tokens_push(toks, pos, t, q);
                    assert(no_eof(t2)) by {
                        assert forall|i: int| 0 <= i < t2.len() implies #[trigger] t2[i].kind
                            != TokenKind::Eof by {
                            if i < toks.len() {
                                assert(t2[i] == toks[i]);
                            }
                        }
                    }
                    lemma_lex_from_wf(src, q, t2, lines);
                }
            }
        }
    }
}

/// Law of the lexer: when lexing finishes, the line starts begin at 0 and
/// strictly increase and lie within the source, and the tokens each cover
/// a nonempty range of the source, in source order and without overlap,
/// none of them standing for the end of the source; an unclosed comment is
/// reported at an opening `/*` inside the source. (`lemma_token_at` gives
/// the longest-match rule for words and numbers.)
pub proof fn lemma_lex_well_formed(src: Seq<u8>)
    requires
        src.len() < u32::MAX,
    ensures
        match lex(src) {
            LexOutcome::Done(t, l) => {
                &&& crate::line_starts_ok(l)
                &&& l.last() <= src.len()
                &&& tokens_in_order(t, src.len() as int)
                &&& no_eof(t)
            },
            LexOutcome::Unclosed(s, l) => crate::line_starts_ok(l) && s + 2 <= src.len(),
            LexOutcome::Stalled => true,
        },
{
    assert(crate::line_starts_ok(seq![0u32]));
    lemma_lex_from_wf(src, 0, seq![], seq![0u32]);
}

/// Every byte is an ASCII character.
pub open spec fn ascii(src: Seq<u8>) -> bool {
    forall|i: int| 0 <= i < src.len() ==> #[trigger] src[i] < 128
}

proof fn lemma_lex_from_ascii(src: Seq<u8>, pos: int, toks: Seq<Token>, lines: Seq<u32>)
    requires
        0 <= pos <= src.len() < u32::MAX,
        ascii(src),
        crate::line_starts_ok(lines),
        lines.last() <= pos,
    ensures
        !(lex_from(src, pos, toks, lines) is Stalled),
    decreases src.len() - pos,
{
    let p = scan(src, pos, ByteClass::Space);
    lemma_scan(src, pos, ByteClass::Space);
    if p < src.len() {
        let c = src[p];
        let n = byte_at(src, p + 1);
        if c == SLASH && n == SLASH {
            lemma_scan(src, p, ByteClass::NotNewline);
            assert(in_class(src[p], ByteClass::NotNewline));
            lemma_lex_from_ascii(src, scan(src, p, ByteClass::NotNewline), toks, lines);
        } else if c == SLASH && n == STAR {
            lemma_scan_block(src, p + 2, seq![p as u32], lines);
            let b = scan_block(src, p + 2, seq![p as u32], lines);
            if b.1.len() == 0 {
                lemma_lex_from_ascii(src, b.0, toks, b.2);
            }
        } else if c == NEWLINE {
            let l2 = lines.push((p + 1) as u32);
            assert(crate::line_starts_ok(l2));
            lemma_lex_from_ascii(src, p + 1, toks, l2);
        } else {
            lemma_token_at(src, p);
            lemma_scan(src, p, ByteClass::AlNum);
            let (t, q) = token_at(src, p);
            // an ASCII letter is itself a letter or digit, so no word is empty
            assert(src[p] < 128);
            assert(q > p);
            lemma_lex_from_ascii(src, q, toks.push(t), lines);
        }
    }
}

/// Law of the lexer: on a source of ASCII bytes the lexer always moves
/// forward, so `tokenize` gives its tokens, or the unclosed comment, for
/// every such source of a length that fits in 32 bits.
pub proof fn lemma_ascii_never_stalls(src: Seq<u8>)
    requires
        src.len() < u32::MAX,
        ascii(src),
    ensures
        !(lex(src) is Stalled),
{
    assert(crate::line_starts_ok(seq![0u32]));
    lemma_lex_from_ascii(src, 0, seq![], seq![0u32]);
}

/// The bytes Rust's `u8::is_ascii_whitespace` accepts: tab, newline, form
/// feed, carriage return and space.
pub open spec fn ascii_whitespace(b: u8) -> bool {
    b == 9 || b == 10 || b == 12 || b == 13 || b == 32
}

/// Law of the lexer's byte classes: the spaces it skips in runs are the
/// ASCII whitespace bytes other than the newline.
pub proof fn lemma_space_class(b: u8)
    ensures
        in_class(b, ByteClass::Space) == (ascii_whitespace(b) && b != 10),
{
}

/// Every token starts inside the source, at a byte that is not ASCII
/// whitespace.
pub open spec fn starts_outside_spaces(src: Seq<u8>, toks: Seq<Token>) -> bool {
    forall|i: int|
        0 <= i < toks.len() ==> #[trigger] toks[i].span.start < src.len() && !ascii_whitespace(
            src[toks[i].span.start as int],
        )
}

proof fn lemma_lex_from_starts(src: Seq<u8>, pos: int, toks: Seq<Token>, lines: Seq<u32>)
    requires
        0 <= pos <= src.len() < u32::MAX,
        crate::line_starts_ok(lines),
        lines.last() <= pos,
        starts_outside_spaces(src, toks),
    ensures
        lex_from(src, pos, toks, lines) matches LexOutcome::Done(t, _) ==> starts_outside_spaces(
            src,
            t,
        ),
    decreases src.len() - pos,
{
    let p = scan(src, pos, ByteClass::Space);
    lemma_scan(src, pos, ByteClass::Space);
    if p < src.len() {
        let c = src[p];
        let n = byte_at(src, p + 1);
        if c == SLASH && n == SLASH {
            lemma_scan(src, p, ByteClass::NotNewline);
            lemma_lex_from_starts(src, scan(src, p, ByteClass::NotNewline), toks, lines);
        } else if c == SLASH && n == STAR {
            lemma_scan_block(src, p + 2, seq![p as u32], lines);
            let b = scan_block(src, p + 2, seq![p as u32], lines);
            if b.1.len() == 0 && pos < b.0 {
                lemma_lex_from_starts(src, b.0, toks, b.2);
            }
        } else if c == NEWLINE {
            let l2 = lines.push((p + 1) as u32);
            assert(crate::line_starts_ok(l2));
            lemma_lex_from_starts(src, p + 1, toks, l2);
        } else {
            lemma_token_at(src, p);
            let (t, q) = token_at(src, p);
            if pos < q {
                let t2 = toks.push(t);
                assert(!in_class(src[p], ByteClass::Space));
                assert(starts_outside_spaces(src, t2)) by {
                    assert forall|i: int| 0 <= i < t2.len() implies #[trigger] t2[i].span.start
                        < src.len() && !ascii_whitespace(src[t2[i].span.start as int]) by {
                        if i < toks.len() {
                            assert(t2[i] == toks[i]);
                        }
                    }
                }
                if q <= src.len() {
                    lemma_lex_from_starts(src, q, t2, lines);
                }
            }
        }
    }
}

/// Law of the lexer: spaces, tabs, newlines, carriage returns and form
/// feeds between tokens are skipped, so no token starts at one of them.
pub proof fn lemma_tokens_start_outside_spaces(src: Seq<u8>)
    requires
        src.len() < u32::MAX,
    ensures
        lex(src) matches LexOutcome::Done(t, _) ==> starts_outside_spaces(src, t),
{
    assert(crate::line_starts_ok(seq![0u32]));
    lemma_lex_from_starts(src, 0, seq![], seq![0u32]);
}

/// No token stands for the end of the source.
pub open spec fn no_eof(toks: Seq<Token>) -> bool {
    forall|i: int| 0 <= i < toks.len() ==> #[trigger] toks[i].kind != TokenKind::Eof
}

/// Ordered tokens within `bound` number at most `bound`: each covers at
/// least one byte of its own.
pub proof fn lemma_tokens_count(toks: Seq<Token>, bound: int)
    requires
        0 <= bound,
        tokens_in_order(toks, bound),
    ensures
        toks.len() <= bound,
        toks.len() > 0 ==> toks.len() <= toks.last().span.end,
    decreases toks.len(),
{
    if toks.len() > 0 {
        let t2 = toks.drop_last();
        assert(tokens_in_order(t2, bound)) by {
            assert forall|i: int| #![trigger t2[i]] 0 <= i < t2.len() implies t2[i].span.start
                < t2[i].span.end <= bound by {
                assert(t2[i] == toks[i]);
            }
            assert forall|i: int, j: int| #![trigger t2[i], t2[j]] 0 <= i < j < t2.len() implies t2[i].span.end
                <= t2[j].span.start by {
                assert(t2[i] == toks[i] && t2[j] == toks[j]);
            }
        }
        lemma_tokens_count(t2, bound);
        let n = toks.len() - 1;
        assert(toks[n].span.start < toks[n].span.end <= bound);
        if t2.len() > 0 {
            assert(t2.last() == toks[n - 1]);
            assert(toks[n - 1].span.end <= toks[n].span.start);
        }
    }
}

} // verus!
