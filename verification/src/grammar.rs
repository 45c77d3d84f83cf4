//! What the parser builds from a list of tokens, written as functions on
//! a parser state: the position in the tokens, the arenas, and the
//! interned names. Each function gives the outcome of one parsing step and
//! the state after it; an error leaves the state as it was when the error
//! was met.

use vstd::prelude::*;
use crate::{ErrSpec, FrontendErr};
use crate::ast::{IdentId, interned};
use crate::lexer::{KeywordKind, Lexer, Span, Token, TokenKind};
use crate::parser::{
    Decl, Expr, ExprId, ExprLiteral, Stmt, StmtId, StmtTopLvl, TokenId, TyAnnot, TyAnnotId,
    infix_power, seconds, tok_at,
};

verus! {

/// What a literal is, with its lists as sequences.
pub enum LiteralV {
    Int(TokenId),
    Float(TokenId),
    Bool(TokenId),
    Array(Seq<ExprId>),
    Struct(IdentId, Seq<ExprId>),
}

/// What an expression is, with its lists as sequences.
pub enum ExprV {
    Literal(LiteralV),
    Variable(IdentId),
    Unary { op: TokenId, rhs: ExprId },
    Binary { op: TokenId, lhs: ExprId, rhs: ExprId },
    Call { callee: ExprId, args: Seq<ExprId> },
    Member { lhs: ExprId, field: IdentId },
    Index { lhs: ExprId, idx: ExprId },
}

impl View for Expr {
    type V = ExprV;

    open spec fn view(&self) -> ExprV {
        match self {
            Expr::Literal(lit) => ExprV::Literal(
                match lit {
                    ExprLiteral::Int(t) => LiteralV::Int(*t),
                    ExprLiteral::Float(t) => LiteralV::Float(*t),
                    ExprLiteral::Bool(t) => LiteralV::Bool(*t),
                    ExprLiteral::Array(es) => LiteralV::Array(es@),
                    ExprLiteral::Struct(name, es) => LiteralV::Struct(*name, es@),
                },
            ),
            Expr::Variable(x) => ExprV::Variable(*x),
            Expr::Unary { op, rhs } => ExprV::Unary { op: *op, rhs: *rhs },
            Expr::Binary { op, lhs, rhs } => ExprV::Binary { op: *op, lhs: *lhs, rhs: *rhs },
            Expr::Call { callee, args } => ExprV::Call { callee: *callee, args: args@ },
            Expr::Member { lhs, field } => ExprV::Member { lhs: *lhs, field: *field },
            Expr::Index { lhs, idx } => ExprV::Index { lhs: *lhs, idx: *idx },
        }
    }
}

/// What a statement is, with its lists as sequences.
pub enum StmtV {
    Decl(Decl),
    Assign { lhs: ExprId, rhs: ExprId },
    Block(Seq<StmtId>),
    IfElse { cond: ExprId, iblock: StmtId, eblock: Option<StmtId> },
    While { cond: ExprId, wblock: StmtId },
    Return(ExprId),
    Expr(ExprId),
}

impl View for Stmt {
    type V = StmtV;

    open spec fn view(&self) -> StmtV {
        match self {
            Stmt::Decl(d) => StmtV::Decl(*d),
            Stmt::Assign { lhs, rhs } => StmtV::Assign { lhs: *lhs, rhs: *rhs },
            Stmt::Block(ss) => StmtV::Block(ss@),
            Stmt::IfElse { cond, iblock, eblock } => StmtV::IfElse {
                cond: *cond,
                iblock: *iblock,
                eblock: *eblock,
            },
            Stmt::While { cond, wblock } => StmtV::While { cond: *cond, wblock: *wblock },
            Stmt::Return(e) => StmtV::Return(*e),
            Stmt::Expr(e) => StmtV::Expr(*e),
        }
    }
}

/// What a top-level item is, with its lists as sequences.
pub enum TopV {
    Decl(Decl),
    FnDecl {
        name: IdentId,
        params: Seq<(IdentId, TyAnnotId)>,
        ret: Option<TyAnnotId>,
        block: StmtId,
        is_generic: bool,
    },
    StructDecl { name: IdentId, fields: Seq<(IdentId, TyAnnotId)>, generics: Seq<IdentId> },
}

impl View for StmtTopLvl {
    type V = TopV;

    open spec fn view(&self) -> TopV {
        match self {
            StmtTopLvl::Decl(d) => TopV::Decl(*d),
            StmtTopLvl::FnDecl { name, params, ret, block, is_generic } => TopV::FnDecl {
                name: *name,
                params: params@,
                ret: *ret,
                block: *block,
                is_generic: *is_generic,
            },
            StmtTopLvl::StructDecl { name, fields, generics } => TopV::StructDecl {
                name: *name,
                fields: fields@,
                generics: generics@,
            },
        }
    }
}

/// What a type annotation is, with its lists as sequences.
pub enum AnnotV {
    Bool,
    Int,
    Float,
    Generic(IdentId),
    Array { inner: TyAnnotId, len: Option<ExprId> },
    Func { params: Seq<TyAnnotId>, ret: Option<TyAnnotId> },
    UserDef { name: IdentId, generics: Seq<TyAnnotId> },
}

impl View for TyAnnot {
    type V = AnnotV;

    open spec fn view(&self) -> AnnotV {
        match self {
            TyAnnot::Bool => AnnotV::Bool,
            TyAnnot::Int => AnnotV::Int,
            TyAnnot::Float => AnnotV::Float,
            TyAnnot::Generic(x) => AnnotV::Generic(*x),
            TyAnnot::Array { inner, len } => AnnotV::Array { inner: *inner, len: *len },
            TyAnnot::Func { params, ret } => AnnotV::Func { params: params@, ret: *ret },
            TyAnnot::UserDef { name, generics } => AnnotV::UserDef {
                name: *name,
                generics: generics@,
            },
        }
    }
}

/// The parser's state: the position in the tokens, the arenas with the
/// span of each node, the names interned so far, and whether an `if` or
/// `while` statement, which is not read yet, was met.
pub struct PState {
    pub pos: int,
    pub exprs: Seq<(ExprV, Span)>,
    pub stmts: Seq<(StmtV, Span)>,
    pub toplvl: Seq<(TopV, Span)>,
    pub annots: Seq<(AnnotV, Span)>,
    pub names: Seq<Seq<u8>>,
    pub branch: bool,
}

/// A step's outcome and the state after it.
pub type Step<T> = (Result<T, ErrSpec>, PState);

/// A parse gave `r` where the grammar gives `m`: the same value, or an
/// error that reports the grammar's error.
pub open spec fn presult<T>(r: Result<T, FrontendErr>, m: Result<T, ErrSpec>, lx: &Lexer) -> bool {
    match m {
        Ok(x) => r == Ok::<T, FrontendErr>(x),
        Err(e) => r matches Err(x) && x.describes(lx.src@, lx.line_offsets@, e.0, e.1),
    }
}

/// How far the parser may still move: the tokens left, plus a margin for
/// reading past the end.
pub open spec fn left(lx: &Lexer, st: PState) -> int {
    lx.tokens@.len() + 3 - st.pos
}

/// The token at the position, or the default token past the end.
pub open spec fn cur(lx: &Lexer, st: PState) -> Token {
    tok_at(lx.tokens@, st.pos)
}

/// The state `n` tokens further.
pub open spec fn adv(st: PState, n: int) -> PState {
    PState { pos: st.pos + n, ..st }
}

/// The token that stands for the end of the source.
pub open spec fn eof_tok(lx: &Lexer) -> Token {
    Token {
        kind: TokenKind::Eof,
        span: Span { start: lx.src@.len() as u32, end: lx.src@.len() as u32 },
    }
}

/// The bytes of the source a token covers.
pub open spec fn tok_text(lx: &Lexer, t: Token) -> Seq<u8> {
    lx.src@.subrange(t.span.start as int, t.span.end as int)
}

/// Interns the text of `t`.
pub open spec fn intern_tok(lx: &Lexer, st: PState, t: Token) -> (IdentId, PState) {
    let (names, i) = interned(st.names, tok_text(lx, t));
    (IdentId(i as u32), PState { names, ..st })
}

/// Adds an expression node.
pub open spec fn add_expr(st: PState, e: ExprV, span: Span) -> (ExprId, PState) {
    (ExprId(st.exprs.len() as u32), PState { exprs: st.exprs.push((e, span)), ..st })
}

/// Adds a statement node.
pub open spec fn add_stmt(st: PState, v: StmtV, span: Span) -> Step<StmtId> {
    (Ok(StmtId(st.stmts.len() as u32)), PState { stmts: st.stmts.push((v, span)), ..st })
}

/// Adds a top-level item.
pub open spec fn add_top(st: PState, v: TopV, span: Span) -> Step<StmtId> {
    (Ok(StmtId(st.toplvl.len() as u32)), PState { toplvl: st.toplvl.push((v, span)), ..st })
}

/// Adds an annotation node.
pub open spec fn add_annot(st: PState, a: AnnotV, span: Span) -> (TyAnnotId, PState) {
    (TyAnnotId(st.annots.len() as u32), PState { annots: st.annots.push((a, span)), ..st })
}

/// Eats the current token, which must be of kind `target`; the error
/// points at `err_tok`.
pub open spec fn expect_ex_s(lx: &Lexer, st: PState, target: TokenKind, msg: Seq<char>, err_tok: Token) -> Step<
    Token,
> {
    let t = cur(lx, st);
    if t.kind == target {
        (Ok(t), adv(st, 1))
    } else {
        (Err((msg, err_tok.span)), adv(st, 1))
    }
}

/// Eats the current token, which must be of kind `target`; the error
/// points at it.
pub open spec fn expect_s(lx: &Lexer, st: PState, target: TokenKind, msg: Seq<char>) -> Step<Token> {
    expect_ex_s(lx, st, target, msg, cur(lx, st))
}

/// Eats an identifier and interns it.
pub open spec fn expect_ident_s(lx: &Lexer, st: PState, msg: Seq<char>) -> Step<IdentId> {
    let (r, s1) = expect_s(lx, st, TokenKind::Ident, msg);
    match r {
        Ok(t) => {
            let (id, s2) = intern_tok(lx, s1, t);
            (Ok(id), s2)
        },
        Err(e) => (Err(e), s1),
    }
}

/// Eats the current token if it is of kind `k`.
pub open spec fn skip_if(lx: &Lexer, st: PState, k: TokenKind) -> PState {
    if cur(lx, st).kind == k {
        adv(st, 1)
    } else {
        st
    }
}

/// What a step gives where parsing would not move forward; never the
/// case, as every step eats a token.
pub open spec fn stuck() -> ErrSpec {
    (Seq::empty(), Span { start: 0, end: 0 })
}

/// Parsing moved forward from `a` to `b`, not past the margin.
pub open spec fn moved(lx: &Lexer, a: PState, b: PState) -> bool {
    a.pos < b.pos && left(lx, b) >= 0
}

/// Binding power of a prefix operator, or -1.
pub open spec fn prefix_power(k: TokenKind) -> i8 {
    match k {
        TokenKind::Minus => 30i8,
        TokenKind::Keyword(KeywordKind::Not) => 29i8,
        _ => -1i8,
    }
}

/// Binding power of a postfix operator.
pub open spec fn postfix_power(k: TokenKind) -> Option<i8> {
    match k {
        TokenKind::ParenL => Some(32i8),
        TokenKind::BraceL => Some(32i8),
        TokenKind::Dot => Some(34i8),
        _ => None,
    }
}

/// Parsing an expression whose operators bind at least as tightly as
/// `prec` (Pratt parsing): an operand, then the operators that follow it.
pub open spec fn p_expr(lx: &Lexer, st: PState, prec: i8) -> Step<ExprId>
    decreases left(lx, st), 3int,
{
    if left(lx, st) <= 0 {
        (Err(stuck()), st)
    } else {
        let t = cur(lx, st);
        let (first, s2) = p_operand(lx, st);
        match first {
            Err(e) => (Err(e), s2),
            Ok(lhs) => if moved(lx, st, s2) {
                p_expr_rest(lx, s2, lhs, prec, t)
            } else {
                (Err(stuck()), s2)
            },
        }
    }
}

/// The operand an expression starts with: a literal, a variable, a struct
/// literal, a prefix operator applied to an operand, a parenthesized
/// expression or an array literal.
pub open spec fn p_operand(lx: &Lexer, st: PState) -> Step<ExprId>
    decreases left(lx, st), 2int,
{
    if left(lx, st) <= 0 {
        (Err(stuck()), st)
    } else {
        let t = cur(lx, st);
        let tid = TokenId(#[verifier::truncate] (st.pos as u32));
        let s1 = adv(st, 1);
        match t.kind {
            TokenKind::IntLit => {
                let (id, s) = add_expr(s1, ExprV::Literal(LiteralV::Int(tid)), t.span);
                (Ok(id), s)
            },
            TokenKind::FloatLit => {
                let (id, s) = add_expr(s1, ExprV::Literal(LiteralV::Float(tid)), t.span);
                (Ok(id), s)
            },
            TokenKind::Keyword(KeywordKind::True) => {
                let (id, s) = add_expr(s1, ExprV::Literal(LiteralV::Bool(tid)), t.span);
                (Ok(id), s)
            },
            TokenKind::Keyword(KeywordKind::False) => {
                let (id, s) = add_expr(s1, ExprV::Literal(LiteralV::Bool(tid)), t.span);
                (Ok(id), s)
            },
            TokenKind::Ident => {
                let (ident, s3) = intern_tok(lx, s1, t);
                if cur(lx, s3).kind == TokenKind::CurlyL {
                    let (ms, s4) = p_exprs(
                        lx,
                        adv(s3, 1),
                        TokenKind::CurlyR,
                        "unclosed struct literal"@,
                        Seq::empty(),
                    );
                    match ms {
                        Ok(ms) => {
                            let (id, s) = add_expr(
                                s4,
                                ExprV::Literal(LiteralV::Struct(ident, ms)),
                                t.span,
                            );
                            (Ok(id), s)
                        },
                        Err(e) => (Err(e), s4),
                    }
                } else {
                    let (id, s) = add_expr(s3, ExprV::Variable(ident), t.span);
                    (Ok(id), s)
                }
            },
            TokenKind::Minus | TokenKind::Bang => {
                let (r, s3) = p_expr(lx, s1, prefix_power(t.kind));
                match r {
                    Ok(rhs) => {
                        let (id, s) = add_expr(s3, ExprV::Unary { op: tid, rhs }, t.span);
                        (Ok(id), s)
                    },
                    Err(e) => (Err(e), s3),
                }
            },
            TokenKind::ParenL => {
                let (r, s3) = p_expr(lx, s1, 0);
                match r {
                    Ok(e) => {
                        let (c, s4) = expect_ex_s(
                            lx,
                            s3,
                            TokenKind::ParenR,
                            "unclosed parenthesis"@,
                            t,
                        );
                        match c {
                            Ok(_) => (Ok(e), s4),
                            Err(x) => (Err(x), s4),
                        }
                    },
                    Err(x) => (Err(x), s3),
                }
            },
            TokenKind::BraceL => {
                let (es, s3) = p_exprs(
                    lx,
                    s1,
                    TokenKind::BraceR,
                    "unclosed array literal"@,
                    Seq::empty(),
                );
                match es {
                    Ok(es) => {
                        let (id, s) = add_expr(s3, ExprV::Literal(LiteralV::Array(es)), t.span);
                        (Ok(id), s)
                    },
                    Err(e) => (Err(e), s3),
                }
            },
            _ => (Err(("invalid lhs expression"@, t.span)), s1),
        }
    }
}

/// The operators after the operand `lhs` of an expression that started at
/// token `t`: postfix operators and infix operators that bind at least as
/// tightly as `prec`, left to right.
pub open spec fn p_expr_rest(lx: &Lexer, st: PState, lhs: ExprId, prec: i8, t: Token) -> Step<ExprId>
    decreases left(lx, st), 1int,
{
    if left(lx, st) <= 0 {
        (Err(stuck()), st)
    } else if !(st.pos < lx.tokens@.len()) {
        (Ok(lhs), st)
    } else {
        let op = cur(lx, st);
        let id = TokenId(#[verifier::truncate] (st.pos as u32));
        if !op.kind.op() {
            (Ok(lhs), st)
        } else {
            match postfix_power(op.kind) {
                Some(pl) => if pl < prec {
                    (Ok(lhs), st)
                } else {
                    let (r, s2) = p_postfix(lx, adv(st, 1), lhs, op, t);
                    match r {
                        Err(x) => (Err(x), s2),
                        Ok(l2) => if moved(lx, st, s2) {
                            p_expr_rest(lx, s2, l2, prec, t)
                        } else {
                            (Err(stuck()), s2)
                        },
                    }
                },
                None => {
                    let (ll, rl) = infix_power(op.kind);
                    if ll < prec {
                        (Ok(lhs), st)
                    } else {
                        let (r, s2) = p_expr(lx, adv(st, 1), rl);
                        match r {
                            Err(x) => (Err(x), s2),
                            Ok(rhs) => {
                                let (l2, s3) = add_expr(
                                    s2,
                                    ExprV::Binary { op: id, lhs, rhs },
                                    t.span,
                                );
                                if moved(lx, st, s3) {
                                    p_expr_rest(lx, s3, l2, prec, t)
                                } else {
                                    (Err(stuck()), s3)
                                }
                            },
                        }
                    }
                },
            }
        }
    }
}

/// A postfix operator `op`, just eaten, applied to `lhs`: a call, a member
/// access or an indexing, in an expression that started at token `t`.
pub open spec fn p_postfix(lx: &Lexer, st: PState, lhs: ExprId, op: Token, t: Token) -> Step<ExprId>
    decreases left(lx, st), 5int,
{
    if left(lx, st) <= 0 {
        (Err(stuck()), st)
    } else {
        match op.kind {
            TokenKind::ParenL => {
                let (a, s3) = p_exprs(
                    lx,
                    st,
                    TokenKind::ParenR,
                    "unclosed function call"@,
                    Seq::empty(),
                );
                match a {
                    Ok(args) => {
                        let (e, s) = add_expr(s3, ExprV::Call { callee: lhs, args }, op.span);
                        (Ok(e), s)
                    },
                    Err(x) => (Err(x), s3),
                }
            },
            TokenKind::Dot => {
                let (f, s3) = expect_ident_s(
                    lx,
                    st,
                    "expect member idientifier after . operation"@,
                );
                match f {
                    Ok(field) => {
                        let (e, s) = add_expr(s3, ExprV::Member { lhs, field }, op.span);
                        (Ok(e), s)
                    },
                    Err(x) => (Err(x), s3),
                }
            },
            TokenKind::BraceL => {
                let (i, s3) = p_expr(lx, st, 0);
                match i {
                    Ok(idx) => {
                        let (c, s4) = expect_s(
                            lx,
                            s3,
                            TokenKind::BraceR,
                            "unclosed array indexing bracket"@,
                        );
                        match c {
                            Ok(_) => {
                                let (e, s) = add_expr(s4, ExprV::Index { lhs, idx }, op.span);
                                (Ok(e), s)
                            },
                            Err(x) => (Err(x), s4),
                        }
                    },
                    Err(x) => (Err(x), s3),
                }
            },
            _ => (Err(("invalid postfix expression"@, t.span)), st),
        }
    }
}

/// A comma-separated list of expressions up to `term`, after the items
/// `acc` read so far.
pub open spec fn p_exprs(lx: &Lexer, st: PState, term: TokenKind, msg: Seq<char>, acc: Seq<ExprId>) -> Step<
    Seq<ExprId>,
>
    decreases left(lx, st), 4int,
{
    if left(lx, st) <= 0 {
        (Err(stuck()), st)
    } else if !(st.pos < lx.tokens@.len()) {
        (Err((msg, eof_tok(lx).span)), st)
    } else if cur(lx, st).kind == term {
        (Ok(acc), adv(st, 1))
    } else {
        let (r, s1) = p_expr(lx, st, 0);
        match r {
            Err(e) => (Err(e), s1),
            Ok(item) => {
                let s2 = if cur(lx, s1).kind == TokenKind::Comma {
                    adv(s1, 1)
                } else {
                    s1
                };
                if cur(lx, s1).kind != TokenKind::Comma && cur(lx, s1).kind == term {
                    (Ok(acc.push(item)), adv(s1, 1))
                } else if cur(lx, s1).kind != TokenKind::Comma && s1.pos < lx.tokens@.len() {
                    // neither a comma nor the end of the list follows the item
                    (Err((msg, cur(lx, s1).span)), s1)
                } else if moved(lx, st, s2) {
                    p_exprs(lx, s2, term, msg, acc.push(item))
                } else {
                    (Err(stuck()), s2)
                }
            },
        }
    }
}

/// Parsing a type annotation: `bool`, `int`, `float`, a function type
/// `(params) -> ret`, an array type `[inner: len]` (`*` for a length left
/// to inference) or a named type with optional `<generics>`. The node is
/// added after the nodes of its parts.
pub open spec fn p_annot(lx: &Lexer, st: PState) -> Step<TyAnnotId>
    decreases left(lx, st), 1int,
{
    if left(lx, st) <= 0 {
        (Err(stuck()), st)
    } else {
        let t = cur(lx, st);
        let s1 = adv(st, 1);
        let (a, s2): (Result<AnnotV, ErrSpec>, PState) = match t.kind {
            TokenKind::Keyword(KeywordKind::Bool) => (Ok(AnnotV::Bool), s1),
            TokenKind::Keyword(KeywordKind::Int) => (Ok(AnnotV::Int), s1),
            TokenKind::Keyword(KeywordKind::Float) => (Ok(AnnotV::Float), s1),
            TokenKind::ParenL => {
                let (ps, s3) = p_annots(
                    lx,
                    s1,
                    TokenKind::ParenR,
                    "unclosed parenthesis in function annotation's params"@,
                    Seq::empty(),
                );
                match ps {
                    Err(e) => (Err(e), s3),
                    Ok(ps) => if cur(lx, s3).kind == TokenKind::Arrow {
                        let s4 = adv(s3, 1);
                        if moved(lx, st, s4) {
                            let (r, s5) = p_annot(lx, s4);
                            match r {
                                Ok(rid) => (Ok(AnnotV::Func { params: ps, ret: Some(rid) }), s5),
                                Err(e) => (Err(e), s5),
                            }
                        } else {
                            (Err(stuck()), s4)
                        }
                    } else {
                        (Ok(AnnotV::Func { params: ps, ret: None }), s3)
                    },
                }
            },
            TokenKind::BraceL => {
                let (i, s3) = p_annot(lx, s1);
                match i {
                    Err(e) => (Err(e), s3),
                    Ok(inner) => {
                        let (c, s4) = expect_s(
                            lx,
                            s3,
                            TokenKind::Colon,
                            "expect ':' after array inner type"@,
                        );
                        match c {
                            Err(e) => (Err(e), s4),
                            Ok(_) => {
                                let (len, s5): (Result<Option<ExprId>, ErrSpec>, PState) = if cur(
                                    lx,
                                    s4,
                                ).kind == TokenKind::Star {
                                    (Ok(None), adv(s4, 1))
                                } else {
                                    let (e, s) = p_expr(lx, s4, 0);
                                    match e {
                                        Ok(e) => (Ok(Some(e)), s),
                                        Err(x) => (Err(x), s),
                                    }
                                };
                                match len {
                                    Err(e) => (Err(e), s5),
                                    Ok(len) => {
                                        let (c2, s6) = expect_s(
                                            lx,
                                            s5,
                                            TokenKind::BraceR,
                                            "expect closing ']' in array type annotation"@,
                                        );
                                        match c2 {
                                            Err(e) => (Err(e), s6),
                                            Ok(_) => (Ok(AnnotV::Array { inner, len }), s6),
                                        }
                                    },
                                }
                            },
                        }
                    },
                }
            },
            TokenKind::Ident => {
                let (name, s3) = intern_tok(lx, s1, t);
                if cur(lx, s3).kind == TokenKind::Less {
                    let (g, s4) = p_annots(
                        lx,
                        adv(s3, 1),
                        TokenKind::Great,
                        "unclosed generics listing"@,
                        Seq::empty(),
                    );
                    match g {
                        Ok(g) => (Ok(AnnotV::UserDef { name, generics: g }), s4),
                        Err(e) => (Err(e), s4),
                    }
                } else {
                    (Ok(AnnotV::UserDef { name, generics: Seq::empty() }), s3)
                }
            },
            _ => (Err(("invalid type annotation"@, t.span)), s1),
        };
        match a {
            Err(e) => (Err(e), s2),
            Ok(a) => {
                let (id, s) = add_annot(s2, a, t.span);
                (Ok(id), s)
            },
        }
    }
}

/// A comma-separated list of type annotations up to `term`, after the
/// items `acc` read so far.
pub open spec fn p_annots(lx: &Lexer, st: PState, term: TokenKind, msg: Seq<char>, acc: Seq<TyAnnotId>) -> Step<
    Seq<TyAnnotId>,
>
    decreases left(lx, st), 2int,
{
    if left(lx, st) <= 0 {
        (Err(stuck()), st)
    } else if !(st.pos < lx.tokens@.len()) {
        (Err((msg, eof_tok(lx).span)), st)
    } else if cur(lx, st).kind == term {
        (Ok(acc), adv(st, 1))
    } else {
        let (r, s1) = p_annot(lx, st);
        match r {
            Err(e) => (Err(e), s1),
            Ok(item) => {
                let s2 = if cur(lx, s1).kind == TokenKind::Comma {
                    adv(s1, 1)
                } else {
                    s1
                };
                if cur(lx, s1).kind != TokenKind::Comma && cur(lx, s1).kind == term {
                    (Ok(acc.push(item)), adv(s1, 1))
                } else if cur(lx, s1).kind != TokenKind::Comma && s1.pos < lx.tokens@.len() {
                    // neither a comma nor the end of the list follows the item
                    (Err((msg, cur(lx, s1).span)), s1)
                } else if moved(lx, st, s2) {
                    p_annots(lx, s2, term, msg, acc.push(item))
                } else {
                    (Err(stuck()), s2)
                }
            },
        }
    }
}

/// The rest of a declaration whose name token `name` was just eaten: an
/// optional `: annotation`, then `=` and the initial value.
pub open spec fn p_decl(lx: &Lexer, st: PState, name: Token, constant: bool) -> Step<(Decl, Span)> {
    let (ident, s1) = intern_tok(lx, st, name);
    let t = cur(lx, s1);
    let (annot, s2): (Result<Option<TyAnnotId>, ErrSpec>, PState) = if t.kind == TokenKind::Assign {
        (Ok(None), adv(s1, 1))
    } else if t.kind == TokenKind::Colon {
        let (a, s3) = p_annot(lx, adv(s1, 1));
        match a {
            Err(e) => (Err(e), s3),
            Ok(id) => {
                let (c, s4) = expect_s(
                    lx,
                    s3,
                    TokenKind::Assign,
                    "expect '=' after type annotation"@,
                );
                match c {
                    Ok(_) => (Ok(Some(id)), s4),
                    Err(e) => (Err(e), s4),
                }
            },
        }
    } else {
        (Err(("Expect ':' or '=' after declaration name"@, name.span)), s1)
    };
    match annot {
        Err(e) => (Err(e), s2),
        Ok(annot) => {
            let (r, s3) = p_expr(lx, s2, 0);
            match r {
                Ok(rhs) => (Ok((Decl { ident, annot, rhs, constant }, name.span)), s3),
                Err(e) => (Err(e), s3),
            }
        },
    }
}

/// A `let` or `const` declaration, as a statement or at top level.
pub open spec fn p_let(lx: &Lexer, st: PState, constant: bool, toplvl: bool) -> Step<StmtId> {
    let t = cur(lx, st);
    let s1 = adv(st, 1);
    let name = cur(lx, s1);
    if name.kind != TokenKind::Ident {
        (Err(("expected identifier after 'const' keyword"@, t.span)), s1)
    } else {
        let (d, s2) = p_decl(lx, adv(s1, 1), name, constant);
        match d {
            Err(e) => (Err(e), s2),
            Ok((decl, span)) => if toplvl {
                add_top(s2, TopV::Decl(decl), span)
            } else {
                add_stmt(s2, StmtV::Decl(decl), span)
            },
        }
    }
}

/// `= rhs` after the target `lhs` of an assignment.
pub open spec fn p_assign(lx: &Lexer, st: PState, lhs: ExprId) -> Step<StmtId> {
    let t = cur(lx, st);
    let (r, s1) = p_expr(lx, adv(st, 1), 0);
    match r {
        Ok(rhs) => add_stmt(s1, StmtV::Assign { lhs, rhs }, t.span),
        Err(e) => (Err(e), s1),
    }
}

/// A block `{ stmts }`; its first token is taken as the `{`.
pub open spec fn p_block(lx: &Lexer, st: PState) -> Step<StmtId>
    decreases left(lx, st), 0int,
{
    if left(lx, st) <= 0 {
        (Err(stuck()), st)
    } else {
        p_block_rest(lx, adv(st, 1), cur(lx, st), Seq::empty())
    }
}

/// The statements of a block opened by `t`, after the statements `acc`
/// read so far, up to its `}`.
pub open spec fn p_block_rest(lx: &Lexer, st: PState, t: Token, acc: Seq<StmtId>) -> Step<StmtId>
    decreases left(lx, st), 2int,
{
    if left(lx, st) <= 0 {
        (Err(stuck()), st)
    } else if !(st.pos < lx.tokens@.len()) {
        (Err(("unclosed block"@, t.span)), st)
    } else if cur(lx, st).kind == TokenKind::CurlyR {
        add_stmt(adv(st, 1), StmtV::Block(acc), t.span)
    } else {
        let (r, s1) = p_stmt(lx, st);
        match r {
            Err(e) => (Err(e), s1),
            Ok(id) => if moved(lx, st, s1) {
                p_block_rest(lx, s1, t, acc.push(id))
            } else {
                (Err(stuck()), s1)
            },
        }
    }
}

/// One statement, with an optional `;` after it.
pub open spec fn p_stmt(lx: &Lexer, st: PState) -> Step<StmtId>
    decreases left(lx, st), 1int,
{
    if left(lx, st) <= 0 {
        (Err(stuck()), st)
    } else {
        let t = cur(lx, st);
        let (r, s2): Step<StmtId> = match t.kind {
            TokenKind::Ident => {
                let (l, s1) = p_expr(lx, st, 0);
                match l {
                    Err(e) => (Err(e), s1),
                    Ok(lhs) => if cur(lx, s1).kind == TokenKind::Assign {
                        p_assign(lx, s1, lhs)
                    } else {
                        add_stmt(s1, StmtV::Expr(lhs), t.span)
                    },
                }
            },
            TokenKind::CurlyL => p_block(lx, st),
            TokenKind::Keyword(KeywordKind::Let) => p_let(lx, st, false, false),
            TokenKind::Keyword(KeywordKind::Const) => p_let(lx, st, true, false),
            TokenKind::Keyword(KeywordKind::Return) => {
                let (e, s1) = p_expr(lx, adv(st, 1), 0);
                match e {
                    Ok(x) => add_stmt(s1, StmtV::Return(x), t.span),
                    Err(x) => (Err(x), s1),
                }
            },
            // `if` and `while` statements are not read yet: the state marks
            // that one was met, and no parse is owed past it
            TokenKind::Keyword(KeywordKind::If) | TokenKind::Keyword(KeywordKind::While) => (
                Err(("invalid keyword"@, t.span)),
                PState { branch: true, ..st },
            ),
            TokenKind::Keyword(_) => (Err(("invalid keyword"@, t.span)), adv(st, 1)),
            _ => {
                let (e, s1) = p_expr(lx, st, 0);
                match e {
                    Ok(x) => add_stmt(s1, StmtV::Expr(x), t.span),
                    Err(x) => (Err(x), s1),
                }
            },
        };
        match r {
            Err(e) => (Err(e), s2),
            Ok(id) => (Ok(id), skip_if(lx, s2, TokenKind::Semicolon)),
        }
    }
}

/// A comma-separated list of distinct identifiers up to `term`, after the
/// items `acc` read so far.
pub open spec fn p_idents(
    lx: &Lexer,
    st: PState,
    term: TokenKind,
    item_msg: Seq<char>,
    unclosed: Seq<char>,
    dup: Seq<char>,
    acc: Seq<IdentId>,
) -> Step<Seq<IdentId>>
    decreases left(lx, st),
{
    if left(lx, st) <= 0 {
        (Err(stuck()), st)
    } else if !(st.pos < lx.tokens@.len()) {
        (Err((unclosed, eof_tok(lx).span)), st)
    } else if cur(lx, st).kind == term {
        (Ok(acc), adv(st, 1))
    } else {
        let tok = cur(lx, st);
        let (r, s1) = expect_ident_s(lx, st, item_msg);
        match r {
            Err(e) => (Err(e), s1),
            Ok(item) => if acc.contains(item) {
                (Err((dup, tok.span)), s1)
            } else {
                let s2 = skip_if(lx, s1, TokenKind::Comma);
                if cur(lx, s1).kind != TokenKind::Comma && cur(lx, s1).kind == term {
                    (Ok(acc.push(item)), adv(s1, 1))
                } else if cur(lx, s1).kind != TokenKind::Comma && s1.pos < lx.tokens@.len() {
                    // neither a comma nor the end of the list follows the item
                    (Err((unclosed, cur(lx, s1).span)), s1)
                } else if moved(lx, st, s2) {
                    p_idents(lx, s2, term, item_msg, unclosed, dup, acc.push(item))
                } else {
                    (Err(stuck()), s2)
                }
            },
        }
    }
}

/// `name: annotation`.
pub open spec fn p_typed(lx: &Lexer, st: PState, name_msg: Seq<char>, colon_msg: Seq<char>) -> Step<
    (IdentId, TyAnnotId),
> {
    let (n, s1) = expect_ident_s(lx, st, name_msg);
    match n {
        Err(e) => (Err(e), s1),
        Ok(ident) => {
            let (c, s2) = expect_s(lx, s1, TokenKind::Colon, colon_msg);
            match c {
                Err(e) => (Err(e), s2),
                Ok(_) => {
                    let (t, s3) = p_annot(lx, s2);
                    match t {
                        Err(e) => (Err(e), s3),
                        Ok(ty) => (Ok((ident, ty)), s3),
                    }
                },
            }
        },
    }
}

/// A comma-separated list of distinct `name: annotation` pairs up to `term`,
/// after the items `acc` read so far. (Each annotation is new, so no two
/// pairs are ever equal.)
pub open spec fn p_pairs(
    lx: &Lexer,
    st: PState,
    term: TokenKind,
    msgs: (Seq<char>, Seq<char>, Seq<char>, Seq<char>),
    acc: Seq<(IdentId, TyAnnotId)>,
) -> Step<Seq<(IdentId, TyAnnotId)>>
    decreases left(lx, st),
{
    let (name_msg, colon_msg, unclosed, dup) = msgs;
    if left(lx, st) <= 0 {
        (Err(stuck()), st)
    } else if !(st.pos < lx.tokens@.len()) {
        (Err((unclosed, eof_tok(lx).span)), st)
    } else if cur(lx, st).kind == term {
        (Ok(acc), adv(st, 1))
    } else {
        let tok = cur(lx, st);
        let (r, s1) = p_typed(lx, st, name_msg, colon_msg);
        match r {
            Err(e) => (Err(e), s1),
            Ok(item) => if acc.contains(item) {
                (Err((dup, tok.span)), s1)
            } else {
                let s2 = skip_if(lx, s1, TokenKind::Comma);
                if cur(lx, s1).kind != TokenKind::Comma && cur(lx, s1).kind == term {
                    (Ok(acc.push(item)), adv(s1, 1))
                } else if cur(lx, s1).kind != TokenKind::Comma && s1.pos < lx.tokens@.len() {
                    // neither a comma nor the end of the list follows the item
                    (Err((unclosed, cur(lx, s1).span)), s1)
                } else if moved(lx, st, s2) {
                    p_pairs(lx, s2, term, msgs, acc.push(item))
                } else {
                    (Err(stuck()), s2)
                }
            },
        }
    }
}

/// The annotations an annotation is built from, in the order they are
/// written.
pub open spec fn annot_kids(a: AnnotV) -> Seq<TyAnnotId> {
    match a {
        AnnotV::Array { inner, .. } => seq![inner],
        AnnotV::Func { params, ret } => match ret {
            Some(r) => params.push(r),
            None => params,
        },
        AnnotV::UserDef { generics, .. } => generics,
        _ => Seq::empty(),
    }
}

/// The error for a generic parameter given a generics list.
pub open spec fn generic_with_list() -> Seq<char> {
    "generic type can't have a generics list"@
}

/// Resolving the generic parameters `set` in the tree of annotation `i`,
/// depth first: a named type that is one of them becomes that parameter,
/// one that is given a generics list of its own is an error, and the
/// trees of every other annotation are resolved in turn.
pub open spec fn resolve_tree(a: Seq<(AnnotV, Span)>, i: int, set: Seq<IdentId>) -> (
    Result<(), ErrSpec>,
    Seq<(AnnotV, Span)>,
)
    decreases i + 1, 0int,
{
    if !(0 <= i < a.len()) {
        (Ok(()), a)
    } else {
        match a[i].0 {
            AnnotV::UserDef { name, generics } => if set.contains(name) {
                if generics.len() != 0 {
                    (Err((generic_with_list(), a[i].1)), a)
                } else {
                    (Ok(()), a.update(i, (AnnotV::Generic(name), a[i].1)))
                }
            } else {
                resolve_forest(a, generics, set, i)
            },
            AnnotV::Generic(_) => (Ok(()), a),
            _ => resolve_forest(a, annot_kids(a[i].0), set, i),
        }
    }
}

/// Resolving the trees of `ids`, all below `hi`, one after the other;
/// the first error stops it.
pub open spec fn resolve_forest(a: Seq<(AnnotV, Span)>, ids: Seq<TyAnnotId>, set: Seq<IdentId>, hi: int) -> (
    Result<(), ErrSpec>,
    Seq<(AnnotV, Span)>,
)
    decreases hi, ids.len() + 1,
{
    if ids.len() == 0 || !(ids[0].0 < hi) {
        (Ok(()), a)
    } else {
        let (r, a1) = resolve_tree(a, ids[0].0 as int, set);
        match r {
            Err(e) => (Err(e), a1),
            Ok(_) => resolve_forest(a1, ids.drop_first(), set, hi),
        }
    }
}

/// Resolving the generic parameters `set` in the annotations `[j, hi)`,
/// one by one in index order; the first error stops it.
pub open spec fn resolve_flat(a: Seq<(AnnotV, Span)>, j: int, hi: int, set: Seq<IdentId>) -> (
    Result<(), ErrSpec>,
    Seq<(AnnotV, Span)>,
)
    decreases hi - j,
{
    if !(0 <= j < hi && j < a.len()) {
        (Ok(()), a)
    } else {
        match a[j].0 {
            AnnotV::UserDef { name, generics } => if set.contains(name) {
                if generics.len() != 0 {
                    (Err((generic_with_list(), a[j].1)), a)
                } else {
                    resolve_flat(a.update(j, (AnnotV::Generic(name), a[j].1)), j + 1, hi, set)
                }
            } else {
                resolve_flat(a, j + 1, hi, set)
            },
            _ => resolve_flat(a, j + 1, hi, set),
        }
    }
}

/// The state with its annotations replaced.
pub open spec fn with_annots(st: PState, annots: Seq<(AnnotV, Span)>) -> PState {
    PState { annots, ..st }
}

/// A function's signature after `fn`: its name, its generic parameters,
/// its parameters and its return type; the parameter and return types are
/// then resolved against the generic parameters.
pub open spec fn p_signature(lx: &Lexer, st: PState) -> Step<
    (IdentId, Seq<IdentId>, Seq<(IdentId, TyAnnotId)>, Option<TyAnnotId>),
> {
    let (n, s1) = expect_ident_s(lx, st, "expect name after 'fn' keyword"@);
    match n {
        Err(e) => (Err(e), s1),
        Ok(ident) => {
            let (g, s2) = if cur(lx, s1).kind == TokenKind::Less {
                p_idents(
                    lx,
                    adv(s1, 1),
                    TokenKind::Great,
                    "expected generic identifier"@,
                    "unclosed generics listing"@,
                    "repeated function generic parameter name"@,
                    Seq::empty(),
                )
            } else {
                (Ok(Seq::empty()), s1)
            };
            match g {
                Err(e) => (Err(e), s2),
                Ok(generics) => {
                    let (c, s3) = expect_s(
                        lx,
                        s2,
                        TokenKind::ParenL,
                        "expect '(' after function name"@,
                    );
                    match c {
                        Err(e) => (Err(e), s3),
                        Ok(_) => {
                            let (p, s4) = p_pairs(
                                lx,
                                s3,
                                TokenKind::ParenR,
                                (
                                    "expect param name in function signature"@,
                                    "expect ':' after param name"@,
                                    "unclosed parenthesis in function declaration's parameters"@,
                                    "repeated function parameter name"@,
                                ),
                                Seq::empty(),
                            );
                            match p {
                                Err(e) => (Err(e), s4),
                                Ok(params) => p_sig_tail(lx, s4, ident, generics, params),
                            }
                        },
                    }
                },
            }
        },
    }
}

/// An optional `-> annotation`.
pub open spec fn p_ret(lx: &Lexer, st: PState) -> Step<Option<TyAnnotId>> {
    if cur(lx, st).kind == TokenKind::Arrow {
        let (a, s) = p_annot(lx, adv(st, 1));
        match a {
            Ok(x) => (Ok(Some(x)), s),
            Err(e) => (Err(e), s),
        }
    } else {
        (Ok(None), st)
    }
}

/// The rest of a function's signature after its parameters: an optional
/// `-> annotation`, then the parameter and return types resolved against
/// the generic parameters.
pub open spec fn p_sig_tail(
    lx: &Lexer,
    s4: PState,
    ident: IdentId,
    generics: Seq<IdentId>,
    params: Seq<(IdentId, TyAnnotId)>,
) -> Step<(IdentId, Seq<IdentId>, Seq<(IdentId, TyAnnotId)>, Option<TyAnnotId>)> {
    let (rt, s5) = p_ret(lx, s4);
    match rt {
        Err(e) => (Err(e), s5),
        Ok(ret) => {
            let sig = (ident, generics, params, ret);
            if generics.len() != 0 {
                let ids = match ret {
                    Some(x) => seconds(params).push(x),
                    None => seconds(params),
                };
                let (res, a6) = resolve_forest(s5.annots, ids, generics, s5.annots.len() as int);
                match res {
                    Err(e) => (Err(e), with_annots(s5, a6)),
                    Ok(_) => (Ok(sig), with_annots(s5, a6)),
                }
            } else {
                (Ok(sig), s5)
            }
        },
    }
}

/// A function body, then the generic parameters `set` resolved in every
/// annotation written in it.
pub open spec fn p_block_generics(lx: &Lexer, st: PState, set: Seq<IdentId>) -> Step<StmtId> {
    let (b, s1) = p_block(lx, st);
    match b {
        Err(e) => (Err(e), s1),
        Ok(id) => {
            let (res, a2) = resolve_flat(
                s1.annots,
                st.annots.len() as int,
                s1.annots.len() as int,
                set,
            );
            match res {
                Err(e) => (Err(e), with_annots(s1, a2)),
                Ok(_) => (Ok(id), with_annots(s1, a2)),
            }
        },
    }
}

/// A function: `fn name<generics>(params) -> ret { body }`; its first
/// token is taken as the `fn`.
pub open spec fn p_func(lx: &Lexer, st: PState) -> Step<StmtId> {
    let t = cur(lx, st);
    let (sig, s1) = p_signature(lx, adv(st, 1));
    match sig {
        Err(e) => (Err(e), s1),
        Ok((name, generics, params, ret)) => {
            let (b, s2) = p_block_generics(lx, s1, generics);
            match b {
                Err(e) => (Err(e), s2),
                Ok(block) => add_top(
                    s2,
                    TopV::FnDecl { name, params, ret, block, is_generic: generics.len() != 0 },
                    t.span,
                ),
            }
        },
    }
}

/// A struct declaration: `struct Name<generics> { fields }`; its first
/// token is taken as the `struct`. The field types are resolved against
/// the generic parameters.
pub open spec fn p_struct(lx: &Lexer, st: PState) -> Step<StmtId> {
    let t = cur(lx, st);
    let (n, s1) = expect_ident_s(lx, adv(st, 1), "expect struct name after 'struct' keyword"@);
    match n {
        Err(e) => (Err(e), s1),
        Ok(name) => {
            let (g, s2) = if cur(lx, s1).kind == TokenKind::Less {
                p_idents(
                    lx,
                    adv(s1, 1),
                    TokenKind::Great,
                    "expect generic argument name"@,
                    "unclosed generic listing"@,
                    "repeated generic parameter"@,
                    Seq::empty(),
                )
            } else {
                (Ok(Seq::empty()), s1)
            };
            match g {
                Err(e) => (Err(e), s2),
                Ok(generics) => {
                    let (c, s3) = expect_s(
                        lx,
                        s2,
                        TokenKind::CurlyL,
                        "expect '{' after struct name"@,
                    );
                    match c {
                        Err(e) => (Err(e), s3),
                        Ok(_) => {
                            let (f, s4) = p_pairs(
                                lx,
                                s3,
                                TokenKind::CurlyR,
                                (
                                    "expect field name in struct declaration"@,
                                    "expect ':' after name in struct declaration"@,
                                    "expect '}' after struct fields"@,
                                    "repeated struct field name"@,
                                ),
                                Seq::empty(),
                            );
                            match f {
                                Err(e) => (Err(e), s4),
                                Ok(fields) => {
                                    let (res, s5) = if generics.len() != 0 {
                                        let (res, a5) = resolve_forest(
                                            s4.annots,
                                            seconds(fields),
                                            generics,
                                            s4.annots.len() as int,
                                        );
                                        (res, with_annots(s4, a5))
                                    } else {
                                        (Ok(()), s4)
                                    };
                                    match res {
                                        Err(e) => (Err(e), s5),
                                        Ok(_) => add_top(
                                            s5,
                                            TopV::StructDecl { name, fields, generics },
                                            t.span,
                                        ),
                                    }
                                },
                            }
                        },
                    }
                },
            }
        },
    }
}

/// One top-level item (a declaration, a function or a struct), with an
/// optional `;` after it, eaten even after an error in the item.
pub open spec fn p_toplvl(lx: &Lexer, st: PState) -> Step<StmtId> {
    let t = cur(lx, st);
    match t.kind {
        TokenKind::Keyword(k) => if k == KeywordKind::Let || k == KeywordKind::Const || k
            == KeywordKind::Fn || k == KeywordKind::Struct {
            let (r, s1) = if k == KeywordKind::Let {
                p_let(lx, st, false, true)
            } else if k == KeywordKind::Const {
                p_let(lx, st, true, true)
            } else if k == KeywordKind::Fn {
                p_func(lx, st)
            } else {
                p_struct(lx, st)
            };
            (r, skip_if(lx, s1, TokenKind::Semicolon))
        } else {
            (Err(("invalid keyword at top level"@, t.span)), st)
        },
        _ => (Err(("invalid token at top level"@, t.span)), st),
    }
}

/// A declaration read by `p_let` carries the flag it was read with, and
/// is the statement or item the result names.
proof fn lemma_let_constant(lx: &Lexer, st: PState, constant: bool, toplvl: bool)
    ensures
        p_let(lx, st, constant, toplvl).0 matches Ok(id) ==> ({
            let s = p_let(lx, st, constant, toplvl).1;
            if toplvl {
                &&& s.toplvl.len() > 0
                &&& id.0 == (s.toplvl.len() - 1) as u32
                &&& s.toplvl.last().0 matches TopV::Decl(d)
                &&& d.constant == constant
            } else {
                &&& s.stmts.len() > 0
                &&& id.0 == (s.stmts.len() - 1) as u32
                &&& s.stmts.last().0 matches StmtV::Decl(d)
                &&& d.constant == constant
            }
        }),
{
    let s1 = adv(st, 1);
    let name = cur(lx, s1);
    if name.kind == TokenKind::Ident {
        let (d, s2) = p_decl(lx, adv(s1, 1), name, constant);
        if let Ok((decl, span)) = d {
            assert(decl.constant == constant);
        }
    }
}

/// Law of declarations: a statement that starts with `const` is a
/// constant declaration and one that starts with `let` is not; it is the
/// statement added last, which the result names.
pub proof fn lemma_stmt_decl_constant(lx: &Lexer, st: PState)
    requires
        cur(lx, st).kind == TokenKind::Keyword(KeywordKind::Let) || cur(lx, st).kind
            == TokenKind::Keyword(KeywordKind::Const),
    ensures
        p_stmt(lx, st).0 matches Ok(id) ==> ({
            let s = p_stmt(lx, st).1;
            &&& s.stmts.len() > 0
            &&& id.0 == (s.stmts.len() - 1) as u32
            &&& s.stmts.last().0 matches StmtV::Decl(d)
            &&& d.constant == (cur(lx, st).kind == TokenKind::Keyword(KeywordKind::Const))
        }),
{
    lemma_let_constant(lx, st, false, false);
    lemma_let_constant(lx, st, true, false);
    if left(lx, st) > 0 {
        let c = cur(lx, st).kind == TokenKind::Keyword(KeywordKind::Const);
        let (r, s2) = p_let(lx, st, c, false);
        assert(p_stmt(lx, st) == (r, match r {
            Err(e) => s2,
            Ok(id) => skip_if(lx, s2, TokenKind::Semicolon),
        }));
    }
}

/// Law of declarations at top level: an item that starts with `const` is
/// a constant declaration and one that starts with `let` is not.
pub proof fn lemma_toplvl_decl_constant(lx: &Lexer, st: PState)
    requires
        cur(lx, st).kind == TokenKind::Keyword(KeywordKind::Let) || cur(lx, st).kind
            == TokenKind::Keyword(KeywordKind::Const),
    ensures
        p_toplvl(lx, st).0 matches Ok(id) ==> ({
            let s = p_toplvl(lx, st).1;
            &&& s.toplvl.len() > 0
            &&& id.0 == (s.toplvl.len() - 1) as u32
            &&& s.toplvl.last().0 matches TopV::Decl(d)
            &&& d.constant == (cur(lx, st).kind == TokenKind::Keyword(KeywordKind::Const))
        }),
{
    lemma_let_constant(lx, st, false, true);
    lemma_let_constant(lx, st, true, true);
}

/// The first position from `j` on where recovery may resume: a token
/// that is safe to restart at, or the end of the tokens.
pub open spec fn next_safe(lx: &Lexer, j: int) -> int
    decreases lx.tokens@.len() - j,
{
    if j >= lx.tokens@.len() || lx.tokens@[j].kind.safe() {
        j
    } else {
        next_safe(lx, j + 1)
    }
}

/// A whole program from `st` on: top-level items one after the other;
/// after an error, parsing resumes at the next safe token past the
/// position the error left. Gives the final state and the errors, in
/// order, after those in `errs`.
pub open spec fn p_program(lx: &Lexer, st: PState, errs: Seq<ErrSpec>) -> (PState, Seq<ErrSpec>)
    decreases left(lx, st),
{
    if left(lx, st) <= 0 || !(st.pos < lx.tokens@.len()) {
        (st, errs)
    } else {
        let (r, s1) = p_toplvl(lx, st);
        match r {
            Ok(_) => if moved(lx, st, s1) {
                p_program(lx, s1, errs)
            } else {
                (s1, errs)
            },
            Err(e) => {
                let s2 = PState { pos: next_safe(lx, s1.pos + 1), ..s1 };
                if moved(lx, st, s2) {
                    p_program(lx, s2, errs.push(e))
                } else {
                    (s2, errs.push(e))
                }
            },
        }
    }
}

/// The state parsing starts from.
pub open spec fn start_state() -> PState {
    PState {
        pos: 0,
        exprs: Seq::empty(),
        stmts: Seq::empty(),
        toplvl: Seq::empty(),
        annots: Seq::empty(),
        names: Seq::empty(),
        branch: false,
    }
}

} // verus!
