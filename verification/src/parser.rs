//! The parser: tokens into arenas of expressions, statements, top-level
//! items and type annotations.

use std::collections::HashSet;
use vstd::prelude::*;
use crate::{FrontendErr, FrontendErrAlias, IdSize, line_starts_ok};
use crate::ast::{IdentId, StringInterner};
use crate::ast::Ast;
use crate::lexer::{KeywordKind, LexOutcome, Lexer, Span, Token, TokenKind, lex, tokens_in_order};
use crate::grammar::{
    AnnotV, PState, add_annot, add_expr, add_stmt, add_top, annot_kids, expect_ex_s,
    expect_ident_s, expect_s, intern_tok, next_safe, p_annot, p_annots, p_assign, p_block,
    p_block_generics, p_decl, p_expr, p_exprs, p_func, p_idents, p_let, p_operand, p_pairs,
    p_program, p_signature, p_stmt, p_struct, p_toplvl, p_typed, presult, resolve_flat,
    resolve_forest, resolve_tree, start_state, with_annots, adv, cur, left, moved,
};

verus! {

#[derive(Debug, Clone, Copy, PartialEq, Eq, Structural)]
pub struct TokenId(pub IdSize);

#[derive(Debug, Clone, Copy, PartialEq, Eq, Structural)]
pub struct ExprId(pub IdSize);

#[derive(Debug, Clone, Copy, PartialEq, Eq, Structural)]
pub struct StmtId(pub IdSize);

#[derive(Debug, Clone, Copy, PartialEq, Eq, Hash, Structural)]
pub struct TyAnnotId(pub IdSize);

#[derive(Debug)]
pub enum ExprLiteral {
    Int(TokenId),
    Float(TokenId),
    Bool(TokenId),
    Array(Vec<ExprId>),
    /// The members are given in the order of the struct's fields.
    Struct(IdentId, Vec<ExprId>),
}

#[derive(Debug)]
pub enum Expr {
    Literal(ExprLiteral),
    Variable(IdentId),
    Unary { op: TokenId, rhs: ExprId },
    Binary { op: TokenId, lhs: ExprId, rhs: ExprId },
    Call { callee: ExprId, args: Vec<ExprId> },
    Member { lhs: ExprId, field: IdentId },
    Index { lhs: ExprId, idx: ExprId },
}

#[derive(Debug)]
pub struct Decl {
    pub ident: IdentId,
    pub annot: Option<TyAnnotId>,
    pub rhs: ExprId,
    pub constant: bool,
}

#[derive(Debug)]
pub enum Stmt {
    Decl(Decl),
    Assign { lhs: ExprId, rhs: ExprId },
    Block(Vec<StmtId>),
    IfElse { cond: ExprId, iblock: StmtId, eblock: Option<StmtId> },
    While { cond: ExprId, wblock: StmtId },
    Return(ExprId),
    Expr(ExprId),
}

#[derive(Debug)]
pub enum StmtTopLvl {
    Decl(Decl),
    FnDecl {
        name: IdentId,
        params: Vec<(IdentId, TyAnnotId)>,
        ret: Option<TyAnnotId>,
        block: StmtId,
        is_generic: bool,
    },
    StructDecl { name: IdentId, fields: Vec<(IdentId, TyAnnotId)>, generics: Vec<IdentId> },
}

#[derive(Debug)]
pub enum TyAnnot {
    Bool,
    Int,
    Float,
    Generic(IdentId),
    Array { inner: TyAnnotId, len: Option<ExprId> },
    Func { params: Vec<TyAnnotId>, ret: Option<TyAnnotId> },
    UserDef { name: IdentId, generics: Vec<TyAnnotId> },
}

/// A node with the span it was read from.
pub type Spanned<T> = (T, Span);

/// Indices all below `n`.
pub open spec fn exprs_below(ids: Seq<ExprId>, n: int) -> bool {
    forall|k: int| 0 <= k < ids.len() ==> #[trigger] ids[k].0 < n
}

pub open spec fn stmts_below(ids: Seq<StmtId>, n: int) -> bool {
    forall|k: int| 0 <= k < ids.len() ==> #[trigger] ids[k].0 < n
}

pub open spec fn annots_below(ids: Seq<TyAnnotId>, n: int) -> bool {
    forall|k: int| 0 <= k < ids.len() ==> #[trigger] ids[k].0 < n
}

pub open spec fn idents_below(ids: Seq<IdentId>, n: int) -> bool {
    forall|k: int| 0 <= k < ids.len() ==> #[trigger] ids[k].0 < n
}

/// Pairs of a name and an annotation that refer to existing entries.
pub open spec fn pairs_below(ps: Seq<(IdentId, TyAnnotId)>, nids: int, nannots: int) -> bool {
    forall|k: int| 0 <= k < ps.len() ==> #[trigger] ps[k].0.0 < nids && ps[k].1.0 < nannots
}

/// An expression at index `own` refers only to earlier expressions, to
/// existing tokens and to interned names.
pub open spec fn expr_ok(e: Expr, own: int, ntoks: int, nids: int) -> bool {
    match e {
        Expr::Literal(lit) => match lit {
            ExprLiteral::Int(t) => t.0 < ntoks,
            ExprLiteral::Float(t) => t.0 < ntoks,
            ExprLiteral::Bool(t) => t.0 < ntoks,
            ExprLiteral::Array(es) => exprs_below(es@, own),
            ExprLiteral::Struct(name, es) => name.0 < nids && exprs_below(es@, own),
        },
        Expr::Variable(name) => name.0 < nids,
        Expr::Unary { op, rhs } => op.0 < ntoks && rhs.0 < own,
        Expr::Binary { op, lhs, rhs } => op.0 < ntoks && lhs.0 < own && rhs.0 < own,
        Expr::Call { callee, args } => callee.0 < own && exprs_below(args@, own),
        Expr::Member { lhs, field } => lhs.0 < own && field.0 < nids,
        Expr::Index { lhs, idx } => lhs.0 < own && idx.0 < own,
    }
}

/// An annotation at index `own` refers only to earlier annotations,
/// existing expressions and interned names.
pub open spec fn annot_ok(a: TyAnnot, own: int, nexprs: int, nids: int) -> bool {
    match a {
        TyAnnot::Bool | TyAnnot::Int | TyAnnot::Float => true,
        TyAnnot::Generic(name) => name.0 < nids,
        TyAnnot::Array { inner, len } => inner.0 < own && (len matches Some(e) ==> e.0 < nexprs),
        TyAnnot::Func { params, ret } => annots_below(params@, own) && (ret matches Some(r)
            ==> r.0 < own),
        TyAnnot::UserDef { name, generics } => name.0 < nids && annots_below(generics@, own),
    }
}

pub open spec fn decl_ok(d: Decl, nexprs: int, nannots: int, nids: int) -> bool {
    &&& d.ident.0 < nids
    &&& d.rhs.0 < nexprs
    &&& d.annot matches Some(a) ==> a.0 < nannots
}

/// A statement at index `own` refers only to earlier statements and to
/// existing expressions, annotations and names.
pub open spec fn stmt_ok(s: Stmt, own: int, nexprs: int, nannots: int, nids: int) -> bool {
    match s {
        Stmt::Decl(d) => decl_ok(d, nexprs, nannots, nids),
        Stmt::Assign { lhs, rhs } => lhs.0 < nexprs && rhs.0 < nexprs,
        Stmt::Block(ss) => stmts_below(ss@, own),
        Stmt::IfElse { cond, iblock, eblock } => cond.0 < nexprs && iblock.0 < own && (
        eblock matches Some(e) ==> e.0 < own),
        Stmt::While { cond, wblock } => cond.0 < nexprs && wblock.0 < own,
        Stmt::Return(e) => e.0 < nexprs,
        Stmt::Expr(e) => e.0 < nexprs,
    }
}

pub open spec fn toplvl_ok(t: StmtTopLvl, nexprs: int, nstmts: int, nannots: int, nids: int) -> bool {
    match t {
        StmtTopLvl::Decl(d) => decl_ok(d, nexprs, nannots, nids),
        StmtTopLvl::FnDecl { name, params, ret, block, is_generic } => {
            &&& name.0 < nids
            &&& pairs_below(params@, nids, nannots)
            &&& ret matches Some(r) ==> r.0 < nannots
            &&& block.0 < nstmts
        },
        StmtTopLvl::StructDecl { name, fields, generics } => {
            &&& name.0 < nids
            &&& pairs_below(fields@, nids, nannots)
            &&& idents_below(generics@, nids)
        },
    }
}

/// Every node refers only to nodes that exist, and every node's children
/// come before it in its own arena: the arenas hold finite trees.
pub open spec fn arenas_ok(
    exprs: Seq<Spanned<Expr>>,
    stmts: Seq<Spanned<Stmt>>,
    toplvl: Seq<Spanned<StmtTopLvl>>,
    annots: Seq<Spanned<TyAnnot>>,
    ntoks: int,
    nids: int,
) -> bool {
    &&& forall|i: int|
        #![trigger exprs[i]]
        0 <= i < exprs.len() ==> expr_ok(exprs[i].0, i, ntoks, nids)
    &&& forall|i: int|
        #![trigger annots[i]]
        0 <= i < annots.len() ==> annot_ok(annots[i].0, i, exprs.len() as int, nids)
    &&& forall|i: int|
        #![trigger stmts[i]]
        0 <= i < stmts.len() ==> stmt_ok(
            stmts[i].0,
            i,
            exprs.len() as int,
            annots.len() as int,
            nids,
        )
    &&& forall|i: int|
        #![trigger toplvl[i]]
        0 <= i < toplvl.len() ==> toplvl_ok(
            toplvl[i].0,
            exprs.len() as int,
            stmts.len() as int,
            annots.len() as int,
            nids,
        )
}

/// Every node was read from a span of the source.
pub open spec fn spans_within<T>(nodes: Seq<Spanned<T>>, n: int) -> bool {
    forall|i: int|
        #![trigger nodes[i]]
        0 <= i < nodes.len() ==> nodes[i].1.start <= nodes[i].1.end <= n
}

/// What the parser needs of the lexer: ordered tokens within the source,
/// well-formed line starts, and room for every index in 32 bits.
pub open spec fn lexer_ok(lx: &Lexer) -> bool {
    &&& tokens_in_order(lx.tokens@, lx.src@.len() as int)
    &&& line_starts_ok(lx.line_offsets@)
    &&& lx.tokens@.len() <= lx.src@.len()
    &&& lx.src@.len() + 4 < u32::MAX
}

/// The token at `i`, or the default token past the end.
pub open spec fn tok_at(toks: Seq<Token>, i: int) -> Token {
    if 0 <= i < toks.len() {
        toks[i]
    } else {
        Token { kind: TokenKind::Error, span: Span { start: 0, end: 0 } }
    }
}

/// The end of the last of the first `n` tokens.
pub open spec fn consumed_end(lx: &Lexer, n: int) -> int {
    if n <= 0 {
        0
    } else if n <= lx.tokens@.len() {
        lx.tokens@[n - 1].span.end as int
    } else {
        lx.src@.len() as int
    }
}

/// A position in the token list.
pub struct Cursor<'a> {
    pub lexer: &'a Lexer,
    pub curr: u32,
}

impl<'a> Cursor<'a> {
    pub fn peek_nth(&self, nth: usize) -> (r: Token)
        requires
            self.curr + nth <= usize::MAX,
        ensures
            r == tok_at(self.lexer.tokens@, self.curr + nth),
    {
        let i = self.curr as usize + nth;
        if i < self.lexer.tokens.len() {
            self.lexer.tokens[i]
        } else {
            Token::default()
        }
    }

    pub fn peek(&self) -> (r: Token)
        ensures
            r == tok_at(self.lexer.tokens@, self.curr as int),
    {
        self.peek_nth(0)
    }

    pub fn curr(&self) -> (r: u32)
        ensures
            r == self.curr,
    {
        self.curr
    }

    /// All the tokens the cursor walks.
    pub fn start(&self) -> (r: &[Token])
        ensures
            r@ == self.lexer.tokens@,
    {
        self.lexer.tokens.as_slice()
    }

    /// The tokens from the cursor on.
    pub fn slice(&self) -> (r: &[Token])
        requires
            self.curr <= self.lexer.tokens@.len(),
        ensures
            r@ == self.lexer.tokens@.subrange(self.curr as int, self.lexer.tokens@.len() as int),
    {
        let n = self.lexer.tokens.len();
        &self.lexer.tokens.as_slice()[self.curr as usize..n]
    }

    /// Steps back one token.
    pub fn undo(&mut self)
        requires
            old(self).curr > 0,
        ensures
            final(self).curr == old(self).curr - 1,
            final(self).lexer == old(self).lexer,
    {
        self.curr = self.curr - 1;
    }

    pub fn has_some(&self) -> (r: bool)
        ensures
            r == (self.curr < self.lexer.tokens@.len()),
    {
        (self.curr as usize) < self.lexer.tokens.len()
    }

    pub fn advance(&mut self)
        requires
            old(self).curr < u32::MAX,
        ensures
            final(self).lexer == old(self).lexer,
            final(self).curr == old(self).curr + 1,
    {
        self.curr = self.curr + 1;
    }

    pub fn eat(&mut self) -> (r: Token)
        requires
            old(self).curr < u32::MAX,
        ensures
            r == tok_at(old(self).lexer.tokens@, old(self).curr as int),
            final(self).lexer == old(self).lexer,
            final(self).curr == old(self).curr + 1,
    {
        let res = self.peek();
        self.advance();
        res
    }

    /// Eats the current token if it is of kind `target`.
    pub fn eat_if(&mut self, target: TokenKind) -> (r: Option<Token>)
        requires
            old(self).curr < u32::MAX,
        ensures
            final(self).lexer == old(self).lexer,
            tok_at(old(self).lexer.tokens@, old(self).curr as int).kind == target ==> r == Some(
                tok_at(old(self).lexer.tokens@, old(self).curr as int),
            ) && final(self).curr == old(self).curr + 1,
            tok_at(old(self).lexer.tokens@, old(self).curr as int).kind != target ==> r is None
                && final(self).curr == old(self).curr,
    {
        if self.peek().kind == target {
            Some(self.eat())
        } else {
            None
        }
    }

    /// Steps over the current token, then over every token up to the next
    /// one at which recovery may resume (see `TokenKind::safe`).
    pub fn eat_until_safe(&mut self)
        requires
            old(self).curr < u32::MAX,
            old(self).lexer.tokens@.len() < u32::MAX,
        ensures
            final(self).lexer == old(self).lexer,
            final(self).curr > old(self).curr,
            final(self).curr <= old(self).lexer.tokens@.len() || final(self).curr == old(self).curr
                + 1,
            forall|i: int|
                old(self).curr < i < final(self).curr ==> !(#[trigger] old(self).lexer.tokens@[i]).kind.safe(),
            final(self).curr < old(self).lexer.tokens@.len()
                ==> old(self).lexer.tokens@[final(self).curr as int].kind.safe(),
            final(self).curr == next_safe(old(self).lexer, old(self).curr + 1),
    {
        self.advance();
        while self.has_some()
            invariant
                self.lexer == old(self).lexer,
                old(self).curr < self.curr <= old(self).lexer.tokens@.len()
                    || self.curr == old(self).curr + 1,
                self.lexer.tokens@.len() < u32::MAX,
                forall|i: int|
                    old(self).curr < i < self.curr ==> !(#[trigger] self.lexer.tokens@[i]).kind.safe(),
            ensures
                self.curr < self.lexer.tokens@.len() ==> self.lexer.tokens@[self.curr as int].kind.safe(),
            decreases self.lexer.tokens@.len() - self.curr,
        {
            if self.peek().kind.is_safe() {
                break;
            }
            self.advance();
        }
        proof {
            lemma_next_safe(self.lexer, old(self).curr + 1, self.curr as int);
        }
    }

    pub fn curr_id(&self) -> (r: TokenId)
        ensures
            r == TokenId(self.curr),
    {
        TokenId(self.curr as IdSize)
    }

    pub fn prev_id(&self) -> (r: TokenId)
        ensures
            r == TokenId(if self.curr == 0 { 0 } else { (self.curr - 1) as u32 }),
    {
        TokenId(self.curr.saturating_sub(1) as IdSize)
    }
}

/// Binding power of a prefix operator, or -1.
/// `next_safe` from `j` is the position `k` when no token in `[j, k)`
/// is safe and `k` is safe or the end.
pub proof fn lemma_next_safe(lx: &Lexer, j: int, k: int)
    requires
        j <= k,
        k <= lx.tokens@.len() || k == j,
        forall|i: int| j <= i < k ==> !(#[trigger] lx.tokens@[i]).kind.safe(),
        k < lx.tokens@.len() ==> lx.tokens@[k].kind.safe(),
    ensures
        next_safe(lx, j) == k,
    decreases k - j,
{
    if j < k {
        lemma_next_safe(lx, j + 1, k);
    }
}

pub fn prefix_lvl(kind: TokenKind) -> (r: i8)
    ensures
        r == (match kind {
            TokenKind::Minus => 30i8,
            TokenKind::Keyword(KeywordKind::Not) => 29i8,
            _ => -1i8,
        }),
{
    match kind {
        TokenKind::Minus => 30,
        TokenKind::Keyword(KeywordKind::Not) => 29,
        _ => -1,
    }
}

/// Binding power of a postfix operator: calls, indexing and member access.
pub fn postfix_lvl(kind: TokenKind) -> (r: Option<i8>)
    ensures
        r == (match kind {
            TokenKind::ParenL => Some(32i8),
            TokenKind::BraceL => Some(32i8),
            TokenKind::Dot => Some(34i8),
            _ => None,
        }),
{
    let lvl = match kind {
        TokenKind::ParenL => 32,
        TokenKind::BraceL => 32,
        TokenKind::Dot => 34,
        _ => return None,
    };
    Some(lvl)
}

/// Left and right binding powers of an infix operator, or (-1, -1).
pub open spec fn infix_power(kind: TokenKind) -> (i8, i8) {
    match kind {
        TokenKind::Plus | TokenKind::Minus => (23i8, 24i8),
        TokenKind::Eq | TokenKind::NotEq => (16i8, 17i8),
        TokenKind::Great | TokenKind::GreatEq | TokenKind::Less | TokenKind::LessEq => (14i8, 15i8),
        TokenKind::Star | TokenKind::Slash | TokenKind::Perc => (25i8, 26i8),
        TokenKind::Keyword(KeywordKind::And) => (12i8, 13i8),
        TokenKind::Keyword(KeywordKind::Or) => (10i8, 11i8),
        TokenKind::Caret => (27i8, 28i8),
        _ => (-1i8, -1i8),
    }
}

/// The precedence tier of an infix operator, loosest first: `or`, `and`,
/// comparisons, equality, `+ -`, `* / %`, `^`; -1 for other kinds.
pub open spec fn infix_tier(kind: TokenKind) -> int {
    match kind {
        TokenKind::Keyword(KeywordKind::Or) => 0,
        TokenKind::Keyword(KeywordKind::And) => 1,
        TokenKind::Great | TokenKind::GreatEq | TokenKind::Less | TokenKind::LessEq => 2,
        TokenKind::Eq | TokenKind::NotEq => 3,
        TokenKind::Plus | TokenKind::Minus => 4,
        TokenKind::Star | TokenKind::Slash | TokenKind::Perc => 5,
        TokenKind::Caret => 6,
        _ => -1,
    }
}

/// Law of precedence: of two infix operators, the one of the higher tier
/// takes its operands first on either side (`a y b x c` reads `a y (b x c)`
/// and `a x b y c` reads `(a x b) y c` when `x` is of the higher tier), and
/// operators of one tier group to the left (`a x b y c` reads
/// `(a x b) y c`).
pub proof fn lemma_infix_precedence(x: TokenKind, y: TokenKind)
    requires
        infix_tier(x) >= 0,
        infix_tier(y) >= 0,
    ensures
        infix_tier(x) > infix_tier(y) ==> infix_power(x).0 >= infix_power(y).1 && infix_power(y).0
            < infix_power(x).1,
        infix_tier(x) == infix_tier(y) ==> infix_power(y).0 < infix_power(x).1,
        infix_power(x).0 >= 0,
{
}

/// Binding powers of an infix operator. Every infix operator binds one
/// step tighter on its right than on its left, so chains of operators of
/// one level group to the left; a higher tier binds tighter.
pub fn infix_lvl(kind: TokenKind) -> (r: (i8, i8))
    ensures
        r == infix_power(kind),
        r.0 >= 0 ==> r.1 == r.0 + 1,
{
    match kind {
        TokenKind::Plus | TokenKind::Minus => (23, 24),
        TokenKind::Eq | TokenKind::NotEq => (16, 17),
        TokenKind::Great | TokenKind::GreatEq | TokenKind::Less | TokenKind::LessEq => (14, 15),
        TokenKind::Star | TokenKind::Slash | TokenKind::Perc => (25, 26),
        TokenKind::Keyword(KeywordKind::And) => (12, 13),
        TokenKind::Keyword(KeywordKind::Or) => (10, 11),
        TokenKind::Caret => (27, 28),
        _ => (-1, -1),
    }
}

/// Kinds that may start an expression.
pub open spec fn expr_start(k: TokenKind) -> bool {
    match k {
        TokenKind::IntLit | TokenKind::FloatLit | TokenKind::Ident | TokenKind::Minus
        | TokenKind::Bang | TokenKind::ParenL | TokenKind::BraceL => true,
        TokenKind::Keyword(k) => k == KeywordKind::True || k == KeywordKind::False,
        _ => false,
    }
}

/// The node a literal token stands for on its own.
pub open spec fn literal_node(k: TokenKind, id: TokenId) -> Option<Expr> {
    match k {
        TokenKind::IntLit => Some(Expr::Literal(ExprLiteral::Int(id))),
        TokenKind::FloatLit => Some(Expr::Literal(ExprLiteral::Float(id))),
        TokenKind::Keyword(KeywordKind::True) => Some(Expr::Literal(ExprLiteral::Bool(id))),
        TokenKind::Keyword(KeywordKind::False) => Some(Expr::Literal(ExprLiteral::Bool(id))),
        _ => None,
    }
}

pub open spec fn ids_in(ids: Seq<ExprId>, lo: int, hi: int) -> bool {
    forall|k: int| 0 <= k < ids.len() ==> lo <= #[trigger] ids[k].0 < hi
}

pub open spec fn annot_ids_in(ids: Seq<TyAnnotId>, lo: int, hi: int) -> bool {
    forall|k: int| 0 <= k < ids.len() ==> lo <= #[trigger] ids[k].0 < hi
}

/// The annotation a primitive type keyword stands for.
pub open spec fn primitive_annot(k: TokenKind) -> Option<TyAnnot> {
    match k {
        TokenKind::Keyword(KeywordKind::Bool) => Some(TyAnnot::Bool),
        TokenKind::Keyword(KeywordKind::Int) => Some(TyAnnot::Int),
        TokenKind::Keyword(KeywordKind::Float) => Some(TyAnnot::Float),
        _ => None,
    }
}

/// Kinds that may start a type annotation.
pub open spec fn annot_start(k: TokenKind) -> bool {
    primitive_annot(k) is Some || k == TokenKind::ParenL || k == TokenKind::BraceL || k
        == TokenKind::Ident
}

pub open spec fn stmt_ids_in(ids: Seq<StmtId>, lo: int, hi: int) -> bool {
    forall|k: int| 0 <= k < ids.len() ==> lo <= #[trigger] ids[k].0 < hi
}

/// The annotations an annotation is built from, in the order they are
/// written (and parsed).
pub open spec fn annot_children(a: TyAnnot) -> Seq<TyAnnotId> {
    match a {
        TyAnnot::Array { inner, len } => seq![inner],
        TyAnnot::Func { params, ret } => match ret {
            Some(r) => params@.push(r),
            None => params@,
        },
        TyAnnot::UserDef { name, generics } => generics@,
        _ => seq![],
    }
}

/// The first index of the tree rooted at `i`, where trees are laid out in
/// post-order (children before their parent).
pub open spec fn subtree_start(annots: Seq<Spanned<TyAnnot>>, i: int) -> int
    decreases i,
{
    if 0 <= i < annots.len() {
        let cs = annot_children(annots[i].0);
        if cs.len() > 0 && 0 <= cs[0].0 < i {
            subtree_start(annots, cs[0].0 as int)
        } else {
            i
        }
    } else {
        i
    }
}

/// The trees rooted at `ids` lie one after the other, the last one ending
/// just before `hi`.
pub open spec fn chained(annots: Seq<Spanned<TyAnnot>>, ids: Seq<TyAnnotId>, hi: int) -> bool {
    &&& ids.len() > 0 ==> ids.last().0 + 1 == hi
    &&& forall|k: int|
        #![trigger ids[k]]
        0 <= k < ids.len() - 1 ==> ids[k].0 + 1 == subtree_start(annots, ids[k + 1].0 as int)
}

/// Every annotation in `[lo, hi)` has its children's trees laid out one
/// after the other right before it, all inside `[lo, hi)`.
pub open spec fn post_order(annots: Seq<Spanned<TyAnnot>>, lo: int, hi: int) -> bool {
    &&& 0 <= lo <= hi <= annots.len()
    &&& forall|i: int|
        #![trigger annots[i]]
        lo <= i < hi ==> {
            &&& chained(annots, annot_children(annots[i].0), i)
            &&& lo <= subtree_start(annots, i) <= i
        }
}

/// The trees rooted at `ids` cover `[lo, hi)` exactly, in post-order.
pub open spec fn forest(annots: Seq<Spanned<TyAnnot>>, ids: Seq<TyAnnotId>, lo: int, hi: int) -> bool {
    &&& post_order(annots, lo, hi)
    &&& chained(annots, ids, hi)
    &&& ids.len() == 0 ==> lo == hi
    &&& ids.len() > 0 ==> subtree_start(annots, ids[0].0 as int) == lo
}

/// No annotation in `[lo, hi)` is a generic parameter yet.
pub open spec fn no_generic(annots: Seq<Spanned<TyAnnot>>, lo: int, hi: int) -> bool {
    forall|i: int| #![trigger annots[i]] lo <= i < hi ==> !(annots[i].0 is Generic)
}

/// A named type that is one of the generic parameters `set` but is
/// given a generics list of its own.
pub open spec fn misused_generic(a: TyAnnot, set: Seq<IdentId>) -> bool {
    a matches TyAnnot::UserDef { name, generics } && set.contains(name) && generics@.len() > 0
}

/// A named type that is one of the generic parameters becomes that
/// parameter; every other annotation stays as it is.
pub open spec fn resolve_node(a: Spanned<TyAnnot>, set: Seq<IdentId>) -> Spanned<TyAnnot> {
    match a.0 {
        TyAnnot::UserDef { name, generics } => if set.contains(name) && generics@.len() == 0 {
            (TyAnnot::Generic(name), a.1)
        } else {
            a
        },
        _ => a,
    }
}

pub proof fn lemma_subtree_start_le(annots: Seq<Spanned<TyAnnot>>, i: int)
    requires
        0 <= i,
    ensures
        subtree_start(annots, i) <= i,
    decreases i,
{
    if 0 <= i < annots.len() {
        let cs = annot_children(annots[i].0);
        if cs.len() > 0 && 0 <= cs[0].0 < i {
            lemma_subtree_start_le(annots, cs[0].0 as int);
        }
    }
}

/// Where trees are laid out depends only on which children each node has.
pub proof fn lemma_subtree_start_same(a1: Seq<Spanned<TyAnnot>>, a2: Seq<Spanned<TyAnnot>>, i: int)
    requires
        0 <= i,
        i < a1.len() <==> i < a2.len(),
        forall|j: int|
            0 <= j <= i && j < a1.len() ==> #[trigger] annot_children(a1[j].0) == annot_children(
                a2[j].0,
            ),
    ensures
        subtree_start(a1, i) == subtree_start(a2, i),
    decreases i,
{
    if 0 <= i < a1.len() {
        let cs = annot_children(a1[i].0);
        assert(annot_children(a1[i].0) == annot_children(a2[i].0));
        if cs.len() > 0 && 0 <= cs[0].0 < i {
            let c = cs[0].0 as int;
            assert forall|j: int| 0 <= j <= c && j < a1.len() implies #[trigger] annot_children(
                a1[j].0,
            ) == annot_children(a2[j].0) by {}
            lemma_subtree_start_same(a1, a2, c);
        }
    }
}

/// Annotations with the same children everywhere keep their layout.
pub proof fn lemma_post_order_same(
    a1: Seq<Spanned<TyAnnot>>,
    a2: Seq<Spanned<TyAnnot>>,
    lo: int,
    hi: int,
)
    requires
        post_order(a1, lo, hi),
        a1.len() == a2.len(),
        forall|j: int|
            0 <= j < a1.len() ==> #[trigger] annot_children(a1[j].0) == annot_children(a2[j].0),
    ensures
        post_order(a2, lo, hi),
        forall|x: int| 0 <= x ==> #[trigger] subtree_start(a2, x) == subtree_start(a1, x),
{
    assert forall|x: int| 0 <= x implies #[trigger] subtree_start(a2, x) == subtree_start(a1, x) by {
        lemma_subtree_start_same(a1, a2, x);
    }
    assert forall|i: int| #![trigger a2[i]] lo <= i < hi implies {
        &&& chained(a2, annot_children(a2[i].0), i)
        &&& lo <= subtree_start(a2, i) <= i
    } by {
        assert(annot_children(a1[i].0) == annot_children(a2[i].0));
        let cs = annot_children(a1[i].0);
        assert(chained(a1, cs, i));
        assert forall|k: int| #![trigger cs[k]] 0 <= k < cs.len() - 1 implies cs[k].0 + 1
            == subtree_start(a2, cs[k + 1].0 as int) by {
            assert(cs[k].0 + 1 == subtree_start(a1, cs[k + 1].0 as int));
        }
    }
}

/// The children of an annotation are those of its view.
pub proof fn lemma_annot_kids(a: TyAnnot)
    ensures
        annot_children(a) == annot_kids(a@),
{
    match a {
        TyAnnot::Func { params, ret } => {
            match ret {
                Some(r) => assert(annot_children(a) =~= annot_kids(a@)),
                None => assert(annot_children(a) =~= annot_kids(a@)),
            }
        },
        TyAnnot::Array { .. } => assert(annot_children(a) =~= annot_kids(a@)),
        _ => {},
    }
}

/// The numbers of the identifiers in `s`.
pub open spec fn ident_numbers(s: Seq<IdentId>) -> Set<u32> {
    Set::new(|n: u32| s.contains(IdentId(n)))
}

proof fn lemma_ident_numbers_push(s: Seq<IdentId>, x: IdentId)
    ensures
        ident_numbers(s.push(x)) == ident_numbers(s).insert(x.0),
{
    let t = s.push(x);
    assert forall|n: u32| #[trigger] ident_numbers(t).contains(n) == ident_numbers(s).insert(
        x.0,
    ).contains(n) by {
        if s.contains(IdentId(n)) {
            let i = choose|i: int| 0 <= i < s.len() && s[i] == IdentId(n);
            assert(t[i] == IdentId(n));
        }
        if t.contains(IdentId(n)) {
            let i = choose|i: int| 0 <= i < t.len() && t[i] == IdentId(n);
            if i < s.len() {
                assert(s[i] == IdentId(n));
            }
        }
        if x.0 == n {
            assert(t[s.len() as int] == IdentId(n));
        }
    }
    assert(ident_numbers(t) =~= ident_numbers(s).insert(x.0));
}

/// The generic parameters of a function or a struct: their names in
/// order, and the set of their numbers for lookups.
pub struct GenericParams {
    list: Vec<IdentId>,
    found: HashSet<u32>,
}

impl View for GenericParams {
    type V = Seq<IdentId>;

    closed spec fn view(&self) -> Seq<IdentId> {
        self.list@
    }
}

impl GenericParams {
    #[verifier::type_invariant]
    spec fn numbers_match(self) -> bool {
        self.found@ == ident_numbers(self.list@)
    }

    /// No generic parameters.
    pub fn empty() -> (r: GenericParams)
        ensures
            r@ == Seq::<IdentId>::empty(),
    {
        let list: Vec<IdentId> = Vec::new();
        let found: HashSet<u32> = HashSet::new();
        assert(ident_numbers(list@) =~= Set::<u32>::empty());
        GenericParams { list, found }
    }

    pub fn len(&self) -> (r: usize)
        ensures
            r == self@.len(),
    {
        self.list.len()
    }

    /// Whether `name` is one of the parameters.
    pub fn has(&self, name: IdentId) -> (r: bool)
        ensures
            r == self@.contains(name),
    {
        proof {
            use_type_invariant(self);
        }
        let r = self.found.contains(&name.0);
        proof {
            broadcast use {
                vstd::std_specs::hash::axiom_u32_obeys_hash_table_key_model,
                vstd::std_specs::hash::axiom_random_state_builds_valid_hashers,
            };
            assert(vstd::std_specs::hash::obeys_key_model::<u32>());
            assert(vstd::std_specs::hash::builds_valid_hashers::<std::collections::hash_map::RandomState>());
            vstd::std_specs::hash::axiom_set_contains_deref_key(self.found@, &name.0);
        }
        assert(ident_numbers(self.list@).contains(name.0) == self.list@.contains(IdentId(name.0)));
        r
    }

    /// The names, in order.
    pub fn into_list(self) -> (r: Vec<IdentId>)
        ensures
            r@ == self@,
    {
        self.list
    }
}

/// A copy of a list of annotation ids.
fn copy_annot_ids(v: &Vec<TyAnnotId>) -> (r: Vec<TyAnnotId>)
    ensures
        r@ == v@,
{
    let mut r: Vec<TyAnnotId> = Vec::new();
    let mut i: usize = 0;
    while i < v.len()
        invariant
            i <= v@.len(),
            r@ == v@.subrange(0, i as int),
        decreases v@.len() - i,
    {
        r.push(v[i]);
        i = i + 1;
        assert(r@ =~= v@.subrange(0, i as int));
    }
    assert(v@.subrange(0, v@.len() as int) =~= v@);
    r
}

/// The roots of chained trees all come before `hi`, each after the
/// start of its own tree.
pub proof fn lemma_chained_below(annots: Seq<Spanned<TyAnnot>>, ids: Seq<TyAnnotId>, hi: int, k: int)
    requires
        chained(annots, ids, hi),
        0 <= k < ids.len(),
    ensures
        ids[k].0 < hi,
        subtree_start(annots, ids[k].0 as int) <= ids[k].0,
    decreases ids.len() - k,
{
    lemma_subtree_start_le(annots, ids[k].0 as int);
    if k + 1 < ids.len() {
        lemma_chained_below(annots, ids, hi, k + 1);
        lemma_subtree_start_le(annots, ids[k + 1].0 as int);
        assert(ids[k].0 + 1 == subtree_start(annots, ids[k + 1].0 as int));
    }
}

/// Appending annotations keeps the layout of those already there.
pub proof fn lemma_post_order_extend(
    a1: Seq<Spanned<TyAnnot>>,
    a2: Seq<Spanned<TyAnnot>>,
    lo: int,
    hi: int,
)
    requires
        post_order(a1, lo, hi),
        prefix_of(a1, a2),
    ensures
        post_order(a2, lo, hi),
        forall|x: int| 0 <= x < a1.len() ==> #[trigger] subtree_start(a2, x) == subtree_start(a1, x),
        no_generic(a1, lo, hi) ==> no_generic(a2, lo, hi),
{
    assert forall|x: int| 0 <= x < a1.len() implies #[trigger] subtree_start(a2, x) == subtree_start(
        a1,
        x,
    ) by {
        assert forall|j: int| 0 <= j <= x && j < a1.len() implies #[trigger] annot_children(
            a1[j].0,
        ) == annot_children(a2[j].0) by {
            assert(a2[j] == a1[j]);
        }
        lemma_subtree_start_same(a1, a2, x);
    }
    assert forall|i: int| #![trigger a2[i]] lo <= i < hi implies {
        &&& chained(a2, annot_children(a2[i].0), i)
        &&& lo <= subtree_start(a2, i) <= i
    } by {
        assert(a2[i] == a1[i]);
        let cs = annot_children(a1[i].0);
        assert(chained(a1, cs, i));
        assert forall|k: int| #![trigger cs[k]] 0 <= k < cs.len() - 1 implies cs[k].0 + 1
            == subtree_start(a2, cs[k + 1].0 as int) by {
            assert(cs[k].0 + 1 == subtree_start(a1, cs[k + 1].0 as int));
            lemma_chained_below(a1, cs, i, k + 1);
        }
    }
    if no_generic(a1, lo, hi) {
        assert forall|i: int| #![trigger a2[i]] lo <= i < hi implies !(a2[i].0 is Generic) by {
            assert(a2[i] == a1[i]);
        }
    }
}

/// Two forests side by side make one.
pub proof fn lemma_forest_join(
    a: Seq<Spanned<TyAnnot>>,
    ids1: Seq<TyAnnotId>,
    ids2: Seq<TyAnnotId>,
    lo: int,
    mid: int,
    hi: int,
)
    requires
        forest(a, ids1, lo, mid),
        forest(a, ids2, mid, hi),
    ensures
        forest(a, ids1 + ids2, lo, hi),
        no_generic(a, lo, mid) && no_generic(a, mid, hi) ==> no_generic(a, lo, hi),
{
    let ids = ids1 + ids2;
    assert forall|i: int| #![trigger a[i]] lo <= i < hi implies {
        &&& chained(a, annot_children(a[i].0), i)
        &&& lo <= subtree_start(a, i) <= i
    } by {
        if i < mid {
        } else {
        }
    }
    assert forall|k: int| #![trigger ids[k]] 0 <= k < ids.len() - 1 implies ids[k].0 + 1
        == subtree_start(a, ids[k + 1].0 as int) by {
        if k + 1 < ids1.len() {
            assert(ids[k] == ids1[k] && ids[k + 1] == ids1[k + 1]);
        } else if k + 1 == ids1.len() {
            assert(ids[k] == ids1.last());
            assert(ids[k + 1] == ids2[0]);
        } else {
            assert(ids[k] == ids2[k - ids1.len()] && ids[k + 1] == ids2[k + 1 - ids1.len()]);
        }
    }
    if ids2.len() > 0 {
        assert(ids.last() == ids2.last());
    } else {
        assert(ids =~= ids1);
    }
    if ids1.len() > 0 {
        assert(ids[0] == ids1[0]);
    } else {
        assert(ids =~= ids2);
    }
}

pub proof fn lemma_forest_extend(
    a1: Seq<Spanned<TyAnnot>>,
    a2: Seq<Spanned<TyAnnot>>,
    ids: Seq<TyAnnotId>,
    lo: int,
    hi: int,
)
    requires
        forest(a1, ids, lo, hi),
        prefix_of(a1, a2),
    ensures
        forest(a2, ids, lo, hi),
        no_generic(a1, lo, hi) ==> no_generic(a2, lo, hi),
{
    lemma_post_order_extend(a1, a2, lo, hi);
    assert forall|k: int| #![trigger ids[k]] 0 <= k < ids.len() - 1 implies ids[k].0 + 1
        == subtree_start(a2, ids[k + 1].0 as int) by {
        lemma_chained_below(a1, ids, hi, k + 1);
    }
    if ids.len() > 0 {
        lemma_chained_below(a1, ids, hi, 0);
    }
}

/// A node pushed right after the forest of its children roots a tree
/// that covers that forest and itself.
pub proof fn lemma_forest_parent(
    a: Seq<Spanned<TyAnnot>>,
    cs: Seq<TyAnnotId>,
    lo: int,
    node: TyAnnot,
    span: Span,
)
    requires
        forest(a, cs, lo, a.len() as int),
        no_generic(a, lo, a.len() as int),
        annot_children(node) == cs,
        !(node is Generic),
        a.len() < u32::MAX,
    ensures
        forest(a.push((node, span)), seq![TyAnnotId(a.len() as u32)], lo, a.len() + 1 as int),
        no_generic(a.push((node, span)), lo, a.len() + 1 as int),
{
    let a2 = a.push((node, span));
    let i = a.len() as int;
    assert(prefix_of(a, a2));
    lemma_forest_extend(a, a2, cs, lo, i);
    if cs.len() > 0 {
        lemma_chained_below(a, cs, i, 0);
        assert(subtree_start(a2, i) == subtree_start(a2, cs[0].0 as int));
    }
    assert(a2[i].0 == node);
    assert forall|j: int| #![trigger a2[j]] lo <= j < i + 1 implies {
        &&& chained(a2, annot_children(a2[j].0), j)
        &&& lo <= subtree_start(a2, j) <= j
    } by {
        if j < i {
        }
    }
    assert forall|j: int| #![trigger a2[j]] lo <= j < i + 1 implies !(a2[j].0 is Generic) by {
        if j < i {
            assert(a2[j] == a[j]);
        }
    }
}

/// The annotations of a list of (name, annotation) pairs.
pub open spec fn seconds(ps: Seq<(IdentId, TyAnnotId)>) -> Seq<TyAnnotId> {
    Seq::new(ps.len(), |k: int| ps[k].1)
}

pub open spec fn no_duplicates<T>(s: Seq<T>) -> bool {
    forall|i: int, j: int| 0 <= i < j < s.len() ==> s[i] != s[j]
}

/// Whether `item` is in `list`.
pub fn contains_pair(list: &Vec<(IdentId, TyAnnotId)>, item: (IdentId, TyAnnotId)) -> (r: bool)
    ensures
        r == list@.contains(item),
{
    let mut i: usize = 0;
    while i < list.len()
        invariant
            i <= list@.len(),
            forall|j: int| 0 <= j < i ==> list@[j] != item,
        decreases list@.len() - i,
    {
        if list[i].0 == item.0 && list[i].1 == item.1 {
            assert(list@[i as int] == item);
            return true;
        }
        i = i + 1;
    }
    false
}

pub proof fn lemma_push_pair(
    l: Seq<(IdentId, TyAnnotId)>,
    item: (IdentId, TyAnnotId),
    nids1: int,
    nannots1: int,
    nids2: int,
    nannots2: int,
)
    requires
        pairs_below(l, nids1, nannots1),
        no_duplicates(l),
        !l.contains(item),
        nids1 <= nids2,
        nannots1 <= nannots2,
        item.0.0 < nids2,
        item.1.0 < nannots2,
    ensures
        pairs_below(l.push(item), nids2, nannots2),
        no_duplicates(l.push(item)),
{
    let l2 = l.push(item);
    assert forall|i: int, j: int| 0 <= i < j < l2.len() implies l2[i] != l2[j] by {
        if j == l.len() {
            assert(l2[i] == l[i]);
        } else {
            assert(l2[i] == l[i] && l2[j] == l[j]);
        }
    }
    assert forall|k: int| 0 <= k < l2.len() implies #[trigger] l2[k].0.0 < nids2 && l2[k].1.0
        < nannots2 by {
        if k < l.len() {
            assert(l2[k] == l[k]);
        }
    }
}

pub type ParseResult<T> = Result<T, FrontendErrAlias>;

/// `b` starts with `a`.
pub open spec fn prefix_of<T>(a: Seq<T>, b: Seq<T>) -> bool {
    &&& a.len() <= b.len()
    &&& forall|i: int| #![trigger b[i]] 0 <= i < a.len() ==> b[i] == a[i]
}

/// Growing the arenas by nodes that are well formed keeps them well formed.
pub proof fn lemma_arenas_grow(
    e1: Seq<Spanned<Expr>>,
    s1: Seq<Spanned<Stmt>>,
    t1: Seq<Spanned<StmtTopLvl>>,
    a1: Seq<Spanned<TyAnnot>>,
    e2: Seq<Spanned<Expr>>,
    s2: Seq<Spanned<Stmt>>,
    t2: Seq<Spanned<StmtTopLvl>>,
    a2: Seq<Spanned<TyAnnot>>,
    nt: int,
    ni1: int,
    ni2: int,
)
    requires
        arenas_ok(e1, s1, t1, a1, nt, ni1),
        prefix_of(e1, e2),
        prefix_of(s1, s2),
        prefix_of(t1, t2),
        prefix_of(a1, a2),
        ni1 <= ni2,
        forall|i: int| #![trigger e2[i]] e1.len() <= i < e2.len() ==> expr_ok(e2[i].0, i, nt, ni2),
        forall|i: int|
            #![trigger a2[i]]
            a1.len() <= i < a2.len() ==> annot_ok(a2[i].0, i, e2.len() as int, ni2),
        forall|i: int|
            #![trigger s2[i]]
            s1.len() <= i < s2.len() ==> stmt_ok(
                s2[i].0,
                i,
                e2.len() as int,
                a2.len() as int,
                ni2,
            ),
        forall|i: int|
            #![trigger t2[i]]
            t1.len() <= i < t2.len() ==> toplvl_ok(
                t2[i].0,
                e2.len() as int,
                s2.len() as int,
                a2.len() as int,
                ni2,
            ),
    ensures
        arenas_ok(e2, s2, t2, a2, nt, ni2),
{
    assert forall|i: int| #![trigger e2[i]] 0 <= i < e2.len() implies expr_ok(e2[i].0, i, nt, ni2) by {
        if i < e1.len() {
            assert(e2[i] == e1[i]);
            assert(expr_ok(e1[i].0, i, nt, ni1));
        }
    }
    assert forall|i: int| #![trigger a2[i]] 0 <= i < a2.len() implies annot_ok(
        a2[i].0,
        i,
        e2.len() as int,
        ni2,
    ) by {
        if i < a1.len() {
            assert(a2[i] == a1[i]);
            assert(annot_ok(a1[i].0, i, e1.len() as int, ni1));
        }
    }
    assert forall|i: int| #![trigger s2[i]] 0 <= i < s2.len() implies stmt_ok(
        s2[i].0,
        i,
        e2.len() as int,
        a2.len() as int,
        ni2,
    ) by {
        if i < s1.len() {
            assert(s2[i] == s1[i]);
            assert(stmt_ok(s1[i].0, i, e1.len() as int, a1.len() as int, ni1));
        }
    }
    assert forall|i: int| #![trigger t2[i]] 0 <= i < t2.len() implies toplvl_ok(
        t2[i].0,
        e2.len() as int,
        s2.len() as int,
        a2.len() as int,
        ni2,
    ) by {
        if i < t1.len() {
            assert(t2[i] == t1[i]);
            assert(toplvl_ok(t1[i].0, e1.len() as int, s1.len() as int, a1.len() as int, ni1));
        }
    }
}

/// Every token, and the default token, lies within the source.
pub proof fn lemma_tok_at_in_src(lx: &Lexer, i: int)
    requires
        lexer_ok(lx),
    ensures
        tok_at(lx.tokens@, i).span.start <= tok_at(lx.tokens@, i).span.end <= lx.src@.len(),
        tok_at(lx.tokens@, i).kind != TokenKind::Error ==> 0 <= i < lx.tokens@.len(),
{
    if 0 <= i < lx.tokens@.len() {
        assert(lx.tokens@[i] == tok_at(lx.tokens@, i));
    }
}

/// The ends of the consumed tokens only move forward.
pub proof fn lemma_consumed_end_mono(lx: &Lexer, a: int, b: int)
    requires
        lexer_ok(lx),
        a <= b,
    ensures
        consumed_end(lx, a) <= consumed_end(lx, b),
        consumed_end(lx, b) <= lx.src@.len(),
{
    let t = lx.tokens@;
    if 0 < b && b <= t.len() {
        assert(t[b - 1].span.start < t[b - 1].span.end <= lx.src@.len());
        if 0 < a && a < b {
            assert(t[a - 1].span.end <= t[b - 1].span.start);
        }
    }
    if 0 < a && a <= t.len() {
        assert(t[a - 1].span.start < t[a - 1].span.end <= lx.src@.len());
    }
}

/// Builds the arenas of a program from its tokens.
pub struct Parser<'a> {
    pub cursor: Cursor<'a>,
    pub exprs: Vec<Spanned<Expr>>,
    pub stmts: Vec<Spanned<Stmt>>,
    pub toplvl: Vec<Spanned<StmtTopLvl>>,
    pub annots: Vec<Spanned<TyAnnot>>,
    pub idents: StringInterner,
    /// An `if` or `while` statement, which is not read yet, was met.
    pub branch_met: bool,
}

impl<'a> Parser<'a> {
    pub open spec fn toks(&self) -> Seq<Token> {
        self.cursor.lexer.tokens@
    }

    pub open spec fn ntoks(&self) -> int {
        self.cursor.lexer.tokens@.len() as int
    }

    pub open spec fn pos(&self) -> int {
        self.cursor.curr as int
    }

    /// The state the grammar sees: position, arenas and names.
    pub open spec fn pview(&self) -> PState {
        PState {
            pos: self.cursor.curr as int,
            exprs: self.exprs@.map_values(|p: Spanned<Expr>| (p.0@, p.1)),
            stmts: self.stmts@.map_values(|p: Spanned<Stmt>| (p.0@, p.1)),
            toplvl: self.toplvl@.map_values(|p: Spanned<StmtTopLvl>| (p.0@, p.1)),
            annots: self.annots@.map_values(|p: Spanned<TyAnnot>| (p.0@, p.1)),
            names: self.idents@,
            branch: self.branch_met,
        }
    }

    /// The bytes of the source a token covers.
    pub open spec fn text(&self, t: Token) -> Seq<u8> {
        self.cursor.lexer.src@.subrange(t.span.start as int, t.span.end as int)
    }

    /// The invariant of the parser: a lexer it can work with, arenas of
    /// finite trees, and every arena and the interner no larger than the
    /// number of tokens consumed (so every index fits in 32 bits).
    pub open spec fn inv(&self) -> bool {
        &&& lexer_ok(self.cursor.lexer)
        &&& self.cursor.curr <= self.ntoks() + 2
        &&& self.idents.wf()
        &&& arenas_ok(
            self.exprs@,
            self.stmts@,
            self.toplvl@,
            self.annots@,
            self.ntoks(),
            self.idents@.len() as int,
        )
        &&& self.exprs@.len() <= self.cursor.curr
        &&& self.stmts@.len() <= self.cursor.curr
        &&& self.toplvl@.len() <= self.cursor.curr
        &&& self.annots@.len() <= self.cursor.curr
        &&& self.idents@.len() <= self.cursor.curr
        &&& self.idents.used() <= consumed_end(self.cursor.lexer, self.cursor.curr as int)
        &&& spans_within(self.exprs@, self.cursor.lexer.src@.len() as int)
        &&& spans_within(self.stmts@, self.cursor.lexer.src@.len() as int)
        &&& spans_within(self.toplvl@, self.cursor.lexer.src@.len() as int)
        &&& spans_within(self.annots@, self.cursor.lexer.src@.len() as int)
    }

    /// How parsing may change the parser: the cursor only moves forward,
    /// expressions, statements and top-level items are only appended, the
    /// interner only gains names, and each arena gains at most one entry
    /// per token consumed.
    pub open spec fn advanced_from(&self, old: &Parser) -> bool {
        self.advanced_by(old, 0)
    }

    /// As `advanced_from`, with room for `credit` names interned for tokens
    /// consumed before.
    pub open spec fn advanced_by(&self, old: &Parser, credit: int) -> bool {
        &&& self.cursor.lexer == old.cursor.lexer
        &&& old.cursor.curr <= self.cursor.curr
        &&& prefix_of(old.exprs@, self.exprs@)
        &&& prefix_of(old.stmts@, self.stmts@)
        &&& prefix_of(old.toplvl@, self.toplvl@)
        &&& old.annots@.len() <= self.annots@.len()
        &&& prefix_of(old.idents@, self.idents@)
        &&& self.exprs@.len() - old.exprs@.len() <= self.cursor.curr - old.cursor.curr
        &&& self.stmts@.len() - old.stmts@.len() <= self.cursor.curr - old.cursor.curr
        &&& self.toplvl@.len() - old.toplvl@.len() <= self.cursor.curr - old.cursor.curr
        &&& self.annots@.len() - old.annots@.len() <= self.cursor.curr - old.cursor.curr
        &&& self.idents@.len() - old.idents@.len() <= self.cursor.curr - old.cursor.curr + credit
    }

    /// The annotations held before are all still there, unchanged.
    pub open spec fn annots_kept(&self, old: &Parser) -> bool {
        prefix_of(old.annots@, self.annots@)
    }

    pub fn new(lexer: &'a Lexer) -> (r: Self)
        requires
            lexer_ok(lexer),
        ensures
            r.inv(),
            r.cursor.lexer == lexer,
            r.cursor.curr == 0,
            r.exprs@.len() == 0,
            r.stmts@.len() == 0,
            r.toplvl@.len() == 0,
            r.annots@.len() == 0,
            r.idents@.len() == 0,
            !r.branch_met,
    {
        Parser {
            cursor: Cursor { lexer, curr: 0 },
            exprs: Vec::new(),
            stmts: Vec::new(),
            toplvl: Vec::new(),
            annots: Vec::new(),
            idents: StringInterner::new(),
            branch_met: false,
        }
    }

    /// An error with message `msg` at token `tok`.
    pub fn err(&self, msg: &str, tok: Token) -> (r: FrontendErrAlias)
        requires
            lexer_ok(self.cursor.lexer),
            tok.span.start <= tok.span.end <= self.cursor.lexer.src@.len(),
        ensures
            r.describes(
                self.cursor.lexer.src@,
                self.cursor.lexer.line_offsets@,
                msg@,
                tok.span,
            ),
    {
        FrontendErr::new(self.cursor.lexer, msg, tok.span)
    }

    /// Only the cursor differs.
    pub open spec fn same_nodes(&self, old: &Parser) -> bool {
        &&& self.cursor.lexer == old.cursor.lexer
        &&& self.exprs@ == old.exprs@
        &&& self.stmts@ == old.stmts@
        &&& self.toplvl@ == old.toplvl@
        &&& self.annots@ == old.annots@
        &&& self.idents == old.idents
    }

    /// `tok` is the token just consumed, and no name has been interned
    /// since it was.
    pub open spec fn just_ate(&self, tok: Token) -> bool {
        &&& 1 <= self.cursor.curr <= self.ntoks()
        &&& tok == self.toks()[self.cursor.curr - 1]
        &&& self.idents.used() <= consumed_end(self.cursor.lexer, self.cursor.curr - 1)
        &&& self.idents@.len() < self.cursor.curr
    }

    fn expect_ex(&mut self, target: TokenKind, msg: &str, err_tok: Token) -> (r: ParseResult<Token>)
        requires
            old(self).inv(),
            old(self).cursor.curr <= old(self).ntoks(),
            target != TokenKind::Error,
            err_tok.span.start <= err_tok.span.end <= old(self).cursor.lexer.src@.len(),
        ensures
            ({
                let (m, st) = expect_ex_s(old(self).cursor.lexer, old(self).pview(), target, msg@, err_tok);
                presult(r, m, old(self).cursor.lexer) && final(self).pview() == st
            }),
            final(self).inv(),
            final(self).same_nodes(old(self)),
            final(self).cursor.curr == old(self).cursor.curr + 1,
            match r {
                Ok(t) => t == tok_at(old(self).toks(), old(self).pos()) && t.kind == target
                    && final(self).just_ate(t),
                Err(e) => tok_at(old(self).toks(), old(self).pos()).kind != target && e.describes(
                    old(self).cursor.lexer.src@,
                    old(self).cursor.lexer.line_offsets@,
                    msg@,
                    err_tok.span,
                ),
            },
    {
        proof {
            lemma_consumed_end_mono(self.cursor.lexer, self.pos(), self.pos() + 1);
            lemma_tok_at_in_src(self.cursor.lexer, self.pos());
        }
        let t = self.cursor.eat();
        if t.kind != target {
            Err(self.err(msg, err_tok))
        } else {
            Ok(t)
        }
    }

    fn expect(&mut self, target: TokenKind, msg: &str) -> (r: ParseResult<Token>)
        requires
            old(self).inv(),
            old(self).cursor.curr <= old(self).ntoks(),
            target != TokenKind::Error,
        ensures
            ({
                let (m, st) = expect_s(old(self).cursor.lexer, old(self).pview(), target, msg@);
                presult(r, m, old(self).cursor.lexer) && final(self).pview() == st
            }),
            final(self).inv(),
            final(self).same_nodes(old(self)),
            final(self).cursor.curr == old(self).cursor.curr + 1,
            match r {
                Ok(t) => t == tok_at(old(self).toks(), old(self).pos()) && t.kind == target
                    && final(self).just_ate(t),
                Err(e) => tok_at(old(self).toks(), old(self).pos()).kind != target && e.describes(
                    old(self).cursor.lexer.src@,
                    old(self).cursor.lexer.line_offsets@,
                    msg@,
                    tok_at(old(self).toks(), old(self).pos()).span,
                ),
            },
    {
        proof {
            lemma_tok_at_in_src(self.cursor.lexer, self.pos());
        }
        let err_tok = self.cursor.peek();
        self.expect_ex(target, msg, err_tok)
    }

    fn expect_ident(&mut self, msg: &str) -> (r: ParseResult<IdentId>)
        requires
            old(self).inv(),
            old(self).cursor.curr <= old(self).ntoks(),
        ensures
            ({
                let (m, st) = expect_ident_s(old(self).cursor.lexer, old(self).pview(), msg@);
                presult(r, m, old(self).cursor.lexer) && final(self).pview() == st
            }),
            final(self).inv(),
            final(self).advanced_from(old(self)),
            final(self).annots_kept(old(self)),
            final(self).exprs@ == old(self).exprs@,
            final(self).stmts@ == old(self).stmts@,
            final(self).toplvl@ == old(self).toplvl@,
            final(self).annots@ == old(self).annots@,
            final(self).cursor.curr == old(self).cursor.curr + 1,
            match r {
                Ok(id) => {
                    &&& tok_at(old(self).toks(), old(self).pos()).kind == TokenKind::Ident
                    &&& (final(self).idents@, id.0 as int) == crate::ast::interned(
                        old(self).idents@,
                        old(self).text(old(self).toks()[old(self).pos()]),
                    )
                },
                Err(e) => {
                    &&& tok_at(old(self).toks(), old(self).pos()).kind != TokenKind::Ident
                    &&& final(self).idents == old(self).idents
                    &&& final(self).branch_met == old(self).branch_met
                    &&& e.describes(
                        old(self).cursor.lexer.src@,
                        old(self).cursor.lexer.line_offsets@,
                        msg@,
                        tok_at(old(self).toks(), old(self).pos()).span,
                    )
                },
            },
    {
        let name = self.expect(TokenKind::Ident, msg)?;
        let id = self.push_ident(name);
        Ok(id)
    }

    /// Interns the text of the token just consumed.
    fn push_ident(&mut self, tok: Token) -> (r: IdentId)
        requires
            old(self).inv(),
            old(self).just_ate(tok),
        ensures
            (r, final(self).pview()) == intern_tok(old(self).cursor.lexer, old(self).pview(), tok),
            final(self).inv(),
            final(self).cursor == old(self).cursor,
            final(self).exprs@ == old(self).exprs@,
            final(self).stmts@ == old(self).stmts@,
            final(self).toplvl@ == old(self).toplvl@,
            final(self).annots@ == old(self).annots@,
            (final(self).idents@, r.0 as int) == crate::ast::interned(
                old(self).idents@,
                old(self).text(tok),
            ),
            prefix_of(old(self).idents@, final(self).idents@),
            final(self).idents@.len() <= old(self).idents@.len() + 1,
    {
        let ghost before = self.idents@;
        proof {
            let lx = self.cursor.lexer;
            let c = self.pos();
            assert(lx.tokens@[c - 1].span.start < lx.tokens@[c - 1].span.end <= lx.src@.len());
            if c >= 2 {
                assert(lx.tokens@[c - 2].span.end <= lx.tokens@[c - 1].span.start);
            }
        }
        let r = self.idents.intern(tok.span.get_str(self.cursor.lexer.src.as_slice()));
        proof {
            let nids1 = before.len() as int;
            let nids2 = self.idents@.len() as int;
            assert(prefix_of(before, self.idents@));
            lemma_arenas_grow(
                self.exprs@,
                self.stmts@,
                self.toplvl@,
                self.annots@,
                self.exprs@,
                self.stmts@,
                self.toplvl@,
                self.annots@,
                self.ntoks(),
                nids1,
                nids2,
            );
        }
        r
    }

    fn push_expr(&mut self, node: Expr, span: Span) -> (r: ExprId)
        requires
            span.start <= span.end <= old(self).cursor.lexer.src@.len(),
            old(self).inv(),
            old(self).exprs@.len() < old(self).cursor.curr,
            expr_ok(node, old(self).exprs@.len() as int, old(self).ntoks(), old(self).idents@.len() as int),
        ensures
            final(self).inv(),
            final(self).cursor == old(self).cursor,
            final(self).idents == old(self).idents,
            final(self).branch_met == old(self).branch_met,
            final(self).exprs@ == old(self).exprs@.push((node, span)),
            final(self).stmts@ == old(self).stmts@,
            final(self).toplvl@ == old(self).toplvl@,
            final(self).annots@ == old(self).annots@,
            r.0 == old(self).exprs@.len(),
            (r, final(self).pview()) == add_expr(old(self).pview(), node@, span),
    {
        let ghost before = *self;
        self.exprs.push((node, span));
        proof {
            assert(self.pview().exprs =~= before.pview().exprs.push((node@, span)));
            assert(self.pview() == add_expr(before.pview(), node@, span).1);
            lemma_arenas_grow(
                before.exprs@,
                before.stmts@,
                before.toplvl@,
                before.annots@,
                self.exprs@,
                self.stmts@,
                self.toplvl@,
                self.annots@,
                self.ntoks(),
                self.idents@.len() as int,
                self.idents@.len() as int,
            );
        }
        ExprId(self.exprs.len() as IdSize - 1)
    }

    fn push_stmt(&mut self, node: Stmt, span: Span) -> (r: StmtId)
        requires
            span.start <= span.end <= old(self).cursor.lexer.src@.len(),
            old(self).inv(),
            old(self).stmts@.len() < old(self).cursor.curr,
            stmt_ok(node, old(self).stmts@.len() as int, old(self).exprs@.len() as int, old(self).annots@.len() as int, old(self).idents@.len() as int),
        ensures
            final(self).inv(),
            final(self).cursor == old(self).cursor,
            final(self).idents == old(self).idents,
            final(self).branch_met == old(self).branch_met,
            final(self).stmts@ == old(self).stmts@.push((node, span)),
            final(self).exprs@ == old(self).exprs@,
            final(self).toplvl@ == old(self).toplvl@,
            final(self).annots@ == old(self).annots@,
            r.0 == old(self).stmts@.len(),
            (Ok::<StmtId, crate::ErrSpec>(r), final(self).pview()) == add_stmt(
                old(self).pview(),
                node@,
                span,
            ),
    {
        let ghost before = *self;
        self.stmts.push((node, span));
        proof {
            assert(self.pview().stmts =~= before.pview().stmts.push((node@, span)));
            assert(self.pview() == add_stmt(before.pview(), node@, span).1);
            lemma_arenas_grow(
                before.exprs@,
                before.stmts@,
                before.toplvl@,
                before.annots@,
                self.exprs@,
                self.stmts@,
                self.toplvl@,
                self.annots@,
                self.ntoks(),
                self.idents@.len() as int,
                self.idents@.len() as int,
            );
        }
        StmtId(self.stmts.len() as IdSize - 1)
    }

    fn push_toplvl(&mut self, node: StmtTopLvl, span: Span) -> (r: StmtId)
        requires
            span.start <= span.end <= old(self).cursor.lexer.src@.len(),
            old(self).inv(),
            old(self).toplvl@.len() < old(self).cursor.curr,
            toplvl_ok(node, old(self).exprs@.len() as int, old(self).stmts@.len() as int, old(self).annots@.len() as int, old(self).idents@.len() as int),
        ensures
            final(self).inv(),
            final(self).cursor == old(self).cursor,
            final(self).idents == old(self).idents,
            final(self).branch_met == old(self).branch_met,
            final(self).toplvl@ == old(self).toplvl@.push((node, span)),
            final(self).exprs@ == old(self).exprs@,
            final(self).stmts@ == old(self).stmts@,
            final(self).annots@ == old(self).annots@,
            r.0 == old(self).toplvl@.len(),
            (Ok::<StmtId, crate::ErrSpec>(r), final(self).pview()) == add_top(
                old(self).pview(),
                node@,
                span,
            ),
    {
        let ghost before = *self;
        self.toplvl.push((node, span));
        proof {
            assert(self.pview().toplvl =~= before.pview().toplvl.push((node@, span)));
            assert(self.pview() == add_top(before.pview(), node@, span).1);
            lemma_arenas_grow(
                before.exprs@,
                before.stmts@,
                before.toplvl@,
                before.annots@,
                self.exprs@,
                self.stmts@,
                self.toplvl@,
                self.annots@,
                self.ntoks(),
                self.idents@.len() as int,
                self.idents@.len() as int,
            );
        }
        StmtId(self.toplvl.len() as IdSize - 1)
    }

    fn push_annot(&mut self, node: TyAnnot, span: Span) -> (r: TyAnnotId)
        requires
            span.start <= span.end <= old(self).cursor.lexer.src@.len(),
            old(self).inv(),
            old(self).annots@.len() < old(self).cursor.curr,
            annot_ok(node, old(self).annots@.len() as int, old(self).exprs@.len() as int, old(self).idents@.len() as int),
        ensures
            final(self).inv(),
            final(self).cursor == old(self).cursor,
            final(self).idents == old(self).idents,
            final(self).branch_met == old(self).branch_met,
            final(self).annots@ == old(self).annots@.push((node, span)),
            final(self).exprs@ == old(self).exprs@,
            final(self).stmts@ == old(self).stmts@,
            final(self).toplvl@ == old(self).toplvl@,
            r.0 == old(self).annots@.len(),
            (r, final(self).pview()) == add_annot(old(self).pview(), node@, span),
    {
        let ghost before = *self;
        self.annots.push((node, span));
        proof {
            assert(self.pview().annots =~= before.pview().annots.push((node@, span)));
            assert(self.pview() == add_annot(before.pview(), node@, span).1);
            lemma_arenas_grow(
                before.exprs@,
                before.stmts@,
                before.toplvl@,
                before.annots@,
                self.exprs@,
                self.stmts@,
                self.toplvl@,
                self.annots@,
                self.ntoks(),
                self.idents@.len() as int,
                self.idents@.len() as int,
            );
        }
        TyAnnotId(self.annots.len() as IdSize - 1)
    }


    /// Parses a comma-separated list of expressions up to `terminator`
    /// (a trailing comma is allowed; a missing comma is an error).
    fn collect_listing_exprs(&mut self, terminator: TokenKind, err_unclosed: &str) -> (r:
        ParseResult<Vec<ExprId>>)
        requires
            old(self).inv(),
            old(self).cursor.curr <= old(self).ntoks(),
            terminator != TokenKind::Error,
        ensures
            final(self).inv(),
            final(self).advanced_from(old(self)),
            final(self).stmts@ == old(self).stmts@,
            final(self).toplvl@ == old(self).toplvl@,
            final(self).annots@ == old(self).annots@,
            match r {
                Ok(list) => {
                    &&& final(self).cursor.curr <= final(self).ntoks()
                    &&& final(self).cursor.curr > old(self).cursor.curr
                    &&& ids_in(list@, old(self).exprs@.len() as int, final(self).exprs@.len() as int)
                },
                Err(_) => final(self).cursor.curr <= final(self).ntoks() + 1,
            },
            old(self).cursor.curr == old(self).ntoks() ==> (r matches Err(e) && e.describes(
                old(self).cursor.lexer.src@,
                old(self).cursor.lexer.line_offsets@,
                err_unclosed@,
                Span {
                    start: old(self).cursor.lexer.src@.len() as u32,
                    end: old(self).cursor.lexer.src@.len() as u32,
                },
            )),
            ({
                let (m, st) = p_exprs(
                    old(self).cursor.lexer,
                    old(self).pview(),
                    terminator,
                    err_unclosed@,
                    Seq::empty(),
                );
                &&& final(self).pview() == st
                &&& presult(
                    match r {
                        Ok(l) => Ok::<Seq<ExprId>, FrontendErr>(l@),
                        Err(e) => Err(e),
                    },
                    m,
                    old(self).cursor.lexer,
                )
            }),
        decreases old(self).ntoks() - old(self).cursor.curr, 2nat,
    {
        let mut list: Vec<ExprId> = Vec::new();
        let ghost lx = self.cursor.lexer;
        let ghost st0 = self.pview();
        assert(list@ == Seq::<ExprId>::empty());
        loop
            invariant_except_break
                p_exprs(lx, st0, terminator, err_unclosed@, Seq::empty()) == p_exprs(
                    lx,
                    self.pview(),
                    terminator,
                    err_unclosed@,
                    list@,
                ),
            invariant
                lx == self.cursor.lexer,
                st0 == old(self).pview(),
                self.inv(),
                self.advanced_from(old(self)),
                old(self).inv(),
                old(self).cursor.curr <= old(self).ntoks(),
                self.stmts@ == old(self).stmts@,
                self.toplvl@ == old(self).toplvl@,
                self.annots@ == old(self).annots@,
                self.cursor.curr <= self.ntoks(),
                ids_in(list@, old(self).exprs@.len() as int, self.exprs@.len() as int),
                terminator != TokenKind::Error,
            ensures
                self.cursor.curr > old(self).cursor.curr,
                p_exprs(lx, st0, terminator, err_unclosed@, Seq::empty()) == (
                    Ok::<Seq<ExprId>, crate::ErrSpec>(list@),
                    self.pview(),
                ),
            decreases self.ntoks() - self.cursor.curr,
        {
            if !self.cursor.has_some() {
                let eof = self.cursor.lexer.eof();
                return Err(self.err(err_unclosed, eof));
            }
            proof {
                lemma_consumed_end_mono(self.cursor.lexer, self.pos(), self.pos() + 1);
                lemma_tok_at_in_src(self.cursor.lexer, self.pos());
            }
            if self.cursor.eat_if(terminator).is_some() {
                break;
            }
            let item = self.parse_expr(0)?;
            list.push(item);
            proof {
                lemma_consumed_end_mono(self.cursor.lexer, self.pos(), self.pos() + 2);
                lemma_tok_at_in_src(self.cursor.lexer, self.pos());
                lemma_tok_at_in_src(self.cursor.lexer, self.pos() + 1);
            }
            if self.cursor.eat_if(TokenKind::Comma).is_none() {
                if self.cursor.eat_if(terminator).is_some() {
                    break;
                }
                // neither a comma nor the end of the list follows the item
                if self.cursor.has_some() {
                    let tok = self.cursor.peek();
                    return Err(self.err(err_unclosed, tok));
                }
            }
        }
        Ok(list)
    }

    /// Parses the operand an expression starts with (see `p_operand`).
    fn parse_operand(&mut self) -> (r: ParseResult<ExprId>)
        requires
            old(self).inv(),
            old(self).cursor.curr <= old(self).ntoks(),
        ensures
            final(self).inv(),
            final(self).advanced_from(old(self)),
            final(self).stmts@ == old(self).stmts@,
            final(self).toplvl@ == old(self).toplvl@,
            final(self).annots@ == old(self).annots@,
            match r {
                Ok(id) => {
                    &&& final(self).cursor.curr <= final(self).ntoks()
                    &&& final(self).cursor.curr > old(self).cursor.curr
                    &&& old(self).exprs@.len() <= id.0 < final(self).exprs@.len()
                },
                Err(_) => final(self).cursor.curr <= final(self).ntoks() + 1,
            },
            ({
                let t = tok_at(old(self).toks(), old(self).pos());
                &&& !expr_start(t.kind) ==> {
                    &&& (r matches Err(e) && e.describes(
                        old(self).cursor.lexer.src@,
                        old(self).cursor.lexer.line_offsets@,
                        "invalid lhs expression"@,
                        t.span,
                    ))
                    &&& final(self).cursor.curr == old(self).cursor.curr + 1
                    &&& final(self).exprs@ == old(self).exprs@
                }
                &&& (r is Ok && literal_node(t.kind, TokenId(old(self).cursor.curr)) is Some)
                    ==> final(self).exprs@[old(self).exprs@.len() as int] == (
                    literal_node(t.kind, TokenId(old(self).cursor.curr)).unwrap(),
                    t.span,
                )
                &&& r is Ok && t.kind == TokenKind::Ident && tok_at(
                    old(self).toks(),
                    old(self).pos() + 1,
                ).kind != TokenKind::CurlyL ==> final(self).exprs@[old(self).exprs@.len() as int]
                    == (
                    Expr::Variable(
                        IdentId(
                            crate::ast::interned(old(self).idents@, old(self).text(t)).1 as u32,
                        ),
                    ),
                    t.span,
                )
            }),
            ({
                let (m, st) = p_operand(old(self).cursor.lexer, old(self).pview());
                &&& final(self).pview() == st
                &&& presult(r, m, old(self).cursor.lexer)
            }),
        decreases old(self).ntoks() - old(self).cursor.curr, 0nat,
    {
        proof {
            lemma_consumed_end_mono(self.cursor.lexer, self.pos(), self.pos() + 1);
            lemma_tok_at_in_src(self.cursor.lexer, self.pos());
        }
        let tok_id = self.cursor.curr_id();
        let t = self.cursor.eat();
        match t.kind {
            TokenKind::IntLit => Ok(self.push_expr(Expr::Literal(ExprLiteral::Int(tok_id)), t.span)),
            TokenKind::FloatLit => Ok(
                self.push_expr(Expr::Literal(ExprLiteral::Float(tok_id)), t.span),
            ),
            TokenKind::Keyword(KeywordKind::True) => Ok(
                self.push_expr(Expr::Literal(ExprLiteral::Bool(tok_id)), t.span),
            ),
            TokenKind::Keyword(KeywordKind::False) => Ok(
                self.push_expr(Expr::Literal(ExprLiteral::Bool(tok_id)), t.span),
            ),
            TokenKind::Ident => {
                let ident = self.push_ident(t);
                proof {
                    lemma_consumed_end_mono(self.cursor.lexer, self.pos(), self.pos() + 1);
                }
                if self.cursor.eat_if(TokenKind::CurlyL).is_some() {
                    // struct literal, members in the order of the fields
                    let members = self.collect_listing_exprs(
                        TokenKind::CurlyR,
                        "unclosed struct literal",
                    )?;
                    Ok(self.push_expr(Expr::Literal(ExprLiteral::Struct(ident, members)), t.span))
                } else {
                    Ok(self.push_expr(Expr::Variable(ident), t.span))
                }
            },
            TokenKind::Minus | TokenKind::Bang => {
                let lvl = prefix_lvl(t.kind);
                let rhs = self.parse_expr(lvl)?;
                Ok(self.push_expr(Expr::Unary { op: tok_id, rhs }, t.span))
            },
            TokenKind::ParenL => {
                let lhs = self.parse_expr(0)?;
                self.expect_ex(TokenKind::ParenR, "unclosed parenthesis", t)?;
                Ok(lhs)
            },
            TokenKind::BraceL => {
                let exprs = self.collect_listing_exprs(TokenKind::BraceR, "unclosed array literal")?;
                Ok(self.push_expr(Expr::Literal(ExprLiteral::Array(exprs)), t.span))
            },
            _ => Err(self.err("invalid lhs expression", t)),
        }
    }

    /// Applies the postfix operator `op`, just eaten, to `lhs`, in an
    /// expression that started at token `t` (see `p_postfix`).
    fn parse_postfix(&mut self, lhs: ExprId, op: Token, t: Token) -> (r: ParseResult<ExprId>)
        requires
            old(self).inv(),
            old(self).cursor.curr <= old(self).ntoks(),
            old(self).exprs@.len() < old(self).cursor.curr,
            lhs.0 < old(self).exprs@.len(),
            op.span.start <= op.span.end <= old(self).cursor.lexer.src@.len(),
            t.span.start <= t.span.end <= old(self).cursor.lexer.src@.len(),
        ensures
            final(self).inv(),
            final(self).cursor.lexer == old(self).cursor.lexer,
            old(self).cursor.curr <= final(self).cursor.curr,
            prefix_of(old(self).exprs@, final(self).exprs@),
            prefix_of(old(self).idents@, final(self).idents@),
            final(self).exprs@.len() - old(self).exprs@.len() <= final(self).cursor.curr - old(
                self,
            ).cursor.curr + 1,
            final(self).idents@.len() - old(self).idents@.len() <= final(self).cursor.curr - old(
                self,
            ).cursor.curr,
            final(self).stmts@ == old(self).stmts@,
            final(self).toplvl@ == old(self).toplvl@,
            final(self).annots@ == old(self).annots@,
            match r {
                Ok(id) => {
                    &&& final(self).cursor.curr <= final(self).ntoks()
                    &&& old(self).exprs@.len() <= id.0 < final(self).exprs@.len()
                },
                Err(_) => final(self).cursor.curr <= final(self).ntoks() + 1,
            },
            ({
                let (m, st) = crate::grammar::p_postfix(
                    old(self).cursor.lexer,
                    old(self).pview(),
                    lhs,
                    op,
                    t,
                );
                &&& final(self).pview() == st
                &&& presult(r, m, old(self).cursor.lexer)
            }),
        decreases old(self).ntoks() - old(self).cursor.curr, 3nat,
    {
        match op.kind {
            TokenKind::ParenL => {
                let args = self.collect_listing_exprs(TokenKind::ParenR, "unclosed function call")?;
                Ok(self.push_expr(Expr::Call { callee: lhs, args }, op.span))
            },
            TokenKind::Dot => {
                let rhs = self.expect_ident("expect member idientifier after . operation")?;
                Ok(self.push_expr(Expr::Member { lhs, field: rhs }, op.span))
            },
            TokenKind::BraceL => {
                let rhs = self.parse_expr(0)?;
                self.expect(TokenKind::BraceR, "unclosed array indexing bracket")?;
                Ok(self.push_expr(Expr::Index { lhs, idx: rhs }, op.span))
            },
            _ => Err(self.err("invalid postfix expression", t)),
        }
    }

    /// Parses an expression whose operators bind at least as tightly as
    /// `prec_lvl` (Pratt parsing).
    fn parse_expr(&mut self, prec_lvl: i8) -> (r: ParseResult<ExprId>)
        requires
            old(self).inv(),
            old(self).cursor.curr <= old(self).ntoks(),
        ensures
            final(self).inv(),
            final(self).advanced_from(old(self)),
            final(self).stmts@ == old(self).stmts@,
            final(self).toplvl@ == old(self).toplvl@,
            final(self).annots@ == old(self).annots@,
            match r {
                Ok(id) => {
                    &&& final(self).cursor.curr <= final(self).ntoks()
                    &&& final(self).cursor.curr > old(self).cursor.curr
                    &&& old(self).exprs@.len() <= id.0 < final(self).exprs@.len()
                },
                Err(_) => final(self).cursor.curr <= final(self).ntoks() + 1,
            },
            ({
                let t = tok_at(old(self).toks(), old(self).pos());
                &&& !expr_start(t.kind) ==> {
                    &&& (r matches Err(e) && e.describes(
                        old(self).cursor.lexer.src@,
                        old(self).cursor.lexer.line_offsets@,
                        "invalid lhs expression"@,
                        t.span,
                    ))
                    &&& final(self).cursor.curr == old(self).cursor.curr + 1
                    &&& final(self).exprs@ == old(self).exprs@
                }
                &&& (r is Ok && literal_node(t.kind, TokenId(old(self).cursor.curr)) is Some)
                    ==> final(self).exprs@[old(self).exprs@.len() as int] == (
                    literal_node(t.kind, TokenId(old(self).cursor.curr)).unwrap(),
                    t.span,
                )
                &&& r is Ok && t.kind == TokenKind::Ident && tok_at(
                    old(self).toks(),
                    old(self).pos() + 1,
                ).kind != TokenKind::CurlyL ==> final(self).exprs@[old(self).exprs@.len() as int]
                    == (
                    Expr::Variable(
                        IdentId(
                            crate::ast::interned(old(self).idents@, old(self).text(t)).1 as u32,
                        ),
                    ),
                    t.span,
                )
            }),
            ({
                let (m, st) = p_expr(old(self).cursor.lexer, old(self).pview(), prec_lvl);
                &&& final(self).pview() == st
                &&& presult(r, m, old(self).cursor.lexer)
            }),
        decreases old(self).ntoks() - old(self).cursor.curr, 1nat,
    {
        let ghost e0 = self.exprs@.len() as int;
        let ghost lx = self.cursor.lexer;
        let ghost st0 = self.pview();
        proof {
            lemma_tok_at_in_src(self.cursor.lexer, self.pos());
        }
        let t = self.cursor.peek();
        let mut lhs = self.parse_operand()?;
        let ghost first = self.exprs@[e0];
        assert(p_expr(lx, st0, prec_lvl) == crate::grammar::p_expr_rest(lx, self.pview(), lhs, prec_lvl, t));
        loop
            invariant_except_break
                p_expr(lx, st0, prec_lvl) == crate::grammar::p_expr_rest(
                    lx,
                    self.pview(),
                    lhs,
                    prec_lvl,
                    t,
                ),
            invariant
                lx == self.cursor.lexer,
                st0 == old(self).pview(),
                self.inv(),
                old(self).inv(),
                old(self).cursor.curr <= old(self).ntoks(),
                self.advanced_from(old(self)),
                self.stmts@ == old(self).stmts@,
                self.toplvl@ == old(self).toplvl@,
                self.annots@ == old(self).annots@,
                self.cursor.curr <= self.ntoks(),
                self.cursor.curr > old(self).cursor.curr,
                e0 == old(self).exprs@.len(),
                e0 <= lhs.0 < self.exprs@.len(),
                self.exprs@[e0] == first,
                t == tok_at(old(self).toks(), old(self).pos()),
                expr_start(t.kind),
                literal_node(t.kind, TokenId(old(self).cursor.curr)) is Some ==> first == (
                    literal_node(t.kind, TokenId(old(self).cursor.curr)).unwrap(),
                    t.span,
                ),
                t.kind == TokenKind::Ident && tok_at(old(self).toks(), old(self).pos() + 1).kind
                    != TokenKind::CurlyL ==> first == (
                    Expr::Variable(
                        IdentId(
                            crate::ast::interned(old(self).idents@, old(self).text(t)).1 as u32,
                        ),
                    ),
                    t.span,
                ),
                t.span.start <= t.span.end <= self.cursor.lexer.src@.len(),
            ensures
                p_expr(lx, st0, prec_lvl) == (Ok::<ExprId, crate::ErrSpec>(lhs), self.pview()),
            decreases self.ntoks() - self.cursor.curr,
        {
            if !self.cursor.has_some() {
                break;
            }
            let op: Token = self.cursor.peek();
            if !op.kind.is_op() {
                break;
            }
            let id = self.cursor.curr_id();
            proof {
                lemma_consumed_end_mono(self.cursor.lexer, self.pos(), self.pos() + 1);
                lemma_tok_at_in_src(self.cursor.lexer, self.pos());
            }
            if let Some(postfix_lvl) = postfix_lvl(op.kind) {
                if postfix_lvl < prec_lvl {
                    break;
                }
                self.cursor.advance();
                lhs = self.parse_postfix(lhs, op, t)?;
                continue ;
            }
            let (left_lvl, right_lvl) = infix_lvl(op.kind);
            if left_lvl < prec_lvl {
                break;
            }
            self.cursor.advance();
            let rhs = self.parse_expr(right_lvl)?;
            lhs = self.push_expr(Expr::Binary { op: id, lhs, rhs }, t.span);
        }
        Ok(lhs)
    }


    /// Parses a comma-separated list of type annotations up to `terminator`.
    fn collect_listing_annots(&mut self, terminator: TokenKind, err_unclosed: &str) -> (r:
        ParseResult<Vec<TyAnnotId>>)
        requires
            old(self).inv(),
            old(self).cursor.curr <= old(self).ntoks(),
            terminator != TokenKind::Error,
        ensures
            final(self).inv(),
            final(self).advanced_from(old(self)),
            final(self).annots_kept(old(self)),
            final(self).stmts@ == old(self).stmts@,
            final(self).toplvl@ == old(self).toplvl@,
            match r {
                Ok(list) => {
                    &&& final(self).cursor.curr <= final(self).ntoks()
                    &&& final(self).cursor.curr > old(self).cursor.curr
                    &&& annot_ids_in(
                        list@,
                        old(self).annots@.len() as int,
                        final(self).annots@.len() as int,
                    )
                    &&& forest(
                        final(self).annots@,
                        list@,
                        old(self).annots@.len() as int,
                        final(self).annots@.len() as int,
                    )
                    &&& no_generic(
                        final(self).annots@,
                        old(self).annots@.len() as int,
                        final(self).annots@.len() as int,
                    )
                },
                Err(_) => final(self).cursor.curr <= final(self).ntoks() + 1,
            },
            ({
                let (m, st) = p_annots(
                    old(self).cursor.lexer,
                    old(self).pview(),
                    terminator,
                    err_unclosed@,
                    Seq::empty(),
                );
                &&& final(self).pview() == st
                &&& presult(
                    match r {
                        Ok(l) => Ok::<Seq<TyAnnotId>, FrontendErr>(l@),
                        Err(e) => Err(e),
                    },
                    m,
                    old(self).cursor.lexer,
                )
            }),
        decreases old(self).ntoks() - old(self).cursor.curr, 1nat,
    {
        let mut list: Vec<TyAnnotId> = Vec::new();
        let ghost lx = self.cursor.lexer;
        let ghost st0 = self.pview();
        assert(list@ == Seq::<TyAnnotId>::empty());
        loop
            invariant_except_break
                p_annots(lx, st0, terminator, err_unclosed@, Seq::empty()) == p_annots(
                    lx,
                    self.pview(),
                    terminator,
                    err_unclosed@,
                    list@,
                ),
            invariant
                lx == self.cursor.lexer,
                st0 == old(self).pview(),
                self.inv(),
                self.advanced_from(old(self)),
                self.annots_kept(old(self)),
                old(self).inv(),
                old(self).cursor.curr <= old(self).ntoks(),
                self.stmts@ == old(self).stmts@,
                self.toplvl@ == old(self).toplvl@,
                self.cursor.curr <= self.ntoks(),
                annot_ids_in(list@, old(self).annots@.len() as int, self.annots@.len() as int),
                forest(self.annots@, list@, old(self).annots@.len() as int, self.annots@.len() as int),
                no_generic(self.annots@, old(self).annots@.len() as int, self.annots@.len() as int),
                terminator != TokenKind::Error,
            ensures
                self.cursor.curr > old(self).cursor.curr,
                p_annots(lx, st0, terminator, err_unclosed@, Seq::empty()) == (
                    Ok::<Seq<TyAnnotId>, crate::ErrSpec>(list@),
                    self.pview(),
                ),
            decreases self.ntoks() - self.cursor.curr,
        {
            if !self.cursor.has_some() {
                let eof = self.cursor.lexer.eof();
                return Err(self.err(err_unclosed, eof));
            }
            proof {
                lemma_consumed_end_mono(self.cursor.lexer, self.pos(), self.pos() + 1);
                lemma_tok_at_in_src(self.cursor.lexer, self.pos());
            }
            if self.cursor.eat_if(terminator).is_some() {
                break;
            }
            let ghost a1 = self.annots@;
            let ghost l1 = list@;
            let item = self.parse_annot()?;
            list.push(item);
            proof {
                let a2 = self.annots@;
                lemma_forest_extend(a1, a2, l1, old(self).annots@.len() as int, a1.len() as int);
                lemma_forest_join(
                    a2,
                    l1,
                    seq![item],
                    old(self).annots@.len() as int,
                    a1.len() as int,
                    a2.len() as int,
                );
                assert(l1 + seq![item] =~= list@);
            }
            proof {
                lemma_consumed_end_mono(self.cursor.lexer, self.pos(), self.pos() + 2);
                lemma_tok_at_in_src(self.cursor.lexer, self.pos());
                lemma_tok_at_in_src(self.cursor.lexer, self.pos() + 1);
            }
            if self.cursor.eat_if(TokenKind::Comma).is_none() {
                if self.cursor.eat_if(terminator).is_some() {
                    break;
                }
                // neither a comma nor the end of the list follows the item
                if self.cursor.has_some() {
                    let tok = self.cursor.peek();
                    return Err(self.err(err_unclosed, tok));
                }
            }
        }
        Ok(list)
    }

    /// Parses a type annotation: `bool`, `int`, `float`, a function type
    /// `(params) -> ret`, an array type `[inner: len]` (`*` for a length
    /// left to inference) or a named type with optional `<generics>`.
    #[verifier::spinoff_prover]
    #[verifier::rlimit(100)]
    fn parse_annot(&mut self) -> (r: ParseResult<TyAnnotId>)
        requires
            old(self).inv(),
            old(self).cursor.curr <= old(self).ntoks(),
        ensures
            final(self).inv(),
            final(self).advanced_from(old(self)),
            final(self).annots_kept(old(self)),
            final(self).stmts@ == old(self).stmts@,
            final(self).toplvl@ == old(self).toplvl@,
            match r {
                Ok(id) => {
                    &&& final(self).cursor.curr <= final(self).ntoks()
                    &&& final(self).cursor.curr > old(self).cursor.curr
                    &&& old(self).annots@.len() <= id.0 && id.0 + 1 == final(self).annots@.len()
                    &&& forest(
                        final(self).annots@,
                        seq![id],
                        old(self).annots@.len() as int,
                        final(self).annots@.len() as int,
                    )
                    &&& no_generic(
                        final(self).annots@,
                        old(self).annots@.len() as int,
                        final(self).annots@.len() as int,
                    )
                },
                Err(_) => final(self).cursor.curr <= final(self).ntoks() + 1,
            },
            ({
                let t = tok_at(old(self).toks(), old(self).pos());
                &&& primitive_annot(t.kind) matches Some(a) ==> {
                    &&& r == Ok::<TyAnnotId, FrontendErr>(TyAnnotId(old(self).annots@.len() as u32))
                    &&& final(self).annots@ == old(self).annots@.push((a, t.span))
                    &&& final(self).cursor.curr == old(self).cursor.curr + 1
                }
                &&& !annot_start(t.kind) ==> {
                    &&& (r matches Err(e) && e.describes(
                        old(self).cursor.lexer.src@,
                        old(self).cursor.lexer.line_offsets@,
                        "invalid type annotation"@,
                        t.span,
                    ))
                    &&& final(self).cursor.curr == old(self).cursor.curr + 1
                    &&& final(self).annots@ == old(self).annots@
                    &&& final(self).exprs@ == old(self).exprs@
                }
            }),
            ({
                let (m, st) = p_annot(old(self).cursor.lexer, old(self).pview());
                &&& final(self).pview() == st
                &&& presult(r, m, old(self).cursor.lexer)
            }),
        decreases old(self).ntoks() - old(self).cursor.curr, 0nat,
    {
        proof {
            lemma_consumed_end_mono(self.cursor.lexer, self.pos(), self.pos() + 1);
            lemma_tok_at_in_src(self.cursor.lexer, self.pos());
        }
        let t = self.cursor.eat();
        let annot = match t.kind {
            TokenKind::Keyword(k) => match k {
                KeywordKind::Bool => TyAnnot::Bool,
                KeywordKind::Int => TyAnnot::Int,
                KeywordKind::Float => TyAnnot::Float,
                _ => {
                    return Err(self.err("invalid type annotation", t));
                },
            },
            TokenKind::ParenL => {
                // function
                let params = self.collect_listing_annots(
                    TokenKind::ParenR,
                    "unclosed parenthesis in function annotation's params",
                )?;
                proof {
                    lemma_consumed_end_mono(self.cursor.lexer, self.pos(), self.pos() + 1);
                    lemma_tok_at_in_src(self.cursor.lexer, self.pos());
                }
                let ghost a1 = self.annots@;
                let ret = if self.cursor.eat_if(TokenKind::Arrow).is_some() {
                    Some(self.parse_annot()?)
                } else {
                    None
                };
                proof {
                    let lo = old(self).annots@.len() as int;
                    if let Some(r) = ret {
                        let a2 = self.annots@;
                        lemma_forest_extend(a1, a2, params@, lo, a1.len() as int);
                        lemma_forest_join(a2, params@, seq![r], lo, a1.len() as int, a2.len() as int);
                        assert(params@ + seq![r] =~= params@.push(r));
                    }
                }
                TyAnnot::Func { params, ret }
            },
            TokenKind::BraceL => {
                // array
                let inner = self.parse_annot()?;
                self.expect(TokenKind::Colon, "expect ':' after array inner type")?;
                proof {
                    lemma_consumed_end_mono(self.cursor.lexer, self.pos(), self.pos() + 1);
                    lemma_tok_at_in_src(self.cursor.lexer, self.pos());
                }
                let len_tok = self.cursor.peek();
                let len = match len_tok.kind {
                    // size will be inferred later
                    TokenKind::Star => {
                        self.cursor.advance();
                        None
                    },
                    _ => Some(self.parse_expr(0)?),
                };
                self.expect(TokenKind::BraceR, "expect closing ']' in array type annotation")?;
                TyAnnot::Array { inner, len }
            },
            TokenKind::Ident => {
                // a named type; the type checker looks the name up later
                let name = self.push_ident(t);
                proof {
                    lemma_consumed_end_mono(self.cursor.lexer, self.pos(), self.pos() + 1);
                    lemma_tok_at_in_src(self.cursor.lexer, self.pos());
                }
                let generics = if self.cursor.eat_if(TokenKind::Less).is_some() {
                    self.collect_listing_annots(TokenKind::Great, "unclosed generics listing")?
                } else {
                    Vec::new()
                };
                TyAnnot::UserDef { name, generics }
            },
            _ => {
                return Err(self.err("invalid type annotation", t));
            },
        };
        proof {
            lemma_forest_parent(
                self.annots@,
                annot_children(annot),
                old(self).annots@.len() as int,
                annot,
                t.span,
            );
        }
        Ok(self.push_annot(annot, t.span))
    }


    /// Parses the rest of a declaration whose name token was just consumed:
    /// an optional `: annotation`, then `=` and the initial value.
    fn parse_decl(&mut self, name: Token, constant: bool) -> (r: ParseResult<(Decl, Span)>)
        requires
            old(self).inv(),
            old(self).just_ate(name),
            name.kind == TokenKind::Ident,
        ensures
            final(self).inv(),
            final(self).advanced_by(old(self), 1),
            final(self).annots_kept(old(self)),
            final(self).stmts@ == old(self).stmts@,
            final(self).toplvl@ == old(self).toplvl@,
            match r {
                Ok((d, span)) => {
                    &&& final(self).cursor.curr <= final(self).ntoks()
                    &&& final(self).cursor.curr > old(self).cursor.curr
                    &&& span == name.span
                    &&& d.constant == constant
                    &&& d.ident.0 == crate::ast::interned(old(self).idents@, old(self).text(name)).1
                    &&& decl_ok(
                        d,
                        final(self).exprs@.len() as int,
                        final(self).annots@.len() as int,
                        final(self).idents@.len() as int,
                    )
                },
                Err(_) => final(self).cursor.curr <= final(self).ntoks() + 1,
            },
            ({
                let (m, st) = p_decl(old(self).cursor.lexer, old(self).pview(), name, constant);
                &&& final(self).pview() == st
                &&& presult(r, m, old(self).cursor.lexer)
            }),
    {
        let ident = self.push_ident(name);
        proof {
            lemma_tok_at_in_src(self.cursor.lexer, self.pos());
            lemma_consumed_end_mono(self.cursor.lexer, self.pos(), self.pos() + 1);
            lemma_tok_at_in_src(self.cursor.lexer, self.pos() - 1);
        }
        let t = self.cursor.peek();
        let annot = if t.kind == TokenKind::Assign {
            self.cursor.advance();
            None
        } else if self.cursor.peek().kind == TokenKind::Colon {
            self.cursor.advance();
            let id = self.parse_annot()?;
            // eat '='
            self.expect(TokenKind::Assign, "expect '=' after type annotation")?;
            Some(id)
        } else {
            return Err(self.err("Expect ':' or '=' after declaration name", name));
        };
        let rhs = self.parse_expr(0)?;
        let decl = Decl { ident, annot, rhs, constant };
        Ok((decl, name.span))
    }

    /// Parses `let` or `const` declaration, as a statement or at top level.
    fn parse_let_or_const(&mut self, constant: bool, toplvl: bool) -> (r: ParseResult<StmtId>)
        requires
            old(self).inv(),
            old(self).cursor.curr < old(self).ntoks(),
        ensures
            final(self).inv(),
            final(self).advanced_from(old(self)),
            final(self).annots_kept(old(self)),
            toplvl ==> final(self).stmts@ == old(self).stmts@,
            !toplvl ==> final(self).toplvl@ == old(self).toplvl@,
            r is Err ==> final(self).toplvl@ == old(self).toplvl@,
            match r {
                Ok(id) => {
                    &&& final(self).cursor.curr <= final(self).ntoks()
                    &&& final(self).cursor.curr > old(self).cursor.curr
                    &&& toplvl ==> id.0 == old(self).toplvl@.len() && final(self).toplvl@.len()
                        == id.0 + 1 && final(self).toplvl@[id.0 as int].0 is Decl
                    &&& !toplvl ==> id.0 == old(self).stmts@.len() && final(self).stmts@.len()
                        == id.0 + 1 && final(self).stmts@[id.0 as int].0 is Decl
                },
                Err(_) => final(self).cursor.curr <= final(self).ntoks() + 1,
            },
            tok_at(old(self).toks(), old(self).pos() + 1).kind != TokenKind::Ident ==> {
                &&& (r matches Err(e) && e.describes(
                    old(self).cursor.lexer.src@,
                    old(self).cursor.lexer.line_offsets@,
                    "expected identifier after 'const' keyword"@,
                    old(self).toks()[old(self).pos()].span,
                ))
                &&& final(self).cursor.curr == old(self).cursor.curr + 1
            },
            ({
                let (m, st) = p_let(old(self).cursor.lexer, old(self).pview(), constant, toplvl);
                &&& final(self).pview() == st
                &&& presult(r, m, old(self).cursor.lexer)
            }),
    {
        proof {
            lemma_consumed_end_mono(self.cursor.lexer, self.pos(), self.pos() + 2);
            lemma_tok_at_in_src(self.cursor.lexer, self.pos());
            lemma_tok_at_in_src(self.cursor.lexer, self.pos() + 1);
        }
        // eat 'let' or 'const'
        let t = self.cursor.eat();
        let name = self.cursor.peek();
        if name.kind != TokenKind::Ident {
            return Err(self.err("expected identifier after 'const' keyword", t));
        }
        // eat ident
        self.cursor.advance();
        let (decl, span) = self.parse_decl(name, constant)?;
        let id = if toplvl {
            self.push_toplvl(StmtTopLvl::Decl(decl), span)
        } else {
            self.push_stmt(Stmt::Decl(decl), span)
        };
        Ok(id)
    }

    /// Parses `= rhs` after the target of an assignment.
    fn parse_assign(&mut self, lhs: ExprId) -> (r: ParseResult<StmtId>)
        requires
            old(self).inv(),
            old(self).cursor.curr < old(self).ntoks(),
            lhs.0 < old(self).exprs@.len(),
            old(self).stmts@.len() < old(self).cursor.curr,
        ensures
            final(self).inv(),
            final(self).advanced_from(old(self)),
            final(self).annots@ == old(self).annots@,
            final(self).toplvl@ == old(self).toplvl@,
            match r {
                Ok(id) => {
                    &&& final(self).cursor.curr <= final(self).ntoks()
                    &&& final(self).cursor.curr > old(self).cursor.curr
                    &&& id.0 == old(self).stmts@.len()
                    &&& final(self).stmts@.len() == id.0 + 1
                    &&& final(self).stmts@[id.0 as int].0 matches Stmt::Assign { lhs: l, rhs: _ }
                        && l == lhs
                },
                Err(_) => final(self).cursor.curr <= final(self).ntoks() + 1,
            },
            ({
                let (m, st) = p_assign(old(self).cursor.lexer, old(self).pview(), lhs);
                &&& final(self).pview() == st
                &&& presult(r, m, old(self).cursor.lexer)
            }),
    {
        proof {
            lemma_consumed_end_mono(self.cursor.lexer, self.pos(), self.pos() + 1);
            lemma_tok_at_in_src(self.cursor.lexer, self.pos());
        }
        // eat '='
        let t = self.cursor.eat();
        let rhs = self.parse_expr(0)?;
        let stmt = self.push_stmt(Stmt::Assign { lhs, rhs }, t.span);
        Ok(stmt)
    }

    /// Parses a block `{ stmts }`; its first token is taken as the `{`.
    fn parse_block(&mut self) -> (r: ParseResult<StmtId>)
        requires
            old(self).inv(),
            old(self).cursor.curr <= old(self).ntoks(),
        ensures
            final(self).inv(),
            final(self).advanced_from(old(self)),
            final(self).annots_kept(old(self)),
            final(self).toplvl@ == old(self).toplvl@,
            match r {
                Ok(id) => {
                    &&& final(self).cursor.curr <= final(self).ntoks()
                    &&& final(self).cursor.curr > old(self).cursor.curr
                    &&& id.0 + 1 == final(self).stmts@.len()
                    &&& old(self).stmts@.len() <= id.0
                    &&& final(self).stmts@[id.0 as int].0 is Block
                },
                Err(_) => final(self).cursor.curr <= final(self).ntoks() + 1,
            },
            ({
                let (m, st) = p_block(old(self).cursor.lexer, old(self).pview());
                &&& final(self).pview() == st
                &&& presult(r, m, old(self).cursor.lexer)
            }),
        decreases old(self).ntoks() - old(self).cursor.curr, 0nat,
    {
        proof {
            lemma_consumed_end_mono(self.cursor.lexer, self.pos(), self.pos() + 1);
            lemma_tok_at_in_src(self.cursor.lexer, self.pos());
        }
        let ghost lx = self.cursor.lexer;
        let ghost st0 = self.pview();
        // eat '{'
        let t = self.cursor.eat();
        let mut stmts: Vec<StmtId> = Vec::new();
        assert(stmts@ == Seq::<StmtId>::empty());
        while self.cursor.has_some()
            invariant
                lx == self.cursor.lexer,
                st0 == old(self).pview(),
                p_block(lx, st0) == crate::grammar::p_block_rest(lx, self.pview(), t, stmts@),
                self.inv(),
                old(self).inv(),
                old(self).cursor.curr <= old(self).ntoks(),
                self.advanced_from(old(self)),
                self.annots_kept(old(self)),
                self.toplvl@ == old(self).toplvl@,
                self.cursor.curr <= self.ntoks() + 1,
                self.cursor.curr > old(self).cursor.curr,
                self.stmts@.len() - old(self).stmts@.len() < self.cursor.curr - old(self).cursor.curr,
                stmt_ids_in(stmts@, old(self).stmts@.len() as int, self.stmts@.len() as int),
                t == tok_at(old(self).toks(), old(self).pos()),
                t.span.start <= t.span.end <= self.cursor.lexer.src@.len(),
            decreases self.ntoks() - self.cursor.curr,
        {
            proof {
                lemma_consumed_end_mono(self.cursor.lexer, self.pos(), self.pos() + 1);
            }
            if self.cursor.peek().kind == TokenKind::CurlyR {
                self.cursor.advance();
                return Ok(self.push_stmt(Stmt::Block(stmts), t.span));
            }
            let id = self.parse_stmt()?;
            stmts.push(id);
        }
        return Err(self.err("unclosed block", t));
    }

    /// Parses one statement, with an optional `;` after it.
    #[verifier::spinoff_prover]
    #[verifier::rlimit(80)]
    fn parse_stmt(&mut self) -> (r: ParseResult<StmtId>)
        requires
            old(self).inv(),
            old(self).cursor.curr < old(self).ntoks(),
        ensures
            final(self).inv(),
            final(self).advanced_from(old(self)),
            final(self).annots_kept(old(self)),
            final(self).toplvl@ == old(self).toplvl@,
            match r {
                Ok(id) => {
                    &&& final(self).cursor.curr <= final(self).ntoks()
                    &&& final(self).cursor.curr > old(self).cursor.curr
                    &&& old(self).stmts@.len() <= id.0 < final(self).stmts@.len()
                },
                Err(_) => final(self).cursor.curr <= final(self).ntoks() + 1,
            },
            ({
                let (m, st) = p_stmt(old(self).cursor.lexer, old(self).pview());
                &&& final(self).pview() == st
                &&& presult(r, m, old(self).cursor.lexer)
            }),
        decreases old(self).ntoks() - old(self).cursor.curr, 1nat,
    {
        proof {
            lemma_tok_at_in_src(self.cursor.lexer, self.pos());
            lemma_consumed_end_mono(self.cursor.lexer, self.pos(), self.pos() + 1);
        }
        let t = self.cursor.peek();
        let stmt = match t.kind {
            TokenKind::Ident => {
                let lhs = self.parse_expr(0)?;
                let op = self.cursor.peek();
                match op.kind {
                    TokenKind::Assign => {
                        proof {
                            lemma_tok_at_in_src(self.cursor.lexer, self.pos());
                        }
                        self.parse_assign(lhs)?
                    },
                    // expression
                    _ => self.push_stmt(Stmt::Expr(lhs), t.span),
                }
            },
            TokenKind::CurlyL => self.parse_block()?,
            TokenKind::Keyword(k) => match k {
                KeywordKind::Let => self.parse_let_or_const(false, false)?,
                KeywordKind::Const => self.parse_let_or_const(true, false)?,
                KeywordKind::Return => {
                    self.cursor.advance();
                    let expr = self.parse_expr(0)?;
                    self.push_stmt(Stmt::Return(expr), t.span)
                },
                KeywordKind::If | KeywordKind::While => {
                    // `if` and `while` statements are not read yet
                    self.branch_met = true;
                    return Err(self.err("invalid keyword", t));
                },
                _ => {
                    self.cursor.advance();
                    return Err(self.err("invalid keyword", t));
                },
            },
            _ => {
                let id = self.parse_expr(0)?;
                self.push_stmt(Stmt::Expr(id), t.span)
            },
        };
        proof {
            lemma_consumed_end_mono(self.cursor.lexer, self.pos(), self.pos() + 1);
            lemma_tok_at_in_src(self.cursor.lexer, self.pos());
        }
        if let Some(_) = self.cursor.eat_if(TokenKind::Semicolon) {
        }
        Ok(stmt)
    }


    /// Within the tree of annotation `id`, turns each named type that is
    /// one of `generics_set` into that generic parameter, in depth-first
    /// order; a generic parameter given a generics list of its own is an
    /// error, and what was turned before it stays turned.
    #[verifier::rlimit(40)]
    fn resolve_generics(
        &mut self,
        id: TyAnnotId,
        generics_set: &GenericParams,
        Ghost(lo): Ghost<int>,
        Ghost(hi): Ghost<int>,
    ) -> (r: ParseResult<()>)
        requires
            old(self).inv(),
            post_order(old(self).annots@, lo, hi),
            lo <= subtree_start(old(self).annots@, id.0 as int),
            id.0 < hi,
            no_generic(
                old(self).annots@,
                subtree_start(old(self).annots@, id.0 as int),
                id.0 + 1,
            ),
        ensures
            final(self).inv(),
            final(self).cursor == old(self).cursor,
            final(self).exprs@ == old(self).exprs@,
            final(self).stmts@ == old(self).stmts@,
            final(self).toplvl@ == old(self).toplvl@,
            final(self).idents == old(self).idents,
            final(self).branch_met == old(self).branch_met,
            final(self).annots@.len() == old(self).annots@.len(),
            post_order(final(self).annots@, lo, hi),
            forall|j: int|
                #![trigger final(self).annots@[j]]
                0 <= j < old(self).annots@.len() ==> annot_children(final(self).annots@[j].0)
                    == annot_children(old(self).annots@[j].0),
            forall|x: int|
                0 <= x ==> #[trigger] subtree_start(final(self).annots@, x) == subtree_start(
                    old(self).annots@,
                    x,
                ),
            ({
                let a = old(self).annots@;
                let b = final(self).annots@;
                let start = subtree_start(a, id.0 as int);
                &&& forall|j: int|
                    #![trigger b[j]]
                    0 <= j < a.len() && !(start <= j <= id.0) ==> b[j] == a[j]
                &&& r is Err <==> exists|j: int|
                    start <= j <= id.0 && #[trigger] misused_generic(a[j].0, generics_set@)
                &&& r is Ok ==> forall|j: int|
                    #![trigger b[j]]
                    start <= j <= id.0 ==> b[j] == resolve_node(a[j], generics_set@)
                &&& forall|j: int|
                    #![trigger b[j]]
                    start <= j <= id.0 ==> b[j] == a[j] || b[j] == resolve_node(a[j], generics_set@)
            }),
            ({
                let (m, a2) = resolve_tree(old(self).pview().annots, id.0 as int, generics_set@);
                &&& final(self).pview() == with_annots(old(self).pview(), a2)
                &&& presult(r, m, old(self).cursor.lexer)
            }),
        decreases id.0,
    {
        let ghost a = self.annots@;
        let ghost av = self.pview().annots;
        let ghost start = subtree_start(a, id.0 as int);
        proof {
            lemma_subtree_start_le(a, id.0 as int);
            assert(av[id.0 as int] == (a[id.0 as int].0@, a[id.0 as int].1));
        }
        let idx = id.0 as usize;
        let span = self.annots[idx].1;
        let (user_name, n_generics, children) = match &self.annots[idx].0 {
            TyAnnot::UserDef { name, generics } => (Some(*name), generics.len(), copy_annot_ids(
                generics,
            )),
            TyAnnot::Generic(_) => {
                // never reached: a tree being resolved holds no generic yet
                proof {
                    assert(!(a[id.0 as int].0 is Generic));
                }
                return Ok(());
            },
            TyAnnot::Bool | TyAnnot::Int | TyAnnot::Float => (None, 0, Vec::new()),
            TyAnnot::Array { inner, .. } => {
                let mut v: Vec<TyAnnotId> = Vec::new();
                v.push(*inner);
                (None, 0, v)
            },
            TyAnnot::Func { params, ret } => {
                let mut v = copy_annot_ids(params);
                if let Some(r) = ret {
                    v.push(*r);
                }
                (None, 0, v)
            },
        };
        assert(children@ == annot_children(a[id.0 as int].0));
        proof {
            assert(children@.skip(0) =~= children@);
            lemma_annot_kids(a[id.0 as int].0);
        }
        if let Some(name) = user_name {
            if generics_set.has(name) {
                // it is a plain generic parameter
                if n_generics != 0 {
                    proof {
                        assert(misused_generic(a[id.0 as int].0, generics_set@));
                    }
                    return Err(
                        FrontendErr::new(
                            self.cursor.lexer,
                            "generic type can't have a generics list",
                            span,
                        ),
                    );
                }
                // edit the annotation from UserDef to Generic
                let ghost before = *self;
                self.annots.set(idx, (TyAnnot::Generic(name), span));
                proof {
                    let b = self.annots@;
                    assert(self.pview().annots =~= av.update(
                        id.0 as int,
                        (AnnotV::Generic(name), span),
                    ));
                    assert(annot_children(b[id.0 as int].0) =~= annot_children(a[id.0 as int].0));
                    assert forall|j: int| 0 <= j < a.len() implies #[trigger] annot_children(b[j].0)
                        == annot_children(a[j].0) by {
                        if j != id.0 {
                            assert(b[j] == a[j]);
                        }
                    }
                    lemma_post_order_same(a, b, lo, hi);
                    assert(arenas_ok(
                        self.exprs@,
                        self.stmts@,
                        self.toplvl@,
                        b,
                        self.ntoks(),
                        self.idents@.len() as int,
                    )) by {
                        assert(annot_ok(a[id.0 as int].0, id.0 as int, self.exprs@.len() as int, self.idents@.len() as int));
                        assert forall|i: int| #![trigger b[i]] 0 <= i < b.len() implies annot_ok(
                            b[i].0,
                            i,
                            self.exprs@.len() as int,
                            self.idents@.len() as int,
                        ) by {
                            if i != id.0 {
                                assert(b[i] == a[i]);
                            }
                        }
                    }
                    assert(!misused_generic(a[id.0 as int].0, generics_set@));
                }
                return Ok(());
            }
        }
        proof {
            if children@.len() > 0 {
                lemma_chained_below(a, children@, id.0 as int, 0);
            }
        }
        // descend into the children, in order
        let ghost mut nxt: int = if children@.len() > 0 {
            subtree_start(a, children@[0].0 as int)
        } else {
            id.0 as int
        };
        let mut k: usize = 0;
        while k < children.len()
            invariant
                self.inv(),
                self.cursor == old(self).cursor,
                self.exprs@ == old(self).exprs@,
                self.stmts@ == old(self).stmts@,
                self.toplvl@ == old(self).toplvl@,
                self.idents == old(self).idents,
                self.branch_met == old(self).branch_met,
                a == old(self).annots@,
                start == subtree_start(a, id.0 as int),
                children@ == annot_children(a[id.0 as int].0),
                chained(a, children@, id.0 as int),
                post_order(a, lo, hi),
                lo <= start,
                id.0 < hi,
                no_generic(a, start, id.0 + 1),
                !misused_generic(a[id.0 as int].0, generics_set@),
                resolve_node(a[id.0 as int], generics_set@) == a[id.0 as int],
                0 <= id.0 < a.len(),
                k <= children@.len(),
                k < children@.len() ==> nxt == subtree_start(a, children@[k as int].0 as int),
                k == children@.len() ==> nxt == id.0,
                start <= nxt <= id.0,
                self.annots@.len() == a.len(),
                post_order(self.annots@, lo, hi),
                forall|j: int|
                    #![trigger self.annots@[j]]
                    0 <= j < a.len() ==> annot_children(self.annots@[j].0) == annot_children(
                        a[j].0,
                    ),
                forall|x: int|
                    0 <= x ==> #[trigger] subtree_start(self.annots@, x) == subtree_start(a, x),
                forall|j: int|
                    #![trigger self.annots@[j]]
                    0 <= j < a.len() && !(start <= j < nxt) ==> self.annots@[j] == a[j],
                forall|j: int|
                    #![trigger self.annots@[j]]
                    start <= j < nxt ==> self.annots@[j] == resolve_node(a[j], generics_set@),
                forall|j: int|
                    #![trigger a[j]]
                    start <= j < nxt ==> !misused_generic(a[j].0, generics_set@),
                av == old(self).pview().annots,
                resolve_tree(av, id.0 as int, generics_set@) == resolve_forest(
                    self.pview().annots,
                    children@.skip(k as int),
                    generics_set@,
                    id.0 as int,
                ),
            decreases children@.len() - k,
        {
            let child = children[k];
            let ghost mid = self.annots@;
            let ghost midv = self.pview().annots;
            let ghost c = child.0 as int;
            proof {
                lemma_chained_below(a, children@, id.0 as int, k as int);
                if k + 1 < children@.len() {
                    lemma_chained_below(a, children@, id.0 as int, k as int + 1);
                }
                assert(subtree_start(mid, c) == nxt);
                assert(children@.skip(k as int)[0] == child);
                assert(children@.skip(k as int).drop_first() =~= children@.skip(k + 1));
            }
            match self.resolve_generics(child, generics_set, Ghost(lo), Ghost(hi)) {
                Ok(()) => {},
                Err(e) => {
                    proof {
                        let b = self.annots@;
                        let w = choose|j: int| nxt <= j <= c && #[trigger] misused_generic(mid[j].0, generics_set@);
                        assert(mid[w] == a[w]);
                        assert(misused_generic(a[w].0, generics_set@));
                        assert forall|j: int| #![trigger b[j]] start <= j <= id.0 implies b[j] == a[j]
                            || b[j] == resolve_node(a[j], generics_set@) by {
                            if j < nxt {
                                assert(b[j] == mid[j]);
                            } else if j <= c {
                                assert(mid[j] == a[j]);
                            } else {
                                assert(b[j] == mid[j]);
                            }
                        }
                    }
                    return Err(e);
                },
            }
            proof {
                let b = self.annots@;
                let nn = c + 1;
                if k + 1 < children@.len() {
                    assert(children@[k as int].0 + 1 == subtree_start(a, children@[k + 1].0 as int));
                } else {
                    assert(children@.last() == children@[k as int]);
                }
                assert forall|j: int| #![trigger b[j]] 0 <= j < a.len() && !(start <= j < nn)
                    implies b[j] == a[j] by {
                    assert(b[j] == mid[j]);
                }
                assert forall|j: int| #![trigger b[j]] start <= j < nn implies b[j] == resolve_node(
                    a[j],
                    generics_set@,
                ) by {
                    if j < nxt {
                        assert(b[j] == mid[j]);
                    } else {
                        assert(mid[j] == a[j]);
                    }
                }
                assert forall|j: int| #![trigger a[j]] start <= j < nn implies !misused_generic(
                    a[j].0,
                    generics_set@,
                ) by {
                    if nxt <= j {
                        assert(mid[j] == a[j]);
                        if misused_generic(mid[j].0, generics_set@) {
                            assert(exists|j: int| nxt <= j <= c && #[trigger] misused_generic(mid[j].0, generics_set@));
                        }
                    }
                }
                nxt = nn;
            }
            k = k + 1;
        }
        Ok(())
    }


    /// Parses a comma-separated list of distinct identifiers up to
    /// `terminator`.
    fn collect_listing_unique_idents(
        &mut self,
        terminator: TokenKind,
        item_msg: &str,
        err_unclosed: &str,
        err_duplicates: &str,
    ) -> (r: ParseResult<GenericParams>)
        requires
            old(self).inv(),
            old(self).cursor.curr <= old(self).ntoks(),
            terminator != TokenKind::Error,
        ensures
            final(self).inv(),
            final(self).advanced_from(old(self)),
            final(self).exprs@ == old(self).exprs@,
            final(self).stmts@ == old(self).stmts@,
            final(self).toplvl@ == old(self).toplvl@,
            final(self).annots@ == old(self).annots@,
            match r {
                Ok(list) => {
                    &&& final(self).cursor.curr <= final(self).ntoks()
                    &&& final(self).cursor.curr > old(self).cursor.curr
                    &&& idents_below(list@, final(self).idents@.len() as int)
                    &&& no_duplicates(list@)
                },
                Err(_) => final(self).cursor.curr <= final(self).ntoks() + 1,
            },
            ({
                let (m, st) = p_idents(
                    old(self).cursor.lexer,
                    old(self).pview(),
                    terminator,
                    item_msg@,
                    err_unclosed@,
                    err_duplicates@,
                    Seq::empty(),
                );
                &&& final(self).pview() == st
                &&& presult(
                    match r {
                        Ok(l) => Ok::<Seq<IdentId>, FrontendErr>(l@),
                        Err(e) => Err(e),
                    },
                    m,
                    old(self).cursor.lexer,
                )
            }),
    {
        let mut list: Vec<IdentId> = Vec::new();
        let mut found: HashSet<u32> = HashSet::new();
        let ghost lx = self.cursor.lexer;
        let ghost st0 = self.pview();
        assert(list@ == Seq::<IdentId>::empty());
        assert(ident_numbers(list@) =~= Set::<u32>::empty());
        loop
            invariant_except_break
                p_idents(lx, st0, terminator, item_msg@, err_unclosed@, err_duplicates@, Seq::empty())
                    == p_idents(
                    lx,
                    self.pview(),
                    terminator,
                    item_msg@,
                    err_unclosed@,
                    err_duplicates@,
                    list@,
                ),
            invariant
                lx == self.cursor.lexer,
                st0 == old(self).pview(),
                self.inv(),
                self.advanced_from(old(self)),
                old(self).inv(),
                old(self).cursor.curr <= old(self).ntoks(),
                self.exprs@ == old(self).exprs@,
                self.stmts@ == old(self).stmts@,
                self.toplvl@ == old(self).toplvl@,
                self.annots@ == old(self).annots@,
                self.cursor.curr <= self.ntoks(),
                idents_below(list@, self.idents@.len() as int),
                no_duplicates(list@),
                found@ == ident_numbers(list@),
                terminator != TokenKind::Error,
            ensures
                self.cursor.curr > old(self).cursor.curr,
                p_idents(lx, st0, terminator, item_msg@, err_unclosed@, err_duplicates@, Seq::empty())
                    == (Ok::<Seq<IdentId>, crate::ErrSpec>(list@), self.pview()),
            decreases self.ntoks() - self.cursor.curr,
        {
            if !self.cursor.has_some() {
                let eof = self.cursor.lexer.eof();
                return Err(self.err(err_unclosed, eof));
            }
            proof {
                lemma_consumed_end_mono(self.cursor.lexer, self.pos(), self.pos() + 1);
                lemma_tok_at_in_src(self.cursor.lexer, self.pos());
            }
            if self.cursor.eat_if(terminator).is_some() {
                break;
            }
            let tok = self.cursor.peek();
            let item = self.expect_ident(item_msg)?;
            assert(ident_numbers(list@).contains(item.0) == list@.contains(IdentId(item.0)));
            proof {
                broadcast use {
                    vstd::std_specs::hash::axiom_u32_obeys_hash_table_key_model,
                    vstd::std_specs::hash::axiom_random_state_builds_valid_hashers,
                };
                assert(vstd::std_specs::hash::obeys_key_model::<u32>());
                assert(vstd::std_specs::hash::builds_valid_hashers::<std::collections::hash_map::RandomState>());
            }
            if !found.insert(item.0) {
                return Err(self.err(err_duplicates, tok));
            }
            proof {
                lemma_ident_numbers_push(list@, item);
            }
            list.push(item);
            proof {
                lemma_consumed_end_mono(self.cursor.lexer, self.pos(), self.pos() + 2);
                lemma_tok_at_in_src(self.cursor.lexer, self.pos());
                lemma_tok_at_in_src(self.cursor.lexer, self.pos() + 1);
            }
            if self.cursor.eat_if(TokenKind::Comma).is_none() {
                if self.cursor.eat_if(terminator).is_some() {
                    break;
                }
                // neither a comma nor the end of the list follows the item
                if self.cursor.has_some() {
                    let tok = self.cursor.peek();
                    return Err(self.err(err_unclosed, tok));
                }
            }
        }
        Ok(GenericParams { list, found })
    }

    /// Parses `name: annotation`.
    fn parse_typed_name(&mut self, name_msg: &str, colon_msg: &str) -> (r: ParseResult<
        (IdentId, TyAnnotId),
    >)
        requires
            old(self).inv(),
            old(self).cursor.curr <= old(self).ntoks(),
        ensures
            final(self).inv(),
            final(self).advanced_from(old(self)),
            final(self).annots_kept(old(self)),
            final(self).stmts@ == old(self).stmts@,
            final(self).toplvl@ == old(self).toplvl@,
            match r {
                Ok(item) => {
                    &&& final(self).cursor.curr <= final(self).ntoks()
                    &&& final(self).cursor.curr > old(self).cursor.curr
                    &&& item.0.0 < final(self).idents@.len()
                    &&& old(self).annots@.len() <= item.1.0 < final(self).annots@.len()
                    &&& forest(
                        final(self).annots@,
                        seq![item.1],
                        old(self).annots@.len() as int,
                        final(self).annots@.len() as int,
                    )
                    &&& no_generic(
                        final(self).annots@,
                        old(self).annots@.len() as int,
                        final(self).annots@.len() as int,
                    )
                },
                Err(_) => final(self).cursor.curr <= final(self).ntoks() + 1,
            },
            ({
                let (m, st) = p_typed(old(self).cursor.lexer, old(self).pview(), name_msg@, colon_msg@);
                &&& final(self).pview() == st
                &&& presult(r, m, old(self).cursor.lexer)
            }),
    {
        let ident = self.expect_ident(name_msg)?;
        proof {
            lemma_tok_at_in_src(self.cursor.lexer, self.pos());
        }
        self.expect(TokenKind::Colon, colon_msg)?;
        let ty = self.parse_annot()?;
        Ok((ident, ty))
    }

    /// Parses a comma-separated list of distinct `name: annotation` pairs up
    /// to `terminator`.
    fn collect_listing_unique_pairs(
        &mut self,
        terminator: TokenKind,
        name_msg: &str,
        colon_msg: &str,
        err_unclosed: &str,
        err_duplicates: &str,
    ) -> (r: ParseResult<Vec<(IdentId, TyAnnotId)>>)
        requires
            old(self).inv(),
            old(self).cursor.curr <= old(self).ntoks(),
            terminator != TokenKind::Error,
        ensures
            final(self).inv(),
            final(self).advanced_from(old(self)),
            final(self).annots_kept(old(self)),
            final(self).stmts@ == old(self).stmts@,
            final(self).toplvl@ == old(self).toplvl@,
            match r {
                Ok(list) => {
                    &&& final(self).cursor.curr <= final(self).ntoks()
                    &&& final(self).cursor.curr > old(self).cursor.curr
                    &&& pairs_below(
                        list@,
                        final(self).idents@.len() as int,
                        final(self).annots@.len() as int,
                    )
                    &&& no_duplicates(list@)
                    &&& forest(
                        final(self).annots@,
                        seconds(list@),
                        old(self).annots@.len() as int,
                        final(self).annots@.len() as int,
                    )
                    &&& no_generic(
                        final(self).annots@,
                        old(self).annots@.len() as int,
                        final(self).annots@.len() as int,
                    )
                },
                Err(_) => final(self).cursor.curr <= final(self).ntoks() + 1,
            },
            ({
                let (m, st) = p_pairs(
                    old(self).cursor.lexer,
                    old(self).pview(),
                    terminator,
                    (name_msg@, colon_msg@, err_unclosed@, err_duplicates@),
                    Seq::empty(),
                );
                &&& final(self).pview() == st
                &&& presult(
                    match r {
                        Ok(l) => Ok::<Seq<(IdentId, TyAnnotId)>, FrontendErr>(l@),
                        Err(e) => Err(e),
                    },
                    m,
                    old(self).cursor.lexer,
                )
            }),
    {
        let mut list: Vec<(IdentId, TyAnnotId)> = Vec::new();
        let ghost lx = self.cursor.lexer;
        let ghost st0 = self.pview();
        let ghost msgs = (name_msg@, colon_msg@, err_unclosed@, err_duplicates@);
        assert(list@ == Seq::<(IdentId, TyAnnotId)>::empty());
        proof {
            assert(seconds(list@) =~= Seq::<TyAnnotId>::empty());
        }
        loop
            invariant_except_break
                p_pairs(lx, st0, terminator, msgs, Seq::empty()) == p_pairs(
                    lx,
                    self.pview(),
                    terminator,
                    msgs,
                    list@,
                ),
            invariant
                lx == self.cursor.lexer,
                st0 == old(self).pview(),
                msgs == (name_msg@, colon_msg@, err_unclosed@, err_duplicates@),
                self.inv(),
                self.advanced_from(old(self)),
                self.annots_kept(old(self)),
                old(self).inv(),
                old(self).cursor.curr <= old(self).ntoks(),
                self.stmts@ == old(self).stmts@,
                self.toplvl@ == old(self).toplvl@,
                self.cursor.curr <= self.ntoks(),
                pairs_below(list@, self.idents@.len() as int, self.annots@.len() as int),
                no_duplicates(list@),
                forest(
                    self.annots@,
                    seconds(list@),
                    old(self).annots@.len() as int,
                    self.annots@.len() as int,
                ),
                no_generic(self.annots@, old(self).annots@.len() as int, self.annots@.len() as int),
                terminator != TokenKind::Error,
            ensures
                self.cursor.curr > old(self).cursor.curr,
                p_pairs(lx, st0, terminator, msgs, Seq::empty()) == (
                    Ok::<Seq<(IdentId, TyAnnotId)>, crate::ErrSpec>(list@),
                    self.pview(),
                ),
            decreases self.ntoks() - self.cursor.curr,
        {
            if !self.cursor.has_some() {
                let eof = self.cursor.lexer.eof();
                return Err(self.err(err_unclosed, eof));
            }
            proof {
                lemma_consumed_end_mono(self.cursor.lexer, self.pos(), self.pos() + 1);
                lemma_tok_at_in_src(self.cursor.lexer, self.pos());
            }
            if self.cursor.eat_if(terminator).is_some() {
                break;
            }
            let tok = self.cursor.peek();
            let ghost a1 = self.annots@;
            let ghost l1 = list@;
            let ghost n1 = self.idents@.len() as int;
            let item = self.parse_typed_name(name_msg, colon_msg)?;
            if contains_pair(&list, item) {
                return Err(self.err(err_duplicates, tok));
            }
            list.push(item);
            proof {
                let a2 = self.annots@;
                lemma_push_pair(
                    l1,
                    item,
                    n1,
                    a1.len() as int,
                    self.idents@.len() as int,
                    a2.len() as int,
                );
                lemma_forest_extend(a1, a2, seconds(l1), old(self).annots@.len() as int, a1.len() as int);
                lemma_forest_join(
                    a2,
                    seconds(l1),
                    seq![item.1],
                    old(self).annots@.len() as int,
                    a1.len() as int,
                    a2.len() as int,
                );
                assert(seconds(l1) + seq![item.1] =~= seconds(list@));
                lemma_consumed_end_mono(self.cursor.lexer, self.pos(), self.pos() + 2);
                lemma_tok_at_in_src(self.cursor.lexer, self.pos());
                lemma_tok_at_in_src(self.cursor.lexer, self.pos() + 1);
            }
            if self.cursor.eat_if(TokenKind::Comma).is_none() {
                if self.cursor.eat_if(terminator).is_some() {
                    break;
                }
                // neither a comma nor the end of the list follows the item
                if self.cursor.has_some() {
                    let tok = self.cursor.peek();
                    return Err(self.err(err_unclosed, tok));
                }
            }
        }
        Ok(list)
    }


    /// Turns the named type at `idx`, which has no generics list, into the
    /// generic parameter of that name.
    fn make_generic(&mut self, idx: usize, name: IdentId, span: Span)
        requires
            old(self).inv(),
            idx < old(self).annots@.len(),
            old(self).annots@[idx as int].1 == span,
            old(self).annots@[idx as int].0 matches TyAnnot::UserDef { name: n, generics }
                && n == name && generics@.len() == 0,
        ensures
            final(self).inv(),
            final(self).cursor == old(self).cursor,
            final(self).exprs@ == old(self).exprs@,
            final(self).stmts@ == old(self).stmts@,
            final(self).toplvl@ == old(self).toplvl@,
            final(self).idents == old(self).idents,
            final(self).branch_met == old(self).branch_met,
            final(self).annots@ == old(self).annots@.update(
                idx as int,
                (TyAnnot::Generic(name), span),
            ),
            final(self).pview() == with_annots(
                old(self).pview(),
                old(self).pview().annots.update(idx as int, (AnnotV::Generic(name), span)),
            ),
            forall|j: int|
                #![trigger final(self).annots@[j]]
                0 <= j < old(self).annots@.len() ==> annot_children(final(self).annots@[j].0)
                    == annot_children(old(self).annots@[j].0),
            forall|x: int|
                0 <= x ==> #[trigger] subtree_start(final(self).annots@, x) == subtree_start(
                    old(self).annots@,
                    x,
                ),
    {
        let ghost a = self.annots@;
        self.annots.set(idx, (TyAnnot::Generic(name), span));
        proof {
            let b = self.annots@;
            assert(self.pview().annots =~= old(self).pview().annots.update(
                idx as int,
                (AnnotV::Generic(name), span),
            ));
            assert(annot_children(b[idx as int].0) =~= annot_children(a[idx as int].0));
            assert forall|j: int| 0 <= j < a.len() implies #[trigger] annot_children(b[j].0)
                == annot_children(a[j].0) by {
                if j != idx {
                    assert(b[j] == a[j]);
                }
            }
            assert forall|x: int| 0 <= x implies #[trigger] subtree_start(b, x) == subtree_start(
                a,
                x,
            ) by {
                lemma_subtree_start_same(a, b, x);
            }
            assert(annot_ok(a[idx as int].0, idx as int, self.exprs@.len() as int, self.idents@.len() as int));
            assert forall|i: int| #![trigger b[i]] 0 <= i < b.len() implies annot_ok(
                b[i].0,
                i,
                self.exprs@.len() as int,
                self.idents@.len() as int,
            ) by {
                if i != idx {
                    assert(b[i] == a[i]);
                }
            }
            assert forall|i: int| #![trigger b[i]] 0 <= i < b.len() implies b[i].1.start
                <= b[i].1.end <= self.cursor.lexer.src@.len() by {
                if i != idx {
                    assert(b[i] == a[i]);
                }
            }
        }
    }

    /// Parses a function body, then turns every named type written in it
    /// that is one of `generics_set` into that generic parameter.
    fn parse_block_with_generics(&mut self, generics_set: &GenericParams) -> (r: ParseResult<StmtId>)
        requires
            old(self).inv(),
            old(self).cursor.curr <= old(self).ntoks(),
        ensures
            final(self).inv(),
            final(self).advanced_from(old(self)),
            final(self).annots_kept(old(self)),
            final(self).toplvl@ == old(self).toplvl@,
            match r {
                Ok(id) => {
                    &&& final(self).cursor.curr <= final(self).ntoks()
                    &&& final(self).cursor.curr > old(self).cursor.curr
                    &&& id.0 + 1 == final(self).stmts@.len()
                    &&& old(self).stmts@.len() <= id.0
                    &&& final(self).stmts@[id.0 as int].0 is Block
                    &&& forall|j: int|
                        #![trigger final(self).annots@[j]]
                        old(self).annots@.len() <= j < final(self).annots@.len()
                            ==> !(final(self).annots@[j].0 matches TyAnnot::UserDef { name, generics }
                            && generics_set@.contains(name))
                },
                Err(_) => final(self).cursor.curr <= final(self).ntoks() + 1,
            },
            ({
                let (m, st) = p_block_generics(
                    old(self).cursor.lexer,
                    old(self).pview(),
                    generics_set@,
                );
                &&& final(self).pview() == st
                &&& presult(r, m, old(self).cursor.lexer)
            }),
    {
        // the annotations written in the body are those added while
        // parsing it; each one naming a generic parameter becomes it
        let top = self.annots.len();
        let block = self.parse_block()?;
        let ghost mid = *self;
        let ghost midv = self.pview();
        let mut id = top;
        while id < self.annots.len()
            invariant
                self.inv(),
                self.cursor == mid.cursor,
                self.exprs@ == mid.exprs@,
                self.stmts@ == mid.stmts@,
                self.toplvl@ == mid.toplvl@,
                self.idents == mid.idents,
                self.branch_met == mid.branch_met,
                self.annots@.len() == mid.annots@.len(),
                mid.advanced_from(old(self)),
                mid.annots_kept(old(self)),
                mid.toplvl@ == old(self).toplvl@,
                mid.cursor.curr <= mid.ntoks(),
                mid.cursor.curr > old(self).cursor.curr,
                block.0 + 1 == mid.stmts@.len(),
                old(self).stmts@.len() <= block.0,
                mid.stmts@[block.0 as int].0 is Block,
                top == old(self).annots@.len(),
                top <= id <= self.annots@.len(),
                forall|j: int|
                    #![trigger self.annots@[j]]
                    0 <= j < self.annots@.len() && !(top <= j < id) ==> self.annots@[j]
                        == mid.annots@[j],
                forall|j: int|
                    #![trigger self.annots@[j]]
                    top <= j < id ==> !(self.annots@[j].0 matches TyAnnot::UserDef {
                        name,
                        generics,
                    } && generics_set@.contains(name)),
                midv == mid.pview(),
                p_block(self.cursor.lexer, old(self).pview()) == (
                    Ok::<StmtId, crate::ErrSpec>(block),
                    midv,
                ),
                old(self).pview().annots.len() == top,
                resolve_flat(midv.annots, top as int, midv.annots.len() as int, generics_set@)
                    == resolve_flat(
                    self.pview().annots,
                    id as int,
                    midv.annots.len() as int,
                    generics_set@,
                ),
                self.pview() == with_annots(midv, self.pview().annots),
            decreases self.annots@.len() - id,
        {
            let span = self.annots[id].1;
            proof {
                assert(self.pview().annots[id as int] == (self.annots@[id as int].0@, span));
            }
            let conv = match &self.annots[id].0 {
                TyAnnot::UserDef { name, generics } => {
                    if generics_set.has(*name) {
                        // it is a plain generic parameter
                        if generics.len() != 0 {
                            return Err(
                                FrontendErr::new(
                                    self.cursor.lexer,
                                    "generic type can't have a generics list",
                                    span,
                                ),
                            );
                        }
                        Some(*name)
                    } else {
                        None
                    }
                },
                _ => None,
            };
            if let Some(name) = conv {
                // edit the annotation from UserDef to Generic
                self.make_generic(id, name, span);
            }
            id = id + 1;
        }
        Ok(block)
    }


    /// Resolves the generic parameters in the trees of `ids`, which lie one
    /// after the other over `[lo, hi)`, in order; stops at the first error.
    fn resolve_generics_list(
        &mut self,
        ids: &Vec<TyAnnotId>,
        generics_set: &GenericParams,
        Ghost(lo): Ghost<int>,
        Ghost(hi): Ghost<int>,
    ) -> (r: ParseResult<()>)
        requires
            old(self).inv(),
            forest(old(self).annots@, ids@, lo, hi),
            no_generic(old(self).annots@, lo, hi),
        ensures
            final(self).inv(),
            final(self).cursor == old(self).cursor,
            final(self).exprs@ == old(self).exprs@,
            final(self).stmts@ == old(self).stmts@,
            final(self).toplvl@ == old(self).toplvl@,
            final(self).idents == old(self).idents,
            final(self).branch_met == old(self).branch_met,
            final(self).annots@.len() == old(self).annots@.len(),
            forall|j: int|
                #![trigger final(self).annots@[j]]
                0 <= j < old(self).annots@.len() && !(lo <= j < hi) ==> final(self).annots@[j]
                    == old(self).annots@[j],
            r is Err <==> exists|j: int|
                lo <= j < hi && #[trigger] misused_generic(old(self).annots@[j].0, generics_set@),
            r is Ok ==> forall|j: int|
                #![trigger final(self).annots@[j]]
                lo <= j < hi ==> final(self).annots@[j] == resolve_node(
                    old(self).annots@[j],
                    generics_set@,
                ),
            ({
                let (m, a2) = resolve_forest(old(self).pview().annots, ids@, generics_set@, hi);
                &&& final(self).pview() == with_annots(old(self).pview(), a2)
                &&& presult(r, m, old(self).cursor.lexer)
            }),
    {
        let ghost a = self.annots@;
        let ghost av = self.pview().annots;
        proof {
            assert(ids@.skip(0) =~= ids@);
        }
        let ghost mut nxt: int = lo;
        let mut k: usize = 0;
        while k < ids.len()
            invariant
                self.inv(),
                self.cursor == old(self).cursor,
                self.exprs@ == old(self).exprs@,
                self.stmts@ == old(self).stmts@,
                self.toplvl@ == old(self).toplvl@,
                self.idents == old(self).idents,
                self.branch_met == old(self).branch_met,
                a == old(self).annots@,
                forest(a, ids@, lo, hi),
                no_generic(a, lo, hi),
                k <= ids@.len(),
                k < ids@.len() ==> nxt == subtree_start(a, ids@[k as int].0 as int),
                k == ids@.len() ==> nxt == hi,
                lo <= nxt <= hi,
                self.annots@.len() == a.len(),
                post_order(self.annots@, lo, hi),
                forall|x: int|
                    0 <= x ==> #[trigger] subtree_start(self.annots@, x) == subtree_start(a, x),
                forall|j: int|
                    #![trigger self.annots@[j]]
                    0 <= j < a.len() && !(lo <= j < nxt) ==> self.annots@[j] == a[j],
                forall|j: int|
                    #![trigger self.annots@[j]]
                    lo <= j < nxt ==> self.annots@[j] == resolve_node(a[j], generics_set@),
                forall|j: int|
                    #![trigger a[j]]
                    lo <= j < nxt ==> !misused_generic(a[j].0, generics_set@),
                av == old(self).pview().annots,
                resolve_forest(av, ids@, generics_set@, hi) == resolve_forest(
                    self.pview().annots,
                    ids@.skip(k as int),
                    generics_set@,
                    hi,
                ),
            decreases ids@.len() - k,
        {
            let id = ids[k];
            let ghost mid = self.annots@;
            let ghost c = id.0 as int;
            proof {
                lemma_chained_below(a, ids@, hi, k as int);
                if k + 1 < ids@.len() {
                    lemma_chained_below(a, ids@, hi, k as int + 1);
                }
                assert(subtree_start(mid, c) == nxt);
                assert(ids@.skip(k as int)[0] == id);
                assert(ids@.skip(k as int).drop_first() =~= ids@.skip(k + 1));
                assert forall|j: int| #![trigger mid[j]] nxt <= j < c + 1 implies !(mid[j].0 is Generic) by {
                    assert(mid[j] == a[j]);
                }
            }
            match self.resolve_generics(id, generics_set, Ghost(lo), Ghost(hi)) {
                Ok(()) => {},
                Err(e) => {
                    proof {
                        let w = choose|j: int|
                            nxt <= j <= c && #[trigger] misused_generic(mid[j].0, generics_set@);
                        assert(mid[w] == a[w]);
                        assert(misused_generic(a[w].0, generics_set@));
                        let b = self.annots@;
                        assert forall|j: int| #![trigger b[j]] 0 <= j < a.len() && !(lo <= j < hi)
                            implies b[j] == a[j] by {
                            assert(b[j] == mid[j]);
                        }
                    }
                    return Err(e);
                },
            }
            proof {
                let b = self.annots@;
                let nn = c + 1;
                if k + 1 < ids@.len() {
                    assert(ids@[k as int].0 + 1 == subtree_start(a, ids@[k + 1].0 as int));
                } else {
                    assert(ids@.last() == ids@[k as int]);
                }
                assert forall|j: int| #![trigger b[j]] 0 <= j < a.len() && !(lo <= j < nn)
                    implies b[j] == a[j] by {
                    assert(b[j] == mid[j]);
                }
                assert forall|j: int| #![trigger b[j]] lo <= j < nn implies b[j] == resolve_node(
                    a[j],
                    generics_set@,
                ) by {
                    if j < nxt {
                        assert(b[j] == mid[j]);
                    } else {
                        assert(mid[j] == a[j]);
                    }
                }
                assert forall|j: int| #![trigger a[j]] lo <= j < nn implies !misused_generic(
                    a[j].0,
                    generics_set@,
                ) by {
                    if nxt <= j {
                        assert(mid[j] == a[j]);
                        if misused_generic(mid[j].0, generics_set@) {
                            assert(exists|j: int|
                                nxt <= j <= c && #[trigger] misused_generic(mid[j].0, generics_set@));
                        }
                    }
                }
                nxt = nn;
            }
            k = k + 1;
        }
        Ok(())
    }


    /// The annotation ids of a list of pairs.
    fn pair_annots(pairs: &Vec<(IdentId, TyAnnotId)>) -> (r: Vec<TyAnnotId>)
        ensures
            r@ == seconds(pairs@),
    {
        let mut r: Vec<TyAnnotId> = Vec::new();
        let mut i: usize = 0;
        while i < pairs.len()
            invariant
                i <= pairs@.len(),
                r@ == seconds(pairs@).subrange(0, i as int),
            decreases pairs@.len() - i,
        {
            r.push(pairs[i].1);
            i = i + 1;
            assert(r@ =~= seconds(pairs@).subrange(0, i as int));
        }
        assert(seconds(pairs@).subrange(0, pairs@.len() as int) =~= seconds(pairs@));
        r
    }

    /// Resolves the generic parameters in a function's parameter types,
    /// then in its return type.
    fn resolve_signature(
        &mut self,
        generics: &GenericParams,
        params: &Vec<(IdentId, TyAnnotId)>,
        ret: Option<TyAnnotId>,
        Ghost(lo): Ghost<int>,
        Ghost(mid): Ghost<int>,
    ) -> (r: ParseResult<()>)
        requires
            old(self).inv(),
            forest(old(self).annots@, seconds(params@), lo, mid),
            ret matches Some(t) ==> forest(
                old(self).annots@,
                seq![t],
                mid,
                old(self).annots@.len() as int,
            ),
            ret is None ==> mid == old(self).annots@.len(),
            no_generic(old(self).annots@, lo, old(self).annots@.len() as int),
        ensures
            final(self).inv(),
            final(self).cursor == old(self).cursor,
            final(self).exprs@ == old(self).exprs@,
            final(self).stmts@ == old(self).stmts@,
            final(self).toplvl@ == old(self).toplvl@,
            final(self).idents == old(self).idents,
            final(self).branch_met == old(self).branch_met,
            final(self).annots@.len() == old(self).annots@.len(),
            forall|j: int|
                #![trigger final(self).annots@[j]]
                0 <= j < lo ==> final(self).annots@[j] == old(self).annots@[j],
            ({
                let ids = match ret {
                    Some(x) => seconds(params@).push(x),
                    None => seconds(params@),
                };
                let (m, a2) = resolve_forest(
                    old(self).pview().annots,
                    ids,
                    generics@,
                    old(self).annots@.len() as int,
                );
                &&& final(self).pview() == with_annots(old(self).pview(), a2)
                &&& presult(r, m, old(self).cursor.lexer)
            }),
    {
        let mut ids = Self::pair_annots(params);
        if let Some(r) = ret {
            ids.push(r);
        }
        proof {
            let a = self.annots@;
            if let Some(r) = ret {
                lemma_forest_join(a, seconds(params@), seq![r], lo, mid, a.len() as int);
                assert(seconds(params@) + seq![r] =~= ids@);
            }
        }
        self.resolve_generics_list(&ids, generics, Ghost(lo), Ghost(self.annots@.len() as int))
    }

    /// Parses a function's signature after `fn`: its name, its generic
    /// parameters, its parameters and its return type. Named types in the
    /// parameter and return types that are generic parameters become those
    /// parameters.
    #[verifier::spinoff_prover]
    #[verifier::rlimit(100)]
    fn parse_signature(&mut self) -> (r: ParseResult<
        (IdentId, GenericParams, Vec<(IdentId, TyAnnotId)>, Option<TyAnnotId>),
    >)
        requires
            old(self).inv(),
            old(self).cursor.curr <= old(self).ntoks(),
        ensures
            final(self).inv(),
            final(self).advanced_from(old(self)),
            final(self).annots_kept(old(self)),
            final(self).toplvl@ == old(self).toplvl@,
            match r {
                Ok((name, generics, params, ret)) => {
                    &&& final(self).cursor.curr <= final(self).ntoks()
                    &&& final(self).cursor.curr > old(self).cursor.curr
                    &&& name.0 < final(self).idents@.len()
                    &&& pairs_below(
                        params@,
                        final(self).idents@.len() as int,
                        final(self).annots@.len() as int,
                    )
                    &&& ret matches Some(t) ==> t.0 < final(self).annots@.len()
                },
                Err(_) => final(self).cursor.curr <= final(self).ntoks() + 1,
            },
            ({
                let (m, st) = p_signature(old(self).cursor.lexer, old(self).pview());
                &&& final(self).pview() == st
                &&& presult(
                    match r {
                        Ok((n, g, p, t)) => Ok::<
                            (IdentId, Seq<IdentId>, Seq<(IdentId, TyAnnotId)>, Option<TyAnnotId>),
                            FrontendErr,
                        >((n, g@, p@, t)),
                        Err(e) => Err(e),
                    },
                    m,
                    old(self).cursor.lexer,
                )
            }),
    {
        let ident = self.expect_ident("expect name after 'fn' keyword")?;
        proof {
            lemma_consumed_end_mono(self.cursor.lexer, self.pos(), self.pos() + 1);
            lemma_tok_at_in_src(self.cursor.lexer, self.pos());
        }
        let generics = if self.cursor.eat_if(TokenKind::Less).is_some() {
            self.collect_listing_unique_idents(
                TokenKind::Great,
                "expected generic identifier",
                "unclosed generics listing",
                "repeated function generic parameter name",
            )?
        } else {
            GenericParams::empty()
        };
        self.expect(TokenKind::ParenL, "expect '(' after function name")?;
        let ghost lo = self.annots@.len() as int;
        let params = self.collect_listing_unique_pairs(
            TokenKind::ParenR,
            "expect param name in function signature",
            "expect ':' after param name",
            "unclosed parenthesis in function declaration's parameters",
            "repeated function parameter name",
        )?;
        self.parse_signature_tail(ident, generics, params, Ghost(lo))
    }

    /// Parses an optional `-> annotation` (see `p_ret`).
    fn parse_ret(&mut self) -> (r: ParseResult<Option<TyAnnotId>>)
        requires
            old(self).inv(),
            old(self).cursor.curr <= old(self).ntoks(),
        ensures
            final(self).inv(),
            final(self).advanced_from(old(self)),
            final(self).annots_kept(old(self)),
            final(self).toplvl@ == old(self).toplvl@,
            final(self).stmts@ == old(self).stmts@,
            match r {
                Ok(ret) => {
                    &&& final(self).cursor.curr <= final(self).ntoks()
                    &&& (ret matches Some(t) ==> {
                        &&& old(self).annots@.len() <= t.0 < final(self).annots@.len()
                        &&& forest(
                            final(self).annots@,
                            seq![t],
                            old(self).annots@.len() as int,
                            final(self).annots@.len() as int,
                        )
                        &&& no_generic(
                            final(self).annots@,
                            old(self).annots@.len() as int,
                            final(self).annots@.len() as int,
                        )
                    })
                    &&& ret is None ==> final(self).annots@ == old(self).annots@
                },
                Err(_) => final(self).cursor.curr <= final(self).ntoks() + 1,
            },
            ({
                let (m, st) = crate::grammar::p_ret(old(self).cursor.lexer, old(self).pview());
                &&& final(self).pview() == st
                &&& presult(r, m, old(self).cursor.lexer)
            }),
    {
        proof {
            lemma_consumed_end_mono(self.cursor.lexer, self.pos(), self.pos() + 1);
            lemma_tok_at_in_src(self.cursor.lexer, self.pos());
        }
        if self.cursor.eat_if(TokenKind::Arrow).is_some() {
            Ok(Some(self.parse_annot()?))
        } else {
            Ok(None)
        }
    }

    /// Parses the rest of a function's signature after its parameters (see
    /// `p_sig_tail`).
    #[verifier::spinoff_prover]
    #[verifier::rlimit(100)]
    fn parse_signature_tail(
        &mut self,
        ident: IdentId,
        generics: GenericParams,
        params: Vec<(IdentId, TyAnnotId)>,
        Ghost(lo): Ghost<int>,
    ) -> (r: ParseResult<(IdentId, GenericParams, Vec<(IdentId, TyAnnotId)>, Option<TyAnnotId>)>)
        requires
            old(self).inv(),
            old(self).cursor.curr <= old(self).ntoks(),
            forest(old(self).annots@, seconds(params@), lo, old(self).annots@.len() as int),
            no_generic(old(self).annots@, lo, old(self).annots@.len() as int),
            ident.0 < old(self).idents@.len(),
            pairs_below(params@, old(self).idents@.len() as int, old(self).annots@.len() as int),
        ensures
            final(self).inv(),
            final(self).advanced_from(old(self)),
            forall|k: int|
                0 <= k < lo ==> #[trigger] final(self).annots@[k] == old(self).annots@[k],
            final(self).toplvl@ == old(self).toplvl@,
            match r {
                Ok((name, g, ps, ret)) => {
                    &&& final(self).cursor.curr <= final(self).ntoks()
                    &&& final(self).cursor.curr >= old(self).cursor.curr
                    &&& name.0 < final(self).idents@.len()
                    &&& pairs_below(
                        ps@,
                        final(self).idents@.len() as int,
                        final(self).annots@.len() as int,
                    )
                    &&& ret matches Some(t) ==> t.0 < final(self).annots@.len()
                },
                Err(_) => final(self).cursor.curr <= final(self).ntoks() + 1,
            },
            ({
                let (m, st) = crate::grammar::p_sig_tail(
                    old(self).cursor.lexer,
                    old(self).pview(),
                    ident,
                    generics@,
                    params@,
                );
                &&& final(self).pview() == st
                &&& presult(
                    match r {
                        Ok((n, g, p, t)) => Ok::<
                            (IdentId, Seq<IdentId>, Seq<(IdentId, TyAnnotId)>, Option<TyAnnotId>),
                            FrontendErr,
                        >((n, g@, p@, t)),
                        Err(e) => Err(e),
                    },
                    m,
                    old(self).cursor.lexer,
                )
            }),
    {
        let ghost a1 = self.annots@;
        let ret = self.parse_ret()?;
        proof {
            lemma_forest_extend(a1, self.annots@, seconds(params@), lo, a1.len() as int);
        }
        // resolve generics
        if generics.len() != 0 {
            self.resolve_signature(&generics, &params, ret, Ghost(lo), Ghost(a1.len() as int))?;
        }
        Ok((ident, generics, params, ret))
    }

    /// Parses a function: `fn name<generics>(params) -> ret { body }`.
    /// Named types in the signature and body that are generic parameters
    /// become those parameters.
    #[verifier::spinoff_prover]
    #[verifier::rlimit(60)]
    fn parse_func(&mut self) -> (r: ParseResult<StmtId>)
        requires
            old(self).inv(),
            old(self).cursor.curr < old(self).ntoks(),
        ensures
            final(self).inv(),
            final(self).advanced_from(old(self)),
            final(self).annots_kept(old(self)),
            match r {
                Ok(id) => {
                    &&& final(self).cursor.curr <= final(self).ntoks()
                    &&& final(self).cursor.curr > old(self).cursor.curr
                    &&& id.0 == old(self).toplvl@.len()
                    &&& final(self).toplvl@.len() == id.0 + 1
                    &&& final(self).toplvl@[id.0 as int].0 is FnDecl
                },
                Err(_) => {
                    &&& final(self).cursor.curr <= final(self).ntoks() + 1
                    &&& final(self).toplvl@ == old(self).toplvl@
                },
            },
            ({
                let (m, st) = p_func(old(self).cursor.lexer, old(self).pview());
                &&& final(self).pview() == st
                &&& presult(r, m, old(self).cursor.lexer)
            }),
    {
        proof {
            lemma_consumed_end_mono(self.cursor.lexer, self.pos(), self.pos() + 1);
            lemma_tok_at_in_src(self.cursor.lexer, self.pos());
        }
        // eat 'fn'
        let t = self.cursor.eat();
        let (ident, generics, params, ret) = self.parse_signature()?;
        let is_generic = generics.len() != 0;
        let block = self.parse_block_with_generics(&generics)?;
        Ok(
            self.push_toplvl(
                StmtTopLvl::FnDecl { name: ident, params, ret, block, is_generic },
                t.span,
            ),
        )
    }

    /// Parses a struct declaration: `struct Name<generics> { fields }`.
    /// Named field types that are generic parameters become those
    /// parameters.
    #[verifier::rlimit(30)]
    fn parse_struct(&mut self) -> (r: ParseResult<StmtId>)
        requires
            old(self).inv(),
            old(self).cursor.curr < old(self).ntoks(),
        ensures
            final(self).inv(),
            final(self).advanced_from(old(self)),
            final(self).annots_kept(old(self)),
            final(self).stmts@ == old(self).stmts@,
            match r {
                Ok(id) => {
                    &&& final(self).cursor.curr <= final(self).ntoks()
                    &&& final(self).cursor.curr > old(self).cursor.curr
                    &&& id.0 == old(self).toplvl@.len()
                    &&& final(self).toplvl@.len() == id.0 + 1
                    &&& final(self).toplvl@[id.0 as int].0 is StructDecl
                },
                Err(_) => {
                    &&& final(self).cursor.curr <= final(self).ntoks() + 1
                    &&& final(self).toplvl@ == old(self).toplvl@
                },
            },
            ({
                let (m, st) = p_struct(old(self).cursor.lexer, old(self).pview());
                &&& final(self).pview() == st
                &&& presult(r, m, old(self).cursor.lexer)
            }),
    {
        proof {
            lemma_consumed_end_mono(self.cursor.lexer, self.pos(), self.pos() + 1);
            lemma_tok_at_in_src(self.cursor.lexer, self.pos());
        }
        // eat 'struct'
        let t = self.cursor.eat();
        let name = self.expect_ident("expect struct name after 'struct' keyword")?;
        proof {
            lemma_consumed_end_mono(self.cursor.lexer, self.pos(), self.pos() + 1);
            lemma_tok_at_in_src(self.cursor.lexer, self.pos());
        }
        let generics = if self.cursor.eat_if(TokenKind::Less).is_some() {
            self.collect_listing_unique_idents(
                TokenKind::Great,
                "expect generic argument name",
                "unclosed generic listing",
                "repeated generic parameter",
            )?
        } else {
            GenericParams::empty()
        };
        self.expect(TokenKind::CurlyL, "expect '{' after struct name")?;
        let ghost lo = self.annots@.len() as int;
        let fields = self.collect_listing_unique_pairs(
            TokenKind::CurlyR,
            "expect field name in struct declaration",
            "expect ':' after name in struct declaration",
            "expect '}' after struct fields",
            "repeated struct field name",
        )?;
        if generics.len() != 0 {
            let ids = Self::pair_annots(&fields);
            self.resolve_generics_list(&ids, &generics, Ghost(lo), Ghost(self.annots@.len() as int))?;
        }
        let generics = generics.into_list();
        Ok(self.push_toplvl(StmtTopLvl::StructDecl { name, fields, generics }, t.span))
    }

    /// Parses one top-level item (a declaration, a function or a struct),
    /// with an optional `;` after it.
    fn parse_toplvl(&mut self) -> (r: ParseResult<StmtId>)
        requires
            old(self).inv(),
            old(self).cursor.curr < old(self).ntoks(),
        ensures
            final(self).inv(),
            final(self).advanced_from(old(self)),
            final(self).annots_kept(old(self)),
            r matches Ok(id) ==> final(self).cursor.curr <= final(self).ntoks(),
            r matches Ok(id) ==> final(self).cursor.curr > old(self).cursor.curr,
            r matches Ok(id) ==> id.0 == old(self).toplvl@.len(),
            r matches Ok(id) ==> final(self).toplvl@.len() == id.0 + 1,
            r is Err ==> final(self).cursor.curr <= final(self).ntoks() + 1,
            r is Err ==> final(self).toplvl@ == old(self).toplvl@,
            ({
                let k = old(self).toks()[old(self).pos()].kind;
                &&& !(k is Keyword) ==> (r matches Err(e) && e.describes(
                    old(self).cursor.lexer.src@,
                    old(self).cursor.lexer.line_offsets@,
                    "invalid token at top level"@,
                    old(self).toks()[old(self).pos()].span,
                ))
                &&& (k is Keyword && k != TokenKind::Keyword(KeywordKind::Let) && k
                    != TokenKind::Keyword(KeywordKind::Const) && k != TokenKind::Keyword(
                    KeywordKind::Fn,
                ) && k != TokenKind::Keyword(KeywordKind::Struct)) ==> (r matches Err(e)
                    && e.describes(
                    old(self).cursor.lexer.src@,
                    old(self).cursor.lexer.line_offsets@,
                    "invalid keyword at top level"@,
                    old(self).toks()[old(self).pos()].span,
                ))
            }),
            ({
                let (m, st) = p_toplvl(old(self).cursor.lexer, old(self).pview());
                &&& final(self).pview() == st
                &&& presult(r, m, old(self).cursor.lexer)
            }),
    {
        proof {
            lemma_tok_at_in_src(self.cursor.lexer, self.pos());
        }
        let t = self.cursor.peek();
        let stmt = match t.kind {
            TokenKind::Keyword(k) => match k {
                KeywordKind::Let => self.parse_let_or_const(false, true),
                KeywordKind::Const => self.parse_let_or_const(true, true),
                KeywordKind::Fn => self.parse_func(),
                KeywordKind::Struct => self.parse_struct(),
                _ => {
                    return Err(self.err("invalid keyword at top level", t));
                },
            },
            _ => {
                return Err(self.err("invalid token at top level", t));
            },
        };
        proof {
            lemma_consumed_end_mono(self.cursor.lexer, self.pos(), self.pos() + 1);
            lemma_tok_at_in_src(self.cursor.lexer, self.pos());
        }
        if let Some(_) = self.cursor.eat_if(TokenKind::Semicolon) {
        }
        match stmt {
            Ok(id) => Ok(id),
            Err(e) => Err(e),
        }
    }

}

/// Parsing the source `src` meets an `if` or `while` statement, which the
/// parser does not read yet (see `p_stmt`).
pub open spec fn meets_branch(src: Seq<u8>) -> bool {
    exists|lx: Lexer|
        #[trigger] p_program(&lx, start_state(), Seq::empty()).0.branch && lx.src@ == src && (lex(
            src,
        ) matches LexOutcome::Done(toks, _) && lx.tokens@ == toks)
}

/// The arenas and names of `ast` are those of the grammar's state `st`.
pub open spec fn holds_state(ast: &Ast, st: PState) -> bool {
    &&& ast.exprs@.map_values(|p: Spanned<Expr>| (p.0@, p.1)) == st.exprs
    &&& ast.stmts@.map_values(|p: Spanned<Stmt>| (p.0@, p.1)) == st.stmts
    &&& ast.toplvl@.map_values(|p: Spanned<StmtTopLvl>| (p.0@, p.1)) == st.toplvl
    &&& ast.annots@.map_values(|p: Spanned<TyAnnot>| (p.0@, p.1)) == st.annots
    &&& ast.idents@ == st.names
}

/// Each error of `errors` reports the grammar's error at the same place in
/// `errs`.
pub open spec fn reports_all(errors: Seq<FrontendErr>, errs: Seq<crate::ErrSpec>, lx: &Lexer) -> bool {
    &&& errors.len() == errs.len()
    &&& forall|i: int|
        0 <= i < errs.len() ==> #[trigger] errors[i].describes(
            lx.src@,
            lx.line_offsets@,
            errs[i].0,
            errs[i].1,
        )
}

/// What parsing `src` gives: for a source that lexes, the program and the
/// errors of `p_program`, in order, which meets no `if` or `while`
/// statement; for an unclosed block comment, the error that reports it.
pub open spec fn parsed_as(src: Seq<u8>, r: Result<(Ast, Vec<FrontendErr>), FrontendErr>) -> bool {
    match lex(src) {
        LexOutcome::Done(toks, lines) => r matches Ok((ast, errors)) && ast.lexer.src@ == src
            && ast.lexer.tokens@ == toks && ast.lexer.line_offsets@ == lines && ast.wf() && ({
            let (st, errs) = p_program(&ast.lexer, start_state(), Seq::empty());
            &&& holds_state(&ast, st)
            &&& reports_all(errors@, errs, &ast.lexer)
            &&& !st.branch
        }),
        LexOutcome::Unclosed(s, lines) => r matches Err(e) && e.describes(
            src,
            lines,
            "unclosed block comment"@,
            Span { start: s, end: (s + 2) as u32 },
        ),
        LexOutcome::Stalled => false,
    }
}

/// Parses a source as `parse` does, but stops where parsing meets an `if`
/// or `while` statement, which is not read yet: `None` then.
#[verifier::spinoff_prover]
#[verifier::rlimit(60)]
pub fn parse_unless_branch(src: &[u8]) -> (r: Option<Result<(Ast, Vec<FrontendErr>), FrontendErr>>)
    requires
        src@.len() + 4 < u32::MAX,
        !(lex(src@) is Stalled),
    ensures
        r is None ==> meets_branch(src@),
        r matches Some(x) ==> parsed_as(src@, x),
{
    proof {
        crate::lexer::lemma_lex_well_formed(src@);
    }
    let lexer = match crate::lexer::tokenize(src) {
        Ok(l) => l,
        Err(e) => {
            return Some(Err(e));
        },
    };
    proof {
        crate::lexer::lemma_tokens_count(lexer.tokens@, lexer.src@.len() as int);
    }
    let mut parser = Parser::new(&lexer);
    let mut errors: Vec<FrontendErr> = Vec::new();
    let ghost mut errs: Seq<crate::ErrSpec> = Seq::empty();
    proof {
        let v = parser.pview();
        assert(v.exprs =~= start_state().exprs);
        assert(v.stmts =~= start_state().stmts);
        assert(v.toplvl =~= start_state().toplvl);
        assert(v.annots =~= start_state().annots);
        assert(v.names =~= start_state().names);
        assert(v == start_state());
    }
    while parser.cursor.has_some()
        invariant
            parser.inv(),
            parser.cursor.lexer == &lexer,
            p_program(&lexer, start_state(), Seq::empty()) == p_program(
                &lexer,
                parser.pview(),
                errs,
            ),
            reports_all(errors@, errs, &lexer),
        decreases parser.ntoks() + 3 - parser.cursor.curr,
    {
        let ghost st = parser.pview();
        let ghost (m, s1) = p_toplvl(&lexer, st);
        let stmt = parser.parse_toplvl();
        if let Err(err) = stmt {
            // the caller reports the error
            let ghost prev = errors@;
            errors.push(err);
            let ghost before = parser.pos();
            parser.cursor.eat_until_safe();
            proof {
                lemma_consumed_end_mono(parser.cursor.lexer, before, parser.pos());
                let e = m->Err_0;
                assert(parser.pview() == PState { pos: next_safe(&lexer, s1.pos + 1), ..s1 });
                errs = errs.push(e);
                assert forall|i: int| 0 <= i < errs.len() implies #[trigger] errors@[i].describes(
                    lexer.src@,
                    lexer.line_offsets@,
                    errs[i].0,
                    errs[i].1,
                ) by {
                    if i < errs.len() - 1 {
                        assert(errors@[i] == prev[i]);
                    }
                }
            }
        }
    }
    let ghost fin = parser.pview();
    if parser.branch_met {
        proof {
            assert(p_program(&lexer, start_state(), Seq::empty()).0.branch);
        }
        return None;
    }
    let Parser { cursor: _, exprs, stmts, toplvl, annots, idents, branch_met: _ } = parser;
    let ast = Ast { lexer, exprs, stmts, toplvl, annots, idents };
    proof {
        assert(holds_state(&ast, fin));
    }
    Some(Ok((ast, errors)))
}

/// Parses a source: splits it into tokens, then reads top-level items one
/// after the other. After an error the parser skips to the next token at
/// which it may resume (see `TokenKind::safe`) and goes on; the errors are
/// returned in the order they occurred, beside the program (see
/// `p_program`). An unclosed block comment fails the whole parse. The
/// lexer must not stall on the source, and parsing must not meet an `if`
/// or `while` statement, which are not read yet (`parse_unless_branch`
/// tells where it does).
pub fn parse(src: &[u8]) -> (r: Result<(Ast, Vec<FrontendErr>), FrontendErr>)
    requires
        src@.len() + 4 < u32::MAX,
        !(lex(src@) is Stalled),
        !meets_branch(src@),
    ensures
        parsed_as(src@, r),
{
    match parse_unless_branch(src) {
        Some(r) => r,
        None => vstd::pervasive::unreached(),
    }
}

} // verus!
