use std::collections::hash_map::DefaultHasher;
use std::hash::{Hash, Hasher};

use lib::ast::{hash_name, Ast, IdentId, StringInterner};
use lib::lexer::{tokenize, KeywordKind, TokenKind};
use lib::parser::{
    infix_lvl, parse, parse_unless_branch, postfix_lvl, prefix_lvl, Expr, ExprId, ExprLiteral, Stmt,
    StmtId, StmtTopLvl, TyAnnot, TyAnnotId,
};
use lib::FrontendErr;

fn parsed(src: &[u8]) -> (Ast, Vec<FrontendErr>) {
    match parse(src) {
        Ok(r) => r,
        Err(e) => panic!("unexpected parse failure: {:?}", e),
    }
}

fn ident_text(ast: &Ast, id: IdentId) -> Vec<u8> {
    ast.get_ident(id).to_vec()
}

#[test]
fn parse_program_items() {
    let (ast, errors) =
        parsed(b"let x: int = 5; fn f(a: int) -> int { a } struct P { a: int, b: bool }");
    assert!(errors.is_empty());
    assert_eq!(ast.toplvl.len(), 3);
    match ast.get_toplvl(StmtId(0)) {
        StmtTopLvl::Decl(d) => {
            assert_eq!(ident_text(&ast, d.ident), b"x".to_vec());
            assert!(!d.constant);
            let annot = d.annot.unwrap();
            assert!(matches!(ast.get_annot(annot), TyAnnot::Int));
            assert!(matches!(ast.get_expr(d.rhs), Expr::Literal(ExprLiteral::Int(_))));
        }
        _ => panic!("expected a declaration"),
    }
    match ast.get_toplvl(StmtId(1)) {
        StmtTopLvl::FnDecl { name, params, ret, block, is_generic } => {
            assert_eq!(ident_text(&ast, *name), b"f".to_vec());
            assert_eq!(params.len(), 1);
            assert!(matches!(ast.get_annot(params[0].1), TyAnnot::Int));
            assert!(matches!(ast.get_annot(ret.unwrap()), TyAnnot::Int));
            assert!(!is_generic);
            match ast.get_stmt(*block) {
                Stmt::Block(ids) => {
                    assert_eq!(ids.len(), 1);
                    assert!(matches!(ast.get_stmt(ids[0]), Stmt::Expr(_)));
                }
                _ => panic!("expected a block"),
            }
        }
        _ => panic!("expected a function"),
    }
    match ast.get_toplvl(StmtId(2)) {
        StmtTopLvl::StructDecl { name, fields, generics } => {
            assert_eq!(ident_text(&ast, *name), b"P".to_vec());
            assert_eq!(fields.len(), 2);
            assert!(matches!(ast.get_annot(fields[1].1), TyAnnot::Bool));
            assert!(generics.is_empty());
        }
        _ => panic!("expected a struct"),
    }
}

#[test]
fn parse_const_declaration() {
    let (ast, errors) = parsed(b"const k = true;");
    assert!(errors.is_empty());
    match ast.get_toplvl(StmtId(0)) {
        StmtTopLvl::Decl(d) => {
            assert!(d.constant);
            assert!(d.annot.is_none());
            assert!(matches!(ast.get_expr(d.rhs), Expr::Literal(ExprLiteral::Bool(_))));
        }
        _ => panic!("expected a declaration"),
    }
}

#[test]
fn parse_generic_function() {
    let (ast, errors) = parsed(b"fn id<T>(x: T) -> T { x }");
    assert!(errors.is_empty());
    match ast.get_toplvl(StmtId(0)) {
        StmtTopLvl::FnDecl { params, ret, is_generic, .. } => {
            assert!(is_generic);
            match ast.get_annot(params[0].1) {
                TyAnnot::Generic(t) => assert_eq!(ident_text(&ast, *t), b"T".to_vec()),
                _ => panic!("the parameter's type must be the generic parameter"),
            }
            assert!(matches!(ast.get_annot(ret.unwrap()), TyAnnot::Generic(_)));
        }
        _ => panic!("expected a function"),
    }
}

#[test]
fn parse_generic_struct() {
    let (ast, errors) = parsed(b"struct B<T> { v: T, w: [T: *] }");
    assert!(errors.is_empty());
    match ast.get_toplvl(StmtId(0)) {
        StmtTopLvl::StructDecl { fields, generics, .. } => {
            assert_eq!(generics.len(), 1);
            assert!(matches!(ast.get_annot(fields[0].1), TyAnnot::Generic(_)));
            match ast.get_annot(fields[1].1) {
                TyAnnot::Array { inner, len } => {
                    assert!(len.is_none());
                    assert!(matches!(ast.get_annot(*inner), TyAnnot::Generic(_)));
                }
                _ => panic!("expected an array type"),
            }
        }
        _ => panic!("expected a struct"),
    }
}

#[test]
fn parse_named_type_is_user_defined() {
    let (ast, errors) = parsed(b"struct P { a: int } let p: P = P { 1 };");
    assert!(errors.is_empty());
    match ast.get_toplvl(StmtId(1)) {
        StmtTopLvl::Decl(d) => {
            assert!(matches!(ast.get_annot(d.annot.unwrap()), TyAnnot::UserDef { .. }));
            match ast.get_expr(d.rhs) {
                Expr::Literal(ExprLiteral::Struct(name, members)) => {
                    assert_eq!(ident_text(&ast, *name), b"P".to_vec());
                    assert_eq!(members.len(), 1);
                }
                _ => panic!("expected a struct literal"),
            }
        }
        _ => panic!("expected a declaration"),
    }
}

fn decl_rhs(ast: &Ast, item: u32) -> ExprId {
    match ast.get_toplvl(StmtId(item)) {
        StmtTopLvl::Decl(d) => d.rhs,
        _ => panic!("expected a declaration"),
    }
}

#[test]
fn parse_operator_precedence() {
    // `*` binds tighter than `+`, `^` tighter still; one level groups left
    let (ast, errors) =
        parsed(b"let v = 1 + 2 * 3; let w = 1 + 2 ^ 3; let u = 1 - 2 - 3;");
    assert!(errors.is_empty());
    match ast.get_expr(decl_rhs(&ast, 0)) {
        Expr::Binary { op, lhs, rhs } => {
            assert_eq!(ast.get_token(*op).kind, TokenKind::Plus);
            assert!(matches!(ast.get_expr(*lhs), Expr::Literal(ExprLiteral::Int(_))));
            match ast.get_expr(*rhs) {
                Expr::Binary { op, .. } => assert_eq!(ast.get_token(*op).kind, TokenKind::Star),
                _ => panic!("expected `2 * 3` on the right"),
            }
        }
        _ => panic!("expected a binary expression"),
    }
    match ast.get_expr(decl_rhs(&ast, 2)) {
        Expr::Binary { lhs, rhs, .. } => {
            assert!(matches!(ast.get_expr(*lhs), Expr::Binary { .. }));
            assert!(matches!(ast.get_expr(*rhs), Expr::Literal(ExprLiteral::Int(_))));
        }
        _ => panic!("expected a binary expression"),
    }
    match ast.get_expr(decl_rhs(&ast, 1)) {
        Expr::Binary { op, rhs, .. } => {
            assert_eq!(ast.get_token(*op).kind, TokenKind::Plus);
            match ast.get_expr(*rhs) {
                Expr::Binary { op, .. } => assert_eq!(ast.get_token(*op).kind, TokenKind::Caret),
                _ => panic!("expected `2 ^ 3` on the right"),
            }
        }
        _ => panic!("expected a binary expression"),
    }
}

#[test]
fn parse_calls_members_and_indexing() {
    let (ast, errors) = parsed(b"let r = f(1, 2.5, true).m[0];");
    assert!(errors.is_empty());
    let rhs = match ast.get_toplvl(StmtId(0)) {
        StmtTopLvl::Decl(d) => d.rhs,
        _ => panic!("expected a declaration"),
    };
    match ast.get_expr(rhs) {
        Expr::Index { lhs, idx } => {
            assert!(matches!(ast.get_expr(*idx), Expr::Literal(ExprLiteral::Int(_))));
            match ast.get_expr(*lhs) {
                Expr::Member { lhs, field } => {
                    assert_eq!(ident_text(&ast, *field), b"m".to_vec());
                    match ast.get_expr(*lhs) {
                        Expr::Call { callee, args } => {
                            assert!(matches!(ast.get_expr(*callee), Expr::Variable(_)));
                            assert_eq!(args.len(), 3);
                            assert!(matches!(
                                ast.get_expr(args[1]),
                                Expr::Literal(ExprLiteral::Float(_))
                            ));
                        }
                        _ => panic!("expected a call"),
                    }
                }
                _ => panic!("expected a member access"),
            }
        }
        _ => panic!("expected an indexing"),
    }
}

#[test]
fn parse_statements_in_body() {
    let (ast, errors) = parsed(b"fn f() { let a = 1; a = 2; { a; } return a; }");
    assert!(errors.is_empty());
    let block = match ast.get_toplvl(StmtId(0)) {
        StmtTopLvl::FnDecl { block, ret, params, .. } => {
            assert!(ret.is_none());
            assert!(params.is_empty());
            *block
        }
        _ => panic!("expected a function"),
    };
    match ast.get_stmt(block) {
        Stmt::Block(ids) => {
            assert_eq!(ids.len(), 4);
            assert!(matches!(ast.get_stmt(ids[0]), Stmt::Decl(_)));
            assert!(matches!(ast.get_stmt(ids[1]), Stmt::Assign { .. }));
            assert!(matches!(ast.get_stmt(ids[2]), Stmt::Block(_)));
            assert!(matches!(ast.get_stmt(ids[3]), Stmt::Return(_)));
        }
        _ => panic!("expected a block"),
    }
}

#[test]
fn parse_error_and_recovery() {
    let (ast, errors) = parsed(b"let = 5; let y = 2;");
    let msgs: Vec<&str> = errors.iter().map(|e| e.msg.as_str()).collect();
    assert_eq!(
        msgs,
        vec![
            "expected identifier after 'const' keyword",
            "invalid token at top level",
            "invalid token at top level",
        ]
    );
    assert_eq!(errors[0].str, b"let".to_vec());
    assert_eq!(errors[0].line, 0);
    assert_eq!(errors[0].column, 0);
    assert_eq!(errors[1].str, b";".to_vec());
    assert_eq!(errors[1].column, 7);
    assert!(ast.toplvl.is_empty());
}

#[test]
fn parse_recovers_at_next_function() {
    let (ast, errors) = parsed(b"let x = 1 1; fn g() { }");
    let msgs: Vec<&str> = errors.iter().map(|e| e.msg.as_str()).collect();
    assert_eq!(msgs, vec!["invalid token at top level", "invalid token at top level"]);
    assert_eq!(errors[0].str, b"1".to_vec());
    assert_eq!(errors[0].column, 10);
    assert_eq!(ast.toplvl.len(), 2);
    assert!(matches!(ast.get_toplvl(StmtId(0)), StmtTopLvl::Decl(_)));
    assert!(matches!(ast.get_toplvl(StmtId(1)), StmtTopLvl::FnDecl { .. }));
}

#[test]
fn parse_repeated_generic_is_reported() {
    let (_, errors) = parsed(b"fn f<T, T>(x: T) { }");
    assert_eq!(errors[0].msg, "repeated function generic parameter name");
}

#[test]
fn parse_unclosed_comment_fails() {
    match parse(b"let x = 1; /* never closed") {
        Ok(_) => panic!("an unclosed comment must fail"),
        Err(e) => {
            assert_eq!(e.msg, "unclosed block comment");
            assert_eq!(e.span.start, 11);
        }
    }
}

#[test]
fn binding_powers() {
    assert_eq!(prefix_lvl(TokenKind::Minus), 30);
    assert_eq!(prefix_lvl(TokenKind::Keyword(KeywordKind::Not)), 29);
    assert_eq!(prefix_lvl(TokenKind::Plus), -1);
    assert_eq!(postfix_lvl(TokenKind::ParenL), Some(32));
    assert_eq!(postfix_lvl(TokenKind::BraceL), Some(32));
    assert_eq!(postfix_lvl(TokenKind::Dot), Some(34));
    assert_eq!(postfix_lvl(TokenKind::Comma), None);
    assert_eq!(infix_lvl(TokenKind::Plus), (23, 24));
    assert_eq!(infix_lvl(TokenKind::Star), (25, 26));
    assert_eq!(infix_lvl(TokenKind::Perc), (25, 26));
    assert_eq!(infix_lvl(TokenKind::Eq), (16, 17));
    assert_eq!(infix_lvl(TokenKind::LessEq), (14, 15));
    assert_eq!(infix_lvl(TokenKind::Keyword(KeywordKind::And)), (12, 13));
    assert_eq!(infix_lvl(TokenKind::Keyword(KeywordKind::Or)), (10, 11));
    assert_eq!(infix_lvl(TokenKind::Caret), (27, 28));
    assert_eq!(infix_lvl(TokenKind::Assign), (-1, -1));
}

#[test]
fn branches_are_detected() {
    assert!(parse_unless_branch(b"fn f() { if x { } }").is_none());
    assert!(parse_unless_branch(b"fn f() { { while } }").is_none());
    assert!(parse_unless_branch(b"let x = 1;").is_some());
    // an `if` at top level is an error, not a statement
    match parse_unless_branch(b"if x; fn g() { }") {
        Some(Ok((ast, errors))) => {
            assert_eq!(errors[0].msg, "invalid keyword at top level");
            assert_eq!(ast.toplvl.len(), 1);
        }
        _ => panic!("expected a parse"),
    }
}

#[test]
fn interner_numbers_names_in_order() {
    let mut interner = StringInterner::new();
    let a = interner.intern(b"alpha");
    let b = interner.intern(b"beta");
    let a2 = interner.intern(b"alpha");
    assert_eq!(a, IdentId(0));
    assert_eq!(b, IdentId(1));
    assert_eq!(a2, a);
    assert_eq!(interner.len(), 2);
    assert_eq!(interner.lookup(a), b"alpha");
    assert_eq!(interner.lookup(b), b"beta");
    assert_eq!(interner.buf, b"alphabeta".to_vec());
}

#[test]
fn ast_ids_are_plain_indices() {
    assert_eq!(ExprId(3).0, 3);
    assert_eq!(TyAnnotId(4), TyAnnotId(4));
    assert_ne!(StmtId(1), StmtId(2));
}

#[test]
fn parse_generic_given_a_list_in_signature() {
    let (ast, errors) = parsed(b"fn f<T>(x: T, y: T<int>) { }");
    assert_eq!(errors.len(), 1);
    assert_eq!(errors[0].msg, "generic type can't have a generics list");
    assert_eq!(errors[0].str, b"T".to_vec());
    assert_eq!(errors[0].column, 17);
    // the function is not added; the first parameter's type was already turned
    assert!(ast.toplvl.is_empty());
    assert!(matches!(ast.get_annot(TyAnnotId(0)), TyAnnot::Generic(_)));
    assert!(matches!(ast.get_annot(TyAnnotId(2)), TyAnnot::UserDef { .. }));
}

#[test]
fn parse_generic_given_a_list_in_body() {
    let (ast, errors) = parsed(b"fn f<T>() { let a: T = 1; let b: T<int> = 2; }");
    assert_eq!(errors.len(), 1);
    assert_eq!(errors[0].msg, "generic type can't have a generics list");
    assert!(ast.toplvl.is_empty());
    assert!(matches!(ast.get_annot(TyAnnotId(0)), TyAnnot::Generic(_)));
}

#[test]
fn parse_generic_inside_other_types() {
    let (ast, errors) = parsed(b"struct S<T> { a: [T: 3], b: (T) -> T, c: Box<T> }");
    assert!(errors.is_empty());
    for i in 0..ast.annots.len() {
        if let TyAnnot::UserDef { name, .. } = ast.get_annot(TyAnnotId(i as u32)) {
            assert_eq!(ident_text(&ast, *name), b"Box".to_vec());
        }
    }
    let generics = ast
        .annots
        .iter()
        .filter(|a| matches!(a.0, TyAnnot::Generic(_)))
        .count();
    assert_eq!(generics, 4);
}

#[test]
fn parse_semicolon_after_failed_item_is_eaten() {
    // the first `;` goes with the failed item, recovery steps over the
    // second one and resumes at `fn`
    let (ast, errors) = parsed(b"struct S { a } ; ; fn g() { }");
    let msgs: Vec<&str> = errors.iter().map(|e| e.msg.as_str()).collect();
    assert_eq!(msgs, vec!["expect ':' after name in struct declaration"]);
    assert_eq!(ast.toplvl.len(), 1);
    assert!(matches!(ast.get_toplvl(StmtId(0)), StmtTopLvl::FnDecl { .. }));
}

#[test]
fn names_are_filed_under_their_string_hash() {
    for name in ["alpha", "x", "", "a_long_identifier_42"] {
        let mut hasher = DefaultHasher::new();
        name.hash(&mut hasher);
        assert_eq!(hash_name(name.as_bytes()), hasher.finish());
    }
    assert_ne!(hash_name(b"alpha"), hash_name(b"beta"));
}

#[test]
fn parse_if_outside_statements_is_an_error() {
    // `if` met as an operand, not at the start of a statement
    let src = b"let x = if; let y = 2;";
    let (ast, errors) = parsed(src);
    let msgs: Vec<&str> = errors.iter().map(|e| e.msg.as_str()).collect();
    assert_eq!(msgs, vec!["invalid lhs expression", "invalid token at top level"]);
    assert_eq!(errors[0].str, b"if".to_vec());
    assert!(ast.toplvl.is_empty());
}

#[test]
fn parse_missing_separator_is_an_error() {
    let (ast, errors) = parsed(b"let a = [1 2]; let b = 3;");
    assert_eq!(errors[0].msg, "unclosed array literal");
    assert_eq!(errors[0].str, b"2".to_vec());
    assert!(ast.toplvl.iter().all(|t| !matches!(t.0, StmtTopLvl::Decl(ref d) if ident_text(&ast, d.ident) == b"a".to_vec())));
    let (_, errors) = parsed(b"fn f(x: int y: int) { }");
    assert_eq!(errors[0].msg, "unclosed parenthesis in function declaration's parameters");
    let (_, errors) = parsed(b"let c = [1, 2,]; let d = g(1, 2);");
    assert!(errors.is_empty());
}

#[test]
fn parse_repeated_parameter_name_is_not_checked() {
    // pairs of a name and a new annotation are never equal, so a name may
    // repeat
    let (ast, errors) = parsed(b"fn f(x: int, x: bool) { }");
    assert!(errors.is_empty());
    match &ast.toplvl[0].0 {
        StmtTopLvl::FnDecl { params, .. } => assert_eq!(params.len(), 2),
        _ => panic!("expected a function"),
    }
    let (ast, errors) = parsed(b"struct S { a: int, a: int }");
    assert!(errors.is_empty());
    match &ast.toplvl[0].0 {
        StmtTopLvl::StructDecl { fields, .. } => assert_eq!(fields.len(), 2),
        _ => panic!("expected a struct"),
    }
}
