use lib::lexer::{
    is_alnum_byte, is_alpha_byte, is_digit_byte, is_space_byte, keyword_from_bytes, lex_stalls,
    tokenize, Cursor, KeywordKind, Lexer, Span, Token, TokenKind,
};
use lib::FrontendErr;

fn lexed(src: &[u8]) -> Lexer {
    match tokenize(src) {
        Ok(lexer) => lexer,
        Err(e) => panic!("unexpected lexer error: {:?}", e),
    }
}

fn kinds_and_spans(src: &[u8]) -> Vec<(TokenKind, u32, u32)> {
    lexed(src)
        .tokens
        .iter()
        .map(|t| (t.kind, t.span.start, t.span.end))
        .collect()
}

#[test]
fn tokenize_declaration() {
    let lexer = lexed(b"let x = 5;");
    assert_eq!(
        kinds_and_spans(b"let x = 5;"),
        vec![
            (TokenKind::Keyword(KeywordKind::Let), 0, 3),
            (TokenKind::Ident, 4, 5),
            (TokenKind::Assign, 6, 7),
            (TokenKind::IntLit, 8, 9),
            (TokenKind::Semicolon, 9, 10),
        ]
    );
    assert_eq!(lexer.line_offsets, vec![0]);
    assert_eq!(lexer.src, b"let x = 5;".to_vec());
}

#[test]
fn tokenize_two_byte_operator_spans_its_first_byte() {
    assert_eq!(
        kinds_and_spans(b"a->b"),
        vec![(TokenKind::Ident, 0, 1), (TokenKind::Arrow, 1, 2), (TokenKind::Ident, 3, 4)]
    );
    assert_eq!(
        kinds_and_spans(b"a<=b"),
        vec![(TokenKind::Ident, 0, 1), (TokenKind::LessEq, 1, 2), (TokenKind::Ident, 3, 4)]
    );
}

#[test]
fn tokenize_bang_and_not_equal() {
    assert_eq!(
        kinds_and_spans(b"!= !"),
        vec![(TokenKind::NotEq, 0, 1), (TokenKind::Bang, 3, 4)]
    );
    let kinds: Vec<TokenKind> = kinds_and_spans(b"a != b !c").iter().map(|k| k.0).collect();
    assert_eq!(
        kinds,
        vec![TokenKind::Ident, TokenKind::NotEq, TokenKind::Ident, TokenKind::Bang, TokenKind::Ident]
    );
}

#[test]
fn tokenize_comparisons() {
    let kinds: Vec<TokenKind> = kinds_and_spans(b"<= >= < > == = - +")
        .iter()
        .map(|k| k.0)
        .collect();
    assert_eq!(
        kinds,
        vec![
            TokenKind::LessEq,
            TokenKind::GreatEq,
            TokenKind::Less,
            TokenKind::Great,
            TokenKind::Eq,
            TokenKind::Assign,
            TokenKind::Minus,
            TokenKind::Plus,
        ]
    );
}

#[test]
fn tokenize_punctuation() {
    let kinds: Vec<TokenKind> = kinds_and_spans(b"()[]{},.:;*%^/")
        .iter()
        .map(|k| k.0)
        .collect();
    assert_eq!(
        kinds,
        vec![
            TokenKind::ParenL,
            TokenKind::ParenR,
            TokenKind::BraceL,
            TokenKind::BraceR,
            TokenKind::CurlyL,
            TokenKind::CurlyR,
            TokenKind::Comma,
            TokenKind::Dot,
            TokenKind::Colon,
            TokenKind::Semicolon,
            TokenKind::Star,
            TokenKind::Perc,
            TokenKind::Caret,
            TokenKind::Slash,
        ]
    );
}

#[test]
fn tokenize_numbers() {
    assert_eq!(
        kinds_and_spans(b"12 3.5 7."),
        vec![
            (TokenKind::IntLit, 0, 2),
            (TokenKind::FloatLit, 3, 6),
            (TokenKind::FloatLit, 7, 9),
        ]
    );
}

#[test]
fn tokenize_identifier_with_digits() {
    assert_eq!(
        kinds_and_spans(b"x1y2 3z"),
        vec![(TokenKind::Ident, 0, 4), (TokenKind::IntLit, 5, 6), (TokenKind::Ident, 6, 7)]
    );
}

#[test]
fn tokenize_skips_comments() {
    let src = b"a // x\nb /* c /* d */ e */ f";
    let lexer = lexed(src);
    assert_eq!(
        kinds_and_spans(src),
        vec![(TokenKind::Ident, 0, 1), (TokenKind::Ident, 7, 8), (TokenKind::Ident, 27, 28)]
    );
    assert_eq!(lexer.line_offsets, vec![0, 7]);
}

#[test]
fn tokenize_block_comment_records_line_start() {
    // a newline inside a block comment starts a line like any other
    let lexer = lexed(b"/*\n*/x");
    assert_eq!(lexer.line_offsets, vec![0, 3]);
    assert_eq!(kinds_and_spans(b"/*\n*/x"), vec![(TokenKind::Ident, 5, 6)]);
    let e = FrontendErr::new(&lexer, "m", lexer.tokens[0].span);
    assert_eq!((e.line, e.column), (1, 2));
}

#[test]
fn tokenize_line_offsets() {
    let lexer = lexed(b"a\nbb\n");
    assert_eq!(lexer.line_offsets, vec![0, 2, 5]);
    assert_eq!(
        kinds_and_spans(b"a\nbb\n"),
        vec![(TokenKind::Ident, 0, 1), (TokenKind::Ident, 2, 4)]
    );
}

#[test]
fn tokenize_unknown_bytes_are_error_tokens() {
    assert_eq!(
        kinds_and_spans(b"@ #"),
        vec![(TokenKind::Error, 0, 1), (TokenKind::Error, 2, 3)]
    );
}

#[test]
fn tokenize_unclosed_block_comment() {
    match tokenize(b"x\n  /* y") {
        Ok(_) => panic!("an unclosed comment must fail"),
        Err(e) => {
            assert_eq!(e.msg, "unclosed block comment");
            assert_eq!(e.span, Span { start: 4, end: 6 });
            assert_eq!(e.str, b"/*".to_vec());
            assert_eq!(e.line, 1);
            assert_eq!(e.column, 2);
        }
    }
}

#[test]
fn tokenize_nested_unclosed_block_comment_points_at_inner_opening() {
    match tokenize(b"/* a /* b */") {
        Ok(_) => panic!("an unclosed comment must fail"),
        Err(e) => {
            assert_eq!(e.span, Span { start: 0, end: 2 });
        }
    }
    match tokenize(b"/* a /* b") {
        Ok(_) => panic!("an unclosed comment must fail"),
        Err(e) => {
            assert_eq!(e.span, Span { start: 5, end: 7 });
        }
    }
}

#[test]
fn keyword_table() {
    let table: [(&[u8], KeywordKind); 16] = [
        (b"if", KeywordKind::If),
        (b"else", KeywordKind::Else),
        (b"while", KeywordKind::While),
        (b"fn", KeywordKind::Fn),
        (b"return", KeywordKind::Return),
        (b"struct", KeywordKind::Struct),
        (b"true", KeywordKind::True),
        (b"false", KeywordKind::False),
        (b"and", KeywordKind::And),
        (b"or", KeywordKind::Or),
        (b"not", KeywordKind::Not),
        (b"let", KeywordKind::Let),
        (b"const", KeywordKind::Const),
        (b"int", KeywordKind::Int),
        (b"float", KeywordKind::Float),
        (b"bool", KeywordKind::Bool),
    ];
    for (name, kw) in table.iter() {
        assert_eq!(keyword_from_bytes(name), Some(*kw));
        let lexer = lexed(name);
        assert_eq!(lexer.tokens.len(), 1);
        assert_eq!(lexer.tokens[0].kind, TokenKind::Keyword(*kw));
    }
    assert_eq!(keyword_from_bytes(b"Let"), None);
    assert_eq!(keyword_from_bytes(b"lets"), None);
    assert_eq!(keyword_from_bytes(b""), None);
    assert_eq!(kinds_and_spans(b"iffy"), vec![(TokenKind::Ident, 0, 4)]);
}

#[test]
fn byte_classes_agree_with_std() {
    for b in 0u8..=255 {
        assert_eq!(is_space_byte(b), b.is_ascii_whitespace() && b != b'\n', "space {}", b);
        assert_eq!(is_digit_byte(b), b.is_ascii_digit(), "digit {}", b);
        assert_eq!(is_alnum_byte(b), b.is_ascii_alphanumeric(), "alnum {}", b);
        assert_eq!(is_alpha_byte(b), (b as char).is_alphabetic(), "alpha {}", b);
    }
}

#[test]
fn lexing_stalls_on_a_non_ascii_letter() {
    assert!(lex_stalls(&[0xc3, 0xa9]));
    assert!(lex_stalls(b"let \xc9 = 1;"));
    assert!(!lex_stalls(b"let x = 1;"));
    assert!(!lex_stalls(b"// \xc9\nx"));
    assert!(!lex_stalls(b"/* \xc9 */"));
    assert!(!lex_stalls(b"\xd7"));
}

#[test]
fn span_len_and_text() {
    let span = Span { start: 2, end: 5 };
    assert_eq!(span.len(), 3);
    assert_eq!(span.get_str(b"abcdefg"), b"cde");
    assert_eq!(Span::default(), Span { start: 0, end: 0 });
}

#[test]
fn lexer_eof_and_token_text() {
    let lexer = lexed(b"let abc = 1;");
    assert_eq!(
        lexer.eof(),
        Token { kind: TokenKind::Eof, span: Span { start: 12, end: 12 } }
    );
    assert_eq!(lexer.get_str(lexer.tokens[1]), b"abc");
}

#[test]
fn byte_cursor_moves() {
    let bytes: &[u8] = b"->x=";
    let mut cursor = Cursor { bytes, curr: 0 };
    assert_eq!(cursor.peek(), b'-');
    assert_eq!(cursor.peek_nth(10), 0);
    assert_eq!(cursor.match2_or1(b'>', TokenKind::Arrow, TokenKind::Minus), TokenKind::Arrow);
    assert_eq!(cursor.curr(), 1);
    assert_eq!(cursor.eat_if(b'x'), None);
    assert_eq!(cursor.eat(), b'>');
    assert_eq!(cursor.eat_if(b'x'), Some(b'x'));
    assert_eq!(cursor.match2_or1(b'=', TokenKind::Eq, TokenKind::Assign), TokenKind::Assign);
    assert_eq!(cursor.curr(), 3);
    assert_eq!(cursor.slice(), b"=");
    assert_eq!(cursor.start(), b"->x=");
    cursor.undo();
    assert_eq!(cursor.curr(), 2);
    assert!(cursor.has_some());
    cursor.advance_nth(2);
    assert!(!cursor.has_some());
}

#[test]
fn token_kind_classes() {
    assert!(TokenKind::Plus.is_op());
    assert!(TokenKind::Keyword(KeywordKind::And).is_op());
    assert!(TokenKind::ParenL.is_op());
    assert!(!TokenKind::Assign.is_op());
    assert!(!TokenKind::Bang.is_op());
    assert!(TokenKind::Semicolon.is_safe_toplvl());
    assert!(TokenKind::Keyword(KeywordKind::Fn).is_safe_toplvl());
    assert!(!TokenKind::Comma.is_safe_toplvl());
    assert!(TokenKind::Comma.is_safe());
    assert!(TokenKind::Keyword(KeywordKind::Struct).is_safe());
    assert!(!TokenKind::Keyword(KeywordKind::Let).is_safe());
    assert_eq!(Token::default().kind, TokenKind::Error);
}

#[test]
fn ascii_sources_never_stall() {
    for b in 0u8..128 {
        let src = [b'a', b, b'1', b' ', b];
        assert!(!lex_stalls(&src), "byte {} stalls the lexer", b);
    }
    let all: Vec<u8> = (0u8..128).collect();
    assert!(!lex_stalls(&all));
}

#[test]
fn error_text_counts_lines_and_columns_from_one() {
    let e = match tokenize(b"x\n  /* a") {
        Err(e) => e,
        Ok(_) => panic!("expected an unclosed comment"),
    };
    assert_eq!(
        e.text(),
        b"unclosed block comment at token: '/*', line: 2, column: 3".to_vec()
    );
    let e = FrontendErr {
        msg: String::from("m"),
        span: Span { start: 0, end: 2 },
        str: b"ab".to_vec(),
        column: 9,
        line: 120,
    };
    assert_eq!(e.text(), b"m at token: 'ab', line: 121, column: 10".to_vec());
}
