use tdcalc::lexer::{AsciiSpan, LexError, TDLexer, TDToken, TDType};

fn lex_all(src: &str) -> Vec<Result<TDToken, LexError>> {
    let mut lexer = TDLexer::new(src);
    let mut out = Vec::new();
    while let Some(t) = lexer.next_token() {
        out.push(t);
    }
    out
}

#[test]
fn decimal_literal_is_one_number_token() {
    let mut lexer = TDLexer::new("123456789012345678");
    let t = lexer.next_token().unwrap().unwrap();
    assert_eq!(t._type, TDType::Dynamic64(123456789012345678));
    assert_eq!(t.lexeme.start, 0);
    assert_eq!(t.lexeme.end, 18);
    assert_eq!(t.lexeme.literal, "123456789012345678");
    let eof = lexer.next_token().unwrap().unwrap();
    assert_eq!(eof._type, TDType::EOF);
    assert_eq!(eof.lexeme.len(), 0);
    assert_eq!(eof.lexeme.start, 18);
}

#[test]
fn zero_and_leading_zeros() {
    let toks = lex_all("007");
    assert_eq!(toks.len(), 2);
    assert_eq!(toks[0].as_ref().unwrap()._type, TDType::Dynamic64(7));
    assert_eq!(toks[0].as_ref().unwrap().lexeme.literal, "007");
}

#[test]
fn end_of_input_is_handed_out_once() {
    let mut lexer = TDLexer::new("1");
    assert!(matches!(lexer.next_token(), Some(Ok(_))));
    let eof = lexer.next_token().unwrap().unwrap();
    assert_eq!(eof._type, TDType::EOF);
    assert_eq!(eof.lexeme.literal, "\0");
    assert!(lexer.next_token().is_none());
    assert!(lexer.next_token().is_none());
    assert!(lexer.next_token().is_none());
}

#[test]
fn empty_source_gives_only_end_of_input() {
    let toks = lex_all("");
    assert_eq!(toks.len(), 1);
    assert_eq!(toks[0].as_ref().unwrap()._type, TDType::EOF);
}

#[test]
fn operators_whitespace_and_spans() {
    let toks: Vec<TDToken> = lex_all("(8 +4)*\t2/ -").into_iter().map(|t| t.unwrap()).collect();
    let types: Vec<TDType> = toks.iter().map(|t| t._type).collect();
    assert_eq!(
        types,
        vec![
            TDType::LPAREN,
            TDType::Dynamic64(8),
            TDType::WS,
            TDType::PLUS,
            TDType::Dynamic64(4),
            TDType::RPAREN,
            TDType::ASTERISK,
            TDType::WS,
            TDType::Dynamic64(2),
            TDType::SLASH,
            TDType::WS,
            TDType::MINUS,
            TDType::EOF,
        ]
    );
    assert_eq!(toks[3].lexeme, AsciiSpan::new(3, 4, "+".to_string()));
    assert_eq!(toks[7].lexeme.literal, "\t");
}

#[test]
fn unicode_whitespace_is_skipped_as_whitespace() {
    let toks = lex_all("\u{3000}7");
    assert_eq!(toks[0].as_ref().unwrap()._type, TDType::WS);
    assert_eq!(toks[1].as_ref().unwrap()._type, TDType::Dynamic64(7));
    assert_eq!(toks[1].as_ref().unwrap().lexeme.start, 1);
}

#[test]
fn unexpected_character_ends_the_stream() {
    let toks = lex_all("2 $ 3");
    assert_eq!(toks.len(), 3);
    assert_eq!(
        toks[2],
        Err(LexError::UnexpectedCharacter { position: 2, found: '$' })
    );
}

#[test]
fn letter_is_not_a_token() {
    let toks = lex_all("a");
    assert_eq!(toks, vec![Err(LexError::UnexpectedCharacter { position: 0, found: 'a' })]);
}

#[test]
fn largest_literal_fits_and_next_overflows() {
    let toks = lex_all("9223372036854775807");
    assert_eq!(toks[0].as_ref().unwrap()._type, TDType::Dynamic64(i64::MAX));
    let toks = lex_all("1 9223372036854775808");
    assert_eq!(toks[2], Err(LexError::NumberTooLarge { start: 2 }));
    assert_eq!(toks.len(), 3);
}

#[test]
fn span_length() {
    let s = AsciiSpan::new(3, 7, "1234".to_string());
    assert_eq!(s.len(), 4);
    let t = TDToken::new(TDType::PLUS, AsciiSpan::new(0, 1, "+".to_string()));
    assert_eq!(t._type, TDType::PLUS);
    assert_eq!(t.lexeme.len(), 1);
}
