use chipasm::lexer::{Lexer, Span, Token};

fn tokens(src: &str) -> Vec<(Token, Span)> {
    let mut lexer = Lexer::new(src);
    lexer.tokenize().unwrap()
}

#[test]
fn keywords_symbols_and_registers() {
    let ts = tokens("clear draw goto i = += * : \r\n");
    assert_eq!(ts.len(), 9);
    assert!(matches!(ts[0].0, Token::Clear));
    assert!(matches!(ts[1].0, Token::Draw));
    assert!(matches!(ts[2].0, Token::Goto));
    assert!(matches!(ts[3].0, Token::IRegister));
    assert!(matches!(ts[4].0, Token::Assign));
    assert!(matches!(ts[5].0, Token::Increment));
    assert!(matches!(ts[6].0, Token::Star));
    assert!(matches!(ts[7].0, Token::Colon));
    assert!(matches!(ts[8].0, Token::NewLine));
    assert_eq!(ts[8].1, Span { lo: 27, hi: 29 });
}

#[test]
fn longest_match_wins() {
    let ts = tokens("clearx iv va vab v9");
    match &ts[0].0 {
        Token::Ident(s) => assert_eq!(s, "clearx"),
        other => panic!("{:?}", other),
    }
    match &ts[1].0 {
        Token::Ident(s) => assert_eq!(s, "iv"),
        other => panic!("{:?}", other),
    }
    assert!(matches!(ts[2].0, Token::Register(10)));
    match &ts[3].0 {
        Token::Ident(s) => assert_eq!(s, "vab"),
        other => panic!("{:?}", other),
    }
    assert!(matches!(ts[4].0, Token::Register(9)));
}

#[test]
fn register_then_digit() {
    let ts = tokens("v16");
    assert_eq!(ts.len(), 2);
    assert!(matches!(ts[0].0, Token::Register(1)));
    assert!(matches!(ts[1].0, Token::Int8(6)));
    assert_eq!(ts[1].1, Span { lo: 2, hi: 3 });
}

#[test]
fn literal_sizes() {
    let ts = tokens("255 256 0xff 0x100 0x 007");
    assert!(matches!(ts[0].0, Token::Int8(255)));
    assert!(matches!(ts[1].0, Token::Int16(256)));
    assert!(matches!(ts[2].0, Token::Int8(255)));
    assert!(matches!(ts[3].0, Token::Int16(256)));
    assert!(matches!(ts[4].0, Token::Int8(0)));
    match &ts[5].0 {
        Token::Ident(s) => assert_eq!(s, "x"),
        other => panic!("{:?}", other),
    }
    assert!(matches!(ts[6].0, Token::Int8(7)));
}

#[test]
fn next_hands_out_tokens_one_at_a_time() {
    let mut lexer = Lexer::new("  v1\t+= 3");
    let (t, s) = lexer.next().unwrap().unwrap();
    assert!(matches!(t, Token::Register(1)));
    assert_eq!(s, Span { lo: 2, hi: 4 });
    let (t, _) = lexer.next().unwrap().unwrap();
    assert!(matches!(t, Token::Increment));
    let (t, _) = lexer.next().unwrap().unwrap();
    assert!(matches!(t, Token::Int8(3)));
    assert!(lexer.next().unwrap().is_none());
}

#[test]
fn lone_carriage_return_and_non_ascii_fail() {
    let mut lexer = Lexer::new("clear\r");
    let e = lexer.tokenize().unwrap_err();
    assert_eq!(e.span, Span { lo: 5, hi: 6 });
    let mut lexer = Lexer::new("é");
    let e = lexer.tokenize().unwrap_err();
    assert_eq!(e.span, Span { lo: 0, hi: 1 });
}

#[test]
fn duplicate_keeps_token() {
    let t = Token::Ident("abc".to_string());
    match t.duplicate() {
        Token::Ident(s) => assert_eq!(s, "abc"),
        other => panic!("{:?}", other),
    }
}

#[test]
fn next_stays_at_end() {
    let mut lexer = Lexer::new("clear ");
    assert!(matches!(lexer.next().unwrap().unwrap().0, Token::Clear));
    assert!(lexer.next().unwrap().is_none());
    assert!(lexer.next().unwrap().is_none());
}
