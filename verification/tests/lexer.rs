use pascal_interpreter::error::{Error, ErrorKind};
use pascal_interpreter::lexer::{get_digits, Interpreter};
use pascal_interpreter::token::{Keyword, Token};

fn describe(token: &Token) -> String {
    match token {
        Token::EOF => "EOF".to_string(),
        Token::OP1(c) => format!("OP1({})", c),
        Token::OP2(c) => format!("OP2({})", c),
        Token::LP => "LP".to_string(),
        Token::RP => "RP".to_string(),
        Token::INTEGER_CONST(n) => format!("INT({})", n),
        Token::REAL_CONST(bits) => format!("REAL({})", f64::from_bits(*bits)),
        Token::UNARY(c) => format!("UNARY({})", c),
        Token::KEYWORD(k) => format!("KW({})", k.text()),
        Token::DOT => "DOT".to_string(),
        Token::ASSIGN => "ASSIGN".to_string(),
        Token::SEMI => "SEMI".to_string(),
        Token::COMMA => "COMMA".to_string(),
        Token::COLON => "COLON".to_string(),
        Token::ID(name) => format!("ID({})", name),
        Token::ASTNode(kind) => format!("NODE({:?})", kind),
    }
}

fn tokens(source: &str) -> Result<Vec<String>, Error> {
    let mut lexer = Interpreter::from(&source.to_string())?;
    let mut all = vec![describe(&lexer.current_token)];
    while !matches!(lexer.current_token, Token::EOF) {
        let token = lexer.get_next_token()?;
        all.push(describe(&token));
    }
    Ok(all)
}

#[test]
fn punctuation_and_operators() {
    assert_eq!(
        tokens("+ - * / ( ) ; , . : :=").unwrap(),
        vec![
            "OP1(+)", "OP1(-)", "OP2(*)", "OP2(/)", "LP", "RP", "SEMI", "COMMA", "DOT", "COLON",
            "ASSIGN", "EOF"
        ]
    );
}

#[test]
fn colon_directly_before_equals_is_assignment() {
    assert_eq!(tokens("a:=1").unwrap(), vec!["ID(a)", "ASSIGN", "INT(1)", "EOF"]);
    assert_eq!(tokens("a:INTEGER").unwrap(), vec!["ID(a)", "COLON", "KW(INTEGER)", "EOF"]);
    assert_eq!(tokens("::=").unwrap(), vec!["COLON", "ASSIGN", "EOF"]);
}

#[test]
fn a_lone_equals_sign_is_rejected() {
    assert_eq!(
        tokens("a : = 1"),
        Err(Error::UnrecognizedCharacter { character: '=', position: 4 })
    );
}

#[test]
fn every_keyword_is_recognized() {
    assert_eq!(
        tokens("PROGRAM VAR BEGIN END INTEGER REAL DIV").unwrap(),
        vec![
            "KW(PROGRAM)", "KW(VAR)", "KW(BEGIN)", "KW(END)", "KW(INTEGER)", "KW(REAL)",
            "KW(DIV)", "EOF"
        ]
    );
}

#[test]
fn keywords_are_case_sensitive() {
    assert_eq!(
        tokens("begin Begin BEGIN BEGINS DIV2").unwrap(),
        vec!["ID(begin)", "ID(Begin)", "KW(BEGIN)", "ID(BEGINS)", "ID(DIV2)", "EOF"]
    );
}

#[test]
fn identifiers_are_runs_of_letters_and_digits() {
    assert_eq!(tokens("x1y2 z").unwrap(), vec!["ID(x1y2)", "ID(z)", "EOF"]);
    assert_eq!(tokens("2END").unwrap(), vec!["INT(2)", "KW(END)", "EOF"]);
}

#[test]
fn identifier_names_keep_their_spelling() {
    let mut lexer = Interpreter::from(&"Part10AST".to_string()).unwrap();
    match &lexer.current_token {
        Token::ID(name) => assert_eq!(name, "Part10AST"),
        other => panic!("not an identifier: {:?}", other),
    }
    assert!(matches!(lexer.get_next_token(), Ok(Token::EOF)));
}

#[test]
fn integer_literals() {
    assert_eq!(tokens("0 7 0042").unwrap(), vec!["INT(0)", "INT(7)", "INT(42)", "EOF"]);
    assert_eq!(
        tokens("18446744073709551615").unwrap(),
        vec!["INT(18446744073709551615)", "EOF"]
    );
}

#[test]
fn an_integer_literal_beyond_64_bits_is_rejected() {
    assert_eq!(
        tokens(" 18446744073709551616"),
        Err(Error::NumeralOutOfRange { position: 1 })
    );
    assert_eq!(tokens("a 99999999999999999999999"), Err(Error::NumeralOutOfRange { position: 2 }));
}

#[test]
fn real_literals_are_read_as_binary64() {
    let mut lexer = Interpreter::from(&"3.14 20.0 7. 0.1".to_string()).unwrap();
    let mut values = Vec::new();
    loop {
        match &lexer.current_token {
            Token::REAL_CONST(bits) => values.push(*bits),
            Token::EOF => break,
            other => panic!("not a real literal: {:?}", other),
        }
        lexer.get_next_token().unwrap();
    }
    assert_eq!(
        values,
        vec![3.14f64.to_bits(), 20.0f64.to_bits(), 7.0f64.to_bits(), 0.1f64.to_bits()]
    );
}

#[test]
fn a_real_literal_is_rounded_to_nearest() {
    let mut lexer =
        Interpreter::from(&"0.1000000000000000055511151231257827 123456789012345678901234567890.5"
            .to_string())
        .unwrap();
    match lexer.current_token {
        Token::REAL_CONST(bits) => assert_eq!(bits, 0.1f64.to_bits()),
        _ => panic!("not a real literal"),
    }
    match lexer.get_next_token().unwrap() {
        Token::REAL_CONST(bits) => {
            assert_eq!(bits, 123456789012345678901234567890.5f64.to_bits())
        }
        _ => panic!("not a real literal"),
    }
}

#[test]
fn a_second_decimal_point_is_rejected() {
    assert_eq!(tokens("1.2.3"), Err(Error::MultipleDecimalPoints { position: 3 }));
    assert_eq!(tokens("x := 2.."), Err(Error::MultipleDecimalPoints { position: 7 }));
}

#[test]
fn a_numeral_may_end_the_text() {
    assert_eq!(tokens("12").unwrap(), vec!["INT(12)", "EOF"]);
    assert_eq!(tokens("1.5").unwrap(), vec!["REAL(1.5)", "EOF"]);
}

#[test]
fn whitespace_is_space_and_newline() {
    assert_eq!(tokens("  a \n\n b\n").unwrap(), vec!["ID(a)", "ID(b)", "EOF"]);
    assert_eq!(
        tokens("a\tb"),
        Err(Error::UnrecognizedCharacter { character: '\t', position: 1 })
    );
    assert_eq!(
        tokens("a\r\nb"),
        Err(Error::UnrecognizedCharacter { character: '\r', position: 1 })
    );
}

#[test]
fn comments_are_skipped_with_both_braces() {
    assert_eq!(
        tokens("a {first} {second $ # } b{}c").unwrap(),
        vec!["ID(a)", "ID(b)", "ID(c)", "EOF"]
    );
    assert_eq!(tokens("{only a comment}").unwrap(), vec!["EOF"]);
}

#[test]
fn a_comment_does_not_nest() {
    assert_eq!(
        tokens("{ a { b } c }"),
        Err(Error::UnrecognizedCharacter { character: '}', position: 12 })
    );
}

#[test]
fn an_unterminated_comment_is_rejected() {
    assert_eq!(tokens("a { never closed"), Err(Error::UnterminatedComment { position: 2 }));
    assert_eq!(tokens("{"), Err(Error::UnterminatedComment { position: 0 }));
    assert_eq!(
        tokens("a { never closed").unwrap_err().kind(),
        ErrorKind::Lexical
    );
}

#[test]
fn an_unrecognized_character_is_reported_with_its_position() {
    assert_eq!(
        tokens("a := b $ c"),
        Err(Error::UnrecognizedCharacter { character: '$', position: 7 })
    );
    assert_eq!(
        tokens("é"),
        Err(Error::UnrecognizedCharacter { character: 'é', position: 0 })
    );
}

#[test]
fn end_of_input_is_returned_again_and_again() {
    let mut lexer = Interpreter::from(&"a".to_string()).unwrap();
    assert!(matches!(lexer.get_next_token(), Ok(Token::EOF)));
    assert!(matches!(lexer.get_next_token(), Ok(Token::EOF)));
    assert!(matches!(lexer.get_next_token(), Ok(Token::EOF)));
    assert!(matches!(lexer.current_token, Token::EOF));
    assert_eq!(lexer.idx, 1);
}

#[test]
fn an_empty_text_is_end_of_input() {
    assert_eq!(tokens("").unwrap(), vec!["EOF"]);
    assert_eq!(tokens(" \n ").unwrap(), vec!["EOF"]);
}

#[test]
fn a_lexical_error_leaves_the_lexer_where_it_was() {
    let mut lexer = Interpreter::from(&"ab  $".to_string()).unwrap();
    assert_eq!(lexer.idx, 2);
    assert_eq!(
        lexer.get_next_token().unwrap_err(),
        Error::UnrecognizedCharacter { character: '$', position: 4 }
    );
    assert_eq!(lexer.idx, 2);
    assert!(matches!(&lexer.current_token, Token::ID(name) if name == "ab"));
}

#[test]
fn tokenization_is_deterministic() {
    let source = "PROGRAM p; VAR a : INTEGER; BEGIN a := 1 + 2 END.";
    assert_eq!(tokens(source), tokens(source));
    assert_eq!(
        tokens(source).unwrap(),
        vec![
            "KW(PROGRAM)", "ID(p)", "SEMI", "KW(VAR)", "ID(a)", "COLON", "KW(INTEGER)", "SEMI",
            "KW(BEGIN)", "ID(a)", "ASSIGN", "INT(1)", "OP1(+)", "INT(2)", "KW(END)", "DOT", "EOF"
        ]
    );
}

#[test]
fn tokens_compare_by_kind() {
    assert!(Token::INTEGER_CONST(1) == Token::INTEGER_CONST(2));
    assert!(Token::ID("a".to_string()) == Token::ID("b".to_string()));
    assert!(Token::OP1('+') == Token::OP1('-'));
    assert!(Token::OP1('+') != Token::OP2('*'));
    assert!(Token::KEYWORD(Keyword::Begin) == Token::KEYWORD(Keyword::Begin));
    assert!(Token::KEYWORD(Keyword::Begin) != Token::KEYWORD(Keyword::End));
    assert!(Token::EOF != Token::DOT);
}

#[test]
fn the_method_get_digits_reads_one_numeral() {
    let mut lexer = Interpreter::from(&"x 123.5+1".to_string()).unwrap();
    lexer.idx = 2;
    match lexer.get_digits().unwrap() {
        Token::REAL_CONST(bits) => assert_eq!(bits, 123.5f64.to_bits()),
        other => panic!("not a real literal: {:?}", other),
    }
    assert_eq!(lexer.idx, 7);
    lexer.idx = 8;
    assert!(matches!(lexer.get_digits(), Ok(Token::INTEGER_CONST(1))));
    assert_eq!(lexer.idx, 9);
}

#[test]
fn the_function_get_digits_reads_a_run_of_digits() {
    let text: Vec<char> = "ab1234cd".chars().collect();
    let mut idx = 2;
    assert_eq!(get_digits(&text, &mut idx), Some(1234));
    assert_eq!(idx, 6);
    assert_eq!(get_digits(&text, &mut idx), Some(0));
    assert_eq!(idx, 6);
}

#[test]
fn the_function_get_digits_reports_what_does_not_fit() {
    let text: Vec<char> = "18446744073709551615 18446744073709551616".chars().collect();
    let mut idx = 0;
    assert_eq!(get_digits(&text, &mut idx), Some(u64::MAX));
    assert_eq!(idx, 20);
    idx = 21;
    assert_eq!(get_digits(&text, &mut idx), None);
    assert_eq!(idx, 41);
}

#[test]
fn keyword_lookup_and_text() {
    let word: Vec<char> = "REAL".chars().collect();
    assert_eq!(Keyword::lookup(&word), Some(Keyword::Real));
    let word: Vec<char> = "real".chars().collect();
    assert_eq!(Keyword::lookup(&word), None);
    assert_eq!(Keyword::Program.text(), "PROGRAM");
    assert_eq!(Keyword::Div.text(), "DIV");
    assert!(Keyword::Var.spells(&"VAR".chars().collect()));
    assert!(!Keyword::Var.spells(&"VARS".chars().collect()));
}

#[test]
fn a_numeral_without_digits_is_malformed() {
    let mut lexer = Interpreter::from(&". 5".to_string()).unwrap();
    assert!(matches!(lexer.current_token, Token::DOT));
    lexer.idx = 0;
    assert_eq!(lexer.get_digits(), Err(Error::MalformedNumeral { position: 0 }));
    assert_eq!(lexer.idx, 0);
    assert_eq!(Error::MalformedNumeral { position: 0 }.kind(), ErrorKind::Lexical);
}

#[test]
fn every_error_has_its_kind() {
    let kinds = [
        (Error::UnterminatedComment { position: 0 }, ErrorKind::Lexical),
        (Error::UnrecognizedCharacter { character: '$', position: 0 }, ErrorKind::Lexical),
        (Error::MultipleDecimalPoints { position: 0 }, ErrorKind::Lexical),
        (Error::NumeralOutOfRange { position: 0 }, ErrorKind::Lexical),
        (Error::MalformedNumeral { position: 0 }, ErrorKind::Lexical),
        (Error::UnexpectedToken, ErrorKind::Syntax),
        (Error::TrailingInput, ErrorKind::Syntax),
        (Error::DuplicateDeclaration, ErrorKind::Declaration),
        (Error::UndeclaredVariable, ErrorKind::Name),
        (Error::UninitializedVariable, ErrorKind::Name),
        (Error::TypeMismatch, ErrorKind::Type),
        (Error::DivisionByZero, ErrorKind::Arithmetic),
        (Error::Overflow, ErrorKind::Arithmetic),
    ];
    for (error, kind) in kinds {
        assert_eq!(error.kind(), kind);
    }
}

#[test]
fn skipping_a_comment_by_hand() {
    let mut lexer = Interpreter::from(&"a {b} c {d".to_string()).unwrap();
    lexer.idx = 2;
    assert_eq!(lexer.skip_comment(), Ok(()));
    assert_eq!(lexer.idx, 5);
    lexer.idx = 8;
    assert_eq!(lexer.skip_comment(), Err(Error::UnterminatedComment { position: 8 }));
    assert_eq!(lexer.idx, 8);
}

#[test]
fn reading_a_word_by_hand() {
    let mut lexer = Interpreter::from(&"x BEGIN9 END;".to_string()).unwrap();
    lexer.idx = 2;
    assert!(matches!(lexer._id(), Token::ID(name) if name == "BEGIN9"));
    assert_eq!(lexer.idx, 8);
    lexer.idx = 9;
    assert!(matches!(lexer._id(), Token::KEYWORD(Keyword::End)));
    assert_eq!(lexer.idx, 12);
}
