use pascal_interpreter::error::{Error, ErrorKind};
use pascal_interpreter::interpret::parse_text;
use pascal_interpreter::lexer::Interpreter;
use pascal_interpreter::token::{Keyword, NodeKind, Token};
use pascal_interpreter::tree::TreeNode;

fn label(token: &Token) -> String {
    match token {
        Token::OP1(c) | Token::OP2(c) => c.to_string(),
        Token::INTEGER_CONST(n) => n.to_string(),
        Token::REAL_CONST(bits) => format!("{:?}", f64::from_bits(*bits)),
        Token::UNARY(c) => format!("u{}", c),
        Token::KEYWORD(k) => k.text().to_string(),
        Token::ASSIGN => ":=".to_string(),
        Token::ID(name) => name.clone(),
        Token::ASTNode(NodeKind::Program) => "program".to_string(),
        Token::ASTNode(NodeKind::Block) => "block".to_string(),
        Token::ASTNode(NodeKind::VarDec) => "var".to_string(),
        Token::ASTNode(NodeKind::Comp) => "comp".to_string(),
        Token::ASTNode(NodeKind::Empty) => "empty".to_string(),
        other => format!("{:?}", other),
    }
}

fn show(node: &TreeNode) -> String {
    if node.sub_nodes.is_empty() {
        label(&node.node)
    } else {
        let mut text = format!("({}", label(&node.node));
        for child in node.sub_nodes.iter() {
            text.push(' ');
            text.push_str(&show(child));
        }
        text.push(')');
        text
    }
}

fn parse_expression(source: &str) -> Result<String, Error> {
    let mut parser = Interpreter::from(&source.to_string())?;
    let tree = parser.expr()?;
    Ok(show(&tree))
}

fn parse_body(statements: &str) -> Result<String, Error> {
    let source = format!("PROGRAM p; BEGIN {} END.", statements);
    let tree = parse_text(&source)?;
    Ok(show(&tree.sub_nodes[1].sub_nodes[0]))
}

#[test]
fn a_program_has_a_name_and_a_block() {
    let tree = parse_text("PROGRAM demo; BEGIN END.").unwrap();
    assert_eq!(show(&tree), "(program demo (block (comp empty)))");
    assert_eq!(tree.sub_nodes.len(), 2);
}

#[test]
fn each_declared_name_gets_a_node_of_its_own() {
    let tree = parse_text("PROGRAM p; VAR a, b, c : INTEGER; y : REAL; BEGIN END.").unwrap();
    assert_eq!(
        show(&tree),
        "(program p (block (var a INTEGER) (var b INTEGER) (var c INTEGER) (var y REAL) \
         (comp empty)))"
    );
    let block = &tree.sub_nodes[1];
    assert_eq!(block.sub_nodes.len(), 5);
    for declaration in block.sub_nodes[..4].iter() {
        assert_eq!(declaration.sub_nodes.len(), 2);
        assert!(declaration.sub_nodes[0].sub_nodes.is_empty());
        assert!(declaration.sub_nodes[1].sub_nodes.is_empty());
    }
}

#[test]
fn binary_operators_associate_to_the_left() {
    assert_eq!(parse_expression("a - b + c").unwrap(), "(+ (- a b) c)");
    assert_eq!(parse_expression("a / b * c DIV d").unwrap(), "(DIV (* (/ a b) c) d)");
    assert_eq!(parse_expression("1 - 2 - 3 - 4").unwrap(), "(- (- (- 1 2) 3) 4)");
}

#[test]
fn multiplication_binds_tighter_than_addition() {
    assert_eq!(parse_expression("a + b * c").unwrap(), "(+ a (* b c))");
    assert_eq!(parse_expression("a * b + c").unwrap(), "(+ (* a b) c)");
    assert_eq!(
        parse_expression("10 * a + 10 * a DIV 4").unwrap(),
        "(+ (* 10 a) (DIV (* 10 a) 4))"
    );
}

#[test]
fn a_sign_binds_tighter_than_any_binary_operator() {
    assert_eq!(parse_expression("- a * b").unwrap(), "(* (u- a) b)");
    assert_eq!(parse_expression("a - - b").unwrap(), "(- a (u- b))");
    assert_eq!(parse_expression("- - 5").unwrap(), "(u- (u- 5))");
    assert_eq!(parse_expression("+ - + 5").unwrap(), "(u+ (u- (u+ 5)))");
}

#[test]
fn parentheses_leave_no_node() {
    assert_eq!(parse_expression("(a)").unwrap(), "a");
    assert_eq!(parse_expression("((a + b))").unwrap(), "(+ a b)");
    assert_eq!(parse_expression("(a + b) * c").unwrap(), "(* (+ a b) c)");
    assert_eq!(parse_expression("a - (b - c)").unwrap(), "(- a (- b c))");
}

#[test]
fn literals_and_identifiers_are_leaves() {
    let mut parser = Interpreter::from(&"7 2.5 x".to_string()).unwrap();
    let seven = parser.factor().unwrap();
    assert!(matches!(seven.node, Token::INTEGER_CONST(7)));
    assert!(seven.sub_nodes.is_empty());
    let real = parser.factor().unwrap();
    assert!(matches!(real.node, Token::REAL_CONST(bits) if bits == 2.5f64.to_bits()));
    assert!(real.sub_nodes.is_empty());
    let name = parser.factor().unwrap();
    assert!(matches!(&name.node, Token::ID(n) if n == "x"));
    assert!(name.sub_nodes.is_empty());
}

#[test]
fn term_stops_before_an_additive_operator() {
    let mut parser = Interpreter::from(&"a * b + c".to_string()).unwrap();
    let tree = parser.term().unwrap();
    assert_eq!(show(&tree), "(* a b)");
    assert!(matches!(parser.current_token, Token::OP1('+')));
}

#[test]
fn an_empty_statement_slot_is_an_empty_node() {
    assert_eq!(parse_body("").unwrap(), "(comp empty)");
    assert_eq!(parse_body("a := 1;").unwrap(), "(comp (:= a 1) empty)");
    assert_eq!(parse_body(";;").unwrap(), "(comp empty empty empty)");
    assert_eq!(parse_body("; a := 1").unwrap(), "(comp empty (:= a 1))");
}

#[test]
fn a_compound_statement_has_one_child_for_each_statement() {
    let tree = parse_text("PROGRAM p; BEGIN a := 1; b := 2; BEGIN c := 3 END; END.").unwrap();
    let compound = &tree.sub_nodes[1].sub_nodes[0];
    assert_eq!(compound.sub_nodes.len(), 4);
    assert_eq!(show(compound), "(comp (:= a 1) (:= b 2) (comp (:= c 3)) empty)");
    assert_eq!(compound.sub_nodes[2].sub_nodes.len(), 1);
}

#[test]
fn an_assignment_has_a_target_and_an_expression() {
    let tree = parse_text("PROGRAM p; BEGIN x := (1 + 2) * y END.").unwrap();
    let assignment = &tree.sub_nodes[1].sub_nodes[0].sub_nodes[0];
    assert!(matches!(assignment.node, Token::ASSIGN));
    assert_eq!(assignment.sub_nodes.len(), 2);
    assert_eq!(show(assignment), "(:= x (* (+ 1 2) y))");
}

#[test]
fn the_sample_program_parses() {
    let source = "PROGRAM Part10AST;\nVAR\n   a, b : INTEGER;\n   y    : REAL;\n\n\
                  BEGIN {Part10AST}\n   a := 2;\n   b := 10 * a + 10 * a DIV 4;\n   \
                  y := 20 / 7 + 3.14;END.  {Part10AST}\n";
    let tree = parse_text(source).unwrap();
    assert_eq!(
        show(&tree),
        "(program Part10AST (block (var a INTEGER) (var b INTEGER) (var y REAL) (comp (:= a 2) \
         (:= b (+ (* 10 a) (DIV (* 10 a) 4))) (:= y (+ (/ 20 7) 3.14)) empty)))"
    );
}

#[test]
fn layout_and_comments_do_not_change_the_tree() {
    let plain = parse_text("PROGRAM p;VAR a:INTEGER;BEGIN a:=1+2*3 END.").unwrap();
    let spaced = parse_text(
        "PROGRAM p ;\n{declarations}\nVAR a : INTEGER ;\nBEGIN\n  a := 1 + 2 * 3 {sum}\nEND .\n",
    )
    .unwrap();
    assert_eq!(show(&plain), show(&spaced));
}

#[test]
fn parsing_twice_gives_the_same_tree() {
    let mut parser =
        Interpreter::from(&"PROGRAM p; VAR a : REAL; BEGIN a := 1.5 END.".to_string()).unwrap();
    let first = parser.parse().unwrap();
    assert!(matches!(parser.current_token, Token::KEYWORD(Keyword::Program)));
    let second = parser.parse().unwrap();
    assert_eq!(show(&first), show(&second));
}

#[test]
fn input_after_the_final_dot_is_rejected() {
    assert_eq!(
        parse_text("PROGRAM p; BEGIN END. x").unwrap_err(),
        Error::TrailingInput
    );
    assert_eq!(
        parse_text("PROGRAM p; BEGIN END..").unwrap_err().kind(),
        ErrorKind::Syntax
    );
    assert!(parse_text("PROGRAM p; BEGIN END. {the end}\n").is_ok());
}

#[test]
fn the_program_name_must_be_an_identifier() {
    assert_eq!(parse_text("PROGRAM 5; BEGIN END.").unwrap_err(), Error::UnexpectedToken);
    assert_eq!(parse_text("PROGRAM ; BEGIN END.").unwrap_err(), Error::UnexpectedToken);
    assert_eq!(parse_text("PROGRAM BEGIN; BEGIN END.").unwrap_err(), Error::UnexpectedToken);
}

#[test]
fn missing_tokens_are_syntax_errors() {
    for source in [
        "",
        "BEGIN END.",
        "PROGRAM p BEGIN END.",
        "PROGRAM p; END.",
        "PROGRAM p; BEGIN END",
        "PROGRAM p; BEGIN",
        "PROGRAM p; BEGIN a := END.",
        "PROGRAM p; BEGIN a : 1 END.",
        "PROGRAM p; BEGIN a := (1 + 2 END.",
        "PROGRAM p; BEGIN a := 1 + END.",
        "PROGRAM p; BEGIN a := 1 b := 2 END.",
        "PROGRAM p; BEGIN a := 1 2 END.",
        "PROGRAM p; BEGIN a := * 2 END.",
    ] {
        match parse_text(source) {
            Err(e) => assert_eq!(e.kind(), ErrorKind::Syntax, "{}", source),
            Ok(_) => panic!("accepted: {}", source),
        }
    }
}

#[test]
fn a_declaration_follows_the_grammar_exactly() {
    for source in [
        "PROGRAM p; VAR BEGIN END.",
        "PROGRAM p; VAR a INTEGER; BEGIN END.",
        "PROGRAM p; VAR a : INTEGER BEGIN END.",
        "PROGRAM p; VAR a b : INTEGER; BEGIN END.",
        "PROGRAM p; VAR a, : INTEGER; BEGIN END.",
        "PROGRAM p; VAR , a : INTEGER; BEGIN END.",
        "PROGRAM p; VAR a,, b : INTEGER; BEGIN END.",
        "PROGRAM p; VAR a : DIV; BEGIN END.",
        "PROGRAM p; VAR a : b; BEGIN END.",
        "PROGRAM p; VAR a : INTEGER; VAR b : REAL; BEGIN END.",
    ] {
        assert_eq!(parse_text(source).unwrap_err(), Error::UnexpectedToken, "{}", source);
    }
}

#[test]
fn a_lexical_error_ends_the_parse() {
    assert_eq!(
        parse_text("PROGRAM p; BEGIN a := 1 ? 2 END.").unwrap_err(),
        Error::UnrecognizedCharacter { character: '?', position: 24 }
    );
    assert_eq!(
        parse_text("$").unwrap_err(),
        Error::UnrecognizedCharacter { character: '$', position: 0 }
    );
    assert_eq!(
        parse_text("PROGRAM p; BEGIN { END.").unwrap_err(),
        Error::UnterminatedComment { position: 17 }
    );
}

#[test]
fn the_first_error_in_reading_order_wins() {
    assert_eq!(
        parse_text("PROGRAM ; BEGIN $ END.").unwrap_err(),
        Error::UnexpectedToken
    );
    assert_eq!(
        parse_text("PROGRAM p $; BEGIN END").unwrap_err(),
        Error::UnrecognizedCharacter { character: '$', position: 10 }
    );
}

#[test]
fn eat_takes_a_token_of_the_expected_kind() {
    let mut parser = Interpreter::from(&"a b 1".to_string()).unwrap();
    assert_eq!(parser.eat(Token::ID("other".to_string())), Ok(()));
    assert!(matches!(&parser.current_token, Token::ID(n) if n == "b"));
    assert_eq!(parser.eat(Token::SEMI), Err(Error::UnexpectedToken));
    assert_eq!(parser.eat(Token::KEYWORD(Keyword::Begin)), Err(Error::UnexpectedToken));
    assert!(matches!(&parser.current_token, Token::ID(n) if n == "b"));
}

#[test]
fn tree_constructors() {
    let leaf = TreeNode::leaf(Token::INTEGER_CONST(1));
    assert!(leaf.sub_nodes.is_empty());
    let sum = TreeNode::binary(
        Token::OP1('+'),
        TreeNode::leaf(Token::INTEGER_CONST(1)),
        TreeNode::unary(Token::UNARY('-'), TreeNode::leaf(Token::INTEGER_CONST(2))),
    );
    assert_eq!(show(&sum), "(+ 1 (u- 2))");
    let list = TreeNode::branch(Token::ASTNode(NodeKind::Comp), vec![leaf, sum]);
    assert_eq!(show(&list), "(comp 1 (+ 1 (u- 2)))");
}
