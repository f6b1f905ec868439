use pascal_interpreter::interpret::parse_text;
use pascal_interpreter::printing::tokens_of;
use pascal_interpreter::token::{Keyword, NodeKind, Token};
use pascal_interpreter::tree::TreeNode;

fn spell(token: &Token) -> String {
    match token {
        Token::OP1(c) | Token::OP2(c) => c.to_string(),
        Token::LP => "(".to_string(),
        Token::RP => ")".to_string(),
        Token::INTEGER_CONST(n) => n.to_string(),
        Token::REAL_CONST(bits) => {
            let digits = format!("{}", f64::from_bits(*bits));
            if digits.contains('.') {
                digits
            } else {
                digits + ".0"
            }
        }
        Token::KEYWORD(k) => k.text().to_string(),
        Token::DOT => ".".to_string(),
        Token::ASSIGN => ":=".to_string(),
        Token::SEMI => ";".to_string(),
        Token::COMMA => ",".to_string(),
        Token::COLON => ":".to_string(),
        Token::ID(name) => name.clone(),
        other => panic!("a token that no text spells: {:?}", other),
    }
}

fn written(tree: &TreeNode) -> String {
    let words: Vec<String> = tokens_of(tree).iter().map(spell).collect();
    words.join(" ")
}

fn same(a: &TreeNode, b: &TreeNode) -> bool {
    let same_tag = match (&a.node, &b.node) {
        (Token::OP1(x), Token::OP1(y)) => x == y,
        (Token::OP2(x), Token::OP2(y)) => x == y,
        (Token::UNARY(x), Token::UNARY(y)) => x == y,
        (Token::INTEGER_CONST(x), Token::INTEGER_CONST(y)) => x == y,
        (Token::REAL_CONST(x), Token::REAL_CONST(y)) => x == y,
        (Token::ID(x), Token::ID(y)) => x == y,
        (x, y) => x == y,
    };
    same_tag
        && a.sub_nodes.len() == b.sub_nodes.len()
        && a.sub_nodes.iter().zip(b.sub_nodes.iter()).all(|(x, y)| same(x, y))
}

fn round_trip(source: &str) -> String {
    let tree = parse_text(source).unwrap();
    assert!(tree.is_program());
    let text = written(&tree);
    let again = parse_text(&text).unwrap();
    assert!(same(&tree, &again), "{} is not {}", text, source);
    assert_eq!(written(&again), text);
    text
}

#[test]
fn the_sample_program_is_written_as_it_was_read() {
    let text = round_trip(
        "PROGRAM Part10AST;\nVAR\n   a, b : INTEGER;\n   y    : REAL;\n\nBEGIN {Part10AST}\n   \
         a := 2;\n   b := 10 * a + 10 * a DIV 4;\n   y := 20 / 7 + 3.14;END.  {Part10AST}\n",
    );
    assert_eq!(
        text,
        "PROGRAM Part10AST ; VAR a : INTEGER ; b : INTEGER ; y : REAL ; BEGIN a := 2 ; \
         b := 10 * a + 10 * a DIV 4 ; y := 20 / 7 + 3.14 ; END ."
    );
}

#[test]
fn parentheses_are_written_where_the_tree_needs_them() {
    assert_eq!(
        round_trip("PROGRAM p; BEGIN a := ((1)) + (2 * 3) - (4 - 5) END."),
        "PROGRAM p ; BEGIN a := 1 + 2 * 3 - ( 4 - 5 ) END ."
    );
    assert_eq!(
        round_trip("PROGRAM p; BEGIN a := (1 + 2) * 3 DIV (4 / (5 * 6)) END."),
        "PROGRAM p ; BEGIN a := ( 1 + 2 ) * 3 DIV ( 4 / ( 5 * 6 ) ) END ."
    );
    assert_eq!(
        round_trip("PROGRAM p; BEGIN a := - (b + c) * - - d END."),
        "PROGRAM p ; BEGIN a := - ( b + c ) * - - d END ."
    );
    assert_eq!(
        round_trip("PROGRAM p; BEGIN a := -(-(1)) - +(2 DIV 3) END."),
        "PROGRAM p ; BEGIN a := - - 1 - + ( 2 DIV 3 ) END ."
    );
}

#[test]
fn empty_statements_and_nested_compounds_survive() {
    assert_eq!(round_trip("PROGRAM p; BEGIN END."), "PROGRAM p ; BEGIN END .");
    assert_eq!(round_trip("PROGRAM p; BEGIN ; END."), "PROGRAM p ; BEGIN ; END .");
    assert_eq!(
        round_trip("PROGRAM p; BEGIN ; a := 1; ; BEGIN BEGIN END; b := 2 END; END."),
        "PROGRAM p ; BEGIN ; a := 1 ; ; BEGIN BEGIN END ; b := 2 END ; END ."
    );
}

#[test]
fn declarations_are_written_one_to_a_line() {
    assert_eq!(
        round_trip("PROGRAM p; VAR a, b : REAL; c : INTEGER; d, e, f : REAL; BEGIN END."),
        "PROGRAM p ; VAR a : REAL ; b : REAL ; c : INTEGER ; d : REAL ; e : REAL ; f : REAL ; \
         BEGIN END ."
    );
}

#[test]
fn real_literals_survive() {
    round_trip("PROGRAM p; BEGIN x := 0.1 + 2. * 1234567.000001 / 0.000000001 END.");
    round_trip("PROGRAM p; BEGIN x := 123456789012345678901234567890.0 END.");
}

#[test]
fn rendering_a_built_tree() {
    let sum = TreeNode::binary(
        Token::OP1('-'),
        TreeNode::leaf(Token::ID("a".to_string())),
        TreeNode::binary(
            Token::OP1('+'),
            TreeNode::leaf(Token::INTEGER_CONST(1)),
            TreeNode::unary(Token::UNARY('-'), TreeNode::leaf(Token::ID("b".to_string()))),
        ),
    );
    assert!(sum.is_expression());
    let assignment =
        TreeNode::binary(Token::ASSIGN, TreeNode::leaf(Token::ID("x".to_string())), sum);
    assert!(assignment.is_statement());
    let body = TreeNode::branch(Token::ASTNode(NodeKind::Comp), vec![assignment]);
    let declaration = TreeNode::binary(
        Token::ASTNode(NodeKind::VarDec),
        TreeNode::leaf(Token::ID("x".to_string())),
        TreeNode::leaf(Token::KEYWORD(Keyword::Integer)),
    );
    assert!(declaration.is_declaration());
    let block = TreeNode::branch(Token::ASTNode(NodeKind::Block), vec![declaration, body]);
    assert!(block.is_block());
    let program = TreeNode::binary(
        Token::ASTNode(NodeKind::Program),
        TreeNode::leaf(Token::ID("built".to_string())),
        block,
    );
    assert!(program.is_program());
    let text = written(&program);
    assert_eq!(text, "PROGRAM built ; VAR x : INTEGER ; BEGIN x := a - ( 1 + - b ) END .");
    assert!(same(&parse_text(&text).unwrap(), &program));
}

#[test]
fn shape_checks_refuse_what_the_parser_never_builds() {
    let leaf = |t: Token| TreeNode::leaf(t);
    assert!(!leaf(Token::SEMI).is_expression());
    assert!(!TreeNode::unary(Token::OP1('+'), leaf(Token::INTEGER_CONST(1))).is_expression());
    assert!(!TreeNode::unary(Token::UNARY('*'), leaf(Token::INTEGER_CONST(1))).is_expression());
    assert!(!TreeNode::binary(
        Token::OP2('+'),
        leaf(Token::INTEGER_CONST(1)),
        leaf(Token::INTEGER_CONST(2))
    )
    .is_expression());
    assert!(!TreeNode::binary(
        Token::KEYWORD(Keyword::Begin),
        leaf(Token::INTEGER_CONST(1)),
        leaf(Token::INTEGER_CONST(2))
    )
    .is_expression());
    assert!(!TreeNode::unary(Token::ID("a".to_string()), leaf(Token::INTEGER_CONST(1)))
        .is_expression());
    assert!(leaf(Token::ID("a".to_string())).is_name());
    assert!(!leaf(Token::INTEGER_CONST(1)).is_name());
    assert!(!TreeNode::binary(
        Token::ASSIGN,
        leaf(Token::INTEGER_CONST(1)),
        leaf(Token::INTEGER_CONST(2))
    )
    .is_statement());
    assert!(!TreeNode::branch(Token::ASTNode(NodeKind::Comp), vec![]).is_statement());
    assert!(!TreeNode::branch(
        Token::ASTNode(NodeKind::Comp),
        vec![leaf(Token::ASTNode(NodeKind::Empty)), leaf(Token::INTEGER_CONST(1))]
    )
    .is_statement());
    assert!(leaf(Token::ASTNode(NodeKind::Empty)).is_statement());
    assert!(!TreeNode::binary(
        Token::ASTNode(NodeKind::VarDec),
        leaf(Token::ID("a".to_string())),
        leaf(Token::KEYWORD(Keyword::Div))
    )
    .is_declaration());
    assert!(!TreeNode::branch(Token::ASTNode(NodeKind::Block), vec![]).is_block());
    assert!(!TreeNode::branch(
        Token::ASTNode(NodeKind::Block),
        vec![leaf(Token::ASTNode(NodeKind::Empty))]
    )
    .is_block());
    assert!(!leaf(Token::ASTNode(NodeKind::Program)).is_program());
    let tree = parse_text("PROGRAM p; VAR a : REAL; BEGIN a := 1.0; BEGIN END END.").unwrap();
    assert!(tree.is_program());
    assert!(tree.sub_nodes[1].is_block());
    assert!(!tree.sub_nodes[1].is_program());
    assert!(tree.sub_nodes[1].sub_nodes[0].is_declaration());
    assert!(tree.sub_nodes[1].sub_nodes[1].is_statement());
    assert!(tree.sub_nodes[1].sub_nodes[1].sub_nodes[0].sub_nodes[1].is_expression());
}

#[test]
fn postfix_form_of_an_expression() {
    let tree = parse_text("PROGRAM p; BEGIN a := (1 + 2) * 3 - - 4 DIV b END.").unwrap();
    let expression = &tree.sub_nodes[1].sub_nodes[0].sub_nodes[0].sub_nodes[1];
    let words: Vec<String> = expression
        .post_t()
        .iter()
        .map(|token| match token {
            Token::UNARY(c) => format!("u{}", c),
            other => spell(other),
        })
        .collect();
    assert_eq!(words.join(" "), "1 2 + 3 * 4 u- b DIV -");
    let leaf = TreeNode::leaf(Token::INTEGER_CONST(7));
    assert_eq!(leaf.post_t().len(), 1);
}
