//! The vocabulary shared by the lexer, the parser and the evaluator.

use vstd::prelude::*;

verus! {

/// A reserved word of the language.
#[derive(Clone, Copy, Debug, PartialEq, Eq, Structural)]
pub enum Keyword {
    Program,
    Var,
    Begin,
    End,
    Integer,
    Real,
    Div,
}

impl Keyword {
    /// The letters that spell the word.
    pub open spec fn letters(self) -> Seq<char> {
        match self {
            Keyword::Program => seq!['P', 'R', 'O', 'G', 'R', 'A', 'M'],
            Keyword::Var => seq!['V', 'A', 'R'],
            Keyword::Begin => seq!['B', 'E', 'G', 'I', 'N'],
            Keyword::End => seq!['E', 'N', 'D'],
            Keyword::Integer => seq!['I', 'N', 'T', 'E', 'G', 'E', 'R'],
            Keyword::Real => seq!['R', 'E', 'A', 'L'],
            Keyword::Div => seq!['D', 'I', 'V'],
        }
    }
}

/// The structural label of a synthetic tree node.
#[derive(Clone, Copy, Debug, PartialEq, Eq, Structural)]
pub enum NodeKind {
    Program,
    Block,
    VarDec,
    Comp,
    Empty,
}

/// A token, as the lexer emits it or as the parser tags a tree node with it.
#[allow(non_camel_case_types)]
#[derive(Debug)]
pub enum Token {
    /// End of input.
    EOF,
    /// An additive operator, `+` or `-`.
    OP1(char),
    /// A multiplicative operator, `*` or `/`.
    OP2(char),
    LP,
    RP,
    /// An integer literal.
    INTEGER_CONST(u64),
    /// A real literal, as the bit pattern of its binary64 value.
    REAL_CONST(u64),
    /// A unary operator; only the parser makes these.
    UNARY(char),
    KEYWORD(Keyword),
    DOT,
    ASSIGN,
    SEMI,
    COMMA,
    COLON,
    /// An identifier, with its name as written.
    ID(String),
    /// The tag of a synthetic tree node; only the parser makes these.
    ASTNode(NodeKind),
}

/// The mathematical value of a [`Token`]: the same variants, with an
/// identifier's name as a sequence of characters.
#[allow(non_camel_case_types)]
pub enum TokenView {
    EOF,
    OP1(char),
    OP2(char),
    LP,
    RP,
    INTEGER_CONST(u64),
    REAL_CONST(u64),
    UNARY(char),
    KEYWORD(Keyword),
    DOT,
    ASSIGN,
    SEMI,
    COMMA,
    COLON,
    ID(Seq<char>),
    ASTNode(NodeKind),
}

impl View for Token {
    type V = TokenView;

    open spec fn view(&self) -> TokenView {
        match *self {
            Token::EOF => TokenView::EOF,
            Token::OP1(c) => TokenView::OP1(c),
            Token::OP2(c) => TokenView::OP2(c),
            Token::LP => TokenView::LP,
            Token::RP => TokenView::RP,
            Token::INTEGER_CONST(n) => TokenView::INTEGER_CONST(n),
            Token::REAL_CONST(bits) => TokenView::REAL_CONST(bits),
            Token::UNARY(c) => TokenView::UNARY(c),
            Token::KEYWORD(k) => TokenView::KEYWORD(k),
            Token::DOT => TokenView::DOT,
            Token::ASSIGN => TokenView::ASSIGN,
            Token::SEMI => TokenView::SEMI,
            Token::COMMA => TokenView::COMMA,
            Token::COLON => TokenView::COLON,
            Token::ID(name) => TokenView::ID(name@),
            Token::ASTNode(kind) => TokenView::ASTNode(kind),
        }
    }
}

/// The values of a sequence of tokens.
pub open spec fn token_views(tokens: Seq<Token>) -> Seq<TokenView> {
    Seq::new(tokens.len(), |i: int| tokens[i]@)
}

impl TokenView {
    /// Whether two tokens are of the same variant and, for keywords and node
    /// tags, carry the same word. Other payloads are not compared.
    pub open spec fn same_kind(self, other: TokenView) -> bool {
        match (self, other) {
            (TokenView::EOF, TokenView::EOF) => true,
            (TokenView::OP1(_), TokenView::OP1(_)) => true,
            (TokenView::OP2(_), TokenView::OP2(_)) => true,
            (TokenView::LP, TokenView::LP) => true,
            (TokenView::RP, TokenView::RP) => true,
            (TokenView::INTEGER_CONST(_), TokenView::INTEGER_CONST(_)) => true,
            (TokenView::REAL_CONST(_), TokenView::REAL_CONST(_)) => true,
            (TokenView::UNARY(_), TokenView::UNARY(_)) => true,
            (TokenView::KEYWORD(a), TokenView::KEYWORD(b)) => a == b,
            (TokenView::DOT, TokenView::DOT) => true,
            (TokenView::ASSIGN, TokenView::ASSIGN) => true,
            (TokenView::SEMI, TokenView::SEMI) => true,
            (TokenView::COMMA, TokenView::COMMA) => true,
            (TokenView::COLON, TokenView::COLON) => true,
            (TokenView::ID(_), TokenView::ID(_)) => true,
            (TokenView::ASTNode(a), TokenView::ASTNode(b)) => a == b,
            _ => false,
        }
    }
}

impl Clone for Token {
    fn clone(&self) -> (r: Self)
        ensures
            r@ == self@,
    {
        match self {
            Token::EOF => Token::EOF,
            Token::OP1(c) => Token::OP1(*c),
            Token::OP2(c) => Token::OP2(*c),
            Token::LP => Token::LP,
            Token::RP => Token::RP,
            Token::INTEGER_CONST(n) => Token::INTEGER_CONST(*n),
            Token::REAL_CONST(bits) => Token::REAL_CONST(*bits),
            Token::UNARY(c) => Token::UNARY(*c),
            Token::KEYWORD(k) => Token::KEYWORD(*k),
            Token::DOT => Token::DOT,
            Token::ASSIGN => Token::ASSIGN,
            Token::SEMI => Token::SEMI,
            Token::COMMA => Token::COMMA,
            Token::COLON => Token::COLON,
            Token::ID(name) => Token::ID(name.clone()),
            Token::ASTNode(kind) => Token::ASTNode(*kind),
        }
    }
}

impl PartialEq for Token {
    fn eq(&self, other: &Token) -> (r: bool) {
        match (self, other) {
            (Token::EOF, Token::EOF) => true,
            (Token::OP1(_), Token::OP1(_)) => true,
            (Token::OP2(_), Token::OP2(_)) => true,
            (Token::LP, Token::LP) => true,
            (Token::RP, Token::RP) => true,
            (Token::INTEGER_CONST(_), Token::INTEGER_CONST(_)) => true,
            (Token::REAL_CONST(_), Token::REAL_CONST(_)) => true,
            (Token::UNARY(_), Token::UNARY(_)) => true,
            (Token::KEYWORD(a), Token::KEYWORD(b)) => *a == *b,
            (Token::DOT, Token::DOT) => true,
            (Token::ASSIGN, Token::ASSIGN) => true,
            (Token::SEMI, Token::SEMI) => true,
            (Token::COMMA, Token::COMMA) => true,
            (Token::COLON, Token::COLON) => true,
            (Token::ID(_), Token::ID(_)) => true,
            (Token::ASTNode(a), Token::ASTNode(b)) => *a == *b,
            _ => false,
        }
    }
}

impl vstd::std_specs::cmp::PartialEqSpecImpl for Token {
    open spec fn obeys_eq_spec() -> bool {
        true
    }

    open spec fn eq_spec(&self, other: &Token) -> bool {
        self@.same_kind(other@)
    }
}

} // verus!
