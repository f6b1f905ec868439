//! The grammar: which tree a stream of tokens stands for.
//!
//! ```text
//! program              := PROGRAM ID ; block .
//! block                := declarations compound_statement
//! declarations         := ( VAR ( variable_declaration ; )+ )?
//! variable_declaration := ID ( , ID )* : ( INTEGER | REAL )
//! compound_statement   := BEGIN statement_list END
//! statement_list       := statement ( ; statement )*
//! statement            := compound_statement | assignment_statement | empty
//! assignment_statement := ID := expr
//! expr                 := term ( ( + | - ) term )*
//! term                 := factor ( ( * | / | DIV ) factor )*
//! factor               := ( + | - ) factor | INTEGER_CONST | REAL_CONST | ( expr ) | ID
//! ```
//!
//! Everything here is specification. Each production is a function from the
//! tokens that remain to the tree it builds and the number of tokens it
//! takes, or to the first error. One token of lookahead decides every choice;
//! nothing is tried twice. The parser in [`crate::parser`] is proved against
//! these functions.

use crate::error::Error;
use crate::lexis::TokenStream;
use crate::token::{Keyword, NodeKind, TokenView};
use crate::tree::Tree;
use vstd::prelude::*;

verus! {

/// Consuming one token that must be of the kind of `want`.
pub open spec fn expect(s: TokenStream, want: TokenView) -> Result<TokenStream, Error> {
    if s.head().same_kind(want) {
        s.next()
    } else {
        Err(Error::UnexpectedToken)
    }
}

/// Whether a token joins two factors: `*`, `/` or `DIV`.
pub open spec fn joins_factors(token: TokenView) -> bool {
    token is OP2 || token == TokenView::KEYWORD(Keyword::Div)
}

/// `factor`. A sign binds tighter than any binary operator and may be
/// repeated; parentheses leave no node of their own.
#[verifier::opaque]
pub open spec fn factor(s: TokenStream) -> Result<(Tree, nat), Error>
    decreases s.tokens.len(), 0nat,
{
    match s.head() {
        TokenView::OP1(c) => match s.next() {
            Err(e) => Err(e),
            Ok(s1) => match factor(s1) {
                Err(e) => Err(e),
                Ok((operand, n)) => Ok(
                    (Tree { node: TokenView::UNARY(c), children: seq![operand] }, n + 1),
                ),
            },
        },
        TokenView::INTEGER_CONST(_) | TokenView::REAL_CONST(_) | TokenView::ID(_) => match s.next() {
            Err(e) => Err(e),
            Ok(_) => Ok((Tree::leaf(s.head()), 1)),
        },
        TokenView::LP => match s.next() {
            Err(e) => Err(e),
            Ok(s1) => match expr(s1) {
                Err(e) => Err(e),
                Ok((inner, n)) => match expect(s1.skip(n), TokenView::RP) {
                    Err(e) => Err(e),
                    Ok(_) => Ok((inner, n + 2)),
                },
            },
        },
        _ => Err(Error::UnexpectedToken),
    }
}

/// The rest of a term whose factors so far make up `left`. The operators
/// associate to the left.
#[verifier::opaque]
pub open spec fn term_rest(s: TokenStream, left: Tree) -> Result<(Tree, nat), Error>
    decreases s.tokens.len(), 1nat,
{
    if joins_factors(s.head()) {
        match s.next() {
            Err(e) => Err(e),
            Ok(s1) => match factor(s1) {
                Err(e) => Err(e),
                Ok((right, n)) => match term_rest(
                    s1.skip(n),
                    Tree { node: s.head(), children: seq![left, right] },
                ) {
                    Err(e) => Err(e),
                    Ok((tree, m)) => Ok((tree, 1 + n + m)),
                },
            },
        }
    } else {
        Ok((left, 0))
    }
}

/// `term`.
#[verifier::opaque]
pub open spec fn term(s: TokenStream) -> Result<(Tree, nat), Error>
    decreases s.tokens.len(), 2nat,
{
    match factor(s) {
        Err(e) => Err(e),
        Ok((left, n)) => match term_rest(s.skip(n), left) {
            Err(e) => Err(e),
            Ok((tree, m)) => Ok((tree, n + m)),
        },
    }
}

/// The rest of an expression whose terms so far make up `left`. The
/// operators associate to the left.
#[verifier::opaque]
pub open spec fn expr_rest(s: TokenStream, left: Tree) -> Result<(Tree, nat), Error>
    decreases s.tokens.len(), 3nat,
{
    if s.head() is OP1 {
        match s.next() {
            Err(e) => Err(e),
            Ok(s1) => match term(s1) {
                Err(e) => Err(e),
                Ok((right, n)) => match expr_rest(
                    s1.skip(n),
                    Tree { node: s.head(), children: seq![left, right] },
                ) {
                    Err(e) => Err(e),
                    Ok((tree, m)) => Ok((tree, 1 + n + m)),
                },
            },
        }
    } else {
        Ok((left, 0))
    }
}

/// `expr`.
#[verifier::opaque]
pub open spec fn expr(s: TokenStream) -> Result<(Tree, nat), Error>
    decreases s.tokens.len(), 4nat,
{
    match term(s) {
        Err(e) => Err(e),
        Ok((left, n)) => match expr_rest(s.skip(n), left) {
            Err(e) => Err(e),
            Ok((tree, m)) => Ok((tree, n + m)),
        },
    }
}

/// `assignment_statement`. The node carries the assignment token, over the
/// target and the expression.
#[verifier::opaque]
pub open spec fn assignment_statement(s: TokenStream) -> Result<(Tree, nat), Error>
    decreases s.tokens.len(), 5nat,
{
    if !(s.head() is ID) {
        Err(Error::UnexpectedToken)
    } else {
        match s.next() {
            Err(e) => Err(e),
            Ok(s1) => match expect(s1, TokenView::ASSIGN) {
                Err(e) => Err(e),
                Ok(s2) => match expr(s2) {
                    Err(e) => Err(e),
                    Ok((value, n)) => Ok(
                        (
                            Tree {
                                node: TokenView::ASSIGN,
                                children: seq![Tree::leaf(s.head()), value],
                            },
                            n + 2,
                        ),
                    ),
                },
            },
        }
    }
}

/// `compound_statement`. The node's children are the statements of the list.
#[verifier::opaque]
pub open spec fn compound_statement(s: TokenStream) -> Result<(Tree, nat), Error>
    decreases s.tokens.len(), 5nat,
{
    match expect(s, TokenView::KEYWORD(Keyword::Begin)) {
        Err(e) => Err(e),
        Ok(s1) => match statement_list(s1) {
            Err(e) => Err(e),
            Ok((statements, n)) => match expect(s1.skip(n), TokenView::KEYWORD(Keyword::End)) {
                Err(e) => Err(e),
                Ok(_) => Ok(
                    (Tree { node: TokenView::ASTNode(NodeKind::Comp), children: statements }, n + 2),
                ),
            },
        },
    }
}

/// `statement`. Where neither `BEGIN` nor an identifier follows, the
/// statement is empty and takes no token.
#[verifier::opaque]
pub open spec fn statement(s: TokenStream) -> Result<(Tree, nat), Error>
    decreases s.tokens.len(), 6nat,
{
    if s.head() == TokenView::KEYWORD(Keyword::Begin) {
        compound_statement(s)
    } else if s.head() is ID {
        assignment_statement(s)
    } else {
        Ok((Tree::leaf(TokenView::ASTNode(NodeKind::Empty)), 0))
    }
}

/// The statements that follow the first of a list, each after a `;`.
#[verifier::opaque]
pub open spec fn statement_tail(s: TokenStream) -> Result<(Seq<Tree>, nat), Error>
    decreases s.tokens.len(), 7nat,
{
    if s.head() == TokenView::SEMI {
        match s.next() {
            Err(e) => Err(e),
            Ok(s1) => match statement(s1) {
                Err(e) => Err(e),
                Ok((first, n)) => match statement_tail(s1.skip(n)) {
                    Err(e) => Err(e),
                    Ok((rest, m)) => Ok((seq![first] + rest, 1 + n + m)),
                },
            },
        }
    } else {
        Ok((Seq::empty(), 0))
    }
}

/// `statement_list`.
#[verifier::opaque]
pub open spec fn statement_list(s: TokenStream) -> Result<(Seq<Tree>, nat), Error>
    decreases s.tokens.len(), 8nat,
{
    match statement(s) {
        Err(e) => Err(e),
        Ok((first, n)) => match statement_tail(s.skip(n)) {
            Err(e) => Err(e),
            Ok((rest, m)) => Ok((seq![first] + rest, n + m)),
        },
    }
}

/// The names of one declaration: `ID ( , ID )*`.
#[verifier::opaque]
pub open spec fn declared_names(s: TokenStream) -> Result<(Seq<TokenView>, nat), Error>
    decreases s.tokens.len(),
{
    if !(s.head() is ID) {
        Err(Error::UnexpectedToken)
    } else {
        match s.next() {
            Err(e) => Err(e),
            Ok(s1) => if s1.head() == TokenView::COMMA {
                match s1.next() {
                    Err(e) => Err(e),
                    Ok(s2) => match declared_names(s2) {
                        Err(e) => Err(e),
                        Ok((rest, n)) => Ok((seq![s.head()] + rest, n + 2)),
                    },
                }
            } else {
                Ok((seq![s.head()], 1))
            },
        }
    }
}

/// The node that declares one name with a type.
pub open spec fn declaration(name: TokenView, type_spec: TokenView) -> Tree {
    Tree {
        node: TokenView::ASTNode(NodeKind::VarDec),
        children: seq![Tree::leaf(name), Tree::leaf(type_spec)],
    }
}

/// Whether a token names a type: `INTEGER` or `REAL`.
pub open spec fn is_type_spec(token: TokenView) -> bool {
    token == TokenView::KEYWORD(Keyword::Integer) || token == TokenView::KEYWORD(Keyword::Real)
}

/// `variable_declaration`. A declaration of several names gives one node for
/// each name, in order, all with the declaration's type.
#[verifier::opaque]
pub open spec fn variable_declaration(s: TokenStream) -> Result<(Seq<Tree>, nat), Error> {
    match declared_names(s) {
        Err(e) => Err(e),
        Ok((names, n)) => match expect(s.skip(n), TokenView::COLON) {
            Err(e) => Err(e),
            Ok(s1) => if !is_type_spec(s1.head()) {
                Err(Error::UnexpectedToken)
            } else {
                match s1.next() {
                    Err(e) => Err(e),
                    Ok(_) => Ok(
                        (
                            Seq::new(names.len(), |i: int| declaration(names[i], s1.head())),
                            n + 2,
                        ),
                    ),
                }
            },
        },
    }
}

/// The declarations from the lookahead on, each closed by a `;`, for as long
/// as an identifier follows.
#[verifier::opaque]
pub open spec fn declaration_lines(s: TokenStream) -> Result<(Seq<Tree>, nat), Error>
    decreases s.tokens.len(),
{
    if s.head() is ID {
        match variable_declaration(s) {
            Err(e) => Err(e),
            Ok((first, n)) => match expect(s.skip(n), TokenView::SEMI) {
                Err(e) => Err(e),
                Ok(s1) => match declaration_lines(s1) {
                    Err(e) => Err(e),
                    Ok((rest, m)) => Ok((first + rest, n + 1 + m)),
                },
            },
        }
    } else {
        Ok((Seq::empty(), 0))
    }
}

/// `declarations`. After `VAR` at least one declaration must stand.
#[verifier::opaque]
pub open spec fn declarations(s: TokenStream) -> Result<(Seq<Tree>, nat), Error> {
    if s.head() == TokenView::KEYWORD(Keyword::Var) {
        match s.next() {
            Err(e) => Err(e),
            Ok(s1) => if !(s1.head() is ID) {
                Err(Error::UnexpectedToken)
            } else {
                match declaration_lines(s1) {
                    Err(e) => Err(e),
                    Ok((nodes, n)) => Ok((nodes, n + 1)),
                }
            },
        }
    } else {
        Ok((Seq::empty(), 0))
    }
}

/// `block`. The node's children are the declarations, then the compound
/// statement.
#[verifier::opaque]
pub open spec fn block(s: TokenStream) -> Result<(Tree, nat), Error> {
    match declarations(s) {
        Err(e) => Err(e),
        Ok((nodes, n)) => match compound_statement(s.skip(n)) {
            Err(e) => Err(e),
            Ok((body, m)) => Ok(
                (Tree { node: TokenView::ASTNode(NodeKind::Block), children: nodes.push(body) }, n + m),
            ),
        },
    }
}

/// `program`.
#[verifier::opaque]
pub open spec fn program(s: TokenStream) -> Result<(Tree, nat), Error> {
    match expect(s, TokenView::KEYWORD(Keyword::Program)) {
        Err(e) => Err(e),
        Ok(s1) => if !(s1.head() is ID) {
            Err(Error::UnexpectedToken)
        } else {
            match s1.next() {
                Err(e) => Err(e),
                Ok(s2) => match expect(s2, TokenView::SEMI) {
                    Err(e) => Err(e),
                    Ok(s3) => match block(s3) {
                        Err(e) => Err(e),
                        Ok((body, n)) => match expect(s3.skip(n), TokenView::DOT) {
                            Err(e) => Err(e),
                            Ok(_) => Ok(
                                (
                                    Tree {
                                        node: TokenView::ASTNode(NodeKind::Program),
                                        children: seq![Tree::leaf(s1.head()), body],
                                    },
                                    n + 4,
                                ),
                            ),
                        },
                    },
                },
            }
        },
    }
}

/// A whole input: one program, and nothing but the end of the input behind
/// it.
pub open spec fn parse(s: TokenStream) -> Result<Tree, Error> {
    match program(s) {
        Err(e) => Err(e),
        Ok((tree, n)) => if s.skip(n).head() is EOF {
            Ok(tree)
        } else {
            Err(Error::TrailingInput)
        },
    }
}

} // verus!
