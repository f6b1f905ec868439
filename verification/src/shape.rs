//! The shape of what the parser builds: every tree that the grammar gives
//! for the tokens of a text is a program in the sense of
//! [`Tree::is_program`], with the number of children that each kind of node
//! is owed.

use crate::grammar::{
    assignment_statement, block, compound_statement, declaration, declaration_lines,
    declarations, declared_names, expr, expr_rest, factor, joins_factors, parse, program,
    statement, statement_list, statement_tail, term, term_rest, variable_declaration,
};
use crate::lexis::{
    lemma_head_lexical, lemma_skip_lexical, lemma_token_stream_lexical, token_stream, TokenStream,
};
use crate::token::{Keyword, TokenView};
use crate::tree::Tree;
use vstd::prelude::*;

verus! {

/// `factor` yields an expression.
pub proof fn lemma_factor_shape(s: TokenStream)
    requires
        s.is_lexical(),
    ensures
        factor(s) matches Ok((tree, _)) ==> tree.is_expression(),
    decreases s.tokens.len(), 0nat,
{
    reveal(factor);
    reveal(expr);
    lemma_head_lexical(s);
    lemma_skip_lexical(s, 1);
    match s.head() {
        TokenView::OP1(c) => {
            if s.next() is Ok {
                lemma_factor_shape(s.skip(1));
            }
        },
        TokenView::LP => {
            if s.next() is Ok {
                lemma_expr_shape(s.skip(1));
            }
        },
        _ => {},
    }
}

/// The rest of a term yields an expression, given one to the left.
pub proof fn lemma_term_rest_shape(s: TokenStream, left: Tree)
    requires
        s.is_lexical(),
        left.is_expression(),
    ensures
        term_rest(s, left) matches Ok((tree, _)) ==> tree.is_expression(),
    decreases s.tokens.len(), 1nat,
{
    reveal(term_rest);
    reveal(factor);
    lemma_head_lexical(s);
    lemma_skip_lexical(s, 1);
    if joins_factors(s.head()) {
        if s.next() is Ok {
            let s1 = s.skip(1);
            lemma_factor_shape(s1);
            match factor(s1) {
                Ok((right, n)) => {
                    lemma_skip_lexical(s1, n);
                    let joined = Tree { node: s.head(), children: seq![left, right] };
                    assert(joined.is_expression());
                    lemma_term_rest_shape(s1.skip(n), joined);
                },
                Err(_) => {},
            }
        }
    }
}

/// `term` yields an expression.
pub proof fn lemma_term_shape(s: TokenStream)
    requires
        s.is_lexical(),
    ensures
        term(s) matches Ok((tree, _)) ==> tree.is_expression(),
    decreases s.tokens.len(), 2nat,
{
    reveal(term);
    reveal(factor);
    reveal(term_rest);
    lemma_factor_shape(s);
    match factor(s) {
        Ok((left, n)) => {
            lemma_skip_lexical(s, n);
            lemma_term_rest_shape(s.skip(n), left);
        },
        Err(_) => {},
    }
}

/// The rest of an expression yields an expression, given one to the left.
pub proof fn lemma_expr_rest_shape(s: TokenStream, left: Tree)
    requires
        s.is_lexical(),
        left.is_expression(),
    ensures
        expr_rest(s, left) matches Ok((tree, _)) ==> tree.is_expression(),
    decreases s.tokens.len(), 3nat,
{
    reveal(expr_rest);
    reveal(term);
    lemma_head_lexical(s);
    lemma_skip_lexical(s, 1);
    if s.head() is OP1 {
        if s.next() is Ok {
            let s1 = s.skip(1);
            lemma_term_shape(s1);
            match term(s1) {
                Ok((right, n)) => {
                    lemma_skip_lexical(s1, n);
                    let joined = Tree { node: s.head(), children: seq![left, right] };
                    assert(joined.is_expression());
                    lemma_expr_rest_shape(s1.skip(n), joined);
                },
                Err(_) => {},
            }
        }
    }
}

/// `expr` yields an expression.
pub proof fn lemma_expr_shape(s: TokenStream)
    requires
        s.is_lexical(),
    ensures
        expr(s) matches Ok((tree, _)) ==> tree.is_expression(),
    decreases s.tokens.len(), 4nat,
{
    reveal(expr);
    reveal(term);
    reveal(expr_rest);
    lemma_term_shape(s);
    match term(s) {
        Ok((left, n)) => {
            lemma_skip_lexical(s, n);
            lemma_expr_rest_shape(s.skip(n), left);
        },
        Err(_) => {},
    }
}

/// `assignment_statement` yields an assignment: a name and an expression.
pub proof fn lemma_assignment_shape(s: TokenStream)
    requires
        s.is_lexical(),
    ensures
        assignment_statement(s) matches Ok((tree, _)) ==> tree.is_statement() && tree.node
            == TokenView::ASSIGN,
{
    reveal(assignment_statement);
    reveal(expr);
    lemma_skip_lexical(s, 1);
    lemma_skip_lexical(s.skip(1), 1);
    lemma_expr_shape(s.skip(1).skip(1));
}

/// `compound_statement` yields a compound statement with one child for each
/// statement of its list.
pub proof fn lemma_compound_shape(s: TokenStream)
    requires
        s.is_lexical(),
    ensures
        compound_statement(s) matches Ok((tree, _)) ==> tree.is_compound(),
    decreases s.tokens.len(), 5nat,
{
    reveal(compound_statement);
    reveal(statement_list);
    lemma_skip_lexical(s, 1);
    if s.head().same_kind(TokenView::KEYWORD(Keyword::Begin)) && s.next() is Ok {
        lemma_statement_list_shape(s.skip(1));
    }
}

/// `statement` yields a statement.
pub proof fn lemma_statement_shape(s: TokenStream)
    requires
        s.is_lexical(),
    ensures
        statement(s) matches Ok((tree, _)) ==> tree.is_statement(),
    decreases s.tokens.len(), 6nat,
{
    reveal(statement);
    reveal(compound_statement);
    reveal(assignment_statement);
    if s.head() == TokenView::KEYWORD(Keyword::Begin) {
        lemma_compound_shape(s);
    } else if s.head() is ID {
        lemma_assignment_shape(s);
    }
}

/// The statements after the first of a list are statements.
pub proof fn lemma_statement_tail_shape(s: TokenStream)
    requires
        s.is_lexical(),
    ensures
        statement_tail(s) matches Ok((trees, _)) ==> forall|i: int|
            0 <= i < trees.len() ==> (#[trigger] trees[i]).is_statement(),
    decreases s.tokens.len(), 7nat,
{
    reveal(statement_tail);
    reveal(statement);
    lemma_skip_lexical(s, 1);
    if s.head() == TokenView::SEMI && s.next() is Ok {
        let s1 = s.skip(1);
        lemma_statement_shape(s1);
        match statement(s1) {
            Ok((first, n)) => {
                lemma_skip_lexical(s1, n);
                lemma_statement_tail_shape(s1.skip(n));
            },
            Err(_) => {},
        }
    }
}

/// `statement_list` yields at least one statement, and statements only.
pub proof fn lemma_statement_list_shape(s: TokenStream)
    requires
        s.is_lexical(),
    ensures
        statement_list(s) matches Ok((trees, _)) ==> trees.len() >= 1 && forall|i: int|
            0 <= i < trees.len() ==> (#[trigger] trees[i]).is_statement(),
    decreases s.tokens.len(), 8nat,
{
    reveal(statement_list);
    reveal(statement);
    reveal(statement_tail);
    lemma_statement_shape(s);
    match statement(s) {
        Ok((first, n)) => {
            lemma_skip_lexical(s, n);
            lemma_statement_tail_shape(s.skip(n));
        },
        Err(_) => {},
    }
}

/// The names of a declaration are identifiers.
pub proof fn lemma_declared_names_shape(s: TokenStream)
    ensures
        declared_names(s) matches Ok((names, _)) ==> forall|i: int|
            0 <= i < names.len() ==> (#[trigger] names[i]) is ID,
    decreases s.tokens.len(),
{
    reveal(declared_names);
    if s.head() is ID && s.next() is Ok {
        let s1 = s.skip(1);
        if s1.head() == TokenView::COMMA && s1.next() is Ok {
            lemma_declared_names_shape(s1.skip(1));
        }
    }
}

/// `variable_declaration` yields declarations: a name and a type each.
pub proof fn lemma_variable_declaration_shape(s: TokenStream)
    ensures
        variable_declaration(s) matches Ok((trees, _)) ==> forall|i: int|
            0 <= i < trees.len() ==> (#[trigger] trees[i]).is_declaration(),
{
    reveal(variable_declaration);
    lemma_declared_names_shape(s);
}

/// The lines of declarations yield declarations.
pub proof fn lemma_declaration_lines_shape(s: TokenStream)
    ensures
        declaration_lines(s) matches Ok((trees, _)) ==> forall|i: int|
            0 <= i < trees.len() ==> (#[trigger] trees[i]).is_declaration(),
    decreases s.tokens.len(),
{
    reveal(declaration_lines);
    if s.head() is ID {
        lemma_variable_declaration_shape(s);
        match variable_declaration(s) {
            Ok((first, n)) => {
                let s0 = s.skip(n);
                if s0.head().same_kind(TokenView::SEMI) && s0.next() is Ok {
                    lemma_declaration_lines_shape(s0.skip(1));
                }
            },
            Err(_) => {},
        }
    }
}

/// `block` yields a block: declarations, then one compound statement.
pub proof fn lemma_block_shape(s: TokenStream)
    requires
        s.is_lexical(),
    ensures
        block(s) matches Ok((tree, _)) ==> tree.is_block(),
{
    reveal(block);
    reveal(declarations);
    lemma_skip_lexical(s, 1);
    if s.head() == TokenView::KEYWORD(Keyword::Var) && s.next() is Ok {
        lemma_declaration_lines_shape(s.skip(1));
    }
    match declarations(s) {
        Ok((nodes, n)) => {
            lemma_skip_lexical(s, n);
            lemma_compound_shape(s.skip(n));
        },
        Err(_) => {},
    }
}

/// `program` yields a program: exactly its name and its block.
pub proof fn lemma_program_shape(s: TokenStream)
    requires
        s.is_lexical(),
    ensures
        program(s) matches Ok((tree, _)) ==> tree.is_program(),
{
    reveal(program);
    lemma_skip_lexical(s, 1);
    lemma_skip_lexical(s.skip(1), 1);
    lemma_skip_lexical(s.skip(1).skip(1), 1);
    lemma_block_shape(s.skip(1).skip(1).skip(1));
}

/// Every tree that is parsed from the tokens of a text is a program: the
/// program node has two children, each declaration node has two, each
/// compound statement has one child for each of its statements, and literals
/// and identifiers have none.
pub proof fn lemma_parse_shape(text: Seq<char>)
    ensures
        parse(token_stream(text, 0)) matches Ok(tree) ==> tree.is_program(),
{
    lemma_token_stream_lexical(text, 0);
    lemma_program_shape(token_stream(text, 0));
}

} // verus!
