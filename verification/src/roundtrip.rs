//! Printing and parsing again: the tokens that a program is rendered with
//! parse back to the very same tree.

use crate::error::Error;
use crate::grammar::{
    assignment_statement, block, compound_statement, declaration, declaration_lines,
    declarations, declared_names, expr, expr_rest, factor, is_type_spec, joins_factors, parse,
    program, statement, statement_list, statement_tail, term, term_rest, variable_declaration,
};
use crate::lexis::TokenStream;
use crate::printing::{
    is_product, is_sum, render_block, render_declaration, render_declarations, render_expr,
    render_factor, render_product, render_program, render_statement, render_statements,
    render_sum, render_term, stream_of,
};
use crate::token::{Keyword, NodeKind, TokenView};
use crate::tree::Tree;
use vstd::prelude::*;

verus! {

/// A result with more tokens taken before it.
pub open spec fn shifted(r: Result<(Tree, nat), Error>, n: nat) -> Result<(Tree, nat), Error> {
    match r {
        Ok((tree, m)) => Ok((tree, n + m)),
        Err(e) => Err(e),
    }
}

/// The first token of a stream and what stands behind it.
pub proof fn lemma_first(x: TokenView, rest: Seq<TokenView>)
    ensures
        stream_of(seq![x] + rest).head() == x,
        stream_of(seq![x] + rest).next() == Ok::<TokenStream, Error>(stream_of(rest)),
        stream_of(seq![x] + rest).skip(1) == stream_of(rest),
{
    assert((seq![x] + rest).skip(1) =~= rest);
}

/// What stands behind the first part of a stream.
pub proof fn lemma_behind(a: Seq<TokenView>, b: Seq<TokenView>)
    ensures
        stream_of(a + b).skip(a.len()) == stream_of(b),
{
    assert((a + b).skip(a.len() as int) =~= b);
}

/// One more factor behind an operator: the term goes on with both joined.
pub proof fn lemma_term_rest_step(
    op: TokenView,
    left: Tree,
    right: Tree,
    n: nat,
    tail: Seq<TokenView>,
    rest: Seq<TokenView>,
)
    requires
        joins_factors(op),
        factor(stream_of(tail)) == Ok::<(Tree, nat), Error>((right, n)),
        stream_of(tail).skip(n) == stream_of(rest),
    ensures
        term_rest(stream_of(seq![op] + tail), left) == shifted(
            term_rest(stream_of(rest), Tree { node: op, children: seq![left, right] }),
            1 + n,
        ),
{
    reveal(term_rest);
    reveal(factor);
    lemma_first(op, tail);
}

/// One more term behind an operator: the expression goes on with both
/// joined.
pub proof fn lemma_expr_rest_step(
    op: TokenView,
    left: Tree,
    right: Tree,
    n: nat,
    tail: Seq<TokenView>,
    rest: Seq<TokenView>,
)
    requires
        op is OP1,
        term(stream_of(tail)) == Ok::<(Tree, nat), Error>((right, n)),
        stream_of(tail).skip(n) == stream_of(rest),
    ensures
        expr_rest(stream_of(seq![op] + tail), left) == shifted(
            expr_rest(stream_of(rest), Tree { node: op, children: seq![left, right] }),
            1 + n,
        ),
{
    reveal(expr_rest);
    reveal(term);
    lemma_first(op, tail);
}

/// A tree with two children is its tag over the two.
pub proof fn lemma_two_children(tree: Tree)
    requires
        tree.children.len() == 2,
    ensures
        tree == (Tree { node: tree.node, children: seq![tree.children[0], tree.children[1]] }),
{
    assert(tree.children =~= seq![tree.children[0], tree.children[1]]);
}

/// The operands of a product, rendered, parse as a term that goes on with
/// the product to its left.
pub proof fn lemma_product_parses(tree: Tree, rest: Seq<TokenView>)
    requires
        tree.is_expression(),
        is_product(tree),
    ensures
        term(stream_of(render_product(tree) + rest)) == shifted(
            term_rest(stream_of(rest), tree),
            render_product(tree).len(),
        ),
    decreases tree, 0nat,
{
    let left = tree.children[0];
    let right = tree.children[1];
    let tail = render_factor(right) + rest;
    let rest1 = seq![tree.node] + tail;
    assert(render_product(tree) == render_term(left) + seq![tree.node] + render_factor(right));
    assert(render_product(tree) + rest =~= render_term(left) + rest1);
    lemma_term_parses(left, rest1);
    lemma_factor_parses(right, rest);
    lemma_behind(render_factor(right), rest);
    lemma_term_rest_step(tree.node, left, right, render_factor(right).len(), tail, rest);
    lemma_two_children(tree);
}

/// The operands of a sum, rendered, parse as an expression that goes on with
/// the sum to its left.
pub proof fn lemma_sum_parses(tree: Tree, rest: Seq<TokenView>)
    requires
        tree.is_expression(),
        is_sum(tree),
        !joins_factors(stream_of(rest).head()),
    ensures
        expr(stream_of(render_sum(tree) + rest)) == shifted(
            expr_rest(stream_of(rest), tree),
            render_sum(tree).len(),
        ),
    decreases tree, 0nat,
{
    reveal(term_rest);
    reveal(factor);
    let left = tree.children[0];
    let right = tree.children[1];
    let tail = render_term(right) + rest;
    let rest1 = seq![tree.node] + tail;
    assert(render_sum(tree) == render_expr(left) + seq![tree.node] + render_term(right));
    assert(render_sum(tree) + rest =~= render_expr(left) + rest1);
    assert(stream_of(rest1).head() == tree.node) by {
        lemma_first(tree.node, tail);
    }
    lemma_expr_parses(left, rest1);
    lemma_term_parses(right, rest);
    lemma_behind(render_term(right), rest);
    assert(term_rest(stream_of(rest), right) == Ok::<(Tree, nat), Error>((right, 0)));
    lemma_expr_rest_step(tree.node, left, right, render_term(right).len(), tail, rest);
    lemma_two_children(tree);
}

/// A factor behind a sign is a signed factor.
pub proof fn lemma_signed_step(c: char, operand: Tree, n: nat, tail: Seq<TokenView>)
    requires
        factor(stream_of(tail)) == Ok::<(Tree, nat), Error>((operand, n)),
    ensures
        factor(stream_of(seq![TokenView::OP1(c)] + tail)) == Ok::<(Tree, nat), Error>(
            (Tree { node: TokenView::UNARY(c), children: seq![operand] }, n + 1),
        ),
{
    reveal(factor);
    reveal(expr);
    lemma_first(TokenView::OP1(c), tail);
}

/// An expression between parentheses is a factor, and the same tree.
pub proof fn lemma_parenthesized_step(tree: Tree, inner: Seq<TokenView>, rest: Seq<TokenView>)
    requires
        expr(stream_of(inner + (seq![TokenView::RP] + rest))) == Ok::<(Tree, nat), Error>(
            (tree, inner.len()),
        ),
    ensures
        factor(stream_of(seq![TokenView::LP] + (inner + (seq![TokenView::RP] + rest)))) == Ok::<
            (Tree, nat),
            Error,
        >((tree, inner.len() + 2)),
{
    reveal(factor);
    reveal(expr);
    let close = seq![TokenView::RP] + rest;
    lemma_first(TokenView::LP, inner + close);
    lemma_behind(inner, close);
    lemma_first(TokenView::RP, rest);
}

/// A literal or a name is a factor by itself.
pub proof fn lemma_leaf_step(token: TokenView, rest: Seq<TokenView>)
    requires
        token is INTEGER_CONST || token is REAL_CONST || token is ID,
    ensures
        factor(stream_of(seq![token] + rest)) == Ok::<(Tree, nat), Error>((Tree::leaf(token), 1)),
{
    reveal(factor);
    reveal(expr);
    lemma_first(token, rest);
}

/// Behind a closing parenthesis neither a term nor an expression goes on.
pub proof fn lemma_closed(tree: Tree, rest: Seq<TokenView>)
    ensures
        !joins_factors(stream_of(seq![TokenView::RP] + rest).head()),
        term_rest(stream_of(seq![TokenView::RP] + rest), tree) == Ok::<(Tree, nat), Error>(
            (tree, 0),
        ),
        expr_rest(stream_of(seq![TokenView::RP] + rest), tree) == Ok::<(Tree, nat), Error>(
            (tree, 0),
        ),
{
    reveal(term_rest);
    reveal(factor);
    reveal(expr_rest);
    reveal(term);
    lemma_first(TokenView::RP, rest);
}

/// A signed factor, rendered, parses as itself.
pub proof fn lemma_signed_parses(tree: Tree, rest: Seq<TokenView>)
    requires
        tree.is_expression(),
        tree.node is UNARY,
    ensures
        factor(stream_of(render_factor(tree) + rest)) == Ok::<(Tree, nat), Error>(
            (tree, render_factor(tree).len()),
        ),
    decreases tree, 0nat,
{
    let c = tree.node->UNARY_0;
    let operand = tree.children[0];
    let tail = render_factor(operand) + rest;
    assert(render_factor(tree) == seq![TokenView::OP1(c)] + render_factor(operand));
    assert(render_factor(tree) + rest =~= seq![TokenView::OP1(c)] + tail);
    lemma_factor_parses(operand, rest);
    lemma_signed_step(c, operand, render_factor(operand).len(), tail);
    assert(tree.children =~= seq![operand]);
}

/// A sum in parentheses parses as the sum.
pub proof fn lemma_closed_sum_parses(tree: Tree, rest: Seq<TokenView>)
    requires
        tree.is_expression(),
        is_sum(tree),
    ensures
        factor(stream_of(render_factor(tree) + rest)) == Ok::<(Tree, nat), Error>(
            (tree, render_factor(tree).len()),
        ),
    decreases tree, 1nat,
{
    let close = seq![TokenView::RP] + rest;
    let inner = render_sum(tree);
    assert(render_factor(tree) == seq![TokenView::LP] + inner + seq![TokenView::RP]);
    assert(render_factor(tree) + rest =~= seq![TokenView::LP] + (inner + close));
    lemma_closed(tree, rest);
    lemma_sum_parses(tree, close);
    lemma_parenthesized_step(tree, inner, rest);
}

/// A product in parentheses parses as the product.
pub proof fn lemma_closed_product_parses(tree: Tree, rest: Seq<TokenView>)
    requires
        tree.is_expression(),
        is_product(tree),
        !is_sum(tree),
    ensures
        factor(stream_of(render_factor(tree) + rest)) == Ok::<(Tree, nat), Error>(
            (tree, render_factor(tree).len()),
        ),
    decreases tree, 1nat,
{
    reveal(expr);
    reveal(term);
    reveal(expr_rest);
    let close = seq![TokenView::RP] + rest;
    let inner = render_product(tree);
    assert(render_factor(tree) == seq![TokenView::LP] + inner + seq![TokenView::RP]);
    assert(render_factor(tree) + rest =~= seq![TokenView::LP] + (inner + close));
    lemma_closed(tree, rest);
    lemma_product_parses(tree, close);
    lemma_behind(inner, close);
    assert(expr(stream_of(inner + close)) == Ok::<(Tree, nat), Error>((tree, inner.len())));
    lemma_parenthesized_step(tree, inner, rest);
}

/// An expression rendered as a factor parses as that expression, whatever
/// follows.
pub proof fn lemma_factor_parses(tree: Tree, rest: Seq<TokenView>)
    requires
        tree.is_expression(),
    ensures
        factor(stream_of(render_factor(tree) + rest)) == Ok::<(Tree, nat), Error>(
            (tree, render_factor(tree).len()),
        ),
    decreases tree, 2nat,
{
    if tree.node is UNARY {
        lemma_signed_parses(tree, rest);
    } else if is_sum(tree) {
        lemma_closed_sum_parses(tree, rest);
    } else if is_product(tree) {
        lemma_closed_product_parses(tree, rest);
    } else {
        assert(render_factor(tree) == seq![tree.node]);
        lemma_leaf_step(tree.node, rest);
        assert(tree.children =~= Seq::<Tree>::empty());
    }
}

/// An expression rendered as a term parses as a term that goes on with the
/// expression to its left.
pub proof fn lemma_term_parses(tree: Tree, rest: Seq<TokenView>)
    requires
        tree.is_expression(),
    ensures
        term(stream_of(render_term(tree) + rest)) == shifted(
            term_rest(stream_of(rest), tree),
            render_term(tree).len(),
        ),
    decreases tree, 3nat,
{
    reveal(term);
    reveal(factor);
    reveal(term_rest);
    if is_product(tree) {
        lemma_product_parses(tree, rest);
    } else {
        lemma_factor_parses(tree, rest);
        lemma_behind(render_factor(tree), rest);
    }
}

/// An expression, rendered, parses as an expression that goes on with it to
/// its left, provided that what follows does not join factors.
pub proof fn lemma_expr_parses(tree: Tree, rest: Seq<TokenView>)
    requires
        tree.is_expression(),
        !joins_factors(stream_of(rest).head()),
    ensures
        expr(stream_of(render_expr(tree) + rest)) == shifted(
            expr_rest(stream_of(rest), tree),
            render_expr(tree).len(),
        ),
    decreases tree, 4nat,
{
    reveal(expr);
    reveal(term);
    reveal(expr_rest);
    reveal(term_rest);
    if is_sum(tree) {
        lemma_sum_parses(tree, rest);
    } else {
        lemma_term_parses(tree, rest);
        lemma_behind(render_term(tree), rest);
    }
}

/// Whether a statement can end before the first of these tokens: at a `;`
/// or at `END`.
pub open spec fn closes_statement(rest: Seq<TokenView>) -> bool {
    stream_of(rest).head() == TokenView::SEMI || stream_of(rest).head() == TokenView::KEYWORD(
        Keyword::End,
    )
}

/// A name, `:=` and an expression are an assignment.
pub proof fn lemma_assignment_step(name: TokenView, value: Tree, n: nat, tail: Seq<TokenView>)
    requires
        name is ID,
        expr(stream_of(tail)) == Ok::<(Tree, nat), Error>((value, n)),
    ensures
        assignment_statement(stream_of(seq![name] + (seq![TokenView::ASSIGN] + tail))) == Ok::<
            (Tree, nat),
            Error,
        >((Tree { node: TokenView::ASSIGN, children: seq![Tree::leaf(name), value] }, n + 2)),
        statement(stream_of(seq![name] + (seq![TokenView::ASSIGN] + tail)))
            == assignment_statement(stream_of(seq![name] + (seq![TokenView::ASSIGN] + tail))),
{
    reveal(assignment_statement);
    reveal(expr);
    reveal(statement);
    reveal(compound_statement);
    lemma_first(name, seq![TokenView::ASSIGN] + tail);
    lemma_first(TokenView::ASSIGN, tail);
}

/// An assignment, rendered, parses as itself.
pub proof fn lemma_assignment_parses(tree: Tree, rest: Seq<TokenView>)
    requires
        tree.is_statement(),
        tree.node == TokenView::ASSIGN,
        closes_statement(rest),
    ensures
        statement(stream_of(render_statement(tree) + rest)) == Ok::<(Tree, nat), Error>(
            (tree, render_statement(tree).len()),
        ),
{
    reveal(expr_rest);
    reveal(term);
    let target = tree.children[0];
    let value = tree.children[1];
    let tail = render_expr(value) + rest;
    assert(render_statement(tree) == seq![target.node, TokenView::ASSIGN] + render_expr(value));
    assert(render_statement(tree) + rest =~= seq![target.node] + (seq![TokenView::ASSIGN] + tail));
    lemma_expr_parses(value, rest);
    assert(expr_rest(stream_of(rest), value) == Ok::<(Tree, nat), Error>((value, 0)));
    lemma_assignment_step(target.node, value, render_expr(value).len(), tail);
    assert(target.children =~= Seq::<Tree>::empty());
    assert(target == Tree::leaf(target.node));
    lemma_two_children(tree);
}

/// Where a statement could end, an empty statement stands.
pub proof fn lemma_empty_parses(rest: Seq<TokenView>)
    requires
        closes_statement(rest),
    ensures
        statement(stream_of(rest)) == Ok::<(Tree, nat), Error>(
            (Tree::leaf(TokenView::ASTNode(NodeKind::Empty)), 0),
        ),
{
    reveal(statement);
    reveal(compound_statement);
    reveal(assignment_statement);
}

/// Behind a `;` the statements go on as a list of their own.
pub proof fn lemma_tail_step(tail: Seq<TokenView>)
    ensures
        statement_tail(stream_of(seq![TokenView::SEMI] + tail)) == (match statement_list(
            stream_of(tail),
        ) {
            Ok((trees, m)) => Ok::<(Seq<Tree>, nat), Error>((trees, 1 + m)),
            Err(e) => Err(e),
        }),
{
    reveal(statement_tail);
    reveal(statement);
    reveal(statement_list);
    lemma_first(TokenView::SEMI, tail);
}

/// A statement and what follows it make a list.
pub proof fn lemma_list_step(
    first: Tree,
    n: nat,
    tokens: Seq<TokenView>,
    tail: Seq<TokenView>,
    others: Seq<Tree>,
    m: nat,
)
    requires
        statement(stream_of(tokens)) == Ok::<(Tree, nat), Error>((first, n)),
        stream_of(tokens).skip(n) == stream_of(tail),
        statement_tail(stream_of(tail)) == Ok::<(Seq<Tree>, nat), Error>((others, m)),
    ensures
        statement_list(stream_of(tokens)) == Ok::<(Seq<Tree>, nat), Error>(
            (seq![first] + others, n + m),
        ),
{
    reveal(statement_list);
    reveal(statement);
    reveal(statement_tail);
}

/// Before `END` the list of statements is over.
pub proof fn lemma_list_end(rest: Seq<TokenView>)
    ensures
        statement_tail(stream_of(seq![TokenView::KEYWORD(Keyword::End)] + rest)) == Ok::<
            (Seq<Tree>, nat),
            Error,
        >((Seq::empty(), 0)),
        closes_statement(seq![TokenView::KEYWORD(Keyword::End)] + rest),
{
    reveal(statement_tail);
    reveal(statement);
    lemma_first(TokenView::KEYWORD(Keyword::End), rest);
}

/// The last statement of a compound statement, rendered and followed by
/// `END`, parses as a list of one.
pub proof fn lemma_last_statement_parses(compound: Tree, i: nat, rest: Seq<TokenView>)
    requires
        compound.is_compound(),
        i + 1 == compound.children.len(),
    ensures
        statement_list(
            stream_of(
                render_statements(compound, i) + (seq![TokenView::KEYWORD(Keyword::End)] + rest),
            ),
        ) == Ok::<(Seq<Tree>, nat), Error>(
            (
                compound.children.subrange(i as int, compound.children.len() as int),
                render_statements(compound, i).len(),
            ),
        ),
    decreases compound, 0nat,
{
    let close = seq![TokenView::KEYWORD(Keyword::End)] + rest;
    let first = compound.children[i as int];
    assert(first.is_statement());
    lemma_list_end(rest);
    assert(render_statements(compound, i) == render_statement(first));
    lemma_statement_parses(first, close);
    lemma_behind(render_statement(first), close);
    lemma_list_step(
        first,
        render_statement(first).len(),
        render_statement(first) + close,
        close,
        Seq::empty(),
        0,
    );
    assert(compound.children.subrange(i as int, compound.children.len() as int) =~= seq![first]
        + Seq::<Tree>::empty());
}

/// A statement, a `;` and a list of statements make a longer list.
pub proof fn lemma_list_cons(
    first: Tree,
    tokens: Seq<TokenView>,
    later: Seq<TokenView>,
    others: Seq<Tree>,
    m: nat,
)
    requires
        statement(stream_of(tokens + (seq![TokenView::SEMI] + later))) == Ok::<
            (Tree, nat),
            Error,
        >((first, tokens.len())),
        statement_list(stream_of(later)) == Ok::<(Seq<Tree>, nat), Error>((others, m)),
    ensures
        statement_list(stream_of(tokens + (seq![TokenView::SEMI] + later))) == Ok::<
            (Seq<Tree>, nat),
            Error,
        >((seq![first] + others, tokens.len() + 1 + m)),
{
    let tail = seq![TokenView::SEMI] + later;
    lemma_behind(tokens, tail);
    lemma_tail_step(later);
    lemma_list_step(first, tokens.len(), tokens + tail, tail, others, 1 + m);
}

/// A statement that is not the last of its compound statement, rendered
/// with all that follow it, parses as the list of them, given that those
/// that follow do.
pub proof fn lemma_next_statement_parses(compound: Tree, i: nat, rest: Seq<TokenView>)
    requires
        compound.is_compound(),
        i + 1 < compound.children.len(),
        statement_list(
            stream_of(
                render_statements(compound, i + 1) + (seq![TokenView::KEYWORD(Keyword::End)]
                    + rest),
            ),
        ) == Ok::<(Seq<Tree>, nat), Error>(
            (
                compound.children.subrange(i as int + 1, compound.children.len() as int),
                render_statements(compound, i + 1).len(),
            ),
        ),
    ensures
        statement_list(
            stream_of(
                render_statements(compound, i) + (seq![TokenView::KEYWORD(Keyword::End)] + rest),
            ),
        ) == Ok::<(Seq<Tree>, nat), Error>(
            (
                compound.children.subrange(i as int, compound.children.len() as int),
                render_statements(compound, i).len(),
            ),
        ),
    decreases compound, 0nat,
{
    let close = seq![TokenView::KEYWORD(Keyword::End)] + rest;
    let first = compound.children[i as int];
    let len = compound.children.len();
    let mine = render_statement(first);
    let later = render_statements(compound, i + 1) + close;
    let tail = seq![TokenView::SEMI] + later;
    let others = compound.children.subrange(i as int + 1, len as int);
    assert(first.is_statement());
    assert(render_statements(compound, i) == mine + seq![TokenView::SEMI] + render_statements(
        compound,
        i + 1,
    ));
    assert(render_statements(compound, i) + close == mine + tail) by {
        assert((mine + seq![TokenView::SEMI] + render_statements(compound, i + 1)) + close =~= mine
            + tail);
    }
    assert(closes_statement(tail)) by {
        lemma_first(TokenView::SEMI, later);
    }
    assert(statement(stream_of(mine + tail)) == Ok::<(Tree, nat), Error>((first, mine.len())))
        by {
        lemma_statement_parses(first, tail);
    }
    assert(statement_list(stream_of(mine + tail)) == Ok::<(Seq<Tree>, nat), Error>(
        (seq![first] + others, mine.len() + 1 + render_statements(compound, i + 1).len()),
    )) by {
        lemma_list_cons(first, mine, later, others, render_statements(compound, i + 1).len());
    }
    assert(compound.children.subrange(i as int, len as int) =~= seq![first] + others);
}

/// The statements of a compound statement from the `i`-th on, rendered and
/// followed by `END`, parse as those statements.
pub proof fn lemma_statements_parse(compound: Tree, i: nat, rest: Seq<TokenView>)
    requires
        compound.is_compound(),
        i < compound.children.len(),
    ensures
        statement_list(
            stream_of(
                render_statements(compound, i) + (seq![TokenView::KEYWORD(Keyword::End)] + rest),
            ),
        ) == Ok::<(Seq<Tree>, nat), Error>(
            (
                compound.children.subrange(i as int, compound.children.len() as int),
                render_statements(compound, i).len(),
            ),
        ),
    decreases compound, 1 + compound.children.len() - i,
{
    if i + 1 == compound.children.len() {
        lemma_last_statement_parses(compound, i, rest);
    } else {
        lemma_statements_parse(compound, i + 1, rest);
        lemma_next_statement_parses(compound, i, rest);
    }
}

/// Statements between `BEGIN` and `END` are a compound statement.
pub proof fn lemma_compound_step(
    statements: Seq<Tree>,
    inner: Seq<TokenView>,
    rest: Seq<TokenView>,
)
    requires
        statement_list(stream_of(inner + (seq![TokenView::KEYWORD(Keyword::End)] + rest))) == Ok::<
            (Seq<Tree>, nat),
            Error,
        >((statements, inner.len())),
    ensures
        compound_statement(
            stream_of(
                seq![TokenView::KEYWORD(Keyword::Begin)] + (inner + (seq![
                    TokenView::KEYWORD(Keyword::End),
                ] + rest)),
            ),
        ) == Ok::<(Tree, nat), Error>(
            (
                Tree { node: TokenView::ASTNode(NodeKind::Comp), children: statements },
                inner.len() + 2,
            ),
        ),
        statement(
            stream_of(
                seq![TokenView::KEYWORD(Keyword::Begin)] + (inner + (seq![
                    TokenView::KEYWORD(Keyword::End),
                ] + rest)),
            ),
        ) == compound_statement(
            stream_of(
                seq![TokenView::KEYWORD(Keyword::Begin)] + (inner + (seq![
                    TokenView::KEYWORD(Keyword::End),
                ] + rest)),
            ),
        ),
{
    reveal(compound_statement);
    reveal(statement_list);
    reveal(statement);
    reveal(assignment_statement);
    let close = seq![TokenView::KEYWORD(Keyword::End)] + rest;
    lemma_first(TokenView::KEYWORD(Keyword::Begin), inner + close);
    lemma_behind(inner, close);
    lemma_first(TokenView::KEYWORD(Keyword::End), rest);
}

/// A compound statement, rendered, parses as itself, whatever follows.
pub proof fn lemma_compound_parses(tree: Tree, rest: Seq<TokenView>)
    requires
        tree.is_compound(),
    ensures
        compound_statement(stream_of(render_statement(tree) + rest)) == Ok::<(Tree, nat), Error>(
            (tree, render_statement(tree).len()),
        ),
        statement(stream_of(render_statement(tree) + rest)) == compound_statement(
            stream_of(render_statement(tree) + rest),
        ),
    decreases tree, 2 + tree.children.len(),
{
    let inner = render_statements(tree, 0);
    let close = seq![TokenView::KEYWORD(Keyword::End)] + rest;
    assert(render_statement(tree) == seq![TokenView::KEYWORD(Keyword::Begin)] + inner + seq![
        TokenView::KEYWORD(Keyword::End),
    ]);
    assert(render_statement(tree) + rest =~= seq![TokenView::KEYWORD(Keyword::Begin)] + (inner
        + close));
    lemma_statements_parse(tree, 0, rest);
    assert(tree.children.subrange(0, tree.children.len() as int) =~= tree.children);
    lemma_compound_step(tree.children, inner, rest);
}

/// A statement, rendered, parses as itself where a statement may end behind
/// it.
pub proof fn lemma_statement_parses(tree: Tree, rest: Seq<TokenView>)
    requires
        tree.is_statement(),
        closes_statement(rest),
    ensures
        statement(stream_of(render_statement(tree) + rest)) == Ok::<(Tree, nat), Error>(
            (tree, render_statement(tree).len()),
        ),
    decreases tree, 3 + tree.children.len(),
{
    match tree.node {
        TokenView::ASSIGN => {
            lemma_assignment_parses(tree, rest);
        },
        TokenView::ASTNode(NodeKind::Comp) => {
            lemma_compound_parses(tree, rest);
        },
        _ => {
            assert(render_statement(tree) == Seq::<TokenView>::empty());
            assert(render_statement(tree) + rest =~= rest);
            lemma_empty_parses(rest);
            assert(tree.children =~= Seq::<Tree>::empty());
        },
    }
}

/// A single name before a `:` is all the names of a declaration.
pub proof fn lemma_single_name(name: TokenView, tail: Seq<TokenView>)
    requires
        name is ID,
    ensures
        declared_names(stream_of(seq![name] + (seq![TokenView::COLON] + tail))) == Ok::<
            (Seq<TokenView>, nat),
            Error,
        >((seq![name], 1)),
{
    reveal(declared_names);
    lemma_first(name, seq![TokenView::COLON] + tail);
    lemma_first(TokenView::COLON, tail);
}

/// A name, `:` and a type declare one variable.
pub proof fn lemma_variable_declaration_step(
    name: TokenView,
    type_spec: TokenView,
    tail: Seq<TokenView>,
)
    requires
        name is ID,
        is_type_spec(type_spec),
    ensures
        variable_declaration(
            stream_of(seq![name] + (seq![TokenView::COLON] + (seq![type_spec] + tail))),
        ) == Ok::<(Seq<Tree>, nat), Error>((seq![declaration(name, type_spec)], 3)),
{
    reveal(variable_declaration);
    let after_colon = seq![type_spec] + tail;
    let after_name = seq![TokenView::COLON] + after_colon;
    lemma_single_name(name, after_colon);
    lemma_first(name, after_name);
    lemma_first(TokenView::COLON, after_colon);
    lemma_first(type_spec, tail);
    let names = seq![name];
    assert(Seq::new(names.len(), |i: int| declaration(names[i], type_spec)) =~= seq![
        declaration(name, type_spec),
    ]);
}

/// A declaration on a line of its own comes before the lines that follow.
pub proof fn lemma_declaration_line_step(
    name: TokenView,
    type_spec: TokenView,
    tail: Seq<TokenView>,
)
    requires
        name is ID,
        is_type_spec(type_spec),
    ensures
        declaration_lines(
            stream_of(
                seq![name] + (seq![TokenView::COLON] + (seq![type_spec] + (seq![TokenView::SEMI]
                    + tail))),
            ),
        ) == (match declaration_lines(stream_of(tail)) {
            Ok((trees, m)) => Ok::<(Seq<Tree>, nat), Error>(
                (seq![declaration(name, type_spec)] + trees, 4 + m),
            ),
            Err(e) => Err(e),
        }),
{
    reveal(declaration_lines);
    let after_type = seq![TokenView::SEMI] + tail;
    let after_colon = seq![type_spec] + after_type;
    let after_name = seq![TokenView::COLON] + after_colon;
    let all = seq![name] + after_name;
    lemma_variable_declaration_step(name, type_spec, after_type);
    lemma_first(name, after_name);
    lemma_first(TokenView::COLON, after_colon);
    lemma_first(type_spec, after_type);
    lemma_first(TokenView::SEMI, tail);
    assert(stream_of(all).skip(3) == stream_of(after_type)) by {
        assert(all.skip(3) =~= after_type);
    }
}

/// The declarations of a block from the `i`-th on, rendered, parse as those
/// declarations, provided that no identifier follows them.
pub proof fn lemma_declarations_parse(block: Tree, i: nat, rest: Seq<TokenView>)
    requires
        block.is_block(),
        i + 1 <= block.children.len(),
        !(stream_of(rest).head() is ID),
    ensures
        declaration_lines(stream_of(render_declarations(block, i) + rest)) == Ok::<
            (Seq<Tree>, nat),
            Error,
        >(
            (
                block.children.subrange(i as int, block.children.len() - 1),
                render_declarations(block, i).len(),
            ),
        ),
    decreases block.children.len() - i,
{
    reveal(declaration_lines);
    let len = block.children.len();
    if i + 1 >= len {
        assert(render_declarations(block, i) + rest =~= rest);
        assert(block.children.subrange(i as int, len - 1) =~= Seq::<Tree>::empty());
    } else {
        let first = block.children[i as int];
        assert(first.is_declaration());
        let name = first.children[0].node;
        let type_spec = first.children[1].node;
        let tail = render_declarations(block, i + 1) + rest;
        lemma_declarations_parse(block, i + 1, rest);
        lemma_declaration_line_step(name, type_spec, tail);
        assert(render_declarations(block, i) == render_declaration(first) + render_declarations(
            block,
            i + 1,
        ));
        assert(render_declarations(block, i) + rest =~= seq![name] + (seq![TokenView::COLON] + (
        seq![type_spec] + (seq![TokenView::SEMI] + tail))));
        assert(first == declaration(name, type_spec)) by {
            assert(first.children[0].children =~= Seq::<Tree>::empty());
            assert(first.children[1].children =~= Seq::<Tree>::empty());
            assert(first.children =~= seq![Tree::leaf(name), Tree::leaf(type_spec)]);
        }
        assert(block.children.subrange(i as int, len - 1) =~= seq![first]
            + block.children.subrange(i as int + 1, len - 1));
    }
}

/// A compound statement by itself is a block without declarations.
pub proof fn lemma_plain_block_step(body: Tree, n: nat, tokens: Seq<TokenView>)
    requires
        compound_statement(stream_of(tokens)) == Ok::<(Tree, nat), Error>((body, n)),
    ensures
        block(stream_of(tokens)) == Ok::<(Tree, nat), Error>(
            (Tree { node: TokenView::ASTNode(NodeKind::Block), children: seq![body] }, n),
        ),
{
    reveal(compound_statement);
    reveal(statement_list);
    reveal(block);
    reveal(declarations);
    let s = stream_of(tokens);
    assert(s.head().same_kind(TokenView::KEYWORD(Keyword::Begin)));
    assert(s.skip(0) =~= s);
    assert(Seq::<Tree>::empty().push(body) =~= seq![body]);
}

/// `VAR`, declarations and a compound statement are a block.
pub proof fn lemma_block_step(
    nodes: Seq<Tree>,
    lines: Seq<TokenView>,
    body: Tree,
    n: nat,
    tail: Seq<TokenView>,
)
    requires
        stream_of(lines + tail).head() is ID,
        declaration_lines(stream_of(lines + tail)) == Ok::<(Seq<Tree>, nat), Error>(
            (nodes, lines.len()),
        ),
        compound_statement(stream_of(tail)) == Ok::<(Tree, nat), Error>((body, n)),
    ensures
        block(stream_of(seq![TokenView::KEYWORD(Keyword::Var)] + (lines + tail))) == Ok::<
            (Tree, nat),
            Error,
        >(
            (
                Tree { node: TokenView::ASTNode(NodeKind::Block), children: nodes.push(body) },
                1 + lines.len() + n,
            ),
        ),
{
    reveal(block);
    reveal(declarations);
    let all = seq![TokenView::KEYWORD(Keyword::Var)] + (lines + tail);
    lemma_first(TokenView::KEYWORD(Keyword::Var), lines + tail);
    lemma_behind(lines, tail);
    assert(stream_of(all).skip(1 + lines.len()) == stream_of(tail)) by {
        assert(all.skip(1 + lines.len() as int) =~= tail);
    }
}

/// A block, rendered, parses as itself, whatever follows.
pub proof fn lemma_block_parses(tree: Tree, rest: Seq<TokenView>)
    requires
        tree.is_block(),
    ensures
        block(stream_of(render_block(tree) + rest)) == Ok::<(Tree, nat), Error>(
            (tree, render_block(tree).len()),
        ),
{
    let body = tree.children.last();
    let len = tree.children.len();
    lemma_compound_parses(body, rest);
    if len == 1 {
        lemma_plain_block_step(body, render_statement(body).len(), render_statement(body) + rest);
        assert(tree.children =~= seq![body]);
    } else {
        let lines = render_declarations(tree, 0);
        let tail = render_statement(body) + rest;
        assert(render_block(tree) + rest =~= seq![TokenView::KEYWORD(Keyword::Var)] + (lines
            + tail));
        assert(stream_of(tail).head() == TokenView::KEYWORD(Keyword::Begin)) by {
            let inner = render_statements(body, 0) + seq![TokenView::KEYWORD(Keyword::End)] + rest;
            assert(tail =~= seq![TokenView::KEYWORD(Keyword::Begin)] + inner);
            lemma_first(TokenView::KEYWORD(Keyword::Begin), inner);
        }
        lemma_declarations_parse(tree, 0, tail);
        let first = tree.children[0];
        assert(first.is_declaration());
        assert(stream_of(lines + tail).head() is ID) by {
            let after = seq![TokenView::COLON, first.children[1].node, TokenView::SEMI]
                + render_declarations(tree, 1) + tail;
            assert(lines == render_declaration(first) + render_declarations(tree, 1));
            assert(lines + tail =~= seq![first.children[0].node] + after);
            lemma_first(first.children[0].node, after);
        }
        let nodes = tree.children.subrange(0, len - 1);
        lemma_block_step(nodes, lines, body, render_statement(body).len(), tail);
        assert(tree.children =~= nodes.push(body));
    }
}

/// `PROGRAM`, a name, `;`, a block and a `.` are a program, and all of one.
pub proof fn lemma_program_step(name: TokenView, body: Tree, inner: Seq<TokenView>)
    requires
        name is ID,
        block(stream_of(inner + seq![TokenView::DOT])) == Ok::<(Tree, nat), Error>(
            (body, inner.len()),
        ),
    ensures
        parse(
            stream_of(
                seq![TokenView::KEYWORD(Keyword::Program)] + (seq![name] + (seq![TokenView::SEMI]
                    + (inner + seq![TokenView::DOT]))),
            ),
        ) == Ok::<Tree, Error>(
            Tree {
                node: TokenView::ASTNode(NodeKind::Program),
                children: seq![Tree::leaf(name), body],
            },
        ),
{
    reveal(program);
    let close = seq![TokenView::DOT];
    let after_semi = inner + close;
    let after_name = seq![TokenView::SEMI] + after_semi;
    let after_program = seq![name] + after_name;
    let all = seq![TokenView::KEYWORD(Keyword::Program)] + after_program;
    lemma_first(TokenView::KEYWORD(Keyword::Program), after_program);
    lemma_first(name, after_name);
    lemma_first(TokenView::SEMI, after_semi);
    lemma_behind(inner, close);
    assert(close =~= seq![TokenView::DOT] + Seq::<TokenView>::empty());
    lemma_first(TokenView::DOT, Seq::<TokenView>::empty());
    assert(program(stream_of(all)) == Ok::<(Tree, nat), Error>(
        (
            Tree {
                node: TokenView::ASTNode(NodeKind::Program),
                children: seq![Tree::leaf(name), body],
            },
            inner.len() + 4,
        ),
    ));
    assert(stream_of(all).skip(inner.len() + 4).tokens =~= Seq::<TokenView>::empty());
}

/// Rendering a program and parsing the tokens gives the program back: the
/// parser reads what the renderer writes, and parentheses, layout and
/// comments are all that a tree forgets.
pub proof fn lemma_round_trip(tree: Tree)
    requires
        tree.is_program(),
    ensures
        parse(stream_of(render_program(tree))) == Ok::<Tree, Error>(tree),
{
    let name = tree.children[0];
    let body = tree.children[1];
    let inner = render_block(body);
    lemma_block_parses(body, seq![TokenView::DOT]);
    lemma_program_step(name.node, body, inner);
    assert(render_program(tree) =~= seq![TokenView::KEYWORD(Keyword::Program)] + (seq![name.node]
        + (seq![TokenView::SEMI] + (inner + seq![TokenView::DOT]))));
    assert(name.children =~= Seq::<Tree>::empty());
    assert(name == Tree::leaf(name.node));
    lemma_two_children(tree);
}

} // verus!
