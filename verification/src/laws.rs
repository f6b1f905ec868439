//! General properties of the lexer and of the evaluator, proved from their
//! specifications.

use crate::error::{Error, ErrorKind};
use crate::interpret::parsed;
use crate::lexis::{
    is_blank, is_digit, is_letter, lemma_next_token_advances, lemma_significant_bounds,
    next_token, significant, token_at, token_stream, TokenStream,
};
use crate::semantics::{
    assign, declare, evaluate, execute, execute_from, name_of, run, run_from, run_part, Table,
};
use crate::token::{NodeKind, TokenView};
use crate::tree::Tree;
use vstd::prelude::*;

verus! {

/// Whether a character can start a token, is whitespace, or opens a comment.
pub open spec fn is_covered(c: char) -> bool {
    is_letter(c) || is_digit(c) || is_blank(c) || c == ':' || c == ';' || c == ',' || c == '.'
        || c == '+' || c == '-' || c == '*' || c == '/' || c == '(' || c == ')' || c == '{'
}

/// The lexer rejects a character only where that character stands in the
/// text, at or after the position asked for, and is not a covered one.
pub proof fn lemma_unrecognized_character(text: Seq<char>, i: int, character: char, position: usize)
    requires
        text.len() <= usize::MAX,
        0 <= i <= text.len(),
        next_token(text, i) == Err::<(TokenView, int), Error>(
            Error::UnrecognizedCharacter { character, position },
        ),
    ensures
        i <= position < text.len(),
        text[position as int] == character,
        !is_covered(character),
{
    lemma_significant_bounds(text, i);
    lemma_comment_error(text, i);
    let start = significant(text, i)->Ok_0;
    assert(token_at(text, start) is Err);
    assert(position == start as usize);
}

/// Skipping whitespace and comments fails with an unterminated comment only.
pub proof fn lemma_comment_error(text: Seq<char>, i: int)
    ensures
        significant(text, i) matches Err(e) ==> e is UnterminatedComment,
    decreases text.len() - i,
{
    if 0 <= i < text.len() {
        if is_blank(text[i]) {
            lemma_comment_error(text, i + 1);
        } else if text[i] == '{' {
            let close = crate::lexis::comment_close(text, i);
            crate::lexis::lemma_comment_close_bounds(text, i);
            if close < text.len() {
                lemma_comment_error(text, close + 1);
            }
        }
    }
}

/// The error of a token stream is the error of reading one of its tokens.
pub proof fn lemma_stream_error(text: Seq<char>, i: int)
    requires
        0 <= i <= text.len(),
    ensures
        token_stream(text, i).error matches Some(e) ==> exists|j: int|
            i <= j <= text.len() && #[trigger] next_token(text, j) == Err::<(TokenView, int), Error>(
                e,
            ),
    decreases text.len() - i,
{
    match next_token(text, i) {
        Err(e) => {
            assert(next_token(text, i) == Err::<(TokenView, int), Error>(e));
        },
        Ok((token, end)) => {
            if !(token is EOF) {
                lemma_next_token_advances(text, i);
                lemma_stream_error(text, end);
                assert(token_stream(text, i) == TokenStream::cons(token, token_stream(text, end)));
                match token_stream(text, end).error {
                    Some(e) => {
                        let j = choose|j: int|
                            end <= j <= text.len() && #[trigger] next_token(text, j) == Err::<
                                (TokenView, int),
                                Error,
                            >(e);
                        assert(i <= j <= text.len() && next_token(text, j) == Err::<
                            (TokenView, int),
                            Error,
                        >(e));
                    },
                    None => {},
                }
            }
        },
    }
}

/// Tokenization is total on covered characters: a text that holds nothing
/// but covered characters has all its tokens read, up to the end of the
/// input, unless a comment is left open or a numeral cannot be read.
pub proof fn lemma_covered_text_tokenizes(text: Seq<char>)
    requires
        text.len() <= usize::MAX,
        forall|k: int| 0 <= k < text.len() ==> is_covered(#[trigger] text[k]),
        token_stream(text, 0).error matches Some(e) ==> e is UnrecognizedCharacter,
    ensures
        token_stream(text, 0).error is None,
{
    lemma_stream_error(text, 0);
    match token_stream(text, 0).error {
        Some(e) => {
            let j = choose|j: int|
                0 <= j <= text.len() && #[trigger] next_token(text, j) == Err::<
                    (TokenView, int),
                    Error,
                >(e);
            lemma_unrecognized_character(
                text,
                j,
                e->UnrecognizedCharacter_character,
                e->UnrecognizedCharacter_position,
            );
        },
        None => {},
    }
}

/// Parsing depends on the tokens alone: two texts with the same tokens,
/// however they are laid out and commented, have the same tree or fail alike.
pub proof fn lemma_same_tokens_same_tree(a: Seq<char>, b: Seq<char>)
    requires
        token_stream(a, 0) == token_stream(b, 0),
    ensures
        parsed(a) == parsed(b),
{
}

/// Whether an expression refers to a variable of the given name.
pub open spec fn mentions(tree: Tree, name: Seq<char>) -> bool
    decreases tree,
{
    tree.node == TokenView::ID(name) || exists|i: int|
        0 <= i < tree.children.len() && mentions(#[trigger] tree.children[i], name)
}

/// Evaluating an expression fails with a name error or an arithmetic error,
/// never with another.
pub proof fn lemma_evaluation_errors(table: Table, tree: Tree)
    requires
        tree.is_expression(),
    ensures
        evaluate(table, tree) matches Err(e) ==> e.kind() == ErrorKind::Name || e.kind()
            == ErrorKind::Arithmetic,
    decreases tree,
{
    if tree.children.len() >= 1 {
        lemma_evaluation_errors(table, tree.children[0]);
    }
    if tree.children.len() >= 2 {
        lemma_evaluation_errors(table, tree.children[1]);
    }
}

/// An expression that refers to an undeclared variable has no value.
pub proof fn lemma_undeclared_reference_fails(table: Table, tree: Tree, name: Seq<char>)
    requires
        tree.is_expression(),
        mentions(tree, name),
        !table.dom().contains(name),
    ensures
        evaluate(table, tree) is Err,
    decreases tree,
{
    if tree.node != TokenView::ID(name) {
        let i = choose|i: int|
            0 <= i < tree.children.len() && mentions(#[trigger] tree.children[i], name);
        lemma_undeclared_reference_fails(table, tree.children[i], name);
    }
}

/// Referring to an undeclared variable anywhere in an expression fails with
/// a name error, unless an arithmetic failure comes first in the order of
/// evaluation.
pub proof fn lemma_undeclared_reference(table: Table, tree: Tree, name: Seq<char>)
    requires
        tree.is_expression(),
        mentions(tree, name),
        !table.dom().contains(name),
        !(evaluate(table, tree) matches Err(e) && e.kind() == ErrorKind::Arithmetic),
    ensures
        evaluate(table, tree) matches Err(e) && e.kind() == ErrorKind::Name,
{
    lemma_undeclared_reference_fails(table, tree, name);
    lemma_evaluation_errors(table, tree);
}

/// Assigning to an undeclared variable fails with a name error, whatever the
/// expression.
pub proof fn lemma_undeclared_target(table: Table, statement: Tree)
    requires
        statement.node == TokenView::ASSIGN,
        statement.is_statement(),
        !table.dom().contains(name_of(statement.children[0])),
    ensures
        assign(table, statement) == Err::<Table, Error>(Error::UndeclaredVariable),
{
}

/// Assigning a value to a variable that was declared with the other type
/// fails with a type error: a real to an `INTEGER` variable, or an integer to
/// a `REAL` one.
pub proof fn lemma_type_mismatch(table: Table, statement: Tree)
    requires
        statement.node == TokenView::ASSIGN,
        statement.is_statement(),
        table.dom().contains(name_of(statement.children[0])),
        evaluate(table, statement.children[1]) matches Ok(value) && value.type_of()
            != table[name_of(statement.children[0])].declared,
    ensures
        assign(table, statement) matches Err(e) && e == Error::TypeMismatch && e.kind()
            == ErrorKind::Type,
{
}

/// A declaration of a name that the table holds already stops the block.
proof fn lemma_declared_twice_after(table: Table, block: Tree, k: int, j: int, name: Seq<char>)
    requires
        block.is_block(),
        0 <= k <= j < block.children.len() - 1,
        name_of(block.children[j].children[0]) == name,
        table.dom().contains(name),
    ensures
        run_from(table, block, k as nat) == Err::<Table, Error>(Error::DuplicateDeclaration),
    decreases j - k,
{
    assert(block.children[k].is_declaration());
    assert(run_from(table, block, k as nat) == (match run_part(table, block.children[k]) {
        Err(e) => Err(e),
        Ok(next) => run_from(next, block, (k + 1) as nat),
    }));
    if k < j {
        match declare(table, block.children[k]) {
            Ok(next) => {
                lemma_declared_twice_after(next, block, k + 1, j, name);
            },
            Err(_) => {},
        }
    }
}

/// Two declarations of one name stop the block at the second at the latest.
proof fn lemma_declared_twice_before(table: Table, block: Tree, k: int, i: int, j: int)
    requires
        block.is_block(),
        0 <= k <= i < j < block.children.len() - 1,
        name_of(block.children[i].children[0]) == name_of(block.children[j].children[0]),
    ensures
        run_from(table, block, k as nat) == Err::<Table, Error>(Error::DuplicateDeclaration),
    decreases i - k,
{
    assert(block.children[k].is_declaration());
    assert(run_from(table, block, k as nat) == (match run_part(table, block.children[k]) {
        Err(e) => Err(e),
        Ok(next) => run_from(next, block, (k + 1) as nat),
    }));
    match declare(table, block.children[k]) {
        Ok(next) => {
            if k < i {
                lemma_declared_twice_before(next, block, k + 1, i, j);
            } else {
                lemma_declared_twice_after(
                    next,
                    block,
                    k + 1,
                    j,
                    name_of(block.children[i].children[0]),
                );
            }
        },
        Err(_) => {},
    }
}

/// A program that declares one name twice fails with a declaration error,
/// wherever in the list the two declarations stand and whatever the table
/// held before.
pub proof fn lemma_duplicate_declaration(table: Table, program: Tree, i: int, j: int)
    requires
        program.is_program(),
        0 <= i < j < program.children[1].children.len() - 1,
        name_of(program.children[1].children[i].children[0]) == name_of(
            program.children[1].children[j].children[0],
        ),
    ensures
        run(table, program) matches Err(e) && e == Error::DuplicateDeclaration && e.kind()
            == ErrorKind::Declaration,
{
    lemma_declared_twice_before(table, program.children[1], 0, i, j);
}

/// Whether two tables hold the same variables with the same declared types.
pub open spec fn same_declarations(a: Table, b: Table) -> bool {
    &&& a.dom() == b.dom()
    &&& forall|name: Seq<char>| #[trigger]
        a.dom().contains(name) ==> a[name].declared == b[name].declared
}

/// Whether every value in the table is of the type that its variable was
/// declared with.
pub open spec fn well_typed(table: Table) -> bool {
    forall|name: Seq<char>| #[trigger]
        table.dom().contains(name) ==> (table[name].value matches Some(v) ==> v.type_of()
            == table[name].declared)
}

/// An assignment declares nothing, changes no declared type, and stores a
/// value of the declared type only.
pub proof fn lemma_assignment_keeps_declarations(table: Table, statement: Tree)
    ensures
        assign(table, statement) matches Ok(after) ==> same_declarations(table, after) && (
        well_typed(table) ==> well_typed(after)),
{
    match assign(table, statement) {
        Ok(after) => {
            assert(after.dom() =~= table.dom());
        },
        Err(_) => {},
    }
}

/// A statement declares nothing and changes no declared type, and it keeps
/// every variable's value of the variable's declared type.
pub proof fn lemma_statement_keeps_declarations(table: Table, statement: Tree)
    ensures
        execute(table, statement) matches Ok(after) ==> same_declarations(table, after) && (
        well_typed(table) ==> well_typed(after)),
    decreases statement, statement.children.len() + 2,
{
    match statement.node {
        TokenView::ASSIGN => {
            lemma_assignment_keeps_declarations(table, statement);
        },
        TokenView::ASTNode(NodeKind::Comp) => {
            lemma_statements_keep_declarations(table, statement, 0);
        },
        _ => {},
    }
}

/// The statements of a compound statement from the `i`-th on declare nothing
/// and change no declared type, and they keep every value of its variable's
/// declared type.
pub proof fn lemma_statements_keep_declarations(table: Table, compound: Tree, i: nat)
    ensures
        execute_from(table, compound, i) matches Ok(after) ==> same_declarations(table, after)
            && (well_typed(table) ==> well_typed(after)),
    decreases compound, 1 + compound.children.len() - i,
{
    if i < compound.children.len() {
        lemma_statement_keeps_declarations(table, compound.children[i as int]);
        match execute(table, compound.children[i as int]) {
            Ok(next) => {
                lemma_statements_keep_declarations(next, compound, i + 1);
            },
            Err(_) => {},
        }
    }
}

/// A declaration adds one variable, without a value, and leaves the others
/// as they were.
pub proof fn lemma_declaration_adds_one(table: Table, declaration: Tree)
    ensures
        declare(table, declaration) matches Ok(after) ==> {
            let name = name_of(declaration.children[0]);
            &&& !table.dom().contains(name)
            &&& after.dom() == table.dom().insert(name)
            &&& after[name].value is None
            &&& forall|other: Seq<char>| #[trigger]
                table.dom().contains(other) ==> after[other] == table[other]
            &&& well_typed(table) ==> well_typed(after)
        },
{
    match declare(table, declaration) {
        Ok(after) => {
            assert(after.dom() =~= table.dom().insert(name_of(declaration.children[0])));
        },
        Err(_) => {},
    }
}

} // verus!
