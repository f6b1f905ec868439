//! What a program means: the bindings it leaves behind, or its first error.
//!
//! Everything here is specification. A program runs in two phases over the
//! children of its block: the declarations fill the table, then the compound
//! statement is executed, statement by statement. The evaluator in
//! [`crate::eval`] is proved against these functions.

use crate::binary64::real_negation;
use crate::error::Error;
use crate::token::{Keyword, NodeKind, TokenView};
use crate::tree::Tree;
use crate::value::{integer_operation, real_arithmetic, DeclaredType, VarType};
use vstd::prelude::*;

verus! {

/// What the table knows of a variable: the type it was declared with, which
/// never changes, and its value, which is absent until the first assignment.
#[derive(Clone, Copy, Debug, PartialEq, Eq, Structural)]
pub struct Binding {
    pub declared: DeclaredType,
    pub value: Option<VarType>,
}

/// The symbol table, as a map from names to bindings.
pub type Table = Map<Seq<char>, Binding>;

/// The negation of a value, which keeps its type. The least integer has none.
pub open spec fn negated(v: VarType) -> Result<VarType, Error> {
    match v {
        VarType::Integer(n) => if n == i64::MIN {
            Err(Error::Overflow)
        } else {
            Ok(VarType::Integer((-n) as i64))
        },
        VarType::Real(bits) => Ok(VarType::Real(real_negation(bits))),
    }
}

/// `DIV` on two values: both are taken as integers, and the quotient is
/// rounded toward zero.
pub open spec fn integer_quotient(left: VarType, right: VarType) -> Result<VarType, Error> {
    match integer_operation('/', left.to_integer(), right.to_integer()) {
        Ok(n) => Ok(VarType::Integer(n)),
        Err(e) => Err(e),
    }
}

/// One of `+ - * /` on two values. Two integers give an integer; in every
/// other case both operands are taken as reals and the result is a real.
pub open spec fn combined(op: char, left: VarType, right: VarType) -> Result<VarType, Error> {
    match (left, right) {
        (VarType::Integer(a), VarType::Integer(b)) => match integer_operation(op, a, b) {
            Ok(n) => Ok(VarType::Integer(n)),
            Err(e) => Err(e),
        },
        _ => Ok(VarType::Real(real_arithmetic(op, left.to_real(), right.to_real()))),
    }
}

/// The value of an expression. Operands are evaluated from left to right,
/// and the first error is the result.
pub open spec fn evaluate(table: Table, tree: Tree) -> Result<VarType, Error>
    decreases tree,
{
    match tree.node {
        TokenView::INTEGER_CONST(n) => if n <= i64::MAX {
            Ok(VarType::Integer(n as i64))
        } else {
            Err(Error::Overflow)
        },
        TokenView::REAL_CONST(bits) => Ok(VarType::Real(bits)),
        TokenView::ID(name) => if !table.dom().contains(name) {
            Err(Error::UndeclaredVariable)
        } else {
            match table[name].value {
                None => Err(Error::UninitializedVariable),
                Some(v) => Ok(v),
            }
        },
        TokenView::UNARY(c) => if tree.children.len() != 1 {
            Err(Error::UnexpectedToken)
        } else {
            match evaluate(table, tree.children[0]) {
                Err(e) => Err(e),
                Ok(v) => if c == '-' {
                    negated(v)
                } else {
                    Ok(v)
                },
            }
        },
        TokenView::KEYWORD(Keyword::Div) => if tree.children.len() != 2 {
            Err(Error::UnexpectedToken)
        } else {
            match evaluate(table, tree.children[0]) {
                Err(e) => Err(e),
                Ok(left) => match evaluate(table, tree.children[1]) {
                    Err(e) => Err(e),
                    Ok(right) => integer_quotient(left, right),
                },
            }
        },
        TokenView::OP1(c) | TokenView::OP2(c) => if tree.children.len() != 2 {
            Err(Error::UnexpectedToken)
        } else {
            match evaluate(table, tree.children[0]) {
                Err(e) => Err(e),
                Ok(left) => match evaluate(table, tree.children[1]) {
                    Err(e) => Err(e),
                    Ok(right) => combined(c, left, right),
                },
            }
        },
        _ => Err(Error::UnexpectedToken),
    }
}

/// The name that an identifier leaf carries.
pub open spec fn name_of(tree: Tree) -> Seq<char> {
    tree.node->ID_0
}

/// The effect of an assignment of `value` to `name`. The name must have been
/// declared, and with the type of the value; the value replaces what the
/// variable held.
pub open spec fn assigned(table: Table, name: Seq<char>, value: VarType) -> Result<Table, Error> {
    if table[name].declared != value.type_of() {
        Err(Error::TypeMismatch)
    } else {
        Ok(table.insert(name, Binding { declared: table[name].declared, value: Some(value) }))
    }
}

/// The effect of an assignment statement. The target is looked up before the
/// expression is evaluated.
pub open spec fn assign(table: Table, statement: Tree) -> Result<Table, Error> {
    let name = name_of(statement.children[0]);
    if !table.dom().contains(name) {
        Err(Error::UndeclaredVariable)
    } else {
        match evaluate(table, statement.children[1]) {
            Err(e) => Err(e),
            Ok(value) => assigned(table, name, value),
        }
    }
}

/// The effect of a statement: an assignment, an empty statement, which does
/// nothing, or a compound statement, which executes its statements in order.
pub open spec fn execute(table: Table, statement: Tree) -> Result<Table, Error>
    decreases statement, statement.children.len() + 2,
{
    match statement.node {
        TokenView::ASSIGN => assign(table, statement),
        TokenView::ASTNode(NodeKind::Empty) => Ok(table),
        TokenView::ASTNode(NodeKind::Comp) => execute_from(table, statement, 0),
        _ => Err(Error::UnexpectedToken),
    }
}

/// The effect of the statements of a compound statement from the `i`-th on.
pub open spec fn execute_from(table: Table, compound: Tree, i: nat) -> Result<Table, Error>
    decreases compound, 1 + compound.children.len() - i,
{
    if i >= compound.children.len() {
        Ok(table)
    } else {
        match execute(table, compound.children[i as int]) {
            Err(e) => Err(e),
            Ok(next) => execute_from(next, compound, i + 1),
        }
    }
}

/// The type that a type keyword names.
pub open spec fn declared_type(type_spec: Tree) -> DeclaredType {
    if type_spec.node == TokenView::KEYWORD(Keyword::Real) {
        DeclaredType::Real
    } else {
        DeclaredType::Integer
    }
}

/// The effect of a declaration: a new name, with its type and no value. A
/// name can be declared once only.
pub open spec fn declare(table: Table, declaration: Tree) -> Result<Table, Error> {
    let name = name_of(declaration.children[0]);
    if table.dom().contains(name) {
        Err(Error::DuplicateDeclaration)
    } else {
        Ok(
            table.insert(
                name,
                Binding { declared: declared_type(declaration.children[1]), value: None },
            ),
        )
    }
}

/// The effect of one child of a block: a declaration or the compound
/// statement.
pub open spec fn run_part(table: Table, part: Tree) -> Result<Table, Error> {
    if part.node == TokenView::ASTNode(NodeKind::VarDec) {
        declare(table, part)
    } else {
        execute(table, part)
    }
}

/// The effect of the children of a block from the `i`-th on.
pub open spec fn run_from(table: Table, block: Tree, i: nat) -> Result<Table, Error>
    decreases block.children.len() - i,
{
    if i >= block.children.len() {
        Ok(table)
    } else {
        match run_part(table, block.children[i as int]) {
            Err(e) => Err(e),
            Ok(next) => run_from(next, block, i + 1),
        }
    }
}

/// The effect of a program on a table: that of its block.
pub open spec fn run(table: Table, program: Tree) -> Result<Table, Error> {
    run_from(table, program.children[1], 0)
}

} // verus!
