//! The whole pipeline: from a program text to its tree, and to the bindings
//! it leaves behind.

use crate::error::Error;
use crate::eval::Visit;
use crate::grammar::parse;
use crate::lexer::Interpreter;
use crate::lexis::token_stream;
use crate::semantics::{run, Table};
use crate::tree::{Tree, TreeNode};
use vstd::prelude::*;

verus! {

/// The tree of a text, or the first error of reading and parsing it.
pub open spec fn parsed(text: Seq<char>) -> Result<Tree, Error> {
    let tokens = token_stream(text, 0);
    if tokens.tokens.len() == 0 && tokens.error is Some {
        Err(tokens.error->0)
    } else {
        parse(tokens)
    }
}

/// The bindings that a text leaves behind when it is parsed and run, or the
/// first error on the way.
pub open spec fn meaning(text: Seq<char>) -> Result<Table, Error> {
    match parsed(text) {
        Err(e) => Err(e),
        Ok(tree) => run(Map::empty(), tree),
    }
}

/// Parses a program text.
pub fn parse_text(source: &str) -> (r: Result<TreeNode, Error>)
    ensures
        match parsed(source@) {
            Ok(tree) => r matches Ok(node) && node@ == tree && tree.is_program(),
            Err(e) => r matches Err(x) && x == e,
        },
{
    let text = source.to_owned();
    let mut parser = Interpreter::from(&text)?;
    parser.parse()
}

/// Parses and runs a program text, and hands back the evaluator with the
/// final bindings of every declared variable.
pub fn interpret(source: &str) -> (r: Result<Visit, Error>)
    ensures
        match meaning(source@) {
            Ok(table) => r matches Ok(visit) && visit.wf() && visit@ == table,
            Err(e) => r matches Err(x) && x == e,
        },
{
    let tree = parse_text(source)?;
    let mut visit = Visit::new();
    visit.visit(&tree)?;
    Ok(visit)
}

} // verus!
