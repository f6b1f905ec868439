//! The evaluator: walks a program's tree and keeps the symbol table.

use crate::binary64::real_neg;
use crate::error::Error;
use crate::semantics::{
    assign, declare, evaluate, execute, execute_from, run, run_from, run_part, Binding, Table,
};
use crate::text::{chars_of, same_chars};
use crate::token::{Keyword, NodeKind, Token, TokenView};
use crate::tree::{lemma_views, TreeNode};
use crate::value::{operation, real_operation, DeclaredType, VarType};
use vstd::prelude::*;

verus! {

/// A declared variable: its name, the type it was declared with, and its
/// value, which is absent until the first assignment.
#[derive(Debug)]
pub struct Symbol {
    pub name: String,
    pub declared: DeclaredType,
    pub value: Option<VarType>,
}

impl Symbol {
    /// What the table knows of the variable.
    pub open spec fn binding(&self) -> Binding {
        Binding { declared: self.declared, value: self.value }
    }
}

/// The evaluator's state: the symbol table, in the order of declaration.
#[derive(Debug)]
pub struct Visit {
    pub symbols: Vec<Symbol>,
}

/// The map that a list of symbols stands for.
pub open spec fn table_of(symbols: Seq<Symbol>) -> Table
    decreases symbols.len(),
{
    if symbols.len() == 0 {
        Map::empty()
    } else {
        table_of(symbols.drop_last()).insert(symbols.last().name@, symbols.last().binding())
    }
}

/// No two symbols of the list have the same name.
pub open spec fn distinct_names(symbols: Seq<Symbol>) -> bool {
    forall|i: int, j: int|
        0 <= i < j < symbols.len() ==> (#[trigger] symbols[i]).name@ != (#[trigger] symbols[j]).name@
}

/// The map holds the symbols of the list, each under its name, and nothing
/// else.
pub proof fn lemma_table_of(symbols: Seq<Symbol>)
    requires
        distinct_names(symbols),
    ensures
        forall|i: int|
            0 <= i < symbols.len() ==> table_of(symbols).dom().contains(
                (#[trigger] symbols[i]).name@,
            ) && table_of(symbols)[symbols[i].name@] == symbols[i].binding(),
        forall|name: Seq<char>| #[trigger]
            table_of(symbols).dom().contains(name) ==> exists|i: int|
                0 <= i < symbols.len() && (#[trigger] symbols[i]).name@ == name,
    decreases symbols.len(),
{
    if symbols.len() > 0 {
        let front = symbols.drop_last();
        lemma_table_of(front);
        assert(table_of(symbols) == table_of(front).insert(
            symbols.last().name@,
            symbols.last().binding(),
        ));
        assert forall|i: int| 0 <= i < symbols.len() implies table_of(symbols).dom().contains(
            (#[trigger] symbols[i]).name@,
        ) && table_of(symbols)[symbols[i].name@] == symbols[i].binding() by {
            if i < symbols.len() - 1 {
                assert(front[i] == symbols[i]);
                assert(symbols[i].name@ != symbols[symbols.len() - 1].name@);
            }
        }
        assert forall|name: Seq<char>| #[trigger]
            table_of(symbols).dom().contains(name) implies exists|i: int|
            0 <= i < symbols.len() && (#[trigger] symbols[i]).name@ == name by {
            if name == symbols.last().name@ {
                assert(symbols[symbols.len() - 1].name@ == name);
            } else {
                assert(table_of(front).dom().contains(name));
                let i = choose|i: int| 0 <= i < front.len() && (#[trigger] front[i]).name@ == name;
                assert(symbols[i].name@ == name);
            }
        }
    } else {
        assert(table_of(symbols) == Map::<Seq<char>, Binding>::empty());
    }
}

/// Replacing a symbol by one of the same name replaces its binding.
pub proof fn lemma_table_update(symbols: Seq<Symbol>, i: int, symbol: Symbol)
    requires
        distinct_names(symbols),
        0 <= i < symbols.len(),
        symbol.name@ == symbols[i].name@,
    ensures
        distinct_names(symbols.update(i, symbol)),
        table_of(symbols.update(i, symbol)) == table_of(symbols).insert(
            symbol.name@,
            symbol.binding(),
        ),
    decreases symbols.len(),
{
    let updated = symbols.update(i, symbol);
    assert(distinct_names(updated)) by {
        assert forall|a: int, b: int| 0 <= a < b < updated.len() implies (#[trigger] updated[a]).name@
            != (#[trigger] updated[b]).name@ by {
            assert(updated[a].name@ == symbols[a].name@);
            assert(updated[b].name@ == symbols[b].name@);
        }
    }
    let front = symbols.drop_last();
    let last = symbols.last();
    assert(table_of(symbols) == table_of(front).insert(last.name@, last.binding()));
    assert(table_of(updated) == table_of(updated.drop_last()).insert(
        updated.last().name@,
        updated.last().binding(),
    ));
    if i == symbols.len() - 1 {
        assert(updated.drop_last() =~= front);
        assert(table_of(updated) =~= table_of(symbols).insert(symbol.name@, symbol.binding()));
    } else {
        assert(updated.drop_last() =~= front.update(i, symbol));
        assert(distinct_names(front)) by {
            assert forall|a: int, b: int| 0 <= a < b < front.len() implies (#[trigger] front[a]).name@
                != (#[trigger] front[b]).name@ by {
                assert(front[a] == symbols[a]);
                assert(front[b] == symbols[b]);
            }
        }
        assert(front[i] == symbols[i]);
        lemma_table_update(front, i, symbol);
        assert(symbols[i].name@ != symbols[symbols.len() - 1].name@);
        assert(table_of(updated) =~= table_of(symbols).insert(symbol.name@, symbol.binding()));
    }
}

/// Whether two strings hold the same characters.
pub fn same_text(a: &str, b: &str) -> (r: bool)
    ensures
        r == (a@ == b@),
{
    let x = chars_of(a);
    let y = chars_of(b);
    same_chars(&x, &y)
}

impl View for Visit {
    type V = Table;

    open spec fn view(&self) -> Table {
        table_of(self.symbols@)
    }
}

impl Visit {
    /// No name is in the table twice.
    pub open spec fn wf(&self) -> bool {
        distinct_names(self.symbols@)
    }

    /// An evaluator that knows no variable yet.
    pub fn new() -> (r: Visit)
        ensures
            r.wf(),
            r@ == Map::<Seq<char>, Binding>::empty(),
    {
        Visit { symbols: Vec::new() }
    }

    /// Where in the table a name stands, if it has been declared.
    pub fn find(&self, name: &str) -> (r: Option<usize>)
        requires
            self.wf(),
        ensures
            match r {
                Some(i) => i < self.symbols.len() && self.symbols[i as int].name@ == name@,
                None => !self@.dom().contains(name@),
            },
    {
        let mut i: usize = 0;
        while i < self.symbols.len()
            invariant
                i <= self.symbols.len(),
                forall|k: int| 0 <= k < i ==> (#[trigger] self.symbols[k]).name@ != name@,
            decreases self.symbols.len() - i,
        {
            if same_text(self.symbols[i].name.as_str(), name) {
                return Some(i);
            }
            i += 1;
        }
        proof {
            lemma_table_of(self.symbols@);
        }
        None
    }

    /// What the table knows of a name: `None` where it has not been declared.
    pub fn get(&self, name: &str) -> (r: Option<Binding>)
        requires
            self.wf(),
        ensures
            r == (if self@.dom().contains(name@) {
                Some(self@[name@])
            } else {
                None
            }),
    {
        proof {
            lemma_table_of(self.symbols@);
        }
        match self.find(name) {
            Some(i) => Some(
                Binding { declared: self.symbols[i].declared, value: self.symbols[i].value },
            ),
            None => None,
        }
    }

    /// Runs a program: its declarations fill the table, then its statements
    /// are executed in order. The first error ends the run.
    pub fn visit(&mut self, root: &TreeNode) -> (r: Result<(), Error>)
        requires
            old(self).wf(),
            root@.is_program(),
        ensures
            final(self).wf(),
            match run(old(self)@, root@) {
                Ok(table) => r is Ok && final(self)@ == table,
                Err(e) => r == Err::<(), Error>(e),
            },
    {
        proof {
            lemma_views(root.sub_nodes@);
        }
        let block = &root.sub_nodes[1];
        proof {
            lemma_views(block.sub_nodes@);
        }
        let n = block.sub_nodes.len();
        let mut i: usize = 0;
        while i < n
            invariant
                self.wf(),
                i <= n,
                n == block.sub_nodes.len(),
                block@.is_block(),
                block@.children.len() == n,
                forall|k: int| 0 <= k < n ==> (#[trigger] block@.children[k]) == block.sub_nodes[k]@,
                run(old(self)@, root@) == run_from(self@, block@, i as nat),
            decreases n - i,
        {
            let ghost before = self@;
            assert(block@.children[i as int] == block.sub_nodes[i as int]@);
            assert(run_from(before, block@, i as nat) == (match run_part(
                before,
                block@.children[i as int],
            ) {
                Err(e) => Err(e),
                Ok(next) => run_from(next, block@, (i + 1) as nat),
            }));
            if i + 1 == n {
                assert(block@.children[i as int] == block@.children.last());
            }
            self.visit_block(&block.sub_nodes[i])?;
            i += 1;
        }
        assert(run_from(self@, block@, n as nat) == Ok::<Table, Error>(self@));
        Ok(())
    }

    /// Runs one child of a block: a declaration or the compound statement.
    pub fn visit_block(&mut self, root: &TreeNode) -> (r: Result<(), Error>)
        requires
            old(self).wf(),
            root@.is_declaration() || root@.is_compound(),
        ensures
            final(self).wf(),
            match run_part(old(self)@, root@) {
                Ok(table) => r is Ok && final(self)@ == table,
                Err(e) => r == Err::<(), Error>(e),
            },
    {
        let is_declaration = match &root.node {
            Token::ASTNode(NodeKind::VarDec) => true,
            _ => false,
        };
        if is_declaration {
            self.visit_var_dec(root)
        } else {
            self.visit_comp(root)
        }
    }

    /// Declares a variable, without a value. A name that is in the table
    /// already cannot be declared again.
    pub fn visit_var_dec(&mut self, root: &TreeNode) -> (r: Result<(), Error>)
        requires
            old(self).wf(),
            root@.is_declaration(),
        ensures
            final(self).wf(),
            match declare(old(self)@, root@) {
                Ok(table) => r is Ok && final(self)@ == table,
                Err(e) => r == Err::<(), Error>(e) && final(self)@ == old(self)@,
            },
    {
        proof {
            lemma_views(root.sub_nodes@);
            lemma_table_of(self.symbols@);
        }
        let var_name = match &root.sub_nodes[0].node {
            Token::ID(s) => s.clone(),
            _ => {
                return Err(Error::UnexpectedToken);
            },
        };
        if self.find(var_name.as_str()).is_some() {
            return Err(Error::DuplicateDeclaration);
        }
        let declared = match &root.sub_nodes[1].node {
            Token::KEYWORD(Keyword::Real) => DeclaredType::Real,
            _ => DeclaredType::Integer,
        };
        let symbol = Symbol { name: var_name, declared, value: None };
        proof {
            let before = self.symbols@;
            let after = before.push(symbol);
            assert(after.drop_last() =~= before);
            assert(table_of(after) == table_of(after.drop_last()).insert(
                after.last().name@,
                after.last().binding(),
            ));
            assert(distinct_names(after)) by {
                assert forall|a: int, b: int| 0 <= a < b < after.len() implies (
                #[trigger] after[a]).name@ != (#[trigger] after[b]).name@ by {
                    if b < before.len() {
                        assert(after[a] == before[a]);
                        assert(after[b] == before[b]);
                    } else {
                        assert(after[a] == before[a]);
                        assert(self@.dom().contains(before[a].name@));
                    }
                }
            }
        }
        self.symbols.push(symbol);
        Ok(())
    }

    /// Executes a compound statement: its statements, in order.
    pub fn visit_comp(&mut self, root: &TreeNode) -> (r: Result<(), Error>)
        requires
            old(self).wf(),
            root@.is_compound(),
        ensures
            final(self).wf(),
            match execute(old(self)@, root@) {
                Ok(table) => r is Ok && final(self)@ == table,
                Err(e) => r == Err::<(), Error>(e),
            },
        decreases root,
    {
        proof {
            lemma_views(root.sub_nodes@);
        }
        let n = root.sub_nodes.len();
        let mut i: usize = 0;
        while i < n
            invariant
                self.wf(),
                i <= n,
                n == root.sub_nodes.len(),
                root@.is_compound(),
                root@.children.len() == n,
                forall|k: int| 0 <= k < n ==> (#[trigger] root@.children[k]) == root.sub_nodes[k]@,
                execute(old(self)@, root@) == execute_from(self@, root@, i as nat),
            decreases n - i,
        {
            let node = &root.sub_nodes[i];
            let ghost before = self@;
            assert(root@.children[i as int] == node@);
            assert(node@.is_statement());
            assert(execute_from(before, root@, i as nat) == (match execute(
                before,
                root@.children[i as int],
            ) {
                Err(e) => Err(e),
                Ok(next) => execute_from(next, root@, (i + 1) as nat),
            }));
            let kind: u8 = match &node.node {
                Token::ASSIGN => 0,
                Token::ASTNode(NodeKind::Comp) => 1,
                _ => 2,
            };
            if kind == 0 {
                self.visit_assign(node)?;
            } else if kind == 1 {
                self.visit_comp(node)?;
            }
            i += 1;
        }
        assert(execute_from(self@, root@, n as nat) == Ok::<Table, Error>(self@));
        Ok(())
    }

    /// Executes an assignment. The target must have been declared, and with
    /// the type of the value; else nothing is stored.
    pub fn visit_assign(&mut self, root: &TreeNode) -> (r: Result<(), Error>)
        requires
            old(self).wf(),
            root@.node == TokenView::ASSIGN,
            root@.is_statement(),
        ensures
            final(self).wf(),
            match assign(old(self)@, root@) {
                Ok(table) => r is Ok && final(self)@ == table,
                Err(e) => r == Err::<(), Error>(e) && final(self)@ == old(self)@,
            },
    {
        proof {
            lemma_views(root.sub_nodes@);
            lemma_table_of(self.symbols@);
        }
        let var_name = match &root.sub_nodes[0].node {
            Token::ID(s) => s.clone(),
            _ => {
                return Err(Error::UnexpectedToken);
            },
        };
        let at = match self.find(var_name.as_str()) {
            Some(i) => i,
            None => {
                return Err(Error::UndeclaredVariable);
            },
        };
        let var_type = self.symbols[at].declared;
        let value = self.visit_var(&root.sub_nodes[1])?;
        if value.type_of() != var_type {
            return Err(Error::TypeMismatch);
        }
        let symbol = Symbol { name: var_name, declared: var_type, value: Some(value) };
        proof {
            lemma_table_update(self.symbols@, at as int, symbol);
        }
        self.symbols.set(at, symbol);
        Ok(())
    }

    /// The value of an expression.
    pub fn visit_var(&self, root: &TreeNode) -> (r: Result<VarType, Error>)
        requires
            self.wf(),
            root@.is_expression(),
        ensures
            r == evaluate(self@, root@),
        decreases root,
    {
        proof {
            lemma_views(root.sub_nodes@);
            lemma_table_of(self.symbols@);
        }
        match &root.node {
            Token::INTEGER_CONST(n) => {
                if *n <= 0x7fff_ffff_ffff_ffff {
                    Ok(VarType::Integer(*n as i64))
                } else {
                    Err(Error::Overflow)
                }
            },
            Token::REAL_CONST(bits) => Ok(VarType::Real(*bits)),
            Token::KEYWORD(_) => {
                let left = self.visit_var(&root.sub_nodes[0])?;
                let right = self.visit_var(&root.sub_nodes[1])?;
                match operation('/', left.to_integer(), right.to_integer()) {
                    Ok(n) => Ok(VarType::Integer(n)),
                    Err(e) => Err(e),
                }
            },
            Token::OP1(c) | Token::OP2(c) => {
                let left = self.visit_var(&root.sub_nodes[0])?;
                let right = self.visit_var(&root.sub_nodes[1])?;
                if left.same_type(&VarType::Integer(1)) && right.same_type(&VarType::Integer(1)) {
                    match operation(*c, left.to_integer(), right.to_integer()) {
                        Ok(n) => Ok(VarType::Integer(n)),
                        Err(e) => Err(e),
                    }
                } else {
                    Ok(VarType::Real(real_operation(*c, left.to_real(), right.to_real())))
                }
            },
            Token::UNARY(c) => {
                let operand = self.visit_var(&root.sub_nodes[0])?;
                if *c == '-' {
                    match operand {
                        VarType::Integer(n) => {
                            if n == i64::MIN {
                                Err(Error::Overflow)
                            } else {
                                Ok(VarType::Integer(-n))
                            }
                        },
                        VarType::Real(bits) => Ok(VarType::Real(real_neg(bits))),
                    }
                } else {
                    Ok(operand)
                }
            },
            Token::ID(s) => {
                match self.find(s.as_str()) {
                    None => Err(Error::UndeclaredVariable),
                    Some(i) => match self.symbols[i].value {
                        None => Err(Error::UninitializedVariable),
                        Some(v) => Ok(v),
                    },
                }
            },
            _ => Err(Error::UnexpectedToken),
        }
    }
}

} // verus!
