//! The parser: recursive descent over the lexer's tokens, one function for
//! each production of [`crate::grammar`].

use crate::error::Error;
use crate::grammar;
use crate::lexer::{lemma_end_of_input, Interpreter};
use crate::lexis::{
    lemma_next_token_advances, lemma_skip_nothing, lemma_skip_skip, lemma_token_stream_lexical,
    lexical, token_stream, TokenStream,
};
use crate::shape::lemma_program_shape;
use crate::token::{token_views, Keyword, NodeKind, Token, TokenView};
use crate::tree::{lemma_views, lemma_views_add, lemma_views_push, views, Tree, TreeNode};
use vstd::prelude::*;

verus! {

impl Interpreter {
    /// What a production owes its caller: the tree that the grammar gives for
    /// the tokens that remained, with the parser moved past the tokens it
    /// took; or the grammar's error. The text is never touched.
    pub open spec fn produced(
        before: Interpreter,
        after: Interpreter,
        got: Result<TreeNode, Error>,
        expected: Result<(Tree, nat), Error>,
    ) -> bool {
        &&& after.wf()
        &&& after.text == before.text
        &&& match expected {
            Ok((tree, n)) => got matches Ok(node) && node@ == tree && after.stream()
                == before.stream().skip(n),
            Err(e) => got matches Err(x) && x == e,
        }
    }

    /// As [`Interpreter::produced`], for a production that yields several
    /// nodes.
    pub open spec fn produced_all(
        before: Interpreter,
        after: Interpreter,
        got: Result<Vec<TreeNode>, Error>,
        expected: Result<(Seq<Tree>, nat), Error>,
    ) -> bool {
        &&& after.wf()
        &&& after.text == before.text
        &&& match expected {
            Ok((trees, n)) => got matches Ok(nodes) && views(nodes@) == trees && after.stream()
                == before.stream().skip(n),
            Err(e) => got matches Err(x) && x == e,
        }
    }

    /// The lookahead is the head of what remains.
    pub proof fn lemma_head(&self)
        ensures
            self.stream().head() == self.current_token@,
    {
        reveal(Interpreter::stream);
    }

    /// What remains holds nothing but tokens that the lexer can emit.
    pub proof fn lemma_stream_lexical(&self)
        requires
            self.wf(),
        ensures
            self.stream().is_lexical(),
    {
        reveal(Interpreter::stream);
        lemma_token_stream_lexical(self.text@, self.idx as int);
        let rest = token_stream(self.text@, self.idx as int);
        let all = self.stream();
        assert forall|k: int| 0 <= k < all.tokens.len() implies lexical(#[trigger] all.tokens[k]) by {
            if k > 0 {
                assert(all.tokens[k] == rest.tokens[k - 1]);
            }
        }
    }

    /// Moves on to the next token. On a lexical error nothing changes.
    pub fn advance(&mut self) -> (r: Result<(), Error>)
        requires
            old(self).wf(),
        ensures
            final(self).wf(),
            final(self).text == old(self).text,
            match old(self).stream().next() {
                Ok(rest) => r is Ok && final(self).stream() == rest,
                Err(e) => r matches Err(x) && x == e && *final(self) == *old(self),
            },
    {
        proof {
            reveal(Interpreter::stream);
            lemma_next_token_advances(self.text@, self.idx as int);
            lemma_end_of_input(self.text@);
            let rest = token_stream(self.text@, self.idx as int);
            if !(self.current_token@ is EOF) {
                assert(self.stream().skip(1) =~= rest);
            } else {
                assert(self.stream().skip(1) =~= TokenStream::empty());
            }
        }
        match self.get_next_token() {
            Ok(_) => Ok(()),
            Err(e) => Err(e),
        }
    }

    /// Consumes the lookahead if it is of the kind of `token`; else the
    /// lookahead is unexpected.
    pub fn eat(&mut self, token: Token) -> (r: Result<(), Error>)
        requires
            old(self).wf(),
        ensures
            final(self).wf(),
            final(self).text == old(self).text,
            match grammar::expect(old(self).stream(), token@) {
                Ok(rest) => r is Ok && final(self).stream() == rest,
                Err(e) => r matches Err(x) && x == e,
            },
    {
        proof {
            self.lemma_head();
        }
        if self.current_token == token {
            self.advance()
        } else {
            Err(Error::UnexpectedToken)
        }
    }

    /// A leaf for the lookahead, which is consumed.
    pub fn variable(&mut self) -> (r: Result<TreeNode, Error>)
        requires
            old(self).wf(),
        ensures
            final(self).wf(),
            final(self).text == old(self).text,
            match old(self).stream().next() {
                Ok(rest) => r matches Ok(node) && node@ == Tree::leaf(old(self).current_token@)
                    && final(self).stream() == rest,
                Err(e) => r matches Err(x) && x == e,
            },
    {
        let node = TreeNode::leaf(self.current_token.clone());
        self.advance()?;
        Ok(node)
    }

    /// The node of an empty statement.
    pub fn empty(&mut self) -> (r: TreeNode)
        ensures
            *final(self) == *old(self),
            r@ == Tree::leaf(TokenView::ASTNode(NodeKind::Empty)),
    {
        TreeNode::leaf(Token::ASTNode(NodeKind::Empty))
    }

    /// `factor := ( + | - ) factor | INTEGER_CONST | REAL_CONST | ( expr ) | ID`
    pub fn factor(&mut self) -> (r: Result<TreeNode, Error>)
        requires
            old(self).wf(),
        ensures
            Interpreter::produced(*old(self), *final(self), r, grammar::factor(old(self).stream())),
        decreases old(self).stream().tokens.len(), 0nat,
    {
        proof {
            reveal(grammar::factor);
            reveal(grammar::expr);
        }
        let ghost s = self.stream();
        let token = self.current_token.clone();
        proof {
            self.lemma_head();
        }
        match token {
            Token::OP1(c) => {
                self.advance()?;
                let operand = self.factor()?;
                proof {
                    lemma_skip_skip(s, 1, grammar::factor(s.skip(1))->Ok_0.1);
                }
                Ok(TreeNode::unary(Token::UNARY(c), operand))
            },
            Token::INTEGER_CONST(_) | Token::REAL_CONST(_) | Token::ID(_) => {
                self.advance()?;
                Ok(TreeNode::leaf(token))
            },
            Token::LP => {
                self.advance()?;
                let node = self.expr()?;
                self.eat(Token::RP)?;
                proof {
                    let n = grammar::expr(s.skip(1))->Ok_0.1;
                    lemma_skip_skip(s, 1, n);
                    lemma_skip_skip(s, 1 + n, 1);
                }
                Ok(node)
            },
            _ => Err(Error::UnexpectedToken),
        }
    }

    /// `term := factor ( ( * | / | DIV ) factor )*`
    pub fn term(&mut self) -> (r: Result<TreeNode, Error>)
        requires
            old(self).wf(),
        ensures
            Interpreter::produced(*old(self), *final(self), r, grammar::term(old(self).stream())),
        decreases old(self).stream().tokens.len(), 2nat,
    {
        proof {
            reveal(grammar::term);
            reveal(grammar::factor);
            reveal(grammar::term_rest);
        }
        let ghost s = self.stream();
        let mut node = self.factor()?;
        let ghost mut taken: nat = grammar::factor(s)->Ok_0.1;
        loop
            invariant
                self.wf(),
                self.text == old(self).text,
                s == old(self).stream(),
                self.stream() == s.skip(taken),
                grammar::term(s) == (match grammar::term_rest(self.stream(), node@) {
                    Ok((tree, m)) => Ok::<(Tree, nat), Error>((tree, taken + m)),
                    Err(e) => Err(e),
                }),
            decreases self.stream().tokens.len(),
        {
            proof {
                reveal(grammar::term_rest);
                reveal(grammar::factor);
            }
            let token = self.current_token.clone();
            proof {
                self.lemma_head();
            }
            let joins = match token {
                Token::OP2(_) => true,
                Token::KEYWORD(Keyword::Div) => true,
                _ => false,
            };
            if !joins {
                proof {
                    lemma_skip_skip(s, taken, 0);
                }
                return Ok(node);
            }
            let ghost here = self.stream();
            self.advance()?;
            let right = self.factor()?;
            node = TreeNode::binary(token, node, right);
            proof {
                let n = grammar::factor(here.skip(1))->Ok_0.1;
                lemma_skip_skip(here, 1, n);
                lemma_skip_skip(s, taken, 1 + n);
                taken = taken + 1 + n;
            }
        }
    }

    /// `expr := term ( ( + | - ) term )*`
    pub fn expr(&mut self) -> (r: Result<TreeNode, Error>)
        requires
            old(self).wf(),
        ensures
            Interpreter::produced(*old(self), *final(self), r, grammar::expr(old(self).stream())),
        decreases old(self).stream().tokens.len(), 4nat,
    {
        proof {
            reveal(grammar::expr);
            reveal(grammar::term);
            reveal(grammar::expr_rest);
        }
        let ghost s = self.stream();
        let mut node = self.term()?;
        let ghost mut taken: nat = grammar::term(s)->Ok_0.1;
        loop
            invariant
                self.wf(),
                self.text == old(self).text,
                s == old(self).stream(),
                self.stream() == s.skip(taken),
                grammar::expr(s) == (match grammar::expr_rest(self.stream(), node@) {
                    Ok((tree, m)) => Ok::<(Tree, nat), Error>((tree, taken + m)),
                    Err(e) => Err(e),
                }),
            decreases self.stream().tokens.len(),
        {
            proof {
                reveal(grammar::expr_rest);
                reveal(grammar::term);
            }
            let token = self.current_token.clone();
            proof {
                self.lemma_head();
            }
            let joins = match token {
                Token::OP1(_) => true,
                _ => false,
            };
            if !joins {
                proof {
                    lemma_skip_skip(s, taken, 0);
                }
                return Ok(node);
            }
            let ghost here = self.stream();
            self.advance()?;
            let right = self.term()?;
            node = TreeNode::binary(token, node, right);
            proof {
                let n = grammar::term(here.skip(1))->Ok_0.1;
                lemma_skip_skip(here, 1, n);
                lemma_skip_skip(s, taken, 1 + n);
                taken = taken + 1 + n;
            }
        }
    }

    /// `assignment_statement := ID := expr`
    pub fn assignment_statement(&mut self) -> (r: Result<TreeNode, Error>)
        requires
            old(self).wf(),
        ensures
            Interpreter::produced(
                *old(self),
                *final(self),
                r,
                grammar::assignment_statement(old(self).stream()),
            ),
        decreases old(self).stream().tokens.len(), 5nat,
    {
        proof {
            reveal(grammar::assignment_statement);
            reveal(grammar::expr);
        }
        let ghost s = self.stream();
        proof {
            self.lemma_head();
        }
        let is_name = match &self.current_token {
            Token::ID(_) => true,
            _ => false,
        };
        if !is_name {
            return Err(Error::UnexpectedToken);
        }
        let left = self.variable()?;
        let token = self.current_token.clone();
        proof {
            self.lemma_head();
        }
        self.eat(Token::ASSIGN)?;
        let right = self.expr()?;
        proof {
            let n = grammar::expr(s.skip(1).skip(1))->Ok_0.1;
            lemma_skip_skip(s, 1, 1);
            lemma_skip_skip(s, 2, n);
        }
        Ok(TreeNode::binary(token, left, right))
    }

    /// `compound_statement := BEGIN statement_list END`
    pub fn compound_statement(&mut self) -> (r: Result<TreeNode, Error>)
        requires
            old(self).wf(),
        ensures
            Interpreter::produced(
                *old(self),
                *final(self),
                r,
                grammar::compound_statement(old(self).stream()),
            ),
        decreases old(self).stream().tokens.len(), 5nat,
    {
        proof {
            reveal(grammar::compound_statement);
            reveal(grammar::statement_list);
        }
        let ghost s = self.stream();
        self.eat(Token::KEYWORD(Keyword::Begin))?;
        let nodes = self.statement_list()?;
        self.eat(Token::KEYWORD(Keyword::End))?;
        proof {
            let n = grammar::statement_list(s.skip(1))->Ok_0.1;
            lemma_skip_skip(s, 1, n);
            lemma_skip_skip(s, 1 + n, 1);
        }
        Ok(TreeNode::branch(Token::ASTNode(NodeKind::Comp), nodes))
    }

    /// `statement_list := statement ( ; statement )*`
    pub fn statement_list(&mut self) -> (r: Result<Vec<TreeNode>, Error>)
        requires
            old(self).wf(),
        ensures
            Interpreter::produced_all(
                *old(self),
                *final(self),
                r,
                grammar::statement_list(old(self).stream()),
            ),
        decreases old(self).stream().tokens.len(), 8nat,
    {
        proof {
            reveal(grammar::statement_list);
            reveal(grammar::statement);
            reveal(grammar::statement_tail);
        }
        let ghost s = self.stream();
        let mut nodes: Vec<TreeNode> = Vec::new();
        let first = self.statement()?;
        let ghost mut taken: nat = grammar::statement(s)->Ok_0.1;
        nodes.push(first);
        proof {
            lemma_views(nodes@);
            assert(views(nodes@) =~= seq![first@]);
        }
        loop
            invariant
                self.wf(),
                self.text == old(self).text,
                s == old(self).stream(),
                self.stream() == s.skip(taken),
                grammar::statement_list(s) == (match grammar::statement_tail(self.stream()) {
                    Ok((rest, m)) => Ok::<(Seq<Tree>, nat), Error>(
                        (views(nodes@) + rest, taken + m),
                    ),
                    Err(e) => Err(e),
                }),
            decreases self.stream().tokens.len(),
        {
            proof {
                reveal(grammar::statement_tail);
                reveal(grammar::statement);
            }
            proof {
                self.lemma_head();
            }
            let more = match &self.current_token {
                Token::SEMI => true,
                _ => false,
            };
            if !more {
                proof {
                    lemma_skip_skip(s, taken, 0);
                    assert(views(nodes@) + Seq::<Tree>::empty() =~= views(nodes@));
                }
                return Ok(nodes);
            }
            let ghost here = self.stream();
            let ghost before = views(nodes@);
            assert(grammar::expect(here, TokenView::SEMI) == here.next());
            self.eat(Token::SEMI)?;
            let node = self.statement()?;
            proof {
                lemma_views_push(nodes@, node);
            }
            nodes.push(node);
            proof {
                let n = grammar::statement(here.skip(1))->Ok_0.1;
                let after = self.stream();
                lemma_skip_skip(here, 1, n);
                lemma_skip_skip(s, taken, 1 + n);
                assert(grammar::statement_tail(here) == (match grammar::statement_tail(after) {
                    Ok((rest, m)) => Ok::<(Seq<Tree>, nat), Error>(
                        (seq![node@] + rest, 1 + n + m),
                    ),
                    Err(e) => Err(e),
                }));
                match grammar::statement_tail(after) {
                    Ok((rest, m)) => {
                        assert(before + (seq![node@] + rest) =~= before.push(node@) + rest);
                    },
                    Err(_) => {},
                }
                taken = taken + 1 + n;
            }
        }
    }

    /// `statement := compound_statement | assignment_statement | empty`
    pub fn statement(&mut self) -> (r: Result<TreeNode, Error>)
        requires
            old(self).wf(),
        ensures
            Interpreter::produced(
                *old(self),
                *final(self),
                r,
                grammar::statement(old(self).stream()),
            ),
        decreases old(self).stream().tokens.len(), 6nat,
    {
        proof {
            reveal(grammar::statement);
            reveal(grammar::compound_statement);
            reveal(grammar::assignment_statement);
        }
        proof {
            self.lemma_head();
        }
        let kind: u8 = match &self.current_token {
            Token::KEYWORD(Keyword::Begin) => 0,
            Token::ID(_) => 1,
            _ => 2,
        };
        if kind == 0 {
            self.compound_statement()
        } else if kind == 1 {
            self.assignment_statement()
        } else {
            proof {
                lemma_skip_nothing(self.stream());
            }
            Ok(self.empty())
        }
    }

    /// `variable_declaration := ID ( , ID )* : ( INTEGER | REAL )`, as one
    /// node for each name.
    pub fn variable_declaration(&mut self) -> (r: Result<Vec<TreeNode>, Error>)
        requires
            old(self).wf(),
        ensures
            Interpreter::produced_all(
                *old(self),
                *final(self),
                r,
                grammar::variable_declaration(old(self).stream()),
            ),
    {
        proof {
            reveal(grammar::declared_names);
        }
        let ghost s = self.stream();
        proof {
            reveal(grammar::variable_declaration);
        }
        let mut vars: Vec<Token> = Vec::new();
        let ghost mut taken: nat = 0;
        proof {
            lemma_skip_nothing(s);
            assert(token_views(vars@) =~= Seq::<TokenView>::empty());
            match grammar::declared_names(s) {
                Ok((rest, m)) => {
                    assert(token_views(vars@) + rest =~= rest);
                },
                Err(_) => {},
            }
        }
        loop
            invariant_except_break
                grammar::declared_names(s) == (match grammar::declared_names(self.stream()) {
                    Ok((rest, m)) => Ok::<(Seq<TokenView>, nat), Error>(
                        (token_views(vars@) + rest, taken + m),
                    ),
                    Err(e) => Err(e),
                }),
            invariant
                self.wf(),
                self.text == old(self).text,
                s == old(self).stream(),
                self.stream() == s.skip(taken),
            ensures
                grammar::declared_names(s) == Ok::<(Seq<TokenView>, nat), Error>(
                    (token_views(vars@), taken),
                ),
            decreases self.stream().tokens.len(),
        {
            proof {
                reveal(grammar::declared_names);
            }
            proof {
                reveal(grammar::variable_declaration);
                self.lemma_head();
            }
            let token = self.current_token.clone();
            let is_name = match &token {
                Token::ID(_) => true,
                _ => false,
            };
            if !is_name {
                return Err(Error::UnexpectedToken);
            }
            let ghost here = self.stream();
            let ghost before = token_views(vars@);
            self.advance()?;
            vars.push(token);
            proof {
                self.lemma_head();
                assert(token_views(vars@) =~= before.push(token@));
            }
            let comma = match &self.current_token {
                Token::COMMA => true,
                _ => false,
            };
            if !comma {
                proof {
                    lemma_skip_skip(s, taken, 1);
                    assert(before + seq![token@] =~= before.push(token@));
                    taken = taken + 1;
                }
                break ;
            }
            self.advance()?;
            proof {
                lemma_skip_skip(here, 1, 1);
                lemma_skip_skip(s, taken, 2);
                match grammar::declared_names(self.stream()) {
                    Ok((rest, m)) => {
                        assert(before + (seq![token@] + rest) =~= before.push(token@) + rest);
                    },
                    Err(_) => {},
                }
                taken = taken + 2;
            }
        }
        self.eat(Token::COLON)?;
        proof {
            self.lemma_head();
        }
        let type_spec = self.current_token.clone();
        let is_type = match &type_spec {
            Token::KEYWORD(Keyword::Integer) => true,
            Token::KEYWORD(Keyword::Real) => true,
            _ => false,
        };
        if !is_type {
            return Err(Error::UnexpectedToken);
        }
        self.advance()?;
        proof {
            lemma_skip_skip(s, taken, 1);
            lemma_skip_skip(s, taken + 1, 1);
        }
        let mut ret: Vec<TreeNode> = Vec::new();
        let mut i: usize = 0;
        let ghost names = token_views(vars@);
        assert(views(ret@) =~= Seq::new(0, |k: int| grammar::declaration(names[k], type_spec@)));
        while i < vars.len()
            invariant
                i <= vars.len(),
                names == token_views(vars@),
                views(ret@) == Seq::new(
                    i as nat,
                    |k: int| grammar::declaration(names[k], type_spec@),
                ),
            decreases vars.len() - i,
        {
            let node1 = TreeNode::leaf(vars[i].clone());
            let node2 = TreeNode::leaf(type_spec.clone());
            let node = TreeNode::binary(Token::ASTNode(NodeKind::VarDec), node1, node2);
            proof {
                lemma_views_push(ret@, node);
                assert(views(ret@).push(node@) =~= Seq::new(
                    (i + 1) as nat,
                    |k: int| grammar::declaration(names[k], type_spec@),
                ));
            }
            ret.push(node);
            i += 1;
        }
        Ok(ret)
    }

    /// `declarations := ( VAR ( variable_declaration ; )+ )?`
    pub fn declarations(&mut self) -> (r: Result<Vec<TreeNode>, Error>)
        requires
            old(self).wf(),
        ensures
            Interpreter::produced_all(
                *old(self),
                *final(self),
                r,
                grammar::declarations(old(self).stream()),
            ),
    {
        proof {
            reveal(grammar::declaration_lines);
        }
        let ghost s = self.stream();
        proof {
            reveal(grammar::declarations);
        }
        let mut nodes: Vec<TreeNode> = Vec::new();
        proof {
            self.lemma_head();
            lemma_skip_nothing(s);
            lemma_views(nodes@);
            assert(views(nodes@) =~= Seq::<Tree>::empty());
        }
        let has_var = match &self.current_token {
            Token::KEYWORD(Keyword::Var) => true,
            _ => false,
        };
        if !has_var {
            return Ok(nodes);
        }
        self.eat(Token::KEYWORD(Keyword::Var))?;
        proof {
            self.lemma_head();
        }
        let is_name = match &self.current_token {
            Token::ID(_) => true,
            _ => false,
        };
        if !is_name {
            return Err(Error::UnexpectedToken);
        }
        let ghost s1 = self.stream();
        let ghost mut taken: nat = 0;
        proof {
            lemma_skip_nothing(s1);
            match grammar::declaration_lines(s1) {
                Ok((rest, m)) => {
                    assert(views(nodes@) + rest =~= rest);
                },
                Err(_) => {},
            }
        }
        loop
            invariant
                self.wf(),
                self.text == old(self).text,
                s == old(self).stream(),
                s1 == s.skip(1),
                self.stream() == s1.skip(taken),
                grammar::declarations(s) == (match grammar::declaration_lines(s1) {
                    Ok((trees, n)) => Ok::<(Seq<Tree>, nat), Error>((trees, n + 1)),
                    Err(e) => Err(e),
                }),
                grammar::declaration_lines(s1) == (match grammar::declaration_lines(self.stream()) {
                    Ok((rest, m)) => Ok::<(Seq<Tree>, nat), Error>(
                        (views(nodes@) + rest, taken + m),
                    ),
                    Err(e) => Err(e),
                }),
            decreases self.stream().tokens.len(),
        {
            proof {
                reveal(grammar::declaration_lines);
            }
            proof {
                self.lemma_head();
            }
            let more = match &self.current_token {
                Token::ID(_) => true,
                _ => false,
            };
            if !more {
                proof {
                    lemma_skip_skip(s, 1, taken);
                    assert(views(nodes@) + Seq::<Tree>::empty() =~= views(nodes@));
                }
                return Ok(nodes);
            }
            let ghost here = self.stream();
            let ghost before = nodes@;
            let mut group = self.variable_declaration()?;
            let ghost added = group@;
            self.eat(Token::SEMI)?;
            nodes.append(&mut group);
            proof {
                let n = grammar::variable_declaration(here)->Ok_0.1;
                let after = self.stream();
                lemma_skip_skip(here, n, 1);
                lemma_skip_skip(s1, taken, n + 1);
                lemma_views_add(before, added);
                assert(here.skip(n).tokens.len() > 0);
                assert(after.tokens.len() < here.tokens.len());
                assert(grammar::declaration_lines(here) == (match grammar::declaration_lines(
                    after,
                ) {
                    Ok((rest, m)) => Ok::<(Seq<Tree>, nat), Error>(
                        (views(added) + rest, n + 1 + m),
                    ),
                    Err(e) => Err(e),
                }));
                match grammar::declaration_lines(after) {
                    Ok((rest, m)) => {
                        assert(views(before) + (views(added) + rest) =~= (views(before) + views(
                            added,
                        )) + rest);
                    },
                    Err(_) => {},
                }
                taken = taken + n + 1;
            }
        }
    }

    /// `block := declarations compound_statement`
    pub fn block(&mut self) -> (r: Result<TreeNode, Error>)
        requires
            old(self).wf(),
        ensures
            Interpreter::produced(*old(self), *final(self), r, grammar::block(old(self).stream())),
    {
        let ghost s = self.stream();
        proof {
            reveal(grammar::block);
        }
        let mut s_nodes = self.declarations()?;
        let body = self.compound_statement()?;
        proof {
            let n = grammar::declarations(s)->Ok_0.1;
            let m = grammar::compound_statement(s.skip(n))->Ok_0.1;
            lemma_skip_skip(s, n, m);
            lemma_views_push(s_nodes@, body);
        }
        s_nodes.push(body);
        Ok(TreeNode::branch(Token::ASTNode(NodeKind::Block), s_nodes))
    }

    /// `program := PROGRAM ID ; block .`
    pub fn program(&mut self) -> (r: Result<TreeNode, Error>)
        requires
            old(self).wf(),
        ensures
            Interpreter::produced(
                *old(self),
                *final(self),
                r,
                grammar::program(old(self).stream()),
            ),
    {
        let ghost s = self.stream();
        proof {
            reveal(grammar::program);
        }
        self.eat(Token::KEYWORD(Keyword::Program))?;
        proof {
            self.lemma_head();
        }
        let is_name = match &self.current_token {
            Token::ID(_) => true,
            _ => false,
        };
        if !is_name {
            return Err(Error::UnexpectedToken);
        }
        let name = self.variable()?;
        self.eat(Token::SEMI)?;
        let body = self.block()?;
        self.eat(Token::DOT)?;
        proof {
            let n = grammar::block(s.skip(1).skip(1).skip(1))->Ok_0.1;
            lemma_skip_skip(s, 1, 1);
            lemma_skip_skip(s, 2, 1);
            lemma_skip_skip(s, 3, n);
            lemma_skip_skip(s, 3 + n, 1);
        }
        Ok(TreeNode::binary(Token::ASTNode(NodeKind::Program), name, body))
    }

    /// Parses a whole program: the tree that the grammar gives for the tokens
    /// that remain, which must reach the end of the input. After a success
    /// the parser stands at the start of the text again.
    pub fn parse(&mut self) -> (r: Result<TreeNode, Error>)
        requires
            old(self).wf(),
        ensures
            final(self).wf(),
            final(self).text == old(self).text,
            match grammar::parse(old(self).stream()) {
                Ok(tree) => r matches Ok(node) && node@ == tree && final(self).stream()
                    == token_stream(final(self).text@, 0),
                Err(e) => r matches Err(x) && x == e,
            },
            r matches Ok(node) ==> node@.is_program(),
    {
        proof {
            self.lemma_stream_lexical();
            lemma_program_shape(self.stream());
        }
        let node = self.program()?;
        proof {
            self.lemma_head();
        }
        let at_end = match &self.current_token {
            Token::EOF => true,
            _ => false,
        };
        if !at_end {
            return Err(Error::TrailingInput);
        }
        self.reset();
        Ok(node)
    }

    /// Puts the parser back at the start of the text.
    pub fn reset(&mut self)
        requires
            old(self).wf(),
        ensures
            final(self).wf(),
            final(self).text == old(self).text,
            final(self).stream() == token_stream(final(self).text@, 0),
    {
        self.idx = 0;
        proof {
            reveal(Interpreter::stream);
            lemma_next_token_advances(self.text@, 0);
            lemma_end_of_input(self.text@);
        }
        let _ = self.get_next_token();
    }
}

} // verus!
