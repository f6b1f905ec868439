//! The abstract syntax tree.

use crate::token::{Keyword, NodeKind, Token, TokenView};
use vstd::prelude::*;

verus! {

/// A node of the syntax tree: a tag and the node's children, in order. Each
/// child belongs to its parent alone.
#[derive(Debug)]
pub struct TreeNode {
    pub node: Token,
    pub sub_nodes: Vec<TreeNode>,
}

/// The mathematical value of a [`TreeNode`].
pub struct Tree {
    pub node: TokenView,
    pub children: Seq<Tree>,
}

/// The values of a sequence of nodes.
pub open spec fn views(nodes: Seq<TreeNode>) -> Seq<Tree>
    decreases nodes,
{
    if nodes.len() == 0 {
        Seq::empty()
    } else {
        views(nodes.drop_last()).push(nodes.last()@)
    }
}

impl View for TreeNode {
    type V = Tree;

    open spec fn view(&self) -> Tree
        decreases self,
    {
        Tree { node: self.node@, children: views(self.sub_nodes@) }
    }
}

/// The values of a sequence of nodes are the nodes' values, one for one.
pub proof fn lemma_views(nodes: Seq<TreeNode>)
    ensures
        views(nodes).len() == nodes.len(),
        forall|i: int| 0 <= i < nodes.len() ==> (#[trigger] views(nodes)[i]) == nodes[i]@,
    decreases nodes.len(),
{
    if nodes.len() > 0 {
        lemma_views(nodes.drop_last());
        assert(views(nodes) == views(nodes.drop_last()).push(nodes.last()@));
    } else {
        assert(views(nodes) == Seq::<Tree>::empty());
    }
}

/// The values of two sequences joined are the values of each, joined.
pub proof fn lemma_views_add(a: Seq<TreeNode>, b: Seq<TreeNode>)
    ensures
        views(a + b) == views(a) + views(b),
{
    lemma_views(a);
    lemma_views(b);
    lemma_views(a + b);
    assert(views(a + b) =~= views(a) + views(b));
}

/// Appending a node appends its value.
pub proof fn lemma_views_push(nodes: Seq<TreeNode>, node: TreeNode)
    ensures
        views(nodes.push(node)) == views(nodes).push(node@),
{
    assert(nodes.push(node).drop_last() =~= nodes);
}

impl Tree {
    /// A node without children.
    pub open spec fn leaf(node: TokenView) -> Tree {
        Tree { node, children: Seq::empty() }
    }

    /// Whether the tree is an expression as the parser builds one: a literal
    /// or an identifier without children, a unary operator over one
    /// expression, or a binary operator over two.
    pub open spec fn is_expression(self) -> bool
        decreases self,
    {
        match self.node {
            TokenView::INTEGER_CONST(_) | TokenView::REAL_CONST(_) | TokenView::ID(_) => {
                self.children.len() == 0
            },
            TokenView::UNARY(c) => {
                &&& c == '+' || c == '-'
                &&& self.children.len() == 1
                &&& self.children[0].is_expression()
            },
            TokenView::OP1(c) => {
                &&& c == '+' || c == '-'
                &&& self.children.len() == 2
                &&& self.children[0].is_expression()
                &&& self.children[1].is_expression()
            },
            TokenView::OP2(c) => {
                &&& c == '*' || c == '/'
                &&& self.children.len() == 2
                &&& self.children[0].is_expression()
                &&& self.children[1].is_expression()
            },
            TokenView::KEYWORD(Keyword::Div) => {
                &&& self.children.len() == 2
                &&& self.children[0].is_expression()
                &&& self.children[1].is_expression()
            },
            _ => false,
        }
    }

    /// Whether the tree is an identifier leaf.
    pub open spec fn is_name(self) -> bool {
        self.node is ID && self.children.len() == 0
    }

    /// Whether the tree is a statement: an assignment of an expression to a
    /// name, an empty statement, or a compound statement, whose children are
    /// its statements, one node each.
    pub open spec fn is_statement(self) -> bool
        decreases self,
    {
        match self.node {
            TokenView::ASSIGN => {
                &&& self.children.len() == 2
                &&& self.children[0].is_name()
                &&& self.children[1].is_expression()
            },
            TokenView::ASTNode(NodeKind::Empty) => self.children.len() == 0,
            TokenView::ASTNode(NodeKind::Comp) => {
                &&& self.children.len() >= 1
                &&& forall|i: int|
                    0 <= i < self.children.len() ==> (#[trigger] self.children[i]).is_statement()
            },
            _ => false,
        }
    }

    /// Whether the tree is a compound statement.
    pub open spec fn is_compound(self) -> bool {
        self.node == TokenView::ASTNode(NodeKind::Comp) && self.is_statement()
    }

    /// Whether the tree declares one variable: a name and a type, both leaves.
    pub open spec fn is_declaration(self) -> bool {
        &&& self.node == TokenView::ASTNode(NodeKind::VarDec)
        &&& self.children.len() == 2
        &&& self.children[0].is_name()
        &&& self.children[1].children.len() == 0
        &&& (self.children[1].node == TokenView::KEYWORD(Keyword::Integer)
            || self.children[1].node == TokenView::KEYWORD(Keyword::Real))
    }

    /// Whether the tree is a block: declarations, then one compound
    /// statement.
    pub open spec fn is_block(self) -> bool {
        &&& self.node == TokenView::ASTNode(NodeKind::Block)
        &&& self.children.len() >= 1
        &&& self.children.last().is_compound()
        &&& forall|i: int|
            0 <= i < self.children.len() - 1 ==> (#[trigger] self.children[i]).is_declaration()
    }

    /// Whether the tree is a program: its name and its block.
    pub open spec fn is_program(self) -> bool {
        &&& self.node == TokenView::ASTNode(NodeKind::Program)
        &&& self.children.len() == 2
        &&& self.children[0].is_name()
        &&& self.children[1].is_block()
    }
}

impl TreeNode {
    /// A node without children.
    pub fn leaf(node: Token) -> (r: TreeNode)
        ensures
            r@ == Tree::leaf(node@),
    {
        let r = TreeNode { node, sub_nodes: Vec::new() };
        assert(r@.children =~= Seq::empty());
        r
    }

    /// A node over the given children.
    pub fn branch(node: Token, sub_nodes: Vec<TreeNode>) -> (r: TreeNode)
        ensures
            r@ == (Tree { node: node@, children: views(sub_nodes@) }),
    {
        TreeNode { node, sub_nodes }
    }

    /// A node over one child.
    pub fn unary(node: Token, operand: TreeNode) -> (r: TreeNode)
        ensures
            r@ == (Tree { node: node@, children: seq![operand@] }),
    {
        let mut sub_nodes: Vec<TreeNode> = Vec::new();
        sub_nodes.push(operand);
        proof {
            lemma_views(sub_nodes@);
        }
        assert(views(sub_nodes@) =~= seq![operand@]);
        TreeNode::branch(node, sub_nodes)
    }

    /// A node over two children.
    pub fn binary(node: Token, left: TreeNode, right: TreeNode) -> (r: TreeNode)
        ensures
            r@ == (Tree { node: node@, children: seq![left@, right@] }),
    {
        let mut sub_nodes: Vec<TreeNode> = Vec::new();
        sub_nodes.push(left);
        sub_nodes.push(right);
        proof {
            lemma_views(sub_nodes@);
        }
        assert(views(sub_nodes@) =~= seq![left@, right@]);
        TreeNode::branch(node, sub_nodes)
    }

    /// Whether the node is an expression, in the sense of
    /// [`Tree::is_expression`].
    pub fn is_expression(&self) -> (r: bool)
        ensures
            r == self@.is_expression(),
        decreases self,
    {
        proof {
            lemma_views(self.sub_nodes@);
        }
        let n = self.sub_nodes.len();
        match &self.node {
            Token::INTEGER_CONST(_) | Token::REAL_CONST(_) | Token::ID(_) => n == 0,
            Token::UNARY(c) => {
                (*c == '+' || *c == '-') && n == 1 && self.sub_nodes[0].is_expression()
            },
            Token::OP1(c) => {
                (*c == '+' || *c == '-') && n == 2 && self.sub_nodes[0].is_expression()
                    && self.sub_nodes[1].is_expression()
            },
            Token::OP2(c) => {
                (*c == '*' || *c == '/') && n == 2 && self.sub_nodes[0].is_expression()
                    && self.sub_nodes[1].is_expression()
            },
            Token::KEYWORD(Keyword::Div) => {
                n == 2 && self.sub_nodes[0].is_expression() && self.sub_nodes[1].is_expression()
            },
            _ => false,
        }
    }

    /// Whether the node is an identifier leaf.
    pub fn is_name(&self) -> (r: bool)
        ensures
            r == self@.is_name(),
    {
        proof {
            lemma_views(self.sub_nodes@);
        }
        match &self.node {
            Token::ID(_) => self.sub_nodes.len() == 0,
            _ => false,
        }
    }

    /// Whether the node is a statement, in the sense of
    /// [`Tree::is_statement`].
    pub fn is_statement(&self) -> (r: bool)
        ensures
            r == self@.is_statement(),
        decreases self,
    {
        proof {
            lemma_views(self.sub_nodes@);
        }
        let n = self.sub_nodes.len();
        match &self.node {
            Token::ASSIGN => {
                n == 2 && self.sub_nodes[0].is_name() && self.sub_nodes[1].is_expression()
            },
            Token::ASTNode(NodeKind::Empty) => n == 0,
            Token::ASTNode(NodeKind::Comp) => {
                if n == 0 {
                    return false;
                }
                let mut i: usize = 0;
                while i < n
                    invariant
                        i <= n,
                        n == self.sub_nodes.len(),
                        self@.children.len() == n,
                        forall|k: int|
                            0 <= k < n ==> (#[trigger] self@.children[k]) == self.sub_nodes[k]@,
                        forall|k: int| 0 <= k < i ==> (#[trigger] self@.children[k]).is_statement(),
                        self@.node == TokenView::ASTNode(NodeKind::Comp),
                    decreases n - i,
                {
                    if !self.sub_nodes[i].is_statement() {
                        assert(!self@.children[i as int].is_statement());
                        return false;
                    }
                    i += 1;
                }
                true
            },
            _ => false,
        }
    }

    /// Whether the node declares one variable, in the sense of
    /// [`Tree::is_declaration`].
    pub fn is_declaration(&self) -> (r: bool)
        ensures
            r == self@.is_declaration(),
    {
        proof {
            lemma_views(self.sub_nodes@);
        }
        let tagged = match &self.node {
            Token::ASTNode(NodeKind::VarDec) => true,
            _ => false,
        };
        if !tagged || self.sub_nodes.len() != 2 {
            return false;
        }
        let type_spec = &self.sub_nodes[1];
        proof {
            lemma_views(type_spec.sub_nodes@);
        }
        let typed = match &type_spec.node {
            Token::KEYWORD(Keyword::Integer) => true,
            Token::KEYWORD(Keyword::Real) => true,
            _ => false,
        };
        self.sub_nodes[0].is_name() && type_spec.sub_nodes.len() == 0 && typed
    }

    /// Whether the node is a block, in the sense of [`Tree::is_block`].
    pub fn is_block(&self) -> (r: bool)
        ensures
            r == self@.is_block(),
    {
        proof {
            lemma_views(self.sub_nodes@);
        }
        let tagged = match &self.node {
            Token::ASTNode(NodeKind::Block) => true,
            _ => false,
        };
        let n = self.sub_nodes.len();
        if !tagged || n == 0 {
            return false;
        }
        let body = &self.sub_nodes[n - 1];
        let compound = match &body.node {
            Token::ASTNode(NodeKind::Comp) => true,
            _ => false,
        };
        assert(self@.children.last() == body@);
        if !compound || !body.is_statement() {
            return false;
        }
        let mut i: usize = 0;
        while i < n - 1
            invariant
                i <= n - 1,
                n == self.sub_nodes.len(),
                self@.children.len() == n,
                forall|k: int| 0 <= k < n ==> (#[trigger] self@.children[k]) == self.sub_nodes[k]@,
                forall|k: int| 0 <= k < i ==> (#[trigger] self@.children[k]).is_declaration(),
            decreases n - 1 - i,
        {
            if !self.sub_nodes[i].is_declaration() {
                assert(!self@.children[i as int].is_declaration());
                return false;
            }
            i += 1;
        }
        true
    }

    /// Whether the node is a whole program, in the sense of
    /// [`Tree::is_program`]. The evaluator runs such trees only.
    pub fn is_program(&self) -> (r: bool)
        ensures
            r == self@.is_program(),
    {
        proof {
            lemma_views(self.sub_nodes@);
        }
        let tagged = match &self.node {
            Token::ASTNode(NodeKind::Program) => true,
            _ => false,
        };
        tagged && self.sub_nodes.len() == 2 && self.sub_nodes[0].is_name()
            && self.sub_nodes[1].is_block()
    }
}

} // verus!
