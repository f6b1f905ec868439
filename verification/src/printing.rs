//! From a tree back to tokens: the token sequence that a program is written
//! with, apart from layout, comments and needless parentheses.
//!
//! The `render_` functions are the specification; [`tokens_of`] and the
//! `write_` functions compute what they say.

use crate::grammar::joins_factors;
use crate::lexis::TokenStream;
use crate::token::{token_views, Keyword, NodeKind, Token, TokenView};
use crate::tree::{lemma_views, Tree, TreeNode};
use vstd::prelude::*;

verus! {

/// The stream that holds exactly the given tokens, with no error behind them.
pub open spec fn stream_of(tokens: Seq<TokenView>) -> TokenStream {
    TokenStream { tokens, error: None }
}

/// Whether a tree is the sum or difference of two operands.
pub open spec fn is_sum(tree: Tree) -> bool {
    tree.node is OP1 && tree.children.len() == 2
}

/// Whether a tree is the product or a quotient of two operands.
pub open spec fn is_product(tree: Tree) -> bool {
    joins_factors(tree.node) && tree.children.len() == 2
}

/// The operands of a sum with the operator between them.
pub open spec fn render_sum(tree: Tree) -> Seq<TokenView>
    decreases tree, 0nat,
{
    if tree.children.len() == 2 {
        render_expr(tree.children[0]) + seq![tree.node] + render_term(tree.children[1])
    } else {
        Seq::empty()
    }
}

/// The operands of a product with the operator between them.
pub open spec fn render_product(tree: Tree) -> Seq<TokenView>
    decreases tree, 0nat,
{
    if tree.children.len() == 2 {
        render_term(tree.children[0]) + seq![tree.node] + render_factor(tree.children[1])
    } else {
        Seq::empty()
    }
}

/// An expression where the grammar wants a factor: a literal or a name as it
/// is, a signed factor with its sign in front, anything else in parentheses.
pub open spec fn render_factor(tree: Tree) -> Seq<TokenView>
    decreases tree, 1nat,
{
    match tree.node {
        TokenView::UNARY(c) => if tree.children.len() == 1 {
            seq![TokenView::OP1(c)] + render_factor(tree.children[0])
        } else {
            Seq::empty()
        },
        _ => if is_sum(tree) {
            seq![TokenView::LP] + render_sum(tree) + seq![TokenView::RP]
        } else if is_product(tree) {
            seq![TokenView::LP] + render_product(tree) + seq![TokenView::RP]
        } else {
            seq![tree.node]
        },
    }
}

/// An expression where the grammar wants a term: a product as it is,
/// anything else as a factor.
pub open spec fn render_term(tree: Tree) -> Seq<TokenView>
    decreases tree, 2nat,
{
    if is_product(tree) {
        render_product(tree)
    } else {
        render_factor(tree)
    }
}

/// An expression: a sum as it is, anything else as a term.
pub open spec fn render_expr(tree: Tree) -> Seq<TokenView>
    decreases tree, 3nat,
{
    if is_sum(tree) {
        render_sum(tree)
    } else {
        render_term(tree)
    }
}

/// A statement: an assignment as target, `:=` and expression; an empty
/// statement as nothing; a compound statement between `BEGIN` and `END`.
pub open spec fn render_statement(tree: Tree) -> Seq<TokenView>
    decreases tree, tree.children.len() + 2,
{
    match tree.node {
        TokenView::ASSIGN => if tree.children.len() == 2 {
            seq![tree.children[0].node, TokenView::ASSIGN] + render_expr(tree.children[1])
        } else {
            Seq::empty()
        },
        TokenView::ASTNode(NodeKind::Comp) => seq![TokenView::KEYWORD(Keyword::Begin)]
            + render_statements(tree, 0) + seq![TokenView::KEYWORD(Keyword::End)],
        _ => Seq::empty(),
    }
}

/// The statements of a compound statement from the `i`-th on, with a `;`
/// between each two.
pub open spec fn render_statements(compound: Tree, i: nat) -> Seq<TokenView>
    decreases compound, 1 + compound.children.len() - i,
{
    if i >= compound.children.len() {
        Seq::empty()
    } else if i + 1 == compound.children.len() {
        render_statement(compound.children[i as int])
    } else {
        render_statement(compound.children[i as int]) + seq![TokenView::SEMI] + render_statements(
            compound,
            i + 1,
        )
    }
}

/// A declaration, on a line of its own: name, `:`, type and `;`.
pub open spec fn render_declaration(tree: Tree) -> Seq<TokenView> {
    seq![tree.children[0].node, TokenView::COLON, tree.children[1].node, TokenView::SEMI]
}

/// The declarations of a block from the `i`-th on.
pub open spec fn render_declarations(block: Tree, i: nat) -> Seq<TokenView>
    decreases block.children.len() - i,
{
    if i + 1 >= block.children.len() {
        Seq::empty()
    } else {
        render_declaration(block.children[i as int]) + render_declarations(block, i + 1)
    }
}

/// A block: `VAR` and the declarations, if there are any, then the compound
/// statement.
pub open spec fn render_block(block: Tree) -> Seq<TokenView> {
    if block.children.len() == 0 {
        Seq::empty()
    } else if block.children.len() == 1 {
        render_statement(block.children[0])
    } else {
        seq![TokenView::KEYWORD(Keyword::Var)] + render_declarations(block, 0) + render_statement(
            block.children.last(),
        )
    }
}

/// A program: `PROGRAM`, the name, `;`, the block and the final `.`.
pub open spec fn render_program(program: Tree) -> Seq<TokenView> {
    seq![TokenView::KEYWORD(Keyword::Program), program.children[0].node, TokenView::SEMI]
        + render_block(program.children[1]) + seq![TokenView::DOT]
}

/// The postfix form of a tree: what its children spell, from left to right,
/// and then its own tag. For an expression this is reverse Polish notation.
pub open spec fn postfix(tree: Tree) -> Seq<TokenView>
    decreases tree, tree.children.len() + 1,
{
    postfix_from(tree, 0) + seq![tree.node]
}

/// The postfix forms of the children of a tree from the `i`-th on, joined.
pub open spec fn postfix_from(tree: Tree, i: nat) -> Seq<TokenView>
    decreases tree, tree.children.len() - i,
{
    if i >= tree.children.len() {
        Seq::empty()
    } else {
        postfix(tree.children[i as int]) + postfix_from(tree, i + 1)
    }
}

/// Appends one token.
pub fn put(out: &mut Vec<Token>, token: Token)
    ensures
        token_views(final(out)@) == token_views(old(out)@) + seq![token@],
{
    out.push(token);
    assert(token_views(out@) =~= token_views(old(out)@) + seq![token@]);
}

/// Appends the operands of a sum with the operator between them.
pub fn write_sum(tree: &TreeNode, out: &mut Vec<Token>)
    requires
        tree@.is_expression(),
        is_sum(tree@),
    ensures
        token_views(final(out)@) == token_views(old(out)@) + render_sum(tree@),
    decreases tree, 0nat,
{
    proof {
        lemma_views(tree.sub_nodes@);
    }
    let ghost before = token_views(out@);
    let ghost left = render_expr(tree@.children[0]);
    let ghost right = render_term(tree@.children[1]);
    write_expr(&tree.sub_nodes[0], out);
    put(out, tree.node.clone());
    write_term(&tree.sub_nodes[1], out);
    assert(render_sum(tree@) == left + seq![tree@.node] + right);
    assert(((before + left) + seq![tree@.node]) + right =~= before + (left + seq![tree@.node]
        + right));
}

/// Appends the operands of a product with the operator between them.
pub fn write_product(tree: &TreeNode, out: &mut Vec<Token>)
    requires
        tree@.is_expression(),
        is_product(tree@),
    ensures
        token_views(final(out)@) == token_views(old(out)@) + render_product(tree@),
    decreases tree, 0nat,
{
    proof {
        lemma_views(tree.sub_nodes@);
    }
    let ghost before = token_views(out@);
    let ghost left = render_term(tree@.children[0]);
    let ghost right = render_factor(tree@.children[1]);
    write_term(&tree.sub_nodes[0], out);
    put(out, tree.node.clone());
    write_factor(&tree.sub_nodes[1], out);
    assert(render_product(tree@) == left + seq![tree@.node] + right);
    assert(((before + left) + seq![tree@.node]) + right =~= before + (left + seq![tree@.node]
        + right));
}

/// Appends an expression where the grammar wants a factor.
pub fn write_factor(tree: &TreeNode, out: &mut Vec<Token>)
    requires
        tree@.is_expression(),
    ensures
        token_views(final(out)@) == token_views(old(out)@) + render_factor(tree@),
    decreases tree, 1nat,
{
    proof {
        lemma_views(tree.sub_nodes@);
    }
    let ghost before = token_views(out@);
    match &tree.node {
        Token::UNARY(c) => {
            let ghost operand = render_factor(tree@.children[0]);
            put(out, Token::OP1(*c));
            write_factor(&tree.sub_nodes[0], out);
            assert(render_factor(tree@) == seq![TokenView::OP1(*c)] + operand);
            assert((before + seq![TokenView::OP1(*c)]) + operand =~= before + (seq![
                TokenView::OP1(*c),
            ] + operand));
        },
        Token::OP1(_) => {
            let ghost inner = render_sum(tree@);
            put(out, Token::LP);
            write_sum(tree, out);
            put(out, Token::RP);
            assert(render_factor(tree@) == seq![TokenView::LP] + inner + seq![TokenView::RP]);
            assert(((before + seq![TokenView::LP]) + inner) + seq![TokenView::RP] =~= before + (
            seq![TokenView::LP] + inner + seq![TokenView::RP]));
        },
        Token::OP2(_) | Token::KEYWORD(_) => {
            let ghost inner = render_product(tree@);
            put(out, Token::LP);
            write_product(tree, out);
            put(out, Token::RP);
            assert(render_factor(tree@) == seq![TokenView::LP] + inner + seq![TokenView::RP]);
            assert(((before + seq![TokenView::LP]) + inner) + seq![TokenView::RP] =~= before + (
            seq![TokenView::LP] + inner + seq![TokenView::RP]));
        },
        _ => {
            put(out, tree.node.clone());
            assert(render_factor(tree@) == seq![tree@.node]);
        },
    }
}

/// Appends an expression where the grammar wants a term.
pub fn write_term(tree: &TreeNode, out: &mut Vec<Token>)
    requires
        tree@.is_expression(),
    ensures
        token_views(final(out)@) == token_views(old(out)@) + render_term(tree@),
    decreases tree, 2nat,
{
    proof {
        lemma_views(tree.sub_nodes@);
    }
    let product = match &tree.node {
        Token::OP2(_) => true,
        Token::KEYWORD(_) => true,
        _ => false,
    };
    if product {
        write_product(tree, out);
    } else {
        write_factor(tree, out);
    }
}

/// Appends an expression.
pub fn write_expr(tree: &TreeNode, out: &mut Vec<Token>)
    requires
        tree@.is_expression(),
    ensures
        token_views(final(out)@) == token_views(old(out)@) + render_expr(tree@),
    decreases tree, 3nat,
{
    proof {
        lemma_views(tree.sub_nodes@);
    }
    let sum = match &tree.node {
        Token::OP1(_) => true,
        _ => false,
    };
    if sum {
        write_sum(tree, out);
    } else {
        write_term(tree, out);
    }
}

/// Appends a statement.
pub fn write_statement(tree: &TreeNode, out: &mut Vec<Token>)
    requires
        tree@.is_statement(),
    ensures
        token_views(final(out)@) == token_views(old(out)@) + render_statement(tree@),
    decreases tree,
{
    proof {
        lemma_views(tree.sub_nodes@);
    }
    let ghost before = token_views(out@);
    match &tree.node {
        Token::ASSIGN => {
            let ghost target = tree@.children[0].node;
            let ghost value = render_expr(tree@.children[1]);
            put(out, tree.sub_nodes[0].node.clone());
            put(out, Token::ASSIGN);
            write_expr(&tree.sub_nodes[1], out);
            assert(render_statement(tree@) == seq![target, TokenView::ASSIGN] + value);
            assert(((before + seq![target]) + seq![TokenView::ASSIGN]) + value =~= before + (seq![
                target,
                TokenView::ASSIGN,
            ] + value));
        },
        Token::ASTNode(NodeKind::Comp) => {
            put(out, Token::KEYWORD(Keyword::Begin));
            let n = tree.sub_nodes.len();
            let ghost begin = seq![TokenView::KEYWORD(Keyword::Begin)];
            let mut k: usize = 0;
            while k < n
                invariant
                    k <= n,
                    n == tree.sub_nodes.len(),
                    n >= 1,
                    tree@.is_statement(),
                    tree@.node == TokenView::ASTNode(NodeKind::Comp),
                    tree@.children.len() == n,
                    forall|j: int|
                        0 <= j < n ==> (#[trigger] tree@.children[j]) == tree.sub_nodes[j]@,
                    token_views(out@) + render_statements(tree@, k as nat) == before + begin
                        + render_statements(tree@, 0),
                decreases n - k,
            {
                let ghost so_far = token_views(out@);
                let ghost mine = render_statement(tree@.children[k as int]);
                let ghost later = render_statements(tree@, (k + 1) as nat);
                assert(tree@.children[k as int].is_statement());
                write_statement(&tree.sub_nodes[k], out);
                if k + 1 < n {
                    put(out, Token::SEMI);
                    assert(render_statements(tree@, k as nat) == mine + seq![TokenView::SEMI]
                        + later);
                    assert(((so_far + mine) + seq![TokenView::SEMI]) + later =~= so_far + (mine
                        + seq![TokenView::SEMI] + later));
                } else {
                    assert(render_statements(tree@, k as nat) == mine);
                    assert(later == Seq::<TokenView>::empty());
                    assert((so_far + mine) + later =~= so_far + mine);
                }
                k += 1;
            }
            put(out, Token::KEYWORD(Keyword::End));
            assert(render_statements(tree@, n as nat) == Seq::<TokenView>::empty());
            assert(render_statement(tree@) == begin + render_statements(tree@, 0) + seq![
                TokenView::KEYWORD(Keyword::End),
            ]);
            assert(token_views(out@) =~= before + (begin + render_statements(tree@, 0) + seq![
                TokenView::KEYWORD(Keyword::End),
            ])) by {
                let inner = render_statements(tree@, 0);
                let end = seq![TokenView::KEYWORD(Keyword::End)];
                assert((before + begin + inner) + Seq::<TokenView>::empty() =~= before + begin
                    + inner);
                assert((before + begin + inner) + end =~= before + (begin + inner + end));
            }
        },
        _ => {
            assert(render_statement(tree@) == Seq::<TokenView>::empty());
            assert(before + Seq::<TokenView>::empty() =~= before);
        },
    }
}

/// Appends a block.
pub fn write_block(tree: &TreeNode, out: &mut Vec<Token>)
    requires
        tree@.is_block(),
    ensures
        token_views(final(out)@) == token_views(old(out)@) + render_block(tree@),
{
    proof {
        lemma_views(tree.sub_nodes@);
    }
    let ghost before = token_views(out@);
    let n = tree.sub_nodes.len();
    let ghost var = seq![TokenView::KEYWORD(Keyword::Var)];
    assert(tree@.children.last() == tree.sub_nodes[n - 1]@);
    if n > 1 {
        put(out, Token::KEYWORD(Keyword::Var));
        let mut k: usize = 0;
        while k < n - 1
            invariant
                k <= n - 1,
                n == tree.sub_nodes.len(),
                tree@.is_block(),
                tree@.children.len() == n,
                forall|j: int| 0 <= j < n ==> (#[trigger] tree@.children[j]) == tree.sub_nodes[j]@,
                token_views(out@) + render_declarations(tree@, k as nat) == before + var
                    + render_declarations(tree@, 0),
            decreases n - 1 - k,
        {
            let node = &tree.sub_nodes[k];
            let ghost so_far = token_views(out@);
            let ghost later = render_declarations(tree@, (k + 1) as nat);
            assert(tree@.children[k as int].is_declaration());
            proof {
                lemma_views(node.sub_nodes@);
            }
            let ghost name = node@.children[0].node;
            let ghost type_spec = node@.children[1].node;
            put(out, node.sub_nodes[0].node.clone());
            put(out, Token::COLON);
            put(out, node.sub_nodes[1].node.clone());
            put(out, Token::SEMI);
            assert(render_declarations(tree@, k as nat) == render_declaration(node@) + later);
            assert(((((so_far + seq![name]) + seq![TokenView::COLON]) + seq![type_spec]) + seq![
                TokenView::SEMI,
            ]) + later =~= so_far + (render_declaration(node@) + later));
            k += 1;
        }
        assert(render_declarations(tree@, (n - 1) as nat) == Seq::<TokenView>::empty());
        assert(token_views(out@) =~= before + var + render_declarations(tree@, 0)) by {
            assert((before + var + render_declarations(tree@, 0)) + Seq::<TokenView>::empty()
                =~= before + var + render_declarations(tree@, 0));
        }
    }
    let ghost so_far = token_views(out@);
    let ghost body = render_statement(tree@.children.last());
    write_statement(&tree.sub_nodes[n - 1], out);
    proof {
        if n > 1 {
            assert((before + var + render_declarations(tree@, 0)) + body =~= before + (var
                + render_declarations(tree@, 0) + body));
        }
    }
}

/// The tokens that a program is written with, in order.
pub fn tokens_of(program: &TreeNode) -> (r: Vec<Token>)
    requires
        program@.is_program(),
    ensures
        token_views(r@) == render_program(program@),
{
    proof {
        lemma_views(program.sub_nodes@);
    }
    let mut out: Vec<Token> = Vec::new();
    let ghost name = program@.children[0].node;
    let ghost body = render_block(program@.children[1]);
    assert(token_views(out@) =~= Seq::<TokenView>::empty());
    put(&mut out, Token::KEYWORD(Keyword::Program));
    put(&mut out, program.sub_nodes[0].node.clone());
    put(&mut out, Token::SEMI);
    write_block(&program.sub_nodes[1], &mut out);
    put(&mut out, Token::DOT);
    assert(token_views(out@) =~= seq![TokenView::KEYWORD(Keyword::Program), name, TokenView::SEMI]
        + body + seq![TokenView::DOT]);
    out
}

impl TreeNode {
    /// The postfix form of the tree, as tokens.
    pub fn post_t(&self) -> (r: Vec<Token>)
        ensures
            token_views(r@) == postfix(self@),
    {
        let mut ret: Vec<Token> = Vec::new();
        assert(token_views(ret@) =~= Seq::<TokenView>::empty());
        TreeNode::post_r(self, &mut ret);
        assert(Seq::<TokenView>::empty() + postfix(self@) =~= postfix(self@));
        ret
    }

    /// Appends the postfix form of a tree.
    pub fn post_r(root: &TreeNode, ret: &mut Vec<Token>)
        ensures
            token_views(final(ret)@) == token_views(old(ret)@) + postfix(root@),
        decreases root,
    {
        proof {
            lemma_views(root.sub_nodes@);
        }
        let ghost before = token_views(ret@);
        let n = root.sub_nodes.len();
        let mut i: usize = 0;
        assert(before + postfix_from(root@, 0) =~= before + postfix_from(root@, 0));
        while i < n
            invariant
                i <= n,
                n == root.sub_nodes.len(),
                root@.children.len() == n,
                forall|k: int| 0 <= k < n ==> (#[trigger] root@.children[k]) == root.sub_nodes[k]@,
                token_views(ret@) + postfix_from(root@, i as nat) == before + postfix_from(
                    root@,
                    0,
                ),
            decreases n - i,
        {
            let ghost so_far = token_views(ret@);
            let ghost mine = postfix(root@.children[i as int]);
            let ghost later = postfix_from(root@, (i + 1) as nat);
            assert(postfix_from(root@, i as nat) == mine + later);
            TreeNode::post_r(&root.sub_nodes[i], ret);
            assert((so_far + mine) + later =~= so_far + (mine + later));
            i += 1;
        }
        let ghost children = postfix_from(root@, 0);
        assert(postfix_from(root@, n as nat) == Seq::<TokenView>::empty());
        assert(token_views(ret@) =~= before + children) by {
            assert((before + children) + Seq::<TokenView>::empty() =~= before + children);
        }
        put(ret, root.node.clone());
        assert((before + children) + seq![root@.node] =~= before + (children + seq![root@.node]));
    }
}

} // verus!
