//! The expression tree that the parser builds and the code generator walks.

use vstd::prelude::*;

verus! {

/// The operation of a tree node.
#[derive(PartialEq, Eq, Debug)]
pub enum Astty {
    Num(usize),
    Id(String),
    Add,
    Sub,
    Mul,
    Div,
    Mod,
    Assign,
    Eof,
}

/// A node of the expression tree. It owns its children, left to right.
#[derive(PartialEq, Eq, Debug)]
pub struct Ast {
    pub ty: Astty,
    pub args: Vec<Box<Ast>>,
}

/// A program: one tree for each statement, in source order.
pub type Code = Vec<Box<Ast>>;

/// The mathematical value of an [`Astty`].
pub enum SpecAstty {
    Num(usize),
    Id(Seq<char>),
    Add,
    Sub,
    Mul,
    Div,
    Mod,
    Assign,
    Eof,
}

/// The mathematical value of an [`Ast`]: an operation and the sequence of the
/// children's values.
pub struct SpecAst {
    pub ty: SpecAstty,
    pub args: Seq<SpecAst>,
}

impl SpecAstty {
    /// The kinds that take no operand.
    pub open spec fn is_leaf(self) -> bool {
        self is Num || self is Id || self is Eof
    }

    /// The kinds that take a left and a right operand.
    pub open spec fn is_binary(self) -> bool {
        !self.is_leaf()
    }

    /// The five arithmetic operators.
    pub open spec fn is_arith(self) -> bool {
        self is Add || self is Sub || self is Mul || self is Div || self is Mod
    }
}

impl SpecAst {
    /// A node without children.
    pub open spec fn leaf(ty: SpecAstty) -> SpecAst {
        SpecAst { ty, args: Seq::empty() }
    }

    /// A node with a left and a right child.
    pub open spec fn binary(ty: SpecAstty, lhs: SpecAst, rhs: SpecAst) -> SpecAst {
        SpecAst { ty, args: seq![lhs, rhs] }
    }

    /// The shape every tree of the parser has: a leaf kind has no child, an
    /// operator has exactly two, and so down the tree.
    pub open spec fn well_formed(self) -> bool
        decreases self,
    {
        &&& self.ty.is_leaf() ==> self.args.len() == 0
        &&& self.ty.is_binary() ==> self.args.len() == 2
        &&& forall|i: int| 0 <= i < self.args.len() ==> (#[trigger] self.args[i]).well_formed()
    }
}

/// An arithmetic expression: numbers at the leaves, and the five operators
/// over two expressions each.
pub open spec fn is_expression(t: SpecAst) -> bool
    decreases t,
{
    if t.ty is Num {
        t.args.len() == 0
    } else {
        &&& t.ty.is_arith()
        &&& t.args.len() == 2
        &&& is_expression(t.args[0])
        &&& is_expression(t.args[1])
    }
}

/// The tree of a statement: an expression, or an assignment of a statement
/// tree to an expression.
pub open spec fn is_statement(t: SpecAst) -> bool
    decreases t,
{
    ||| is_expression(t)
    ||| {
        &&& t.ty is Assign
        &&& t.args.len() == 2
        &&& is_expression(t.args[0])
        &&& is_statement(t.args[1])
    }
}

/// Expressions are well formed.
pub proof fn lemma_expression_well_formed(t: SpecAst)
    requires
        is_expression(t),
    ensures
        t.well_formed(),
    decreases t,
{
    if !(t.ty is Num) {
        lemma_expression_well_formed(t.args[0]);
        lemma_expression_well_formed(t.args[1]);
    }
}

/// Statement trees are well formed.
pub proof fn lemma_statement_well_formed(t: SpecAst)
    requires
        is_statement(t),
    ensures
        t.well_formed(),
    decreases t,
{
    if is_expression(t) {
        lemma_expression_well_formed(t);
    } else {
        lemma_expression_well_formed(t.args[0]);
        lemma_statement_well_formed(t.args[1]);
    }
}

impl View for Astty {
    type V = SpecAstty;

    open spec fn view(&self) -> SpecAstty {
        match self {
            Astty::Num(n) => SpecAstty::Num(*n),
            Astty::Id(s) => SpecAstty::Id(s@),
            Astty::Add => SpecAstty::Add,
            Astty::Sub => SpecAstty::Sub,
            Astty::Mul => SpecAstty::Mul,
            Astty::Div => SpecAstty::Div,
            Astty::Mod => SpecAstty::Mod,
            Astty::Assign => SpecAstty::Assign,
            Astty::Eof => SpecAstty::Eof,
        }
    }
}

/// The value of a tree, node by node.
pub open spec fn ast_value(ast: Ast) -> SpecAst
    decreases ast,
{
    SpecAst {
        ty: ast.ty@,
        args: Seq::new(
            ast.args@.len(),
            |i: int|
                if 0 <= i < ast.args@.len() {
                    ast_value(*ast.args@[i])
                } else {
                    arbitrary()
                },
        ),
    }
}

impl View for Ast {
    type V = SpecAst;

    open spec fn view(&self) -> SpecAst {
        ast_value(*self)
    }
}

/// The values of the trees of a program, in order.
pub open spec fn code_values(code: Seq<Box<Ast>>) -> Seq<SpecAst> {
    Seq::new(code.len(), |i: int| code[i]@)
}

impl Ast {
    /// A node of kind `ty` without children.
    pub fn new0(ty: Astty) -> (node: Ast)
        ensures
            node@ == SpecAst::leaf(ty@),
    {
        let node = Ast { ty: ty, args: Vec::new() };
        assert(node@.args =~= Seq::empty());
        node
    }

    /// A node of kind `ty` over `arg1`, its left child, and `arg2`, its right
    /// child.
    pub fn new2(ty: Astty, arg1: Ast, arg2: Ast) -> (node: Ast)
        ensures
            node@ == SpecAst::binary(ty@, arg1@, arg2@),
    {
        let mut args: Vec<Box<Ast>> = Vec::new();
        args.push(Box::new(arg1));
        args.push(Box::new(arg2));
        let node = Ast { ty: ty, args: args };
        assert(node@.args =~= seq![arg1@, arg2@]);
        node
    }
}

} // verus!
