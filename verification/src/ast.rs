//! The syntax tree that name resolution walks.

use vstd::prelude::*;

verus! {

/// Identity of a syntax node, assigned by the parser.
pub type NodeId = u64;

/// One textual occurrence of a name. Occurrences are compared by their text.
pub struct Ident {
    pub span: String,
}

/// A literal value. It names nothing.
pub enum Literal {
    Int(i64),
    Bool(bool),
}

/// Operator of a binary operation.
#[derive(Clone, Copy, PartialEq, Eq, Debug)]
pub enum BinOp {
    Add,
    Sub,
    Mul,
    Div,
    Lt,
    Eq,
}

/// The declaration `bound = value`.
pub struct VarDecl {
    pub bound: Ident,
    pub value: Expr,
}

/// An expression together with its node identity.
pub struct Expr {
    pub nid: NodeId,
    pub kind: Box<ExprKind>,
}

pub enum ExprKind {
    /// An ordered sequence of expressions with a scope of its own.
    Block(Vec<Expr>),
    /// A declaration of a local in the current scope.
    Decl(VarDecl),
    /// A group of bindings, resolved in order, and a body that sees them.
    Let { bound: Vec<Expr>, let_body: Expr },
    /// A use of a name.
    Var(Ident),
    Call { callee: Expr, args: Vec<Expr> },
    Binary { lhs: Expr, rhs: Expr, op: BinOp },
    If { cond: Expr, if_body: Expr, else_body: Expr },
    While { cond: Expr, while_body: Expr },
    Lit(Literal),
}

/// A function parameter.
pub struct Arg {
    pub nid: NodeId,
    pub name: Ident,
}

/// Name and parameters of a function.
pub struct Prototype {
    pub name: Ident,
    pub args: Vec<Arg>,
}

/// A function definition.
pub struct Function {
    pub proto: Prototype,
    pub body: Expr,
}

pub enum ItemKind {
    Func(Function),
    /// A function declared here and defined elsewhere: it has no body.
    Extern(Prototype),
}

/// A top-level item together with its node identity.
pub struct Item {
    pub nid: NodeId,
    pub kind: ItemKind,
}

/// A parsed module: its top-level items in source order.
pub struct Module {
    pub body: Vec<Item>,
}

impl View for Ident {
    type V = Seq<char>;

    /// The text of the name.
    open spec fn view(&self) -> Seq<char> {
        self.span@
    }
}

} // verus!
