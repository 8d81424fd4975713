//! What name resolution means, as mathematics: the state of a pass and the
//! state that each syntactic construct leads to.

use crate::ast::{Arg, Expr, ExprKind, Function, Item, ItemKind, Module, NodeId};
use crate::name_resolve::AstResolutionErr;
use crate::symbol::{StackView, SymbolKind};
use vstd::prelude::*;

verus! {

/// The state of a pass: the scope stack with its table, and the errors found
/// so far, in the order in which they were found.
pub struct PassView {
    pub stack: StackView,
    pub errs: Seq<AstResolutionErr>,
}

impl PassView {
    pub open spec fn empty() -> PassView {
        PassView { stack: StackView::empty(), errs: Seq::empty() }
    }

    pub open spec fn wf(self) -> bool {
        self.stack.wf()
    }

    pub open spec fn push_scope(self) -> PassView {
        PassView { stack: self.stack.push_scope(), errs: self.errs }
    }

    pub open spec fn pop_scope(self) -> PassView {
        PassView { stack: self.stack.pop_scope(), errs: self.errs }
    }

    /// The state after a declaration of `name` at node `nid`: a new symbol in
    /// the current scope, or, where that scope has the name already, one more
    /// error and nothing else.
    pub open spec fn declare(self, nid: NodeId, name: Seq<char>, kind: SymbolKind) -> PassView {
        if self.stack.conflicts(name) {
            let prior = self.stack.scopes.last()[name];
            PassView {
                stack: self.stack,
                errs: self.errs.push(
                    AstResolutionErr::Redefinition {
                        nid,
                        prior: self.stack.table.symbols[prior as int].decl,
                    },
                ),
            }
        } else {
            PassView { stack: self.stack.declare(nid, name, kind), errs: self.errs }
        }
    }

    /// The state after a use of `name` at node `nid`: the node bound to the
    /// symbol that the name denotes, or, where it denotes none, one more
    /// error and nothing else.
    pub open spec fn refer(self, nid: NodeId, name: Seq<char>) -> PassView {
        match self.stack.lookup(name) {
            Some(sid) => PassView { stack: self.stack.bind(nid, sid), errs: self.errs },
            None => PassView {
                stack: self.stack,
                errs: self.errs.push(AstResolutionErr::Unresolved { nid }),
            },
        }
    }
}

/// The state after `expr` is resolved in state `st`.
pub open spec fn resolve_expr_spec(st: PassView, expr: Expr) -> PassView
    decreases expr,
{
    match *expr.kind {
        ExprKind::Block(body) => resolve_exprs_spec(st.push_scope(), body@).pop_scope(),
        ExprKind::Decl(decl) => resolve_expr_spec(st, decl.value).declare(
            expr.nid,
            decl.bound@,
            SymbolKind::Local,
        ),
        ExprKind::Let { bound, let_body } => resolve_expr_spec(
            resolve_exprs_spec(st.push_scope(), bound@),
            let_body,
        ).pop_scope(),
        ExprKind::Var(name) => st.refer(expr.nid, name@),
        ExprKind::Call { callee, args } => resolve_expr_spec(
            resolve_exprs_spec(st, args@),
            callee,
        ),
        ExprKind::Binary { lhs, rhs, op } => resolve_expr_spec(resolve_expr_spec(st, lhs), rhs),
        ExprKind::If { cond, if_body, else_body } => resolve_expr_spec(
            resolve_expr_spec(resolve_expr_spec(st, cond), if_body),
            else_body,
        ),
        ExprKind::While { cond, while_body } => resolve_expr_spec(
            resolve_expr_spec(st, cond),
            while_body,
        ),
        ExprKind::Lit(_) => st,
    }
}

/// The state after the expressions `exprs` are resolved in state `st`, one
/// after the other.
pub open spec fn resolve_exprs_spec(st: PassView, exprs: Seq<Expr>) -> PassView
    decreases exprs,
{
    if exprs.len() == 0 {
        st
    } else {
        resolve_expr_spec(resolve_exprs_spec(st, exprs.drop_last()), exprs.last())
    }
}

/// The state after the names `decls`, each with the node that declares it,
/// are declared in state `st` as symbols of kind `kind`, in order.
pub open spec fn declare_all_spec(
    st: PassView,
    decls: Seq<(NodeId, Seq<char>)>,
    kind: SymbolKind,
) -> PassView
    decreases decls.len(),
{
    if decls.len() == 0 {
        st
    } else {
        declare_all_spec(st, decls.drop_last(), kind).declare(
            decls.last().0,
            decls.last().1,
            kind,
        )
    }
}

/// The parameters `args` as declarations: node and name of each.
pub open spec fn arg_decls(args: Seq<Arg>) -> Seq<(NodeId, Seq<char>)> {
    Seq::new(args.len(), |i: int| (args[i].nid, args[i].name@))
}

/// The state after the parameters `args` are declared in state `st`, from
/// left to right.
pub open spec fn declare_args_spec(st: PassView, args: Seq<Arg>) -> PassView {
    declare_all_spec(st, arg_decls(args), SymbolKind::Local)
}

/// The state after the function `func` is resolved in state `st`: its
/// parameters are declared in a scope of their own, in which the body is
/// resolved.
pub open spec fn resolve_func_spec(st: PassView, func: Function) -> PassView {
    resolve_expr_spec(declare_args_spec(st.push_scope(), func.proto.args@), func.body).pop_scope()
}

/// The name that a top-level item declares.
pub open spec fn item_name(item: Item) -> Seq<char> {
    match item.kind {
        ItemKind::Func(func) => func.proto.name@,
        ItemKind::Extern(proto) => proto.name@,
    }
}

/// The top-level items `items` as declarations: node and name of each.
pub open spec fn item_decls(items: Seq<Item>) -> Seq<(NodeId, Seq<char>)> {
    Seq::new(items.len(), |i: int| (items[i].nid, item_name(items[i])))
}

/// The state after the names of the top-level items `items` are declared in
/// state `st`, in source order.
pub open spec fn declare_items_spec(st: PassView, items: Seq<Item>) -> PassView {
    declare_all_spec(st, item_decls(items), SymbolKind::Func)
}

/// The state after the bodies of the top-level items `items` are resolved in
/// state `st`, in source order. An item without a body changes nothing.
pub open spec fn resolve_items_spec(st: PassView, items: Seq<Item>) -> PassView
    decreases items.len(),
{
    if items.len() == 0 {
        st
    } else {
        let before = resolve_items_spec(st, items.drop_last());
        match items.last().kind {
            ItemKind::Func(func) => resolve_func_spec(before, func),
            ItemKind::Extern(_) => before,
        }
    }
}

/// The state after a whole module is resolved in state `st`: inside a root
/// scope, first every top-level name is declared, then every body is
/// resolved.
pub open spec fn resolve_module_spec(st: PassView, module: Module) -> PassView {
    resolve_items_spec(declare_items_spec(st.push_scope(), module.body@), module.body@).pop_scope()
}

} // verus!
