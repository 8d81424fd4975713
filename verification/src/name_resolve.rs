//! The pass that resolves the names of a module.

use crate::ast::{Expr, ExprKind, Function, Ident, Item, ItemKind, Module, NodeId};
use crate::model::{
    arg_decls, declare_args_spec, declare_items_spec, item_decls, resolve_expr_spec,
    resolve_exprs_spec, resolve_func_spec, resolve_items_spec, resolve_module_spec, PassView,
};
use crate::symbol::{ModSymTable, ScopedSymbolStack, SymbolId, SymbolKind};
use vstd::prelude::*;

verus! {

/// An error found while resolving names.
#[derive(Clone, Copy, PartialEq, Eq, Debug, Structural)]
pub enum AstResolutionErr {
    /// The declaration at node `nid` names something that the same scope
    /// already declares, at node `prior`.
    Redefinition { nid: NodeId, prior: NodeId },
    /// The name used at node `nid` has no declaration in any enclosing scope.
    Unresolved { nid: NodeId },
}

/// Walks a module and binds every declaration and every use of a name to its
/// symbol, collecting the errors it meets on the way.
pub struct AstNameResolver {
    scopes: ScopedSymbolStack,
    errs: Vec<AstResolutionErr>,
}

impl View for AstNameResolver {
    type V = PassView;

    closed spec fn view(&self) -> PassView {
        PassView { stack: self.scopes@, errs: self.errs@ }
    }
}

impl Default for AstNameResolver {
    /// A resolver that has seen nothing: no scope, no symbol, no error.
    fn default() -> (resolver: AstNameResolver)
        ensures
            resolver@ == PassView::empty(),
            resolver@.wf(),
    {
        AstNameResolver { scopes: ScopedSymbolStack::new(), errs: Vec::new() }
    }
}

impl AstNameResolver {
    /// Opens a scope inside the current one.
    pub fn push_scope(&mut self)
        requires
            old(self)@.wf(),
        ensures
            final(self)@ == old(self)@.push_scope(),
            final(self)@.wf(),
    {
        self.scopes.push_scope();
    }

    /// Closes the current scope.
    pub fn pop_scope(&mut self)
        requires
            old(self)@.wf(),
            old(self)@.stack.scopes.len() > 0,
        ensures
            final(self)@ == old(self)@.pop_scope(),
            final(self)@.wf(),
    {
        self.scopes.pop_scope();
    }

    /// How many scopes are open.
    pub fn depth(&self) -> (n: usize)
        ensures
            n == self@.stack.scopes.len(),
    {
        self.scopes.depth()
    }

    /// The errors met so far, in the order in which they were met.
    pub fn errors(&self) -> (errs: &Vec<AstResolutionErr>)
        ensures
            errs@ == self@.errs,
    {
        &self.errs
    }

    /// The symbol that `span` denotes in the scopes that are open now.
    pub fn lookup(&self, span: &Ident) -> (found: Option<SymbolId>)
        ensures
            match found {
                Some(sid) => self@.stack.lookup(span@) == Some(sid as nat),
                None => self@.stack.lookup(span@).is_none(),
            },
    {
        self.scopes.lookup(span)
    }

    fn declare(&mut self, nid: NodeId, span: &Ident, kind: SymbolKind)
        requires
            old(self)@.wf(),
            old(self)@.stack.scopes.len() > 0,
        ensures
            final(self)@ == old(self)@.declare(nid, span@, kind),
            final(self)@.wf(),
            final(self)@.stack.scopes.len() == old(self)@.stack.scopes.len(),
    {
        proof {
            old(self)@.stack.lemma_declare_wf(nid, span@, kind);
        }
        let res = match kind {
            SymbolKind::Func => self.scopes.insert_func(nid, span),
            SymbolKind::Local => self.scopes.insert_local(nid, span),
        };
        if let Err(e) = res {
            if let Some(info) = self.scopes.symbol_info(e.prior) {
                self.errs.push(AstResolutionErr::Redefinition { nid, prior: info.decl });
            }
        }
    }
}

impl AstNameResolver {
    /// Resolves the expressions `exprs` one after the other.
    fn resolve_exprs(&mut self, exprs: &Vec<Expr>)
        requires
            old(self)@.wf(),
            old(self)@.stack.scopes.len() > 0,
        ensures
            final(self)@ == resolve_exprs_spec(old(self)@, exprs@),
            final(self)@.wf(),
            final(self)@.stack.scopes.len() == old(self)@.stack.scopes.len(),
        decreases exprs,
    {
        let mut i: usize = 0;
        while i < exprs.len()
            invariant
                i <= exprs.len(),
                self@ == resolve_exprs_spec(old(self)@, exprs@.take(i as int)),
                self@.wf(),
                self@.stack.scopes.len() == old(self)@.stack.scopes.len(),
                old(self)@.stack.scopes.len() > 0,
            decreases exprs.len() - i,
        {
            assert(exprs@.take(i + 1).drop_last() =~= exprs@.take(i as int));
            self.resolve_expr(&exprs[i]);
            i = i + 1;
        }
        assert(exprs@.take(i as int) =~= exprs@);
    }

    /// Resolves every name in `expr`: each use is bound to the symbol that
    /// its name denotes where it stands, each declaration adds a symbol to
    /// the scope it stands in, and blocks and binding groups open a scope of
    /// their own for their duration. Errors are collected and the walk goes
    /// on.
    pub fn resolve_expr(&mut self, expr: &Expr)
        requires
            old(self)@.wf(),
            old(self)@.stack.scopes.len() > 0,
        ensures
            final(self)@ == resolve_expr_spec(old(self)@, *expr),
            final(self)@.wf(),
            final(self)@.stack.scopes.len() == old(self)@.stack.scopes.len(),
        decreases expr,
    {
        match &*expr.kind {
            ExprKind::Block(body) => {
                self.push_scope();
                self.resolve_exprs(body);
                self.pop_scope();
            },
            ExprKind::Decl(decl) => {
                self.resolve_expr(&decl.value);
                self.declare(expr.nid, &decl.bound, SymbolKind::Local);
            },
            ExprKind::Let { bound, let_body } => {
                self.push_scope();
                self.resolve_exprs(bound);
                self.resolve_expr(let_body);
                self.pop_scope();
            },
            ExprKind::Var(name) => {
                proof {
                    self@.stack.lemma_lookup_declared(name@);
                }
                match self.scopes.lookup(name) {
                    Some(sid) => {
                        proof {
                            self@.stack.lemma_bind_wf(expr.nid, sid as nat);
                        }
                        self.scopes.insert_local_reuse(expr.nid, sid);
                    },
                    None => {
                        self.errs.push(AstResolutionErr::Unresolved { nid: expr.nid });
                    },
                }
            },
            ExprKind::Call { callee, args } => {
                self.resolve_exprs(args);
                self.resolve_expr(callee);
            },
            ExprKind::Binary { lhs, rhs, op: _ } => {
                self.resolve_expr(lhs);
                self.resolve_expr(rhs);
            },
            ExprKind::If { cond, if_body, else_body } => {
                self.resolve_expr(cond);
                self.resolve_expr(if_body);
                self.resolve_expr(else_body);
            },
            ExprKind::While { cond, while_body } => {
                self.resolve_expr(cond);
                self.resolve_expr(while_body);
            },
            ExprKind::Lit(_) => {},
        }
    }
}

impl AstNameResolver {
    /// Resolves one function: its parameters are declared, from left to
    /// right, in a scope of their own, and the body is resolved inside that
    /// scope. A parameter that repeats the name of an earlier one is an
    /// error.
    pub fn resolve_func_contents(&mut self, func: &Function)
        requires
            old(self)@.wf(),
        ensures
            final(self)@ == resolve_func_spec(old(self)@, *func),
            final(self)@.wf(),
            final(self)@.stack.scopes.len() == old(self)@.stack.scopes.len(),
    {
        self.push_scope();
        let ghost inner = self@;
        let args = &func.proto.args;
        let mut i: usize = 0;
        while i < args.len()
            invariant
                i <= args.len(),
                self@ == declare_args_spec(inner, args@.take(i as int)),
                self@.wf(),
                self@.stack.scopes.len() == inner.stack.scopes.len(),
                inner.stack.scopes.len() > 0,
            decreases args.len() - i,
        {
            assert(arg_decls(args@.take(i + 1)).drop_last() =~= arg_decls(
                args@.take(i as int),
            ));
            self.declare(args[i].nid, &args[i].name, SymbolKind::Local);
            i = i + 1;
        }
        assert(args@.take(i as int) =~= args@);
        self.resolve_expr(&func.body);
        self.pop_scope();
    }

    /// Declares the name of every top-level item in the current scope, in
    /// source order, so that each is visible to every body whatever the
    /// order of the items. An item that repeats the name of an earlier one
    /// is an error.
    pub fn resolve_top_level_names(&mut self, items: &Vec<Item>)
        requires
            old(self)@.wf(),
            old(self)@.stack.scopes.len() > 0,
        ensures
            final(self)@ == declare_items_spec(old(self)@, items@),
            final(self)@.wf(),
            final(self)@.stack.scopes.len() == old(self)@.stack.scopes.len(),
    {
        let mut i: usize = 0;
        while i < items.len()
            invariant
                i <= items.len(),
                self@ == declare_items_spec(old(self)@, items@.take(i as int)),
                self@.wf(),
                self@.stack.scopes.len() == old(self)@.stack.scopes.len(),
                old(self)@.stack.scopes.len() > 0,
            decreases items.len() - i,
        {
            assert(item_decls(items@.take(i + 1)).drop_last() =~= item_decls(
                items@.take(i as int),
            ));
            let item = &items[i];
            match &item.kind {
                ItemKind::Func(func) => {
                    self.declare(item.nid, &func.proto.name, SymbolKind::Func);
                },
                ItemKind::Extern(proto) => {
                    self.declare(item.nid, &proto.name, SymbolKind::Func);
                },
            }
            i = i + 1;
        }
        assert(items@.take(i as int) =~= items@);
    }

    /// Resolves the body of every top-level item that has one, in source
    /// order.
    pub fn resolve_top_level_contents(&mut self, items: &Vec<Item>)
        requires
            old(self)@.wf(),
        ensures
            final(self)@ == resolve_items_spec(old(self)@, items@),
            final(self)@.wf(),
            final(self)@.stack.scopes.len() == old(self)@.stack.scopes.len(),
    {
        let mut i: usize = 0;
        while i < items.len()
            invariant
                i <= items.len(),
                self@ == resolve_items_spec(old(self)@, items@.take(i as int)),
                self@.wf(),
                self@.stack.scopes.len() == old(self)@.stack.scopes.len(),
            decreases items.len() - i,
        {
            assert(items@.take(i + 1).drop_last() =~= items@.take(i as int));
            match &items[i].kind {
                ItemKind::Func(func) => {
                    self.resolve_func_contents(func);
                },
                ItemKind::Extern(_) => {},
            }
            i = i + 1;
        }
        assert(items@.take(i as int) =~= items@);
    }

    /// Resolves the module `m`. Inside a root scope, every top-level name is
    /// declared first and every body is resolved after that. Where the walk
    /// met no error the result is the finished symbol table; otherwise it is
    /// the list of all the errors, in the order in which they were met, and
    /// no table.
    pub fn run_pass(self, m: &Module) -> (res: Result<ModSymTable, Vec<AstResolutionErr>>)
        requires
            self@.wf(),
            self@.stack.scopes.len() == 0,
        ensures
            match res {
                Ok(table) => {
                    &&& resolve_module_spec(self@, *m).errs.len() == 0
                    &&& table@ == resolve_module_spec(self@, *m).stack.table
                    &&& table@.wf()
                },
                Err(errs) => {
                    &&& errs@.len() > 0
                    &&& errs@ == resolve_module_spec(self@, *m).errs
                },
            },
    {
        let mut pass = self;
        pass.push_scope();
        pass.resolve_top_level_names(&m.body);
        pass.resolve_top_level_contents(&m.body);
        pass.pop_scope();
        if pass.errs.len() > 0 {
            Err(pass.errs)
        } else {
            Ok(pass.scopes.finish_resolve())
        }
    }
}

} // verus!
