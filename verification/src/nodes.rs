//! Node identities: where the nodes of a module are pairwise distinct, every
//! declaring node is bound to the symbol it declares, and no node outside
//! the module is bound.

use crate::ast::{Expr, ExprKind, Function, Item, ItemKind, Module, NodeId};
use crate::laws::{
    lemma_advances_trans, lemma_declare_all, lemma_resolve_expr_advances,
    lemma_resolve_exprs_advances, lemma_resolve_items,
};
use crate::model::{
    arg_decls, declare_all_spec, declare_args_spec, declare_items_spec, item_decls,
    resolve_expr_spec, resolve_exprs_spec, resolve_func_spec, resolve_items_spec,
    resolve_module_spec, PassView,
};
use crate::symbol::{SymbolKind, TableView};
use vstd::prelude::*;

verus! {

/// The nodes of `expr` that declare or use a name.
pub open spec fn expr_nodes(expr: Expr) -> Set<NodeId>
    decreases expr,
{
    match *expr.kind {
        ExprKind::Block(body) => exprs_nodes(body@),
        ExprKind::Decl(decl) => expr_nodes(decl.value).insert(expr.nid),
        ExprKind::Let { bound, let_body } => exprs_nodes(bound@).union(expr_nodes(let_body)),
        ExprKind::Var(_) => Set::empty().insert(expr.nid),
        ExprKind::Call { callee, args } => exprs_nodes(args@).union(expr_nodes(callee)),
        ExprKind::Binary { lhs, rhs, op } => expr_nodes(lhs).union(expr_nodes(rhs)),
        ExprKind::If { cond, if_body, else_body } => expr_nodes(cond).union(
            expr_nodes(if_body),
        ).union(expr_nodes(else_body)),
        ExprKind::While { cond, while_body } => expr_nodes(cond).union(expr_nodes(while_body)),
        ExprKind::Lit(_) => Set::empty(),
    }
}

/// The nodes of the expressions `exprs` that declare or use a name.
pub open spec fn exprs_nodes(exprs: Seq<Expr>) -> Set<NodeId>
    decreases exprs,
{
    if exprs.len() == 0 {
        Set::empty()
    } else {
        exprs_nodes(exprs.drop_last()).union(expr_nodes(exprs.last()))
    }
}

/// Whether no two of the nodes of `expr` that declare or use a name have the
/// same identity.
pub open spec fn expr_distinct(expr: Expr) -> bool
    decreases expr,
{
    match *expr.kind {
        ExprKind::Block(body) => exprs_distinct(body@),
        ExprKind::Decl(decl) => expr_distinct(decl.value) && !expr_nodes(decl.value).contains(
            expr.nid,
        ),
        ExprKind::Let { bound, let_body } => {
            &&& exprs_distinct(bound@)
            &&& expr_distinct(let_body)
            &&& exprs_nodes(bound@).disjoint(expr_nodes(let_body))
        },
        ExprKind::Var(_) => true,
        ExprKind::Call { callee, args } => {
            &&& exprs_distinct(args@)
            &&& expr_distinct(callee)
            &&& exprs_nodes(args@).disjoint(expr_nodes(callee))
        },
        ExprKind::Binary { lhs, rhs, op } => {
            &&& expr_distinct(lhs)
            &&& expr_distinct(rhs)
            &&& expr_nodes(lhs).disjoint(expr_nodes(rhs))
        },
        ExprKind::If { cond, if_body, else_body } => {
            &&& expr_distinct(cond)
            &&& expr_distinct(if_body)
            &&& expr_distinct(else_body)
            &&& expr_nodes(cond).disjoint(expr_nodes(if_body))
            &&& expr_nodes(cond).union(expr_nodes(if_body)).disjoint(expr_nodes(else_body))
        },
        ExprKind::While { cond, while_body } => {
            &&& expr_distinct(cond)
            &&& expr_distinct(while_body)
            &&& expr_nodes(cond).disjoint(expr_nodes(while_body))
        },
        ExprKind::Lit(_) => true,
    }
}

/// Whether no two of the nodes of `exprs` that declare or use a name have
/// the same identity.
pub open spec fn exprs_distinct(exprs: Seq<Expr>) -> bool
    decreases exprs,
{
    if exprs.len() == 0 {
        true
    } else {
        &&& exprs_distinct(exprs.drop_last())
        &&& expr_distinct(exprs.last())
        &&& exprs_nodes(exprs.drop_last()).disjoint(expr_nodes(exprs.last()))
    }
}

/// Every declaring node is bound to the symbol that it declares.
pub open spec fn declarations_bound(table: TableView) -> bool {
    forall|sid: int|
        0 <= sid < table.symbols.len() ==> table.bindings.contains_key(
            (#[trigger] table.symbols[sid]).decl,
        ) && table.bindings[table.symbols[sid].decl] == sid
}

/// None of `nodes` is bound in `st`.
pub open spec fn unbound(st: PassView, nodes: Set<NodeId>) -> bool {
    forall|nid: NodeId|
        nodes.contains(nid) ==> !#[trigger] st.stack.table.bindings.contains_key(nid)
}

/// From `before` to `after` only nodes of `nodes` were bound, and in `after`
/// every declaring node is bound to its symbol.
pub open spec fn binds_within(before: PassView, after: PassView, nodes: Set<NodeId>) -> bool {
    &&& declarations_bound(after.stack.table)
    &&& forall|nid: NodeId| #[trigger]
        after.stack.table.bindings.contains_key(nid) ==> before.stack.table.bindings.contains_key(
            nid,
        ) || nodes.contains(nid)
}

/// A declaration at a node that is not bound yet binds that node alone and
/// keeps every declaring node bound to its symbol.
pub proof fn lemma_declare_binds(st: PassView, nid: NodeId, name: Seq<char>, kind: SymbolKind)
    requires
        st.wf(),
        st.stack.scopes.len() > 0,
        declarations_bound(st.stack.table),
        !st.stack.table.bindings.contains_key(nid),
    ensures
        binds_within(st, st.declare(nid, name, kind), Set::empty().insert(nid)),
{
    let after = st.declare(nid, name, kind);
    if !st.stack.conflicts(name) {
        assert forall|sid: int| 0 <= sid < after.stack.table.symbols.len() implies
            after.stack.table.bindings.contains_key(
                (#[trigger] after.stack.table.symbols[sid]).decl,
            ) && after.stack.table.bindings[after.stack.table.symbols[sid].decl] == sid by {
            if sid < st.stack.table.symbols.len() {
                assert(after.stack.table.symbols[sid] == st.stack.table.symbols[sid]);
            }
        }
    }
}

/// A use at a node that is not bound yet binds at most that node and keeps
/// every declaring node bound to its symbol.
pub proof fn lemma_refer_binds(st: PassView, nid: NodeId, name: Seq<char>)
    requires
        declarations_bound(st.stack.table),
        !st.stack.table.bindings.contains_key(nid),
    ensures
        binds_within(st, st.refer(nid, name), Set::empty().insert(nid)),
{
}

/// What two steps bind one after the other, the second on nodes that the
/// first did not touch, they bind together.
pub proof fn lemma_binds_trans(
    a: PassView,
    b: PassView,
    c: PassView,
    first: Set<NodeId>,
    second: Set<NodeId>,
)
    requires
        binds_within(a, b, first),
        binds_within(b, c, second),
    ensures
        binds_within(a, c, first.union(second)),
{
}

/// Nodes that are unbound before a step and are not among those it may bind
/// are unbound after it.
pub proof fn lemma_unbound_stays(
    before: PassView,
    after: PassView,
    bound: Set<NodeId>,
    nodes: Set<NodeId>,
)
    requires
        binds_within(before, after, bound),
        unbound(before, nodes),
        bound.disjoint(nodes),
    ensures
        unbound(after, nodes),
{
}

/// Where the nodes of an expression are distinct and none is bound yet,
/// resolving it binds nodes of the expression only, and every declaring node
/// stays bound to the symbol that it declares.
pub proof fn lemma_resolve_expr_binds(st: PassView, expr: Expr)
    requires
        st.wf(),
        st.stack.scopes.len() > 0,
        declarations_bound(st.stack.table),
        expr_distinct(expr),
        unbound(st, expr_nodes(expr)),
    ensures
        binds_within(st, resolve_expr_spec(st, expr), expr_nodes(expr)),
    decreases expr,
{
    match *expr.kind {
        ExprKind::Block(body) => {
            lemma_resolve_exprs_binds(st.push_scope(), body@);
        },
        ExprKind::Decl(decl) => {
            let mid = resolve_expr_spec(st, decl.value);
            lemma_resolve_expr_binds(st, decl.value);
            lemma_resolve_expr_advances(st, decl.value);
            lemma_declare_binds(mid, expr.nid, decl.bound@, SymbolKind::Local);
            lemma_binds_trans(
                st,
                mid,
                resolve_expr_spec(st, expr),
                expr_nodes(decl.value),
                Set::empty().insert(expr.nid),
            );
        },
        ExprKind::Let { bound, let_body } => {
            let entered = st.push_scope();
            let mid = resolve_exprs_spec(entered, bound@);
            lemma_resolve_exprs_binds(entered, bound@);
            lemma_resolve_exprs_advances(entered, bound@);
            lemma_unbound_stays(entered, mid, exprs_nodes(bound@), expr_nodes(let_body));
            lemma_resolve_expr_binds(mid, let_body);
            lemma_binds_trans(
                entered,
                mid,
                resolve_expr_spec(mid, let_body),
                exprs_nodes(bound@),
                expr_nodes(let_body),
            );
        },
        ExprKind::Var(name) => {
            lemma_refer_binds(st, expr.nid, name@);
        },
        ExprKind::Call { callee, args } => {
            let mid = resolve_exprs_spec(st, args@);
            lemma_resolve_exprs_binds(st, args@);
            lemma_resolve_exprs_advances(st, args@);
            lemma_unbound_stays(st, mid, exprs_nodes(args@), expr_nodes(callee));
            lemma_resolve_expr_binds(mid, callee);
            lemma_binds_trans(
                st,
                mid,
                resolve_expr_spec(mid, callee),
                exprs_nodes(args@),
                expr_nodes(callee),
            );
        },
        ExprKind::Binary { lhs, rhs, op } => {
            let mid = resolve_expr_spec(st, lhs);
            lemma_resolve_expr_binds(st, lhs);
            lemma_resolve_expr_advances(st, lhs);
            lemma_unbound_stays(st, mid, expr_nodes(lhs), expr_nodes(rhs));
            lemma_resolve_expr_binds(mid, rhs);
            lemma_binds_trans(
                st,
                mid,
                resolve_expr_spec(mid, rhs),
                expr_nodes(lhs),
                expr_nodes(rhs),
            );
        },
        ExprKind::If { cond, if_body, else_body } => {
            let mid = resolve_expr_spec(st, cond);
            lemma_resolve_expr_binds(st, cond);
            lemma_resolve_expr_advances(st, cond);
            lemma_unbound_stays(st, mid, expr_nodes(cond), expr_nodes(if_body));
            lemma_resolve_expr_binds(mid, if_body);
            lemma_binds_trans(
                st,
                mid,
                resolve_expr_spec(mid, if_body),
                expr_nodes(cond),
                expr_nodes(if_body),
            );
            let s2 = resolve_expr_spec(mid, if_body);
            lemma_resolve_expr_advances(mid, if_body);
            lemma_advances_trans(st, mid, s2);
            let both = expr_nodes(cond).union(expr_nodes(if_body));
            lemma_unbound_stays(st, s2, both, expr_nodes(else_body));
            lemma_resolve_expr_binds(s2, else_body);
            lemma_binds_trans(
                st,
                s2,
                resolve_expr_spec(s2, else_body),
                both,
                expr_nodes(else_body),
            );
        },
        ExprKind::While { cond, while_body } => {
            let mid = resolve_expr_spec(st, cond);
            lemma_resolve_expr_binds(st, cond);
            lemma_resolve_expr_advances(st, cond);
            lemma_unbound_stays(st, mid, expr_nodes(cond), expr_nodes(while_body));
            lemma_resolve_expr_binds(mid, while_body);
            lemma_binds_trans(
                st,
                mid,
                resolve_expr_spec(mid, while_body),
                expr_nodes(cond),
                expr_nodes(while_body),
            );
        },
        ExprKind::Lit(_) => {},
    }
}

/// The same for a sequence of expressions.
pub proof fn lemma_resolve_exprs_binds(st: PassView, exprs: Seq<Expr>)
    requires
        st.wf(),
        st.stack.scopes.len() > 0,
        declarations_bound(st.stack.table),
        exprs_distinct(exprs),
        unbound(st, exprs_nodes(exprs)),
    ensures
        binds_within(st, resolve_exprs_spec(st, exprs), exprs_nodes(exprs)),
    decreases exprs,
{
    if exprs.len() > 0 {
        let front = exprs.drop_last();
        let mid = resolve_exprs_spec(st, front);
        lemma_resolve_exprs_binds(st, front);
        lemma_resolve_exprs_advances(st, front);
        lemma_unbound_stays(st, mid, exprs_nodes(front), expr_nodes(exprs.last()));
        lemma_resolve_expr_binds(mid, exprs.last());
        lemma_binds_trans(
            st,
            mid,
            resolve_expr_spec(mid, exprs.last()),
            exprs_nodes(front),
            expr_nodes(exprs.last()),
        );
    }
}

/// The nodes of the declarations `decls`.
pub open spec fn decl_nodes(decls: Seq<(NodeId, Seq<char>)>) -> Set<NodeId> {
    Set::new(|nid: NodeId| exists|i: int| 0 <= i < decls.len() && (#[trigger] decls[i]).0 == nid)
}

/// Whether no two of the declarations `decls` stand at the same node.
pub open spec fn decls_distinct(decls: Seq<(NodeId, Seq<char>)>) -> bool {
    forall|i: int, j: int|
        0 <= i < j < decls.len() ==> (#[trigger] decls[i]).0 != (#[trigger] decls[j]).0
}

/// Where the nodes of a list of declarations are distinct and none is bound
/// yet, declaring the list binds those nodes only, and every declaring node
/// stays bound to the symbol that it declares.
pub proof fn lemma_declare_all_binds(
    st: PassView,
    decls: Seq<(NodeId, Seq<char>)>,
    kind: SymbolKind,
)
    requires
        st.wf(),
        st.stack.scopes.len() > 0,
        declarations_bound(st.stack.table),
        decls_distinct(decls),
        unbound(st, decl_nodes(decls)),
    ensures
        binds_within(st, declare_all_spec(st, decls, kind), decl_nodes(decls)),
    decreases decls.len(),
{
    if decls.len() > 0 {
        let front = decls.drop_last();
        let last = decls.last();
        let mid = declare_all_spec(st, front, kind);
        assert forall|nid: NodeId| decl_nodes(front).contains(nid) implies decl_nodes(
            decls,
        ).contains(nid) && nid != last.0 by {
            let i = choose|i: int| 0 <= i < front.len() && (#[trigger] front[i]).0 == nid;
            assert(decls[i].0 == nid);
        }
        lemma_declare_all_binds(st, front, kind);
        lemma_declare_all(st, front, kind);
        assert(decl_nodes(decls).contains(last.0)) by {
            assert(decls[decls.len() - 1].0 == last.0);
        }
        lemma_declare_binds(mid, last.0, last.1, kind);
    }
}

/// The nodes of a function that declare or use a name: its parameters and
/// those of its body.
pub open spec fn func_nodes(func: Function) -> Set<NodeId> {
    decl_nodes(arg_decls(func.proto.args@)).union(expr_nodes(func.body))
}

/// Whether no two of the nodes of a function have the same identity.
pub open spec fn func_distinct(func: Function) -> bool {
    &&& decls_distinct(arg_decls(func.proto.args@))
    &&& expr_distinct(func.body)
    &&& decl_nodes(arg_decls(func.proto.args@)).disjoint(expr_nodes(func.body))
}

/// Where the nodes of a function are distinct and none is bound yet,
/// resolving it binds those nodes only, and every declaring node stays bound
/// to the symbol that it declares.
pub proof fn lemma_resolve_func_binds(st: PassView, func: Function)
    requires
        st.wf(),
        declarations_bound(st.stack.table),
        func_distinct(func),
        unbound(st, func_nodes(func)),
    ensures
        binds_within(st, resolve_func_spec(st, func), func_nodes(func)),
{
    let entered = st.push_scope();
    let decls = arg_decls(func.proto.args@);
    let declared = declare_args_spec(entered, func.proto.args@);
    lemma_declare_all_binds(entered, decls, SymbolKind::Local);
    lemma_declare_all(entered, decls, SymbolKind::Local);
    lemma_unbound_stays(entered, declared, decl_nodes(decls), expr_nodes(func.body));
    lemma_resolve_expr_binds(declared, func.body);
    lemma_binds_trans(
        entered,
        declared,
        resolve_expr_spec(declared, func.body),
        decl_nodes(decls),
        expr_nodes(func.body),
    );
}

/// The nodes inside a top-level item that declare or use a name.
pub open spec fn item_body_nodes(item: Item) -> Set<NodeId> {
    match item.kind {
        ItemKind::Func(func) => func_nodes(func),
        ItemKind::Extern(_) => Set::empty(),
    }
}

/// The nodes inside the top-level items `items` that declare or use a name.
pub open spec fn items_body_nodes(items: Seq<Item>) -> Set<NodeId>
    decreases items.len(),
{
    if items.len() == 0 {
        Set::empty()
    } else {
        items_body_nodes(items.drop_last()).union(item_body_nodes(items.last()))
    }
}

/// Whether no two of the nodes inside the top-level items `items` have the
/// same identity.
pub open spec fn items_bodies_distinct(items: Seq<Item>) -> bool
    decreases items.len(),
{
    if items.len() == 0 {
        true
    } else {
        &&& items_bodies_distinct(items.drop_last())
        &&& match items.last().kind {
            ItemKind::Func(func) => func_distinct(func),
            ItemKind::Extern(_) => true,
        }
        &&& items_body_nodes(items.drop_last()).disjoint(item_body_nodes(items.last()))
    }
}

/// Where the nodes inside a list of items are distinct and none is bound
/// yet, resolving the bodies binds those nodes only, and every declaring
/// node stays bound to the symbol that it declares.
pub proof fn lemma_resolve_items_binds(st: PassView, items: Seq<Item>)
    requires
        st.wf(),
        declarations_bound(st.stack.table),
        items_bodies_distinct(items),
        unbound(st, items_body_nodes(items)),
    ensures
        binds_within(st, resolve_items_spec(st, items), items_body_nodes(items)),
    decreases items.len(),
{
    if items.len() > 0 {
        let front = items.drop_last();
        let mid = resolve_items_spec(st, front);
        lemma_resolve_items_binds(st, front);
        lemma_resolve_items(st, front);
        match items.last().kind {
            ItemKind::Func(func) => {
                lemma_unbound_stays(st, mid, items_body_nodes(front), func_nodes(func));
                lemma_resolve_func_binds(mid, func);
                lemma_binds_trans(
                    st,
                    mid,
                    resolve_func_spec(mid, func),
                    items_body_nodes(front),
                    func_nodes(func),
                );
            },
            ItemKind::Extern(_) => {},
        }
    }
}

/// The nodes of a module that declare or use a name.
pub open spec fn module_nodes(module: Module) -> Set<NodeId> {
    decl_nodes(item_decls(module.body@)).union(items_body_nodes(module.body@))
}

/// Whether no two of the nodes of a module that declare or use a name have
/// the same identity.
pub open spec fn module_distinct(module: Module) -> bool {
    &&& decls_distinct(item_decls(module.body@))
    &&& items_bodies_distinct(module.body@)
    &&& decl_nodes(item_decls(module.body@)).disjoint(items_body_nodes(module.body@))
}

/// Where the nodes of a module are distinct and none is bound yet, resolving
/// the module binds nodes of the module only, and every declaring node is
/// bound to the symbol that it declares.
pub proof fn lemma_resolve_module_binds(st: PassView, module: Module)
    requires
        st.wf(),
        declarations_bound(st.stack.table),
        module_distinct(module),
        unbound(st, module_nodes(module)),
    ensures
        binds_within(st, resolve_module_spec(st, module), module_nodes(module)),
{
    let entered = st.push_scope();
    let decls = item_decls(module.body@);
    let declared = declare_items_spec(entered, module.body@);
    lemma_declare_all_binds(entered, decls, SymbolKind::Func);
    lemma_declare_all(entered, decls, SymbolKind::Func);
    lemma_unbound_stays(entered, declared, decl_nodes(decls), items_body_nodes(module.body@));
    lemma_resolve_items_binds(declared, module.body@);
    lemma_binds_trans(
        entered,
        declared,
        resolve_items_spec(declared, module.body@),
        decl_nodes(decls),
        items_body_nodes(module.body@),
    );
}

/// A pass over a module with distinct nodes, started from nothing, ends with
/// a table in which every symbol's declaring node is bound to that symbol
/// and every bound node is a node of the module.
pub proof fn lemma_fresh_pass_binds(module: Module)
    requires
        module_distinct(module),
    ensures
        declarations_bound(resolve_module_spec(PassView::empty(), module).stack.table),
        forall|nid: NodeId| #[trigger]
            resolve_module_spec(PassView::empty(), module).stack.table.bindings.contains_key(nid)
                ==> module_nodes(module).contains(nid),
{
    lemma_resolve_module_binds(PassView::empty(), module);
}

} // verus!
