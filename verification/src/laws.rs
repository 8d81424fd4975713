//! What holds of name resolution in every state and for every input.

use crate::ast::{Expr, ExprKind, Function, Item, ItemKind, Module, NodeId};
use crate::model::{
    arg_decls, declare_all_spec, declare_args_spec, declare_items_spec, item_decls, item_name,
    resolve_expr_spec, resolve_exprs_spec, resolve_func_spec, resolve_items_spec,
    resolve_module_spec, PassView,
};
use crate::name_resolve::AstResolutionErr;
use crate::symbol::{lemma_lookup_in_innermost, ScopeView, SymbolInfo, SymbolKind};
use vstd::prelude::*;

verus! {

/// `after` can be reached from `before` by resolving syntax that stands in
/// the current scope: the state stays well formed, the enclosing scopes are
/// untouched, the current scope keeps every name it had, symbols keep their
/// ids, no bound node is forgotten, and no error is lost.
pub open spec fn advances(before: PassView, after: PassView) -> bool {
    &&& after.wf()
    &&& after.stack.scopes.len() == before.stack.scopes.len()
    &&& after.stack.scopes.drop_last() == before.stack.scopes.drop_last()
    &&& before.stack.scopes.last().submap_of(after.stack.scopes.last())
    &&& after.stack.table.extends(before.stack.table)
    &&& before.errs.is_prefix_of(after.errs)
}

/// Advancing twice is advancing.
pub proof fn lemma_advances_trans(a: PassView, b: PassView, c: PassView)
    requires
        advances(a, b),
        advances(b, c),
    ensures
        advances(a, c),
{
    assert(a.stack.scopes.last().submap_of(c.stack.scopes.last())) by {
        assert forall|k: Seq<char>| #[trigger] a.stack.scopes.last().dom().contains(k) implies
            #[trigger] c.stack.scopes.last().dom().contains(k) && a.stack.scopes.last()[k]
                == c.stack.scopes.last()[k] by {
            assert(b.stack.scopes.last().dom().contains(k));
        }
    }
    assert(c.stack.table.extends(a.stack.table)) by {
        assert forall|sid: int| 0 <= sid < a.stack.table.symbols.len() implies
            #[trigger] c.stack.table.symbols[sid] == a.stack.table.symbols[sid] by {
            assert(b.stack.table.symbols[sid] == a.stack.table.symbols[sid]);
        }
        assert forall|nid: NodeId| #[trigger] a.stack.table.bindings.contains_key(nid) implies
            c.stack.table.bindings.contains_key(nid) by {
            assert(b.stack.table.bindings.contains_key(nid));
        }
    }
    assert(a.errs.is_prefix_of(c.errs)) by {
        assert(a.errs =~= b.errs.subrange(0, a.errs.len() as int));
        assert(b.errs =~= c.errs.subrange(0, b.errs.len() as int));
        assert(a.errs =~= c.errs.subrange(0, a.errs.len() as int));
    }
}

/// A declaration advances the state, whether it succeeds or conflicts.
pub proof fn lemma_declare_advances(st: PassView, nid: NodeId, name: Seq<char>, kind: SymbolKind)
    requires
        st.wf(),
        st.stack.scopes.len() > 0,
    ensures
        advances(st, st.declare(nid, name, kind)),
{
    let after = st.declare(nid, name, kind);
    if st.stack.conflicts(name) {
        assert(st.errs =~= after.errs.subrange(0, st.errs.len() as int));
    } else {
        st.stack.lemma_declare_wf(nid, name, kind);
        assert(after.stack.scopes.drop_last() =~= st.stack.scopes.drop_last());
        assert(st.errs =~= after.errs.subrange(0, st.errs.len() as int));
    }
}

/// A use of a name advances the state, whether the name is found or not.
pub proof fn lemma_refer_advances(st: PassView, nid: NodeId, name: Seq<char>)
    requires
        st.wf(),
    ensures
        advances(st, st.refer(nid, name)),
        st.refer(nid, name).stack.scopes == st.stack.scopes,
{
    let after = st.refer(nid, name);
    st.stack.lemma_lookup_declared(name);
    match st.stack.lookup(name) {
        Some(sid) => {
            st.stack.lemma_bind_wf(nid, sid);
        },
        None => {},
    }
    assert(st.errs =~= after.errs.subrange(0, st.errs.len() as int));
}

/// What is resolved inside a scope of its own leaves every scope as it was:
/// the names declared inside are gone once the scope is closed, while the
/// symbols, the bound nodes and the errors stay.
pub proof fn lemma_scoped_advances(st: PassView, inner: PassView)
    requires
        st.wf(),
        advances(st.push_scope(), inner),
    ensures
        advances(st, inner.pop_scope()),
        inner.pop_scope().stack.scopes == st.stack.scopes,
{
    assert(st.push_scope().stack.scopes.drop_last() =~= st.stack.scopes);
    let after = inner.pop_scope();
    assert forall|i: int, name: Seq<char>|
        0 <= i < after.stack.scopes.len() && #[trigger] after.stack.scopes[i].contains_key(
            name,
        ) implies after.stack.scopes[i][name] < after.stack.table.symbols.len() by {
        assert(inner.stack.scopes[i].contains_key(name));
    }
}

/// Resolving an expression advances the state: in particular it closes every
/// scope that it opens, leaves the enclosing scopes alone, and takes no name
/// out of the current scope.
pub proof fn lemma_resolve_expr_advances(st: PassView, expr: Expr)
    requires
        st.wf(),
        st.stack.scopes.len() > 0,
    ensures
        advances(st, resolve_expr_spec(st, expr)),
    decreases expr,
{
    match *expr.kind {
        ExprKind::Block(body) => {
            let inner = resolve_exprs_spec(st.push_scope(), body@);
            lemma_resolve_exprs_advances(st.push_scope(), body@);
            lemma_scoped_advances(st, inner);
        },
        ExprKind::Decl(decl) => {
            let mid = resolve_expr_spec(st, decl.value);
            lemma_resolve_expr_advances(st, decl.value);
            lemma_declare_advances(mid, expr.nid, decl.bound@, SymbolKind::Local);
            lemma_advances_trans(st, mid, mid.declare(expr.nid, decl.bound@, SymbolKind::Local));
        },
        ExprKind::Let { bound, let_body } => {
            let mid = resolve_exprs_spec(st.push_scope(), bound@);
            lemma_resolve_exprs_advances(st.push_scope(), bound@);
            let inner = resolve_expr_spec(mid, let_body);
            lemma_resolve_expr_advances(mid, let_body);
            lemma_advances_trans(st.push_scope(), mid, inner);
            lemma_scoped_advances(st, inner);
        },
        ExprKind::Var(name) => {
            lemma_refer_advances(st, expr.nid, name@);
        },
        ExprKind::Call { callee, args } => {
            let mid = resolve_exprs_spec(st, args@);
            lemma_resolve_exprs_advances(st, args@);
            lemma_resolve_expr_advances(mid, callee);
            lemma_advances_trans(st, mid, resolve_expr_spec(mid, callee));
        },
        ExprKind::Binary { lhs, rhs, op } => {
            let mid = resolve_expr_spec(st, lhs);
            lemma_resolve_expr_advances(st, lhs);
            lemma_resolve_expr_advances(mid, rhs);
            lemma_advances_trans(st, mid, resolve_expr_spec(mid, rhs));
        },
        ExprKind::If { cond, if_body, else_body } => {
            let s1 = resolve_expr_spec(st, cond);
            lemma_resolve_expr_advances(st, cond);
            let s2 = resolve_expr_spec(s1, if_body);
            lemma_resolve_expr_advances(s1, if_body);
            lemma_advances_trans(st, s1, s2);
            lemma_resolve_expr_advances(s2, else_body);
            lemma_advances_trans(st, s2, resolve_expr_spec(s2, else_body));
        },
        ExprKind::While { cond, while_body } => {
            let mid = resolve_expr_spec(st, cond);
            lemma_resolve_expr_advances(st, cond);
            lemma_resolve_expr_advances(mid, while_body);
            lemma_advances_trans(st, mid, resolve_expr_spec(mid, while_body));
        },
        ExprKind::Lit(_) => {},
    }
}

/// Resolving a sequence of expressions advances the state.
pub proof fn lemma_resolve_exprs_advances(st: PassView, exprs: Seq<Expr>)
    requires
        st.wf(),
        st.stack.scopes.len() > 0,
    ensures
        advances(st, resolve_exprs_spec(st, exprs)),
    decreases exprs,
{
    if exprs.len() > 0 {
        let mid = resolve_exprs_spec(st, exprs.drop_last());
        lemma_resolve_exprs_advances(st, exprs.drop_last());
        lemma_resolve_expr_advances(mid, exprs.last());
        lemma_advances_trans(st, mid, resolve_expr_spec(mid, exprs.last()));
    }
}

/// Whether some open scope of `st` binds `name`.
pub open spec fn visible(st: PassView, name: Seq<char>) -> bool {
    exists|i: int|
        0 <= i < st.stack.scopes.len() && (#[trigger] st.stack.scopes[i]).contains_key(name)
}

/// A name is found exactly when some open scope binds it; a use of such a
/// name is bound and adds no error, a use of any other adds one error and
/// binds nothing.
pub proof fn lemma_refer_visible(st: PassView, nid: NodeId, name: Seq<char>)
    ensures
        visible(st, name) <==> st.stack.lookup(name).is_some(),
        visible(st, name) ==> st.refer(nid, name).errs == st.errs && st.refer(
            nid,
            name,
        ).stack.table.bindings.contains_key(nid),
        !visible(st, name) ==> st.refer(nid, name).stack == st.stack && st.refer(nid, name).errs
            == st.errs.push(AstResolutionErr::Unresolved { nid }),
{
    lemma_lookup_in_innermost(st.stack.scopes, name);
}

/// A name that is visible stays visible while the state advances and when a
/// scope is opened.
pub proof fn lemma_visible_stays(before: PassView, after: PassView, name: Seq<char>)
    requires
        visible(before, name),
        advances(before, after),
    ensures
        visible(after, name),
        visible(after.push_scope(), name),
{
    let i = choose|i: int|
        0 <= i < before.stack.scopes.len() && (#[trigger] before.stack.scopes[i]).contains_key(
            name,
        );
    if i < before.stack.scopes.len() - 1 {
        assert(before.stack.scopes.drop_last()[i] == before.stack.scopes[i]);
        assert(after.stack.scopes.drop_last()[i] == after.stack.scopes[i]);
    } else {
        assert(before.stack.scopes.last().dom().contains(name));
    }
    assert(after.stack.scopes[i].contains_key(name));
    assert(after.push_scope().stack.scopes[i] == after.stack.scopes[i]);
}

/// Shadowing: a name declared in the current scope denotes the new symbol
/// from then on, whatever the enclosing scopes bind it to. The new symbol's
/// id is one that no earlier declaration has.
pub proof fn lemma_declared_name_shadows(
    st: PassView,
    nid: NodeId,
    name: Seq<char>,
    kind: SymbolKind,
)
    requires
        st.wf(),
        st.stack.scopes.len() > 0,
        !st.stack.conflicts(name),
    ensures
        st.declare(nid, name, kind).stack.lookup(name) == Some(st.stack.table.symbols.len()),
        st.stack.lookup(name) matches Some(outer) ==> outer < st.stack.table.symbols.len(),
        st.declare(nid, name, kind).stack.table.symbols.last() == (SymbolInfo {
            kind,
            decl: nid,
        }),
{
    st.stack.lemma_lookup_declared(name);
}

/// A declaration that is the first of its name in a scope just opened is
/// never a conflict, whatever the enclosing scopes declare; and a use of the
/// name inside that scope is bound to the inner symbol.
pub proof fn lemma_inner_declaration_shadows(
    st: PassView,
    decl: NodeId,
    usage: NodeId,
    name: Seq<char>,
    kind: SymbolKind,
)
    requires
        st.wf(),
    ensures
        st.push_scope().declare(decl, name, kind).errs == st.errs,
        st.push_scope().declare(decl, name, kind).refer(usage, name).errs == st.errs,
        st.push_scope().declare(decl, name, kind).refer(usage, name).stack.table.bindings[usage]
            == st.stack.table.symbols.len(),
        st.stack.lookup(name) matches Some(outer) ==> outer != st.stack.table.symbols.len(),
{
    lemma_declared_name_shadows(st.push_scope(), decl, name, kind);
    st.stack.lemma_lookup_declared(name);
}

/// A second declaration of a name in one scope is refused: the stack stays
/// as it was and exactly one error is added, which names the refused node
/// and the node of the declaration that stands.
pub proof fn lemma_redeclaration_is_error(
    st: PassView,
    first: NodeId,
    second: NodeId,
    name: Seq<char>,
    kind: SymbolKind,
)
    requires
        st.wf(),
        st.stack.scopes.len() > 0,
        !st.stack.conflicts(name),
    ensures
        st.declare(first, name, kind).declare(second, name, kind).stack == st.declare(
            first,
            name,
            kind,
        ).stack,
        st.declare(first, name, kind).declare(second, name, kind).errs == st.errs.push(
            AstResolutionErr::Redefinition { nid: second, prior: first },
        ),
{
}

/// A declaration does not see itself: where `x = x` stands and no open scope
/// binds `x`, the use on the right is an unresolved name, and only then is
/// `x` declared.
pub proof fn lemma_decl_does_not_see_itself(st: PassView, expr: Expr)
    requires
        *expr.kind matches ExprKind::Decl(decl) && *decl.value.kind matches ExprKind::Var(name)
            && name@ == decl.bound@ && !visible(st, name@),
    ensures
        *expr.kind matches ExprKind::Decl(decl) && resolve_expr_spec(st, expr) == (PassView {
            stack: st.stack,
            errs: st.errs.push(AstResolutionErr::Unresolved { nid: decl.value.nid }),
        }).declare(expr.nid, decl.bound@, SymbolKind::Local),
{
    match *expr.kind {
        ExprKind::Decl(decl) => {
            lemma_refer_visible(st, decl.value.nid, decl.bound@);
            assert(resolve_expr_spec(st, decl.value) == st.refer(decl.value.nid, decl.bound@));
        },
        _ => {},
    }
}

/// A use of a name changes neither the scopes nor the symbols, so what any
/// name denotes after it is what it denoted before.
pub proof fn lemma_refer_keeps_meaning(st: PassView, nid: NodeId, name: Seq<char>)
    ensures
        st.refer(nid, name).stack.scopes == st.stack.scopes,
        st.refer(nid, name).stack.table.symbols == st.stack.table.symbols,
        forall|other: Seq<char>| #[trigger]
            st.refer(nid, name).stack.lookup(other) == st.stack.lookup(other),
{
}

/// Many uses, one symbol: after a name is declared, uses of it are all bound
/// to the symbol of that declaration, as the declaring node itself is.
pub proof fn lemma_uses_share_symbol(
    st: PassView,
    decl: NodeId,
    name: Seq<char>,
    kind: SymbolKind,
    first: NodeId,
    second: NodeId,
)
    requires
        st.wf(),
        st.stack.scopes.len() > 0,
        !st.stack.conflicts(name),
        first != decl,
        second != decl,
    ensures
        ({
            let after = st.declare(decl, name, kind).refer(first, name).refer(second, name);
            let sid = st.stack.table.symbols.len();
            &&& after.errs == st.errs
            &&& after.stack.table.bindings[decl] == sid
            &&& after.stack.table.bindings[first] == sid
            &&& after.stack.table.bindings[second] == sid
            &&& after.stack.table.symbols[sid as int] == (SymbolInfo { kind, decl })
        }),
{
    let declared = st.declare(decl, name, kind);
    lemma_declared_name_shadows(st, decl, name, kind);
    lemma_refer_keeps_meaning(declared, first, name);
    assert(declared.refer(first, name).stack.lookup(name) == declared.stack.lookup(name));
}

/// Scope discard: a block, or a binding group, leaves the open scopes exactly
/// as it found them. Whatever follows it, a sibling block too, finds every
/// name to mean what it meant before and conflicts with nothing that was
/// declared inside.
pub proof fn lemma_scope_discard(st: PassView, expr: Expr)
    requires
        st.wf(),
        st.stack.scopes.len() > 0,
        *expr.kind is Block || *expr.kind is Let,
    ensures
        resolve_expr_spec(st, expr).stack.scopes == st.stack.scopes,
        forall|name: Seq<char>| #[trigger]
            resolve_expr_spec(st, expr).stack.lookup(name) == st.stack.lookup(name),
        forall|name: Seq<char>| #[trigger]
            resolve_expr_spec(st, expr).stack.conflicts(name) == st.stack.conflicts(name),
{
    match *expr.kind {
        ExprKind::Block(body) => {
            let inner = resolve_exprs_spec(st.push_scope(), body@);
            lemma_resolve_exprs_advances(st.push_scope(), body@);
            lemma_scoped_advances(st, inner);
        },
        ExprKind::Let { bound, let_body } => {
            let mid = resolve_exprs_spec(st.push_scope(), bound@);
            lemma_resolve_exprs_advances(st.push_scope(), bound@);
            let inner = resolve_expr_spec(mid, let_body);
            lemma_resolve_expr_advances(mid, let_body);
            lemma_advances_trans(st.push_scope(), mid, inner);
            lemma_scoped_advances(st, inner);
        },
        _ => {},
    }
}

/// Whether the declaration at index `j` of `decls` names something that
/// `scope`, or an earlier declaration of `decls`, names already.
pub open spec fn redeclares(scope: ScopeView, decls: Seq<(NodeId, Seq<char>)>, j: int) -> bool {
    scope.contains_key(decls[j].1) || exists|i: int|
        0 <= i < j && (#[trigger] decls[i]).1 == decls[j].1
}

/// How many of the declarations `decls` name something that `scope`, or an
/// earlier one among them, names already.
pub open spec fn conflict_count(scope: ScopeView, decls: Seq<(NodeId, Seq<char>)>) -> nat
    decreases decls.len(),
{
    if decls.len() == 0 {
        0
    } else if redeclares(scope, decls, decls.len() - 1) {
        conflict_count(scope, decls.drop_last()) + 1
    } else {
        conflict_count(scope, decls.drop_last())
    }
}

/// Declaring a list of names in one scope advances the state. Afterwards the
/// scope binds the names it bound before and each name of the list; there is
/// one new error for each declaration that repeats a name, and one new
/// symbol for each that does not.
pub proof fn lemma_declare_all(st: PassView, decls: Seq<(NodeId, Seq<char>)>, kind: SymbolKind)
    requires
        st.wf(),
        st.stack.scopes.len() > 0,
    ensures
        advances(st, declare_all_spec(st, decls, kind)),
        forall|name: Seq<char>| #[trigger]
            declare_all_spec(st, decls, kind).stack.scopes.last().contains_key(name) <==> (
            st.stack.scopes.last().contains_key(name) || exists|i: int|
                0 <= i < decls.len() && (#[trigger] decls[i]).1 == name),
        declare_all_spec(st, decls, kind).errs.len() == st.errs.len() + conflict_count(
            st.stack.scopes.last(),
            decls,
        ),
        declare_all_spec(st, decls, kind).stack.table.symbols.len() + conflict_count(
            st.stack.scopes.last(),
            decls,
        ) == st.stack.table.symbols.len() + decls.len(),
    decreases decls.len(),
{
    if decls.len() > 0 {
        let front = decls.drop_last();
        let prev = declare_all_spec(st, front, kind);
        let after = declare_all_spec(st, decls, kind);
        let last = decls.last();
        lemma_declare_all(st, front, kind);
        lemma_declare_advances(prev, last.0, last.1, kind);
        lemma_advances_trans(st, prev, after);
        assert(prev.stack.conflicts(last.1) == redeclares(
            st.stack.scopes.last(),
            decls,
            decls.len() - 1,
        )) by {
            if prev.stack.conflicts(last.1) && !st.stack.scopes.last().contains_key(last.1) {
                let i = choose|i: int| 0 <= i < front.len() && (#[trigger] front[i]).1 == last.1;
                assert(decls[i].1 == last.1);
            }
            if redeclares(st.stack.scopes.last(), decls, decls.len() - 1)
                && !st.stack.scopes.last().contains_key(last.1) {
                let i = choose|i: int|
                    0 <= i < decls.len() - 1 && (#[trigger] decls[i]).1 == last.1;
                assert(front[i].1 == last.1);
            }
        }
        assert forall|name: Seq<char>| #[trigger]
            after.stack.scopes.last().contains_key(name) <==> (st.stack.scopes.last().contains_key(
                name,
            ) || exists|i: int| 0 <= i < decls.len() && (#[trigger] decls[i]).1 == name) by {
            if after.stack.scopes.last().contains_key(name) {
                if name == last.1 {
                    assert(decls[decls.len() - 1].1 == name);
                } else {
                    assert(prev.stack.scopes.last().contains_key(name));
                    if !st.stack.scopes.last().contains_key(name) {
                        let i = choose|i: int|
                            0 <= i < front.len() && (#[trigger] front[i]).1 == name;
                        assert(decls[i].1 == name);
                    }
                }
            }
            if exists|i: int| 0 <= i < decls.len() && (#[trigger] decls[i]).1 == name {
                let i = choose|i: int| 0 <= i < decls.len() && (#[trigger] decls[i]).1 == name;
                if i < front.len() {
                    assert(front[i].1 == name);
                    assert(prev.stack.scopes.last().contains_key(name));
                    assert(prev.stack.scopes.last().dom().contains(name));
                }
            }
            if st.stack.scopes.last().contains_key(name) {
                assert(st.stack.scopes.last().dom().contains(name));
            }
        }
    }
}

/// Whether the names of `decls` are pairwise distinct and none of them is
/// bound by `scope`.
pub open spec fn all_fresh(scope: ScopeView, decls: Seq<(NodeId, Seq<char>)>) -> bool {
    forall|j: int| 0 <= j < decls.len() ==> !#[trigger] redeclares(scope, decls, j)
}

/// No declaration of a list conflicts exactly when none repeats a name.
pub proof fn lemma_conflict_count_zero(scope: ScopeView, decls: Seq<(NodeId, Seq<char>)>)
    ensures
        conflict_count(scope, decls) == 0 <==> all_fresh(scope, decls),
    decreases decls.len(),
{
    if decls.len() > 0 {
        let front = decls.drop_last();
        lemma_conflict_count_zero(scope, front);
        assert forall|j: int| 0 <= j < front.len() implies redeclares(scope, front, j)
            == redeclares(scope, decls, j) by {
            if redeclares(scope, front, j) && !scope.contains_key(front[j].1) {
                let i = choose|i: int| 0 <= i < j && (#[trigger] front[i]).1 == front[j].1;
                assert(decls[i].1 == decls[j].1);
            }
            if redeclares(scope, decls, j) && !scope.contains_key(decls[j].1) {
                let i = choose|i: int| 0 <= i < j && (#[trigger] decls[i]).1 == decls[j].1;
                assert(front[i].1 == front[j].1);
            }
        }
        if all_fresh(scope, decls) {
            assert(!redeclares(scope, decls, decls.len() - 1));
            assert forall|j: int| 0 <= j < front.len() implies !#[trigger] redeclares(
                scope,
                front,
                j,
            ) by {
                assert(!redeclares(scope, decls, j));
            }
        }
        if conflict_count(scope, decls) == 0 {
            assert forall|j: int| 0 <= j < decls.len() implies !#[trigger] redeclares(
                scope,
                decls,
                j,
            ) by {
                if j < front.len() {
                    assert(!redeclares(scope, front, j));
                }
            }
        }
    }
}

/// After a list of names is declared in one scope, each name that the scope
/// did not bind before denotes the symbol of the first declaration of that
/// name in the list: a symbol of the declared kind whose declaring node is
/// that declaration's node.
pub proof fn lemma_declare_all_symbols(
    st: PassView,
    decls: Seq<(NodeId, Seq<char>)>,
    kind: SymbolKind,
)
    requires
        st.wf(),
        st.stack.scopes.len() > 0,
    ensures
        forall|j: int|
            0 <= j < decls.len() && !#[trigger] redeclares(st.stack.scopes.last(), decls, j) ==> ({
                let after = declare_all_spec(st, decls, kind);
                let sid = after.stack.scopes.last()[decls[j].1];
                &&& after.stack.scopes.last().contains_key(decls[j].1)
                &&& st.stack.table.symbols.len() <= sid < after.stack.table.symbols.len()
                &&& after.stack.table.symbols[sid as int] == (SymbolInfo { kind, decl: decls[j].0 })
            }),
    decreases decls.len(),
{
    if decls.len() > 0 {
        let scope = st.stack.scopes.last();
        let front = decls.drop_last();
        let prev = declare_all_spec(st, front, kind);
        let after = declare_all_spec(st, decls, kind);
        let last = decls.last();
        lemma_declare_all_symbols(st, front, kind);
        lemma_declare_all(st, front, kind);
        lemma_declare_all(st, decls, kind);
        lemma_declare_advances(prev, last.0, last.1, kind);
        assert forall|j: int|
            0 <= j < decls.len() && !#[trigger] redeclares(scope, decls, j) implies ({
            let sid = after.stack.scopes.last()[decls[j].1];
            &&& after.stack.scopes.last().contains_key(decls[j].1)
            &&& st.stack.table.symbols.len() <= sid < after.stack.table.symbols.len()
            &&& after.stack.table.symbols[sid as int] == (SymbolInfo { kind, decl: decls[j].0 })
        }) by {
            if j < front.len() {
                assert(!redeclares(scope, front, j)) by {
                    if redeclares(scope, front, j) {
                        let i = choose|i: int| 0 <= i < j && (#[trigger] front[i]).1 == front[j].1;
                        assert(decls[i].1 == decls[j].1);
                    }
                }
                let sid = prev.stack.scopes.last()[front[j].1];
                assert(prev.stack.scopes.last().dom().contains(front[j].1));
                assert(after.stack.table.symbols[sid as int]
                    == prev.stack.table.symbols[sid as int]);
            } else {
                assert(!prev.stack.conflicts(last.1)) by {
                    if prev.stack.conflicts(last.1) {
                        let i = choose|i: int|
                            0 <= i < front.len() && (#[trigger] front[i]).1 == last.1;
                        assert(decls[i].1 == decls[j].1);
                    }
                }
            }
        }
    }
}

/// Resolving a function advances the state and leaves the open scopes
/// exactly as they were: the scope of the parameters is closed again.
pub proof fn lemma_resolve_func(st: PassView, func: Function)
    requires
        st.wf(),
    ensures
        advances(st, resolve_func_spec(st, func)),
        resolve_func_spec(st, func).stack.scopes == st.stack.scopes,
{
    let entered = st.push_scope();
    let declared = declare_args_spec(entered, func.proto.args@);
    let inner = resolve_expr_spec(declared, func.body);
    lemma_declare_all(entered, arg_decls(func.proto.args@), SymbolKind::Local);
    lemma_resolve_expr_advances(declared, func.body);
    lemma_advances_trans(entered, declared, inner);
    lemma_scoped_advances(st, inner);
}

/// Resolving the bodies of top-level items advances the state and leaves the
/// open scopes exactly as they were.
pub proof fn lemma_resolve_items(st: PassView, items: Seq<Item>)
    requires
        st.wf(),
    ensures
        advances(st, resolve_items_spec(st, items)),
        resolve_items_spec(st, items).stack.scopes == st.stack.scopes,
    decreases items.len(),
{
    if items.len() > 0 {
        let before = resolve_items_spec(st, items.drop_last());
        lemma_resolve_items(st, items.drop_last());
        match items.last().kind {
            ItemKind::Func(func) => {
                lemma_resolve_func(before, func);
                lemma_advances_trans(st, before, resolve_func_spec(before, func));
            },
            ItemKind::Extern(_) => {},
        }
    }
}

/// Resolving a module advances the state and leaves the open scopes exactly
/// as they were: a pass that starts without a scope ends without one, with a
/// well-formed table.
pub proof fn lemma_resolve_module(st: PassView, module: Module)
    requires
        st.wf(),
    ensures
        advances(st, resolve_module_spec(st, module)),
        resolve_module_spec(st, module).stack.scopes == st.stack.scopes,
{
    let entered = st.push_scope();
    let declared = declare_items_spec(entered, module.body@);
    let inner = resolve_items_spec(declared, module.body@);
    lemma_declare_all(entered, item_decls(module.body@), SymbolKind::Func);
    lemma_resolve_items(declared, module.body@);
    lemma_advances_trans(entered, declared, inner);
    lemma_scoped_advances(st, inner);
}

/// Forward reference: when the body of any top-level item of a module is
/// about to be resolved, the root scope binds the name of every top-level
/// item, of those that stand later in the module too. The name denotes a
/// function symbol declared by an item of that name, and a use of it adds no
/// error.
pub proof fn lemma_top_level_names_visible(st: PassView, items: Seq<Item>, k: int, i: int)
    requires
        st.wf(),
        0 <= k <= items.len(),
        0 <= i < items.len(),
    ensures
        ({
            let declared = declare_items_spec(st.push_scope(), items);
            let at = resolve_items_spec(declared, items.take(k));
            let name = item_name(items[i]);
            &&& at.stack.scopes.last().contains_key(name)
            &&& at.stack.lookup(name) == Some(at.stack.scopes.last()[name])
            &&& visible(at, name)
            &&& exists|j: int|
                0 <= j < items.len() && item_name(#[trigger] items[j]) == name
                    && at.stack.table.symbols[at.stack.scopes.last()[name] as int] == (SymbolInfo {
                    kind: SymbolKind::Func,
                    decl: items[j].nid,
                })
        }),
{
    let entered = st.push_scope();
    let decls = item_decls(items);
    let declared = declare_items_spec(entered, items);
    let at = resolve_items_spec(declared, items.take(k));
    let name = item_name(items[i]);
    lemma_declare_all(entered, decls, SymbolKind::Func);
    lemma_declare_all_symbols(entered, decls, SymbolKind::Func);
    lemma_resolve_items(declared, items.take(k));
    assert(decls[i].1 == name);
    let j = first_declaration(decls, i);
    lemma_first_declaration(decls, i);
    assert(!redeclares(entered.stack.scopes.last(), decls, j)) by {
        if redeclares(entered.stack.scopes.last(), decls, j) {
            let h = choose|h: int| 0 <= h < j && (#[trigger] decls[h]).1 == decls[j].1;
        }
    }
    let sid = declared.stack.scopes.last()[name];
    assert(at.stack.table.symbols[sid as int] == declared.stack.table.symbols[sid as int]);
    assert(item_name(items[j]) == name);
    assert(at.stack.scopes[at.stack.scopes.len() - 1].contains_key(name));
}

/// The index of the first declaration in `decls` with the name of the one at
/// index `i`.
pub open spec fn first_declaration(decls: Seq<(NodeId, Seq<char>)>, i: int) -> int
    decreases i,
{
    if i <= 0 {
        0
    } else if exists|h: int| 0 <= h < i && (#[trigger] decls[h]).1 == decls[i].1 {
        first_declaration(decls, choose|h: int| 0 <= h < i && (#[trigger] decls[h]).1 == decls[i].1)
    } else {
        i
    }
}

/// The first declaration of a name has that name and no declaration of it
/// stands before.
pub proof fn lemma_first_declaration(decls: Seq<(NodeId, Seq<char>)>, i: int)
    requires
        0 <= i < decls.len(),
    ensures
        0 <= first_declaration(decls, i) <= i,
        decls[first_declaration(decls, i)].1 == decls[i].1,
        forall|h: int|
            0 <= h < first_declaration(decls, i) ==> (#[trigger] decls[h]).1 != decls[i].1,
    decreases i,
{
    if i > 0 && exists|h: int| 0 <= h < i && (#[trigger] decls[h]).1 == decls[i].1 {
        let h = choose|h: int| 0 <= h < i && (#[trigger] decls[h]).1 == decls[i].1;
        lemma_first_declaration(decls, h);
    }
}

/// Redefinition at top level: a module in which two items have one name does
/// not resolve without error, whatever else it holds.
pub proof fn lemma_duplicate_item_is_error(st: PassView, module: Module, i: int, j: int)
    requires
        st.wf(),
        0 <= i < j < module.body@.len(),
        item_name(module.body@[i]) == item_name(module.body@[j]),
    ensures
        resolve_module_spec(st, module).errs.len() > st.errs.len(),
{
    let entered = st.push_scope();
    let decls = item_decls(module.body@);
    let declared = declare_items_spec(entered, module.body@);
    lemma_declare_all(entered, decls, SymbolKind::Func);
    lemma_conflict_count_zero(entered.stack.scopes.last(), decls);
    assert(redeclares(entered.stack.scopes.last(), decls, j)) by {
        assert(decls[i].1 == decls[j].1);
    }
    lemma_resolve_items(declared, module.body@);
}

/// Without a repeated name, declaring the top-level items of a module adds
/// no error, and with one it adds as many errors as there are repetitions.
pub proof fn lemma_top_level_conflicts(st: PassView, items: Seq<Item>)
    requires
        st.wf(),
    ensures
        declare_items_spec(st.push_scope(), items).errs.len() == st.errs.len() + conflict_count(
            Map::empty(),
            item_decls(items),
        ),
        all_fresh(Map::empty(), item_decls(items)) <==> declare_items_spec(
            st.push_scope(),
            items,
        ).errs == st.errs,
{
    let entered = st.push_scope();
    let decls = item_decls(items);
    lemma_declare_all(entered, decls, SymbolKind::Func);
    lemma_conflict_count_zero(Map::empty(), decls);
    let after = declare_items_spec(entered, items);
    if after.errs.len() == st.errs.len() {
        assert(after.errs =~= st.errs);
    }
}

} // verus!
