use name_resolver::ast::{
    Arg, BinOp, Expr, ExprKind, Function, Ident, Item, ItemKind, Literal, Module, NodeId,
    Prototype, VarDecl,
};
use name_resolver::name_resolve::{AstNameResolver, AstResolutionErr};

use name_resolver::symbol::{ModSymTable, SymbolInfo, SymbolKind};

fn ident(name: &str) -> Ident {
    Ident { span: name.to_string() }
}

fn expr(nid: NodeId, kind: ExprKind) -> Expr {
    Expr { nid, kind: Box::new(kind) }
}

fn var(nid: NodeId, name: &str) -> Expr {
    expr(nid, ExprKind::Var(ident(name)))
}

fn lit(nid: NodeId, value: i64) -> Expr {
    expr(nid, ExprKind::Lit(Literal::Int(value)))
}

fn decl(nid: NodeId, name: &str, value: Expr) -> Expr {
    expr(nid, ExprKind::Decl(VarDecl { bound: ident(name), value }))
}

fn block(nid: NodeId, body: Vec<Expr>) -> Expr {
    expr(nid, ExprKind::Block(body))
}

fn call(nid: NodeId, callee: Expr, args: Vec<Expr>) -> Expr {
    expr(nid, ExprKind::Call { callee, args })
}

fn proto(name: &str, args: Vec<(NodeId, &str)>) -> Prototype {
    Prototype {
        name: ident(name),
        args: args.into_iter().map(|(nid, name)| Arg { nid, name: ident(name) }).collect(),
    }
}

fn func(nid: NodeId, name: &str, args: Vec<(NodeId, &str)>, body: Expr) -> Item {
    Item { nid, kind: ItemKind::Func(Function { proto: proto(name, args), body }) }
}

fn foreign(nid: NodeId, name: &str, args: Vec<(NodeId, &str)>) -> Item {
    Item { nid, kind: ItemKind::Extern(proto(name, args)) }
}

fn resolve(items: Vec<Item>) -> Result<ModSymTable, Vec<AstResolutionErr>> {
    AstNameResolver::default().run_pass(&Module { body: items })
}

fn resolved(items: Vec<Item>) -> ModSymTable {
    match resolve(items) {
        Ok(table) => table,
        Err(errs) => panic!("unexpected errors: {:?}", errs),
    }
}

fn errors(items: Vec<Item>) -> Vec<AstResolutionErr> {
    match resolve(items) {
        Ok(_) => panic!("resolution succeeded"),
        Err(errs) => errs,
    }
}

#[test]
fn empty_module_gives_empty_table() {
    let table = resolved(vec![]);
    assert_eq!(table.symbol_count(), 0);
    assert_eq!(table.symbol_of(0), None);
    assert_eq!(table.symbol_info(0), None);
}

#[test]
fn inner_declaration_shadows_outer() {
    // func f() { x = 1; { x = 2; x } x }
    let body = block(
        10,
        vec![
            decl(11, "x", lit(12, 1)),
            block(13, vec![decl(14, "x", lit(15, 2)), var(16, "x")]),
            var(17, "x"),
        ],
    );
    let table = resolved(vec![func(1, "f", vec![], body)]);
    let outer = table.symbol_of(11).unwrap();
    let inner = table.symbol_of(14).unwrap();
    assert_ne!(outer, inner);
    assert_eq!(table.symbol_of(16), Some(inner));
    assert_eq!(table.symbol_of(17), Some(outer));
    assert_eq!(table.symbol_info(inner), Some(SymbolInfo { kind: SymbolKind::Local, decl: 14 }));
    assert_eq!(table.symbol_info(outer), Some(SymbolInfo { kind: SymbolKind::Local, decl: 11 }));
}

fn caller_a(nid: NodeId) -> Item {
    func(nid, "a", vec![], block(10, vec![call(11, var(12, "b"), vec![])]))
}

fn callee_b(nid: NodeId) -> Item {
    func(nid, "b", vec![], block(20, vec![lit(21, 0)]))
}

#[test]
fn forward_reference_to_later_function() {
    let table = resolved(vec![caller_a(1), callee_b(2)]);
    let b = table.symbol_of(2).unwrap();
    assert_eq!(b, 1);
    assert_eq!(table.symbol_of(12), Some(b));
    assert_eq!(table.symbol_info(b), Some(SymbolInfo { kind: SymbolKind::Func, decl: 2 }));
}

#[test]
fn reference_to_earlier_function() {
    let table = resolved(vec![callee_b(2), caller_a(1)]);
    let b = table.symbol_of(2).unwrap();
    assert_eq!(b, 0);
    assert_eq!(table.symbol_of(12), Some(b));
    assert_eq!(table.symbol_info(b), Some(SymbolInfo { kind: SymbolKind::Func, decl: 2 }));
}

#[test]
fn item_order_does_not_change_what_a_use_denotes() {
    let forward = resolved(vec![caller_a(1), callee_b(2)]);
    let backward = resolved(vec![callee_b(2), caller_a(1)]);
    let in_forward = forward.symbol_info(forward.symbol_of(12).unwrap());
    let in_backward = backward.symbol_info(backward.symbol_of(12).unwrap());
    assert_eq!(in_forward, in_backward);
    assert_eq!(forward.symbol_count(), backward.symbol_count());
}

#[test]
fn mutual_recursion_resolves() {
    let a = func(1, "a", vec![], call(11, var(12, "b"), vec![]));
    let b = func(2, "b", vec![], call(21, var(22, "a"), vec![]));
    let table = resolved(vec![a, b]);
    assert_eq!(table.symbol_of(12), table.symbol_of(2));
    assert_eq!(table.symbol_of(22), table.symbol_of(1));
}

#[test]
fn duplicate_top_level_function_is_one_error() {
    let errs = errors(vec![
        func(1, "f", vec![], lit(10, 0)),
        func(2, "f", vec![], lit(20, 0)),
    ]);
    assert_eq!(errs, vec![AstResolutionErr::Redefinition { nid: 2, prior: 1 }]);
}

#[test]
fn function_and_foreign_declaration_share_one_namespace() {
    let errs = errors(vec![foreign(1, "f", vec![]), func(2, "f", vec![], lit(20, 0))]);
    assert_eq!(errs, vec![AstResolutionErr::Redefinition { nid: 2, prior: 1 }]);
}

#[test]
fn third_declaration_conflicts_with_the_first() {
    let errs = errors(vec![
        foreign(1, "f", vec![]),
        foreign(2, "f", vec![]),
        foreign(3, "f", vec![]),
    ]);
    assert_eq!(
        errs,
        vec![
            AstResolutionErr::Redefinition { nid: 2, prior: 1 },
            AstResolutionErr::Redefinition { nid: 3, prior: 1 },
        ]
    );
}

#[test]
fn duplicate_local_in_one_block_is_error() {
    let body = block(10, vec![decl(11, "x", lit(12, 1)), decl(13, "x", lit(14, 2))]);
    let errs = errors(vec![func(1, "f", vec![], body)]);
    assert_eq!(errs, vec![AstResolutionErr::Redefinition { nid: 13, prior: 11 }]);
}

#[test]
fn same_name_in_child_block_is_no_error() {
    let body = block(
        10,
        vec![decl(11, "x", lit(12, 1)), block(13, vec![decl(14, "x", lit(15, 2))])],
    );
    let table = resolved(vec![func(1, "f", vec![], body)]);
    assert_eq!(table.symbol_count(), 3);
    assert_ne!(table.symbol_of(11), table.symbol_of(14));
}

#[test]
fn duplicate_parameter_is_error() {
    let errs = errors(vec![func(1, "f", vec![(2, "p"), (3, "q"), (4, "p")], lit(10, 0))]);
    assert_eq!(errs, vec![AstResolutionErr::Redefinition { nid: 4, prior: 2 }]);
}

#[test]
fn parameter_may_shadow_function() {
    let table = resolved(vec![func(1, "f", vec![(2, "f")], var(10, "f"))]);
    assert_eq!(table.symbol_of(10), table.symbol_of(2));
    assert_ne!(table.symbol_of(10), table.symbol_of(1));
}

#[test]
fn local_in_body_block_may_shadow_parameter() {
    let body = block(10, vec![decl(11, "p", var(12, "p")), var(13, "p")]);
    let table = resolved(vec![func(1, "f", vec![(2, "p")], body)]);
    assert_eq!(table.symbol_of(12), table.symbol_of(2));
    assert_eq!(table.symbol_of(13), table.symbol_of(11));
    assert_ne!(table.symbol_of(11), table.symbol_of(2));
}

#[test]
fn local_in_bare_body_conflicts_with_parameter() {
    let errs = errors(vec![func(1, "f", vec![(2, "p")], decl(11, "p", lit(12, 0)))]);
    assert_eq!(errs, vec![AstResolutionErr::Redefinition { nid: 11, prior: 2 }]);
}

#[test]
fn declaration_does_not_see_itself() {
    let body = block(10, vec![decl(11, "x", var(12, "x"))]);
    let errs = errors(vec![func(1, "f", vec![], body)]);
    assert_eq!(errs, vec![AstResolutionErr::Unresolved { nid: 12 }]);
}

#[test]
fn initializer_sees_the_outer_declaration() {
    let body = block(
        10,
        vec![decl(11, "x", lit(12, 1)), block(13, vec![decl(14, "x", var(15, "x"))])],
    );
    let table = resolved(vec![func(1, "f", vec![], body)]);
    assert_eq!(table.symbol_of(15), table.symbol_of(11));
    assert_ne!(table.symbol_of(15), table.symbol_of(14));
}

#[test]
fn three_uses_share_one_symbol() {
    let body = block(
        10,
        vec![decl(11, "x", lit(12, 1)), var(13, "x"), var(14, "x"), var(15, "x")],
    );
    let table = resolved(vec![func(1, "f", vec![], body)]);
    let x = table.symbol_of(11).unwrap();
    assert_eq!(x, 1);
    assert_eq!(table.symbol_of(13), Some(x));
    assert_eq!(table.symbol_of(14), Some(x));
    assert_eq!(table.symbol_of(15), Some(x));
    assert_eq!(table.symbol_info(x), Some(SymbolInfo { kind: SymbolKind::Local, decl: 11 }));
    assert_eq!(table.symbol_count(), 2);
}

#[test]
fn sibling_blocks_may_reuse_a_name() {
    let body = block(
        10,
        vec![
            block(11, vec![decl(12, "x", lit(13, 1)), var(14, "x")]),
            block(15, vec![decl(16, "x", lit(17, 2)), var(18, "x")]),
        ],
    );
    let table = resolved(vec![func(1, "f", vec![], body)]);
    assert_eq!(table.symbol_of(14), table.symbol_of(12));
    assert_eq!(table.symbol_of(18), table.symbol_of(16));
    assert_ne!(table.symbol_of(12), table.symbol_of(16));
}

#[test]
fn name_is_gone_after_its_block() {
    let body = block(10, vec![block(11, vec![decl(12, "x", lit(13, 1))]), var(14, "x")]);
    let errs = errors(vec![func(1, "f", vec![], body)]);
    assert_eq!(errs, vec![AstResolutionErr::Unresolved { nid: 14 }]);
}

#[test]
fn use_before_declaration_in_block_is_unresolved() {
    let body = block(10, vec![var(11, "x"), decl(12, "x", lit(13, 1))]);
    let errs = errors(vec![func(1, "f", vec![], body)]);
    assert_eq!(errs, vec![AstResolutionErr::Unresolved { nid: 11 }]);
}

#[test]
fn parameters_of_one_function_are_gone_in_the_next() {
    let errs = errors(vec![
        func(1, "f", vec![(2, "p")], var(10, "p")),
        func(3, "g", vec![], var(20, "p")),
    ]);
    assert_eq!(errs, vec![AstResolutionErr::Unresolved { nid: 20 }]);
}

#[test]
fn end_to_end_foreign_and_function() {
    // foo(a) is declared; func bar(b) { y = b; if y { foo(y) } else { foo(b) } }
    let body = block(
        4,
        vec![
            decl(5, "y", var(6, "b")),
            expr(
                7,
                ExprKind::If {
                    cond: var(8, "y"),
                    if_body: block(9, vec![call(10, var(11, "foo"), vec![var(12, "y")])]),
                    else_body: block(13, vec![call(14, var(15, "foo"), vec![var(16, "b")])]),
                },
            ),
        ],
    );
    let table = resolved(vec![
        foreign(1, "foo", vec![(2, "a")]),
        func(3, "bar", vec![(17, "b")], body),
    ]);
    let foo = table.symbol_of(1).unwrap();
    let bar = table.symbol_of(3).unwrap();
    let b = table.symbol_of(17).unwrap();
    let y = table.symbol_of(5).unwrap();
    assert_eq!((foo, bar, b, y), (0, 1, 2, 3));
    assert_eq!(table.symbol_count(), 4);
    assert_eq!(table.symbol_of(8), Some(y));
    assert_eq!(table.symbol_of(12), Some(y));
    assert_eq!(table.symbol_of(6), Some(b));
    assert_eq!(table.symbol_of(16), Some(b));
    assert_ne!(y, b);
    assert_eq!(table.symbol_of(11), Some(foo));
    assert_eq!(table.symbol_of(15), Some(foo));
    assert_eq!(table.symbol_info(foo), Some(SymbolInfo { kind: SymbolKind::Func, decl: 1 }));
    assert_eq!(table.symbol_info(bar), Some(SymbolInfo { kind: SymbolKind::Func, decl: 3 }));
    assert_eq!(table.symbol_info(b), Some(SymbolInfo { kind: SymbolKind::Local, decl: 17 }));
    assert_eq!(table.symbol_info(y), Some(SymbolInfo { kind: SymbolKind::Local, decl: 5 }));
    // the parameter of a declaration without a body is not declared, and
    // nodes that name nothing are not in the table
    assert_eq!(table.symbol_of(2), None);
    assert_eq!(table.symbol_of(4), None);
    assert_eq!(table.symbol_of(7), None);
    assert_eq!(table.symbol_of(10), None);
}

#[test]
fn all_errors_are_collected_in_order() {
    let errs = errors(vec![
        func(1, "f", vec![(2, "p"), (3, "p")], block(10, vec![var(11, "u"), var(12, "v")])),
        func(4, "f", vec![], var(20, "w")),
    ]);
    assert_eq!(
        errs,
        vec![
            AstResolutionErr::Redefinition { nid: 4, prior: 1 },
            AstResolutionErr::Redefinition { nid: 3, prior: 2 },
            AstResolutionErr::Unresolved { nid: 11 },
            AstResolutionErr::Unresolved { nid: 12 },
            AstResolutionErr::Unresolved { nid: 20 },
        ]
    );
}

#[test]
fn body_of_refused_function_is_still_resolved() {
    let errs = errors(vec![
        func(1, "f", vec![], lit(10, 0)),
        func(2, "f", vec![], block(20, vec![decl(21, "x", lit(22, 0)), decl(23, "x", lit(24, 0))])),
    ]);
    assert_eq!(
        errs,
        vec![
            AstResolutionErr::Redefinition { nid: 2, prior: 1 },
            AstResolutionErr::Redefinition { nid: 23, prior: 21 },
        ]
    );
}

#[test]
fn call_resolves_arguments_before_callee() {
    let body = call(10, var(11, "callee"), vec![var(12, "first"), var(13, "second")]);
    let errs = errors(vec![func(1, "f", vec![], body)]);
    assert_eq!(
        errs,
        vec![
            AstResolutionErr::Unresolved { nid: 12 },
            AstResolutionErr::Unresolved { nid: 13 },
            AstResolutionErr::Unresolved { nid: 11 },
        ]
    );
}

#[test]
fn binary_resolves_left_then_right() {
    let body = expr(10, ExprKind::Binary { lhs: var(11, "l"), rhs: var(12, "r"), op: BinOp::Add });
    let errs = errors(vec![func(1, "f", vec![], body)]);
    assert_eq!(
        errs,
        vec![AstResolutionErr::Unresolved { nid: 11 }, AstResolutionErr::Unresolved { nid: 12 }]
    );
}

#[test]
fn conditional_resolves_condition_and_both_branches() {
    let body = expr(
        10,
        ExprKind::If { cond: var(11, "c"), if_body: var(12, "t"), else_body: var(13, "e") },
    );
    let errs = errors(vec![func(1, "f", vec![], body)]);
    assert_eq!(
        errs,
        vec![
            AstResolutionErr::Unresolved { nid: 11 },
            AstResolutionErr::Unresolved { nid: 12 },
            AstResolutionErr::Unresolved { nid: 13 },
        ]
    );
}

#[test]
fn conditional_with_constant_condition_resolves_both_branches() {
    let body = expr(
        10,
        ExprKind::If {
            cond: expr(11, ExprKind::Lit(Literal::Bool(false))),
            if_body: var(12, "p"),
            else_body: var(13, "p"),
        },
    );
    let table = resolved(vec![func(1, "f", vec![(2, "p")], body)]);
    assert_eq!(table.symbol_of(12), Some(1));
    assert_eq!(table.symbol_of(13), Some(1));
}

#[test]
fn loop_resolves_condition_then_body() {
    let body = expr(10, ExprKind::While { cond: var(11, "c"), while_body: var(12, "b") });
    let errs = errors(vec![func(1, "f", vec![], body)]);
    assert_eq!(
        errs,
        vec![AstResolutionErr::Unresolved { nid: 11 }, AstResolutionErr::Unresolved { nid: 12 }]
    );
}

#[test]
fn loop_binds_uses_in_condition_and_body() {
    let body = expr(
        10,
        ExprKind::While { cond: var(11, "p"), while_body: block(12, vec![var(13, "p")]) },
    );
    let table = resolved(vec![func(1, "f", vec![(2, "p")], body)]);
    assert_eq!(table.symbol_of(11), Some(1));
    assert_eq!(table.symbol_of(13), Some(1));
}

#[test]
fn binding_group_sees_earlier_bindings() {
    // let a = 1, b = a in b
    let body = expr(
        10,
        ExprKind::Let {
            bound: vec![decl(11, "a", lit(12, 1)), decl(13, "b", var(14, "a"))],
            let_body: var(15, "b"),
        },
    );
    let table = resolved(vec![func(1, "f", vec![], body)]);
    assert_eq!(table.symbol_of(14), table.symbol_of(11));
    assert_eq!(table.symbol_of(15), table.symbol_of(13));
    assert_eq!(table.symbol_of(11), Some(1));
    assert_eq!(table.symbol_of(13), Some(2));
}

#[test]
fn binding_group_does_not_see_later_bindings() {
    // let b = a, a = 1 in b
    let body = expr(
        10,
        ExprKind::Let {
            bound: vec![decl(11, "b", var(12, "a")), decl(13, "a", lit(14, 1))],
            let_body: var(15, "b"),
        },
    );
    let errs = errors(vec![func(1, "f", vec![], body)]);
    assert_eq!(errs, vec![AstResolutionErr::Unresolved { nid: 12 }]);
}

#[test]
fn binding_group_refuses_a_repeated_name() {
    let body = expr(
        10,
        ExprKind::Let {
            bound: vec![decl(11, "a", lit(12, 1)), decl(13, "a", lit(14, 2))],
            let_body: lit(15, 0),
        },
    );
    let errs = errors(vec![func(1, "f", vec![], body)]);
    assert_eq!(errs, vec![AstResolutionErr::Redefinition { nid: 13, prior: 11 }]);
}

#[test]
fn binding_group_may_shadow_and_is_discarded() {
    let group = expr(
        12,
        ExprKind::Let { bound: vec![decl(13, "p", lit(14, 1))], let_body: var(15, "p") },
    );
    let body = block(10, vec![var(11, "p"), group, var(16, "p")]);
    let table = resolved(vec![func(1, "f", vec![(2, "p")], body)]);
    assert_eq!(table.symbol_of(11), table.symbol_of(2));
    assert_eq!(table.symbol_of(15), table.symbol_of(13));
    assert_eq!(table.symbol_of(16), table.symbol_of(2));
    assert_ne!(table.symbol_of(13), table.symbol_of(2));
}

#[test]
fn names_are_compared_by_text() {
    let body = block(10, vec![decl(11, "value", lit(12, 1)), var(13, "value"), var(14, "Value")]);
    let errs = errors(vec![func(1, "f", vec![], body)]);
    assert_eq!(errs, vec![AstResolutionErr::Unresolved { nid: 14 }]);
}

#[test]
fn every_bound_node_denotes_a_declared_symbol() {
    let body = block(
        10,
        vec![
            decl(11, "x", var(12, "p")),
            block(
                13,
                vec![decl(14, "x", var(15, "x")), call(16, var(17, "f"), vec![var(18, "x")])],
            ),
        ],
    );
    let table = resolved(vec![func(1, "f", vec![(2, "p")], body)]);
    for nid in 0..20u64 {
        if let Some(sid) = table.symbol_of(nid) {
            let info = table.symbol_info(sid).unwrap();
            assert_eq!(table.symbol_of(info.decl), Some(sid));
        }
    }
    for sid in 0..table.symbol_count() {
        let info = table.symbol_info(sid).unwrap();
        assert_eq!(table.symbol_of(info.decl), Some(sid));
    }
    assert_eq!(table.symbol_info(table.symbol_count()), None);
}

#[test]
fn pass_driven_by_hand_matches_run_pass() {
    let items = vec![caller_a(1), callee_b(2)];
    let mut resolver = AstNameResolver::default();
    assert_eq!(resolver.depth(), 0);
    resolver.push_scope();
    resolver.resolve_top_level_names(&items);
    assert_eq!(resolver.lookup(&ident("a")), Some(0));
    assert_eq!(resolver.lookup(&ident("b")), Some(1));
    assert_eq!(resolver.lookup(&ident("c")), None);
    resolver.resolve_top_level_contents(&items);
    assert_eq!(resolver.depth(), 1);
    assert!(resolver.errors().is_empty());
    resolver.pop_scope();
    assert_eq!(resolver.depth(), 0);
    assert_eq!(resolver.lookup(&ident("a")), None);
}

#[test]
fn resolve_expr_declares_in_the_current_scope() {
    let mut resolver = AstNameResolver::default();
    resolver.push_scope();
    resolver.resolve_expr(&decl(1, "x", lit(2, 0)));
    assert_eq!(resolver.lookup(&ident("x")), Some(0));
    resolver.resolve_expr(&block(3, vec![decl(4, "y", var(5, "x"))]));
    assert_eq!(resolver.lookup(&ident("y")), None);
    assert_eq!(resolver.depth(), 1);
    resolver.resolve_expr(&var(6, "y"));
    assert_eq!(resolver.errors(), &vec![AstResolutionErr::Unresolved { nid: 6 }]);
}

#[test]
fn resolve_func_contents_closes_its_scope() {
    let mut resolver = AstNameResolver::default();
    let f = Function { proto: proto("f", vec![(1, "p")]), body: var(2, "p") };
    resolver.resolve_func_contents(&f);
    assert_eq!(resolver.depth(), 0);
    assert!(resolver.errors().is_empty());
    assert_eq!(resolver.lookup(&ident("p")), None);
}
