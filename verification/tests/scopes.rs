use name_resolver::ast::Ident;
use name_resolver::symbol::{
    ModSymTable, ScopedInsertErr, ScopedSymbolStack, SymbolInfo, SymbolKind,
};

fn ident(name: &str) -> Ident {
    Ident { span: name.to_string() }
}

#[test]
fn new_stack_is_empty() {
    let stack = ScopedSymbolStack::new();
    assert_eq!(stack.depth(), 0);
    assert_eq!(stack.lookup(&ident("x")), None);
    assert_eq!(stack.symbol_info(0), None);
    let table = stack.finish_resolve();
    assert_eq!(table.symbol_count(), 0);
}

#[test]
fn new_table_is_empty() {
    let table = ModSymTable::new();
    assert_eq!(table.symbol_count(), 0);
    assert_eq!(table.symbol_of(7), None);
    assert_eq!(table.symbol_info(0), None);
}

#[test]
fn push_and_pop_change_the_depth() {
    let mut stack = ScopedSymbolStack::new();
    stack.push_scope();
    stack.push_scope();
    assert_eq!(stack.depth(), 2);
    stack.pop_scope();
    assert_eq!(stack.depth(), 1);
    stack.pop_scope();
    assert_eq!(stack.depth(), 0);
}

#[test]
fn symbol_ids_count_up_from_zero() {
    let mut stack = ScopedSymbolStack::new();
    stack.push_scope();
    assert_eq!(stack.insert_func(10, &ident("f")), Ok(0));
    assert_eq!(stack.insert_local(11, &ident("x")), Ok(1));
    stack.push_scope();
    assert_eq!(stack.insert_local(12, &ident("y")), Ok(2));
    stack.pop_scope();
    assert_eq!(stack.insert_func(13, &ident("g")), Ok(3));
    assert_eq!(stack.symbol_info(0), Some(SymbolInfo { kind: SymbolKind::Func, decl: 10 }));
    assert_eq!(stack.symbol_info(1), Some(SymbolInfo { kind: SymbolKind::Local, decl: 11 }));
    assert_eq!(stack.symbol_info(2), Some(SymbolInfo { kind: SymbolKind::Local, decl: 12 }));
    assert_eq!(stack.symbol_info(3), Some(SymbolInfo { kind: SymbolKind::Func, decl: 13 }));
    assert_eq!(stack.symbol_info(4), None);
}

#[test]
fn conflict_in_the_current_scope_changes_nothing() {
    let mut stack = ScopedSymbolStack::new();
    stack.push_scope();
    assert_eq!(stack.insert_local(10, &ident("x")), Ok(0));
    assert_eq!(stack.insert_local(11, &ident("x")), Err(ScopedInsertErr { nid: 11, prior: 0 }));
    assert_eq!(stack.insert_func(12, &ident("x")), Err(ScopedInsertErr { nid: 12, prior: 0 }));
    assert_eq!(stack.lookup(&ident("x")), Some(0));
    // no id was spent on the refused declarations
    assert_eq!(stack.insert_local(13, &ident("y")), Ok(1));
    stack.pop_scope();
    let table = stack.finish_resolve();
    assert_eq!(table.symbol_count(), 2);
    assert_eq!(table.symbol_of(10), Some(0));
    assert_eq!(table.symbol_of(11), None);
    assert_eq!(table.symbol_of(12), None);
    assert_eq!(table.symbol_of(13), Some(1));
}

#[test]
fn binding_in_an_enclosing_scope_is_no_conflict() {
    let mut stack = ScopedSymbolStack::new();
    stack.push_scope();
    assert_eq!(stack.insert_local(10, &ident("x")), Ok(0));
    stack.push_scope();
    assert_eq!(stack.insert_local(11, &ident("x")), Ok(1));
    assert_eq!(stack.lookup(&ident("x")), Some(1));
    stack.pop_scope();
    assert_eq!(stack.lookup(&ident("x")), Some(0));
}

#[test]
fn lookup_goes_through_enclosing_scopes() {
    let mut stack = ScopedSymbolStack::new();
    stack.push_scope();
    assert_eq!(stack.insert_func(10, &ident("f")), Ok(0));
    stack.push_scope();
    stack.push_scope();
    assert_eq!(stack.insert_local(11, &ident("x")), Ok(1));
    assert_eq!(stack.lookup(&ident("f")), Some(0));
    assert_eq!(stack.lookup(&ident("x")), Some(1));
    assert_eq!(stack.lookup(&ident("g")), None);
    assert_eq!(stack.lookup(&ident("")), None);
}

#[test]
fn popped_names_are_gone_and_their_symbols_stay() {
    let mut stack = ScopedSymbolStack::new();
    stack.push_scope();
    stack.push_scope();
    assert_eq!(stack.insert_local(10, &ident("x")), Ok(0));
    stack.pop_scope();
    assert_eq!(stack.lookup(&ident("x")), None);
    assert_eq!(stack.symbol_info(0), Some(SymbolInfo { kind: SymbolKind::Local, decl: 10 }));
    stack.push_scope();
    assert_eq!(stack.insert_local(11, &ident("x")), Ok(1));
    stack.pop_scope();
    stack.pop_scope();
    let table = stack.finish_resolve();
    assert_eq!(table.symbol_of(10), Some(0));
    assert_eq!(table.symbol_of(11), Some(1));
}

#[test]
fn reuse_binds_a_node_and_touches_no_scope() {
    let mut stack = ScopedSymbolStack::new();
    stack.push_scope();
    assert_eq!(stack.insert_local(10, &ident("x")), Ok(0));
    stack.insert_local_reuse(20, 0);
    stack.insert_local_reuse(21, 0);
    assert_eq!(stack.lookup(&ident("x")), Some(0));
    assert_eq!(stack.insert_local(11, &ident("y")), Ok(1));
    stack.pop_scope();
    let table = stack.finish_resolve();
    assert_eq!(table.symbol_of(20), Some(0));
    assert_eq!(table.symbol_of(21), Some(0));
    assert_eq!(table.symbol_of(10), Some(0));
    assert_eq!(table.symbol_of(22), None);
    assert_eq!(table.symbol_count(), 2);
}

#[test]
fn names_differ_by_any_character() {
    let mut stack = ScopedSymbolStack::new();
    stack.push_scope();
    assert_eq!(stack.insert_local(10, &ident("ab")), Ok(0));
    assert_eq!(stack.insert_local(11, &ident("a")), Ok(1));
    assert_eq!(stack.insert_local(12, &ident("abc")), Ok(2));
    assert_eq!(stack.insert_local(13, &ident("aB")), Ok(3));
    assert_eq!(stack.lookup(&ident("ab")), Some(0));
    assert_eq!(stack.lookup(&ident("a")), Some(1));
    assert_eq!(stack.lookup(&ident("abc")), Some(2));
    assert_eq!(stack.lookup(&ident("aB")), Some(3));
}
