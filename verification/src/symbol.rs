//! Symbols, the table that binds syntax nodes to them, and the stack of
//! lexical scopes through which names are declared and found.

use crate::ast::{Ident, NodeId};
use std::collections::HashMap;
use vstd::prelude::*;

verus! {

broadcast use vstd::std_specs::hash::group_hash_axioms;

/// Identity of a declared symbol. Ids are handed out in order of declaration,
/// starting at zero, and never handed out twice.
pub type SymbolId = usize;

/// What kind of thing a symbol names.
#[derive(Clone, Copy, PartialEq, Eq, Debug, Structural)]
pub enum SymbolKind {
    /// A top-level function, defined in the module or declared for it.
    Func,
    /// A parameter or a variable bound inside a function body.
    Local,
}

/// What is recorded about a symbol when it is declared.
#[derive(Clone, Copy, PartialEq, Eq, Debug, Structural)]
pub struct SymbolInfo {
    pub kind: SymbolKind,
    /// The node that declares the symbol.
    pub decl: NodeId,
}

/// A declaration that was refused because the current scope already binds
/// its name.
#[derive(Clone, Copy, PartialEq, Eq, Debug, Structural)]
pub struct ScopedInsertErr {
    /// The node of the refused declaration.
    pub nid: NodeId,
    /// The symbol that the current scope already binds the name to.
    pub prior: SymbolId,
}

/// Mathematical content of a symbol table.
pub struct TableView {
    /// The declared symbols; a symbol's id is its index.
    pub symbols: Seq<SymbolInfo>,
    /// The id of the symbol of each node that declares or uses a name.
    pub bindings: Map<NodeId, nat>,
}

impl TableView {
    pub open spec fn empty() -> TableView {
        TableView { symbols: Seq::empty(), bindings: Map::empty() }
    }

    /// Every bound node is bound to a declared symbol, and the node that
    /// declares a symbol is itself bound.
    pub open spec fn wf(self) -> bool {
        &&& forall|nid: NodeId| #[trigger]
            self.bindings.contains_key(nid) ==> self.bindings[nid] < self.symbols.len()
        &&& forall|sid: int|
            0 <= sid < self.symbols.len() ==> self.bindings.contains_key(
                (#[trigger] self.symbols[sid]).decl,
            )
    }

    /// The table after a new symbol of kind `kind` is declared at node `nid`.
    pub open spec fn declare(self, nid: NodeId, kind: SymbolKind) -> TableView {
        TableView {
            symbols: self.symbols.push(SymbolInfo { kind, decl: nid }),
            bindings: self.bindings.insert(nid, self.symbols.len()),
        }
    }

    /// The table after node `nid` is bound to the existing symbol `sid`.
    pub open spec fn bind(self, nid: NodeId, sid: nat) -> TableView {
        TableView { symbols: self.symbols, bindings: self.bindings.insert(nid, sid) }
    }

    /// `self` holds everything that `earlier` holds about symbols: ids keep
    /// their meaning and no bound node is forgotten.
    pub open spec fn extends(self, earlier: TableView) -> bool {
        &&& earlier.symbols.len() <= self.symbols.len()
        &&& forall|sid: int|
            0 <= sid < earlier.symbols.len() ==> #[trigger] self.symbols[sid]
                == earlier.symbols[sid]
        &&& forall|nid: NodeId| #[trigger]
            earlier.bindings.contains_key(nid) ==> self.bindings.contains_key(nid)
    }
}

/// The result of name resolution: for every node that declares or uses a
/// name its symbol, and for every symbol its kind and declaring node.
pub struct ModSymTable {
    symbols: Vec<SymbolInfo>,
    bindings: HashMap<NodeId, SymbolId>,
}

impl View for ModSymTable {
    type V = TableView;

    closed spec fn view(&self) -> TableView {
        TableView {
            symbols: self.symbols@,
            bindings: Map::new(
                |nid: NodeId| self.bindings@.contains_key(nid),
                |nid: NodeId| self.bindings@[nid] as nat,
            ),
        }
    }
}

impl ModSymTable {
    /// A table without symbols.
    pub fn new() -> (table: ModSymTable)
        ensures
            table@ == TableView::empty(),
    {
        let table = ModSymTable { symbols: Vec::new(), bindings: HashMap::new() };
        assert(table@.bindings =~= Map::empty());
        table
    }

    /// How many symbols are declared.
    pub fn symbol_count(&self) -> (n: usize)
        ensures
            n == self@.symbols.len(),
    {
        self.symbols.len()
    }

    /// The symbol that node `nid` declares or refers to, if it does either.
    pub fn symbol_of(&self, nid: NodeId) -> (sid: Option<SymbolId>)
        ensures
            match sid {
                Some(sid) => self@.bindings.contains_key(nid) && self@.bindings[nid] == sid,
                None => !self@.bindings.contains_key(nid),
            },
    {
        match self.bindings.get(&nid) {
            Some(sid) => Some(*sid),
            None => None,
        }
    }

    /// Kind and declaring node of symbol `sid`, if there is such a symbol.
    pub fn symbol_info(&self, sid: SymbolId) -> (info: Option<SymbolInfo>)
        ensures
            info == (if sid < self@.symbols.len() {
                Some(self@.symbols[sid as int])
            } else {
                None
            }),
    {
        if sid < self.symbols.len() {
            Some(self.symbols[sid])
        } else {
            None
        }
    }
}

impl ModSymTable {
    /// Declares a new symbol at node `nid` and returns its id.
    fn declare(&mut self, nid: NodeId, kind: SymbolKind) -> (sid: SymbolId)
        ensures
            sid == old(self)@.symbols.len(),
            final(self)@ == old(self)@.declare(nid, kind),
    {
        let sid: SymbolId = self.symbols.len();
        self.symbols.push(SymbolInfo { kind, decl: nid });
        self.bindings.insert(nid, sid);
        assert(self@.bindings =~= old(self)@.declare(nid, kind).bindings);
        sid
    }

    /// Binds node `nid` to the symbol `sid`.
    fn bind(&mut self, nid: NodeId, sid: SymbolId)
        ensures
            final(self)@ == old(self)@.bind(nid, sid as nat),
    {
        self.bindings.insert(nid, sid);
        assert(self@.bindings =~= old(self)@.bind(nid, sid as nat).bindings);
    }
}

/// The names that one scope binds.
pub type ScopeView = Map<Seq<char>, nat>;

/// The symbol that `name` denotes under `scopes`, the innermost scope last:
/// the binding of the innermost scope that binds the name.
pub open spec fn lookup_in(scopes: Seq<ScopeView>, name: Seq<char>) -> Option<nat>
    decreases scopes.len(),
{
    if scopes.len() == 0 {
        None
    } else if scopes.last().contains_key(name) {
        Some(scopes.last()[name])
    } else {
        lookup_in(scopes.drop_last(), name)
    }
}

/// Whether `i` is the innermost scope of `scopes` that binds `name`.
pub open spec fn innermost_binding(scopes: Seq<ScopeView>, name: Seq<char>, i: int) -> bool {
    &&& 0 <= i < scopes.len()
    &&& scopes[i].contains_key(name)
    &&& forall|j: int| i < j < scopes.len() ==> !(#[trigger] scopes[j]).contains_key(name)
}

/// A lookup finds the binding of the innermost scope that binds the name,
/// whatever the scopes around it bind, and finds nothing exactly when no
/// scope binds the name.
pub proof fn lemma_lookup_in_innermost(scopes: Seq<ScopeView>, name: Seq<char>)
    ensures
        match lookup_in(scopes, name) {
            Some(sid) => exists|i: int| #[trigger]
                innermost_binding(scopes, name, i) && sid == scopes[i][name],
            None => forall|i: int|
                0 <= i < scopes.len() ==> !(#[trigger] scopes[i]).contains_key(name),
        },
    decreases scopes.len(),
{
    if scopes.len() == 0 {
    } else if scopes.last().contains_key(name) {
        assert(innermost_binding(scopes, name, scopes.len() - 1));
    } else {
        let outer = scopes.drop_last();
        lemma_lookup_in_innermost(outer, name);
        match lookup_in(outer, name) {
            Some(sid) => {
                let i = choose|i: int| #[trigger]
                    innermost_binding(outer, name, i) && sid == outer[i][name];
                assert forall|j: int| i < j < scopes.len() implies !(#[trigger] scopes[j])
                    .contains_key(name) by {
                    if j < outer.len() {
                        assert(outer[j] == scopes[j]);
                    }
                }
                assert(innermost_binding(scopes, name, i));
            },
            None => {
                assert forall|i: int| 0 <= i < scopes.len() implies !(#[trigger] scopes[i])
                    .contains_key(name) by {
                    if i < outer.len() {
                        assert(outer[i] == scopes[i]);
                    }
                }
            },
        }
    }
}

/// Mathematical content of a scope stack.
pub struct StackView {
    /// The open scopes, the outermost first.
    pub scopes: Seq<ScopeView>,
    /// The table under construction.
    pub table: TableView,
}

impl StackView {
    pub open spec fn empty() -> StackView {
        StackView { scopes: Seq::empty(), table: TableView::empty() }
    }

    /// The table is well formed and every name in scope denotes a declared
    /// symbol.
    pub open spec fn wf(self) -> bool {
        &&& self.table.wf()
        &&& forall|i: int, name: Seq<char>|
            0 <= i < self.scopes.len() && #[trigger] self.scopes[i].contains_key(name)
                ==> self.scopes[i][name] < self.table.symbols.len()
    }

    pub open spec fn push_scope(self) -> StackView {
        StackView { scopes: self.scopes.push(Map::empty()), table: self.table }
    }

    pub open spec fn pop_scope(self) -> StackView {
        StackView { scopes: self.scopes.drop_last(), table: self.table }
    }

    /// Whether the current scope already binds `name`.
    pub open spec fn conflicts(self, name: Seq<char>) -> bool {
        self.scopes.len() > 0 && self.scopes.last().contains_key(name)
    }

    /// The stack after a symbol of kind `kind` named `name` is declared at
    /// node `nid` in the current scope.
    pub open spec fn declare(self, nid: NodeId, name: Seq<char>, kind: SymbolKind) -> StackView {
        StackView {
            scopes: self.scopes.update(
                self.scopes.len() - 1,
                self.scopes.last().insert(name, self.table.symbols.len()),
            ),
            table: self.table.declare(nid, kind),
        }
    }

    /// The stack after node `nid` is bound to the existing symbol `sid`.
    pub open spec fn bind(self, nid: NodeId, sid: nat) -> StackView {
        StackView { scopes: self.scopes, table: self.table.bind(nid, sid) }
    }

    pub open spec fn lookup(self, name: Seq<char>) -> Option<nat> {
        lookup_in(self.scopes, name)
    }

    /// A declaration in a well-formed stack leaves it well formed.
    pub proof fn lemma_declare_wf(self, nid: NodeId, name: Seq<char>, kind: SymbolKind)
        requires
            self.wf(),
            self.scopes.len() > 0,
        ensures
            self.declare(nid, name, kind).wf(),
            self.declare(nid, name, kind).table.extends(self.table),
    {
        let after = self.declare(nid, name, kind);
        assert forall|sid: int| 0 <= sid < after.table.symbols.len() implies
            after.table.bindings.contains_key((#[trigger] after.table.symbols[sid]).decl) by {
            if sid < self.table.symbols.len() {
                assert(after.table.symbols[sid] == self.table.symbols[sid]);
            }
        }
        assert forall|i: int, n: Seq<char>|
            0 <= i < after.scopes.len() && #[trigger] after.scopes[i].contains_key(n) implies
            after.scopes[i][n] < after.table.symbols.len() by {
            if i < self.scopes.len() - 1 || n != name {
                assert(self.scopes[i].contains_key(n));
            }
        }
    }

    /// Binding a node to a declared symbol leaves a well-formed stack well
    /// formed.
    pub proof fn lemma_bind_wf(self, nid: NodeId, sid: nat)
        requires
            self.wf(),
            sid < self.table.symbols.len(),
        ensures
            self.bind(nid, sid).wf(),
            self.bind(nid, sid).table.extends(self.table),
    {
    }

    /// What a lookup finds in a well-formed stack is a declared symbol.
    pub proof fn lemma_lookup_declared(self, name: Seq<char>)
        requires
            self.wf(),
        ensures
            self.lookup(name) matches Some(sid) ==> sid < self.table.symbols.len(),
    {
        lemma_lookup_in_innermost(self.scopes, name);
    }
}

struct Binding {
    name: String,
    sid: SymbolId,
}

struct Scope {
    names: Vec<Binding>,
}

/// The mapping that a list of bindings stands for; a later binding of a name
/// overrides an earlier one.
spec fn scope_map(names: Seq<Binding>) -> ScopeView
    decreases names.len(),
{
    if names.len() == 0 {
        Map::empty()
    } else {
        scope_map(names.drop_last()).insert(names.last().name@, names.last().sid as nat)
    }
}

impl Scope {
    spec fn view(&self) -> ScopeView {
        scope_map(self.names@)
    }

    fn new() -> (scope: Scope)
        ensures
            scope@ == Map::<Seq<char>, nat>::empty(),
    {
        Scope { names: Vec::new() }
    }

    fn find(&self, name: &String) -> (found: Option<SymbolId>)
        ensures
            match found {
                Some(sid) => self@.contains_key(name@) && self@[name@] == sid,
                None => !self@.contains_key(name@),
            },
    {
        let mut k: usize = self.names.len();
        assert(self.names@.take(k as int) =~= self.names@);
        while k > 0
            invariant
                k <= self.names.len(),
                self@.contains_key(name@) == scope_map(self.names@.take(k as int)).contains_key(
                    name@,
                ),
                self@.contains_key(name@) ==> self@[name@] == scope_map(
                    self.names@.take(k as int),
                )[name@],
            decreases k,
        {
            assert(self.names@.take(k as int).drop_last() =~= self.names@.take(k - 1));
            k = k - 1;
            if self.names[k].name == *name {
                return Some(self.names[k].sid);
            }
        }
        None
    }

    fn bind(&mut self, name: &String, sid: SymbolId)
        ensures
            final(self)@ == old(self)@.insert(name@, sid as nat),
    {
        self.names.push(Binding { name: name.clone(), sid });
        assert(self.names@.drop_last() =~= old(self).names@);
    }
}

/// The lexical scopes that are open at one point of a walk over a module,
/// together with the symbol table that the walk fills.
pub struct ScopedSymbolStack {
    scopes: Vec<Scope>,
    table: ModSymTable,
}

impl View for ScopedSymbolStack {
    type V = StackView;

    closed spec fn view(&self) -> StackView {
        StackView {
            scopes: Seq::new(self.scopes@.len(), |i: int| self.scopes@[i]@),
            table: self.table@,
        }
    }
}

impl ScopedSymbolStack {
    /// A stack with no open scope and an empty table.
    pub fn new() -> (stack: ScopedSymbolStack)
        ensures
            stack@ == StackView::empty(),
            stack@.wf(),
    {
        let stack = ScopedSymbolStack { scopes: Vec::new(), table: ModSymTable::new() };
        assert(stack@.scopes =~= Seq::empty());
        stack
    }

    /// How many scopes are open.
    pub fn depth(&self) -> (n: usize)
        ensures
            n == self@.scopes.len(),
    {
        self.scopes.len()
    }

    /// Kind and declaring node of symbol `sid`, if there is such a symbol.
    pub fn symbol_info(&self, sid: SymbolId) -> (info: Option<SymbolInfo>)
        ensures
            info == (if sid < self@.table.symbols.len() {
                Some(self@.table.symbols[sid as int])
            } else {
                None
            }),
    {
        self.table.symbol_info(sid)
    }

    /// Opens a new, empty scope inside the current one.
    pub fn push_scope(&mut self)
        ensures
            final(self)@ == old(self)@.push_scope(),
            old(self)@.wf() ==> final(self)@.wf(),
    {
        self.scopes.push(Scope::new());
        assert(self@.scopes =~= old(self)@.scopes.push(Map::empty()));
    }

    /// Closes the current scope. Its names are no longer found; the symbols
    /// declared in it stay in the table.
    pub fn pop_scope(&mut self)
        requires
            old(self)@.scopes.len() > 0,
        ensures
            final(self)@ == old(self)@.pop_scope(),
            old(self)@.wf() ==> final(self)@.wf(),
    {
        self.scopes.pop();
        assert(self@.scopes =~= old(self)@.scopes.drop_last());
    }

    /// Finds the symbol that `span` denotes here: the binding of its text in
    /// the innermost open scope that has one.
    pub fn lookup(&self, span: &Ident) -> (found: Option<SymbolId>)
        ensures
            match found {
                Some(sid) => self@.lookup(span@) == Some(sid as nat),
                None => self@.lookup(span@).is_none(),
            },
            self@.wf() ==> (found matches Some(sid) ==> sid < self@.table.symbols.len()),
    {
        proof {
            if self@.wf() {
                self@.lemma_lookup_declared(span@);
            }
        }
        let mut k: usize = self.scopes.len();
        assert(self@.scopes.take(k as int) =~= self@.scopes);
        while k > 0
            invariant
                k <= self.scopes.len(),
                self@.lookup(span@) == lookup_in(self@.scopes.take(k as int), span@),
            decreases k,
        {
            assert(self@.scopes.take(k as int).drop_last() =~= self@.scopes.take(k - 1));
            k = k - 1;
            let found = self.scopes[k].find(&span.span);
            if found.is_some() {
                return found;
            }
        }
        None
    }
}

impl ScopedSymbolStack {
    fn insert(&mut self, nid: NodeId, span: &Ident, kind: SymbolKind) -> (res: Result<
        SymbolId,
        ScopedInsertErr,
    >)
        requires
            old(self)@.scopes.len() > 0,
        ensures
            match res {
                Ok(sid) => {
                    &&& !old(self)@.conflicts(span@)
                    &&& sid == old(self)@.table.symbols.len()
                    &&& final(self)@ == old(self)@.declare(nid, span@, kind)
                },
                Err(e) => {
                    &&& old(self)@.conflicts(span@)
                    &&& e.nid == nid
                    &&& e.prior == old(self)@.scopes.last()[span@]
                    &&& final(self)@ == old(self)@
                },
            },
            old(self)@.wf() ==> final(self)@.wf(),
    {
        proof {
            if old(self)@.wf() {
                old(self)@.lemma_declare_wf(nid, span@, kind);
            }
        }
        let top: usize = self.scopes.len() - 1;
        match self.scopes[top].find(&span.span) {
            Some(prior) => Err(ScopedInsertErr { nid, prior }),
            None => {
                let sid = self.table.declare(nid, kind);
                self.scopes[top].bind(&span.span, sid);
                assert(self@.scopes =~= old(self)@.declare(nid, span@, kind).scopes);
                Ok(sid)
            },
        }
    }

    /// Declares a function named by `span` at node `nid` in the current
    /// scope. Where the current scope already binds the name, nothing changes
    /// and the conflict is returned; a binding in an enclosing scope is no
    /// conflict.
    pub fn insert_func(&mut self, nid: NodeId, span: &Ident) -> (res: Result<
        SymbolId,
        ScopedInsertErr,
    >)
        requires
            old(self)@.scopes.len() > 0,
        ensures
            match res {
                Ok(sid) => {
                    &&& !old(self)@.conflicts(span@)
                    &&& sid == old(self)@.table.symbols.len()
                    &&& final(self)@ == old(self)@.declare(nid, span@, SymbolKind::Func)
                },
                Err(e) => {
                    &&& old(self)@.conflicts(span@)
                    &&& e.nid == nid
                    &&& e.prior == old(self)@.scopes.last()[span@]
                    &&& final(self)@ == old(self)@
                },
            },
            old(self)@.wf() ==> final(self)@.wf(),
    {
        self.insert(nid, span, SymbolKind::Func)
    }

    /// Declares a local named by `span` at node `nid` in the current scope,
    /// under the same conflict rule as `insert_func`.
    pub fn insert_local(&mut self, nid: NodeId, span: &Ident) -> (res: Result<
        SymbolId,
        ScopedInsertErr,
    >)
        requires
            old(self)@.scopes.len() > 0,
        ensures
            match res {
                Ok(sid) => {
                    &&& !old(self)@.conflicts(span@)
                    &&& sid == old(self)@.table.symbols.len()
                    &&& final(self)@ == old(self)@.declare(nid, span@, SymbolKind::Local)
                },
                Err(e) => {
                    &&& old(self)@.conflicts(span@)
                    &&& e.nid == nid
                    &&& e.prior == old(self)@.scopes.last()[span@]
                    &&& final(self)@ == old(self)@
                },
            },
            old(self)@.wf() ==> final(self)@.wf(),
    {
        self.insert(nid, span, SymbolKind::Local)
    }

    /// Binds the node `nid`, a use of a name, to the symbol `sid` that the
    /// name was found to denote. No scope changes.
    pub fn insert_local_reuse(&mut self, nid: NodeId, sid: SymbolId)
        ensures
            final(self)@ == old(self)@.bind(nid, sid as nat),
            old(self)@.wf() && sid < old(self)@.table.symbols.len() ==> final(self)@.wf(),
    {
        proof {
            if old(self)@.wf() && sid < old(self)@.table.symbols.len() {
                old(self)@.lemma_bind_wf(nid, sid as nat);
            }
        }
        self.table.bind(nid, sid);
        assert(self@.scopes =~= old(self)@.scopes);
    }

    /// Gives up the stack for the table it has built, once every scope has
    /// been closed.
    pub fn finish_resolve(self) -> (table: ModSymTable)
        requires
            self@.scopes.len() == 0,
        ensures
            table@ == self@.table,
            self@.wf() ==> table@.wf(),
    {
        self.table
    }
}

} // verus!
