//! Documents: handles to replica stores kept in a registry, transaction
//! arbitration over each store, root collections, event subscriptions, and the
//! life cycle of nested documents.

use vstd::prelude::*;
use crate::block::{Content, DeleteSet, ID, Item, Parent, StateVector, TypeKind, Update};
use crate::options::{is_random_guid, options_with, Options};
use crate::store::{consistent, select, BlockStore, Snapshot};

verus! {

/// Identity of a document instance: which store it is. Two handles with the same
/// guid may still be distinct instances.
#[derive(Debug, Clone, Copy, PartialEq, Eq, Structural)]
pub struct DocAddr(pub usize);

/// A handle to one document instance. Copies of a handle alias the same store.
#[derive(Debug, Clone, Copy, PartialEq, Eq, Structural)]
pub struct Doc {
    pub addr: usize,
}

/// Who holds a store at the moment.
#[derive(Debug, Clone, Copy, PartialEq, Eq, Structural)]
pub enum Mode {
    Free,
    /// This many read-only transactions.
    Shared(u64),
    /// One read-write transaction.
    Exclusive,
}

/// Why a transaction could not be acquired.
#[derive(Debug, Clone, Copy, PartialEq, Eq, Structural)]
pub enum TransactionAcqError {
    /// A read-write transaction is active.
    SharedAcqFailed,
    /// Another transaction, read-only or read-write, is active.
    ExclusiveAcqFailed,
    /// The document the structure belonged to is gone.
    DocumentDropped,
}

/// The kinds of events a document exposes.
#[derive(Debug, Clone, Copy, PartialEq, Eq, Structural)]
pub enum EventKind {
    UpdateV1,
    UpdateV2,
    TransactionCleanup,
    AfterTransaction,
    Subdocs,
    Destroy,
}

/// A registered callback slot; the caller keeps the callback under `id`.
#[derive(Debug, Clone, Copy, PartialEq, Eq, Structural)]
pub struct Subscription {
    pub doc: Doc,
    pub id: u64,
    pub kind: EventKind,
}

/// The subscriptions of one document, in the order they were made.
#[derive(Debug)]
pub struct EventHub {
    pub next_id: u64,
    pub subs: Vec<(u64, EventKind)>,
}

/// A root collection of a document, by name.
#[derive(Debug)]
pub struct RootRef {
    pub doc: Doc,
    pub name: String,
    pub kind: TypeKind,
}

/// The state of one document instance.
#[derive(Debug)]
pub struct Store {
    pub options: Options,
    pub blocks: BlockStore,
    /// Root collections, by name, with the kind each was first created as.
    pub roots: Vec<(String, TypeKind)>,
    pub mode: Mode,
    /// For a nested document: the document and the item that hold it.
    pub parent: Option<(usize, ID)>,
    /// Nested documents registered with this one.
    pub subdocs: Vec<usize>,
    /// Which instance each item holding a nested document refers to.
    pub slots: Vec<(ID, usize)>,
    /// Subscriptions; created on the first one, torn down on destroy.
    pub events: Option<EventHub>,
}

/// Every document instance of the process, by identity.
#[derive(Debug)]
pub struct DocRegistry {
    stores: Vec<Store>,
}

impl DocRegistry {
    pub closed spec fn stores(&self) -> Seq<Store> {
        self.stores@
    }

    /// Whether `d` is an instance of this registry.
    pub open spec fn has(&self, d: Doc) -> bool {
        d.id() < self.stores().len()
    }

    /// The store of `d`.
    pub open spec fn store(&self, d: Doc) -> Store {
        self.stores()[d.id() as int]
    }

    /// Every store's history is well formed.
    pub open spec fn wf(&self) -> bool {
        forall|i: int| 0 <= i < self.stores().len() ==> (#[trigger] self.stores()[i]).blocks.wf()
    }

    /// An empty registry.
    pub fn new() -> (r: DocRegistry)
        ensures
            r.wf(),
            r.stores().len() == 0,
    {
        DocRegistry { stores: Vec::new() }
    }

    /// The store of `d`.
    pub fn get(&self, d: Doc) -> (r: &Store)
        requires
            self.has(d),
        ensures
            *r == self.store(d),
    {
        &self.stores[d.addr]
    }

    fn add_store(&mut self, options: Options, parent: Option<(usize, ID)>) -> (d: Doc)
        requires
            old(self).wf(),
            old(self).stores().len() < usize::MAX,
        ensures
            final(self).wf(),
            d.id() == old(self).stores().len(),
            final(self).stores() == old(self).stores().push(final(self).store(d)),
            final(self).store(d).options == options,
            final(self).store(d).parent == parent,
            final(self).store(d).mode == Mode::Free,
            final(self).store(d).events is None,
            final(self).store(d).subdocs@.len() == 0,
            final(self).store(d).slots@.len() == 0,
            final(self).store(d).blocks.items().len() == 0,
    {
        let addr = self.stores.len();
        self.stores.push(
            Store {
                options,
                blocks: BlockStore::new(),
                roots: Vec::new(),
                mode: Mode::Free,
                parent,
                subdocs: Vec::new(),
                slots: Vec::new(),
                events: None,
            },
        );
        Doc { addr }
    }
}

impl DocAddr {
    /// The identity of a document instance.
    pub fn new(doc: &Doc) -> (r: DocAddr)
        ensures
            r.0 == doc.id(),
    {
        DocAddr(doc.addr)
    }
}

impl Doc {
    /// The identity number of this instance.
    pub open spec fn id(&self) -> usize {
        self.addr
    }

    /// A new document with random replica identifier and guid.
    pub fn new(reg: &mut DocRegistry) -> (r: Doc)
        requires
            old(reg).wf(),
            old(reg).stores().len() < usize::MAX,
        ensures
            final(reg).wf(),
            r.id() == old(reg).stores().len(),
            final(reg).stores().len() == old(reg).stores().len() + 1,
            final(reg).store(r).options@ == options_with(
                final(reg).store(r).options.client_id,
                final(reg).store(r).options@.guid,
            ),
            final(reg).store(r).options.client_id < u32::MAX,
            is_random_guid(final(reg).store(r).options@.guid),
            final(reg).store(r).mode == Mode::Free,
    {
        Doc::with_options(reg, Options::default())
    }

    /// A new document with a given replica identifier. Callers keep identifiers of
    /// communicating replicas distinct.
    pub fn with_client_id(reg: &mut DocRegistry, client_id: u64) -> (r: Doc)
        requires
            old(reg).wf(),
            old(reg).stores().len() < usize::MAX,
        ensures
            final(reg).wf(),
            r.id() == old(reg).stores().len(),
            final(reg).stores().len() == old(reg).stores().len() + 1,
            final(reg).store(r).options@ == options_with(client_id, final(reg).store(r).options@.guid),
            is_random_guid(final(reg).store(r).options@.guid),
            final(reg).store(r).mode == Mode::Free,
    {
        Doc::with_options(reg, Options::with_client_id(client_id))
    }

    /// A new document with the given options.
    pub fn with_options(reg: &mut DocRegistry, options: Options) -> (r: Doc)
        requires
            old(reg).wf(),
            old(reg).stores().len() < usize::MAX,
        ensures
            final(reg).wf(),
            r.id() == old(reg).stores().len(),
            final(reg).stores().len() == old(reg).stores().len() + 1,
            forall|i: int| 0 <= i < old(reg).stores().len() ==> final(reg).stores()[i] == old(reg).stores()[i],
            final(reg).store(r).options == options,
            final(reg).store(r).parent is None,
            final(reg).store(r).mode == Mode::Free,
            final(reg).store(r).events is None,
            final(reg).store(r).blocks.items().len() == 0,
    {
        reg.add_store(options, None)
    }

    /// The replica identifier.
    pub fn client_id(&self, reg: &DocRegistry) -> (r: u64)
        requires
            reg.has(*self),
        ensures
            r == reg.store(*self).options.client_id,
    {
        reg.stores[self.addr].options.client_id
    }

    /// The globally unique identifier.
    pub fn guid<'a>(&self, reg: &'a DocRegistry) -> (r: &'a String)
        requires
            reg.has(*self),
        ensures
            *r == reg.store(*self).options.guid,
    {
        &reg.stores[self.addr].options.guid
    }

    /// The options.
    pub fn options<'a>(&self, reg: &'a DocRegistry) -> (r: &'a Options)
        requires
            reg.has(*self),
        ensures
            *r == reg.store(*self).options,
    {
        &reg.stores[self.addr].options
    }

    /// Whether two handles refer to the same instance.
    pub fn ptr_eq(a: &Doc, b: &Doc) -> (r: bool)
        ensures
            r == (a.id() == b.id()),
    {
        a.addr == b.addr
    }

    /// The identity of this instance.
    pub fn addr(&self) -> (r: DocAddr)
        ensures
            r.0 == self.id(),
    {
        DocAddr::new(self)
    }

    /// The raw identity number of this instance.
    pub fn into_raw(self) -> (r: usize)
        ensures
            r == self.id(),
    {
        self.addr
    }

    /// The raw identity number of this instance.
    pub fn as_raw(self) -> (r: usize)
        ensures
            r == self.id(),
    {
        self.addr
    }

    /// The handle of the instance with raw identity `raw`.
    pub fn from_raw(raw: usize) -> (r: Doc)
        ensures
            r.id() == raw,
    {
        Doc { addr: raw }
    }
}

/// A read-only transaction on one document.
#[derive(Debug, Clone, Copy, PartialEq, Eq, Structural)]
pub struct Transaction {
    pub doc: Doc,
}

/// A read-write transaction on one document, with what it changed so far.
#[derive(Debug)]
pub struct TransactionMut {
    pub doc: Doc,
    /// What the caller tagged this transaction with.
    pub origin: Option<Vec<u8>>,
    /// Number of integrated items when the transaction began.
    pub before_len: usize,
    /// State vector when the transaction began.
    pub before_state: StateVector,
    /// Deletions made by this transaction.
    pub delete_set: DeleteSet,
    /// Nested documents that became referenced.
    pub added: Vec<Doc>,
    /// Nested document instances that stopped being referenced.
    pub removed: Vec<Doc>,
    /// Nested documents whose loading was requested.
    pub loaded: Vec<Doc>,
}

/// The registry with the mode of `d`'s store set to `m` and nothing else changed.
pub open spec fn with_mode(stores: Seq<Store>, d: Doc, m: Mode) -> Seq<Store> {
    stores.update(d.id() as int, Store { mode: m, ..stores[d.id() as int] })
}

impl DocRegistry {
    fn set_mode(&mut self, d: Doc, m: Mode)
        requires
            old(self).wf(),
            old(self).has(d),
        ensures
            final(self).wf(),
            final(self).stores() == with_mode(old(self).stores(), d, m),
    {
        self.stores[d.addr].mode = m;
        assert(self.stores@ =~= with_mode(old(self).stores(), d, m));
    }
}

impl Doc {
    /// Acquires a read-only transaction: fails while a read-write one is active.
    pub fn try_transact(&self, reg: &mut DocRegistry) -> (r: Result<Transaction, TransactionAcqError>)
        requires
            old(reg).wf(),
            old(reg).has(*self),
        ensures
            final(reg).wf(),
            match old(reg).store(*self).mode {
                Mode::Exclusive => r == Err::<Transaction, TransactionAcqError>(
                    TransactionAcqError::SharedAcqFailed,
                ) && final(reg).stores() == old(reg).stores(),
                Mode::Free => r == Ok::<Transaction, TransactionAcqError>(Transaction { doc: *self })
                    && final(reg).stores() == with_mode(old(reg).stores(), *self, Mode::Shared(1)),
                Mode::Shared(n) => if n < u64::MAX {
                    r == Ok::<Transaction, TransactionAcqError>(Transaction { doc: *self })
                        && final(reg).stores() == with_mode(
                        old(reg).stores(),
                        *self,
                        Mode::Shared((n + 1) as u64),
                    )
                } else {
                    r == Err::<Transaction, TransactionAcqError>(
                        TransactionAcqError::SharedAcqFailed,
                    ) && final(reg).stores() == old(reg).stores()
                },
            },
    {
        match reg.stores[self.addr].mode {
            Mode::Exclusive => Err(TransactionAcqError::SharedAcqFailed),
            Mode::Free => {
                reg.set_mode(*self, Mode::Shared(1));
                Ok(Transaction { doc: *self })
            },
            Mode::Shared(n) => {
                if n < u64::MAX {
                    reg.set_mode(*self, Mode::Shared(n + 1));
                    Ok(Transaction { doc: *self })
                } else {
                    Err(TransactionAcqError::SharedAcqFailed)
                }
            },
        }
    }

    /// Acquires a read-only transaction; the caller knows no read-write one is active.
    pub fn transact(&self, reg: &mut DocRegistry) -> (r: Transaction)
        requires
            old(reg).wf(),
            old(reg).has(*self),
            old(reg).store(*self).mode != Mode::Exclusive,
            old(reg).store(*self).mode != Mode::Shared(u64::MAX),
        ensures
            final(reg).wf(),
            r.doc == *self,
            final(reg).store(*self).mode != Mode::Free,
            final(reg).stores() == with_mode(old(reg).stores(), *self, final(reg).store(*self).mode),
    {
        match self.try_transact(reg) {
            Ok(t) => t,
            Err(_) => {
                assert(false);
                Transaction { doc: *self }
            },
        }
    }

    /// Acquires a read-write transaction: fails while any other transaction is active.
    pub fn try_transact_mut(&self, reg: &mut DocRegistry) -> (r: Result<TransactionMut, TransactionAcqError>)
        requires
            old(reg).wf(),
            old(reg).has(*self),
        ensures
            final(reg).wf(),
            old(reg).store(*self).mode == Mode::Free ==> r is Ok && final(reg).stores() == with_mode(
                old(reg).stores(),
                *self,
                Mode::Exclusive,
            ),
            old(reg).store(*self).mode != Mode::Free ==> r == Err::<TransactionMut, TransactionAcqError>(
                TransactionAcqError::ExclusiveAcqFailed,
            ) && final(reg).stores() == old(reg).stores(),
            r matches Ok(t) ==> t.fresh(*self, old(reg).store(*self)) && t.origin is None,
    {
        self.try_transact_mut_origin(reg, None)
    }

    /// Acquires a read-write transaction tagged with `origin`.
    pub fn try_transact_mut_with(&self, reg: &mut DocRegistry, origin: Vec<u8>) -> (r: Result<TransactionMut, TransactionAcqError>)
        requires
            old(reg).wf(),
            old(reg).has(*self),
        ensures
            final(reg).wf(),
            old(reg).store(*self).mode == Mode::Free ==> r is Ok && final(reg).stores() == with_mode(
                old(reg).stores(),
                *self,
                Mode::Exclusive,
            ),
            old(reg).store(*self).mode != Mode::Free ==> r == Err::<TransactionMut, TransactionAcqError>(
                TransactionAcqError::ExclusiveAcqFailed,
            ) && final(reg).stores() == old(reg).stores(),
            r matches Ok(t) ==> t.fresh(*self, old(reg).store(*self)) && t.origin == Some(origin),
    {
        self.try_transact_mut_origin(reg, Some(origin))
    }

    fn try_transact_mut_origin(&self, reg: &mut DocRegistry, origin: Option<Vec<u8>>) -> (r: Result<TransactionMut, TransactionAcqError>)
        requires
            old(reg).wf(),
            old(reg).has(*self),
        ensures
            final(reg).wf(),
            old(reg).store(*self).mode == Mode::Free ==> r is Ok && final(reg).stores() == with_mode(
                old(reg).stores(),
                *self,
                Mode::Exclusive,
            ),
            old(reg).store(*self).mode != Mode::Free ==> r == Err::<TransactionMut, TransactionAcqError>(
                TransactionAcqError::ExclusiveAcqFailed,
            ) && final(reg).stores() == old(reg).stores(),
            r matches Ok(t) ==> t.fresh(*self, old(reg).store(*self)) && t.origin == origin,
    {
        if reg.stores[self.addr].mode != Mode::Free {
            return Err(TransactionAcqError::ExclusiveAcqFailed);
        }
        let before_len = reg.stores[self.addr].blocks.len();
        let before_state = reg.stores[self.addr].blocks.state_vector();
        reg.set_mode(*self, Mode::Exclusive);
        Ok(
            TransactionMut {
                doc: *self,
                origin,
                before_len,
                before_state,
                delete_set: DeleteSet::new(),
                added: Vec::new(),
                removed: Vec::new(),
                loaded: Vec::new(),
            },
        )
    }

    /// Acquires a read-write transaction; the caller knows no other one is active.
    pub fn transact_mut(&self, reg: &mut DocRegistry) -> (r: TransactionMut)
        requires
            old(reg).wf(),
            old(reg).has(*self),
            old(reg).store(*self).mode == Mode::Free,
        ensures
            final(reg).wf(),
            final(reg).stores() == with_mode(old(reg).stores(), *self, Mode::Exclusive),
            r.fresh(*self, old(reg).store(*self)),
            r.origin is None,
    {
        match self.try_transact_mut(reg) {
            Ok(t) => t,
            Err(_) => {
                assert(false);
                TransactionMut {
                    doc: *self,
                    origin: None,
                    before_len: 0,
                    before_state: StateVector::new(),
                    delete_set: DeleteSet::new(),
                    added: Vec::new(),
                    removed: Vec::new(),
                    loaded: Vec::new(),
                }
            },
        }
    }
}

impl Doc {
    /// Acquires a read-write transaction tagged with `origin`; the caller knows no other
    /// one is active.
    pub fn transact_mut_with(&self, reg: &mut DocRegistry, origin: Vec<u8>) -> (r: TransactionMut)
        requires
            old(reg).wf(),
            old(reg).has(*self),
            old(reg).store(*self).mode == Mode::Free,
        ensures
            final(reg).wf(),
            final(reg).stores() == with_mode(old(reg).stores(), *self, Mode::Exclusive),
            r.fresh(*self, old(reg).store(*self)),
            r.origin == Some(origin),
    {
        match self.try_transact_mut_with(reg, origin) {
            Ok(t) => t,
            Err(_) => {
                assert(false);
                TransactionMut {
                    doc: *self,
                    origin: None,
                    before_len: 0,
                    before_state: StateVector::new(),
                    delete_set: DeleteSet::new(),
                    added: Vec::new(),
                    removed: Vec::new(),
                    loaded: Vec::new(),
                }
            },
        }
    }
}

impl Transaction {
    /// Ends a read-only transaction.
    pub fn end(self, reg: &mut DocRegistry)
        requires
            old(reg).wf(),
            old(reg).has(self.doc),
            old(reg).store(self.doc).mode matches Mode::Shared(n) && n >= 1,
        ensures
            final(reg).wf(),
            final(reg).stores() == with_mode(
                old(reg).stores(),
                self.doc,
                match old(reg).store(self.doc).mode {
                    Mode::Shared(n) => if n == 1 {
                        Mode::Free
                    } else {
                        Mode::Shared((n - 1) as u64)
                    },
                    _ => Mode::Free,
                },
            ),
    {
        match reg.stores[self.doc.addr].mode {
            Mode::Shared(n) => {
                if n == 1 {
                    reg.set_mode(self.doc, Mode::Free);
                } else {
                    reg.set_mode(self.doc, Mode::Shared(n - 1));
                }
            },
            _ => {},
        }
    }
}

impl TransactionMut {
    /// A transaction just begun on `doc`, whose store was `s`.
    pub open spec fn fresh(&self, doc: Doc, s: Store) -> bool {
        &&& self.doc == doc
        &&& self.before_len == s.blocks.items().len()
        &&& forall|c: u64| #[trigger] self.before_state.get(c) == s.blocks.state().get(c)
        &&& forall|id: ID| !self.delete_set.has(id)
        &&& self.added@.len() == 0
        &&& self.removed@.len() == 0
        &&& self.loaded@.len() == 0
    }
}

/// Every store but the one at `i` is unchanged, and none was added.
pub open spec fn others_same(before: Seq<Store>, after: Seq<Store>, i: int) -> bool {
    &&& after.len() == before.len()
    &&& forall|j: int| 0 <= j < before.len() && j != i ==> after[j] == before[j]
}

/// The subscriptions of a store, in the order they were made.
pub open spec fn subs_of(s: Store) -> Seq<(u64, EventKind)> {
    match s.events {
        Some(h) => h.subs@,
        None => Seq::empty(),
    }
}

/// Whether a subscription can be made: no transaction is active and subscription
/// numbers are not exhausted.
pub open spec fn can_subscribe(s: Store) -> bool {
    s.mode == Mode::Free && !(s.events matches Some(h) && h.next_id == u64::MAX)
}

/// Whether a root collection named `name` exists.
pub open spec fn has_root(s: Store, name: Seq<char>) -> bool {
    exists|i: int| 0 <= i < s.roots@.len() && (#[trigger] s.roots@[i]).0@ == name
}

impl Doc {
    fn get_or_insert(&self, reg: &mut DocRegistry, name: String, kind: TypeKind) -> (r: RootRef)
        requires
            old(reg).wf(),
            old(reg).has(*self),
            old(reg).store(*self).mode == Mode::Free,
        ensures
            final(reg).wf(),
            r.doc == *self,
            r.name == name,
            r.kind == kind,
            has_root(final(reg).store(*self), name@),
            others_same(old(reg).stores(), final(reg).stores(), self.id() as int),
            final(reg).store(*self) == (Store { roots: final(reg).store(*self).roots, ..old(reg).store(*self) }),
    {
        let i = self.addr;
        let mut j: usize = 0;
        while j < reg.stores[i].roots.len()
            invariant
                reg.stores() == old(reg).stores(),
                reg.wf(),
                reg.has(*self),
                i == self.id(),
                j <= reg.store(*self).roots@.len(),
            decreases reg.store(*self).roots@.len() - j,
        {
            if reg.stores[i].roots[j].0 == name {
                assert(reg.store(*self).roots@[j as int].0@ == name@);
                return RootRef { doc: *self, name, kind };
            }
            j = j + 1;
        }
        let ghost before = reg.stores();
        let entry = (name.clone(), kind);
        reg.stores[i].roots.push(entry);
        proof {
            let s = reg.store(*self);
            assert(s.roots@[s.roots@.len() - 1].0@ == name@);
            assert(reg.stores() =~= before.update(i as int, s));
            assert(reg.stores()[i as int].blocks == before[i as int].blocks);
        }
        RootRef { doc: *self, name, kind }
    }

    /// The text collection named `name`, created if missing. Requires the document to be
    /// free of transactions.
    pub fn get_or_insert_text(&self, reg: &mut DocRegistry, name: String) -> (r: RootRef)
        requires
            old(reg).wf(),
            old(reg).has(*self),
            old(reg).store(*self).mode == Mode::Free,
        ensures
            final(reg).wf(),
            r.doc == *self && r.name == name && r.kind == TypeKind::Text,
            has_root(final(reg).store(*self), name@),
            others_same(old(reg).stores(), final(reg).stores(), self.id() as int),
    {
        self.get_or_insert(reg, name, TypeKind::Text)
    }

    /// The map collection named `name`, created if missing.
    pub fn get_or_insert_map(&self, reg: &mut DocRegistry, name: String) -> (r: RootRef)
        requires
            old(reg).wf(),
            old(reg).has(*self),
            old(reg).store(*self).mode == Mode::Free,
        ensures
            final(reg).wf(),
            r.doc == *self && r.name == name && r.kind == TypeKind::KeyMap,
            has_root(final(reg).store(*self), name@),
            others_same(old(reg).stores(), final(reg).stores(), self.id() as int),
    {
        self.get_or_insert(reg, name, TypeKind::KeyMap)
    }

    /// The array collection named `name`, created if missing.
    pub fn get_or_insert_array(&self, reg: &mut DocRegistry, name: String) -> (r: RootRef)
        requires
            old(reg).wf(),
            old(reg).has(*self),
            old(reg).store(*self).mode == Mode::Free,
        ensures
            final(reg).wf(),
            r.doc == *self && r.name == name && r.kind == TypeKind::Array,
            has_root(final(reg).store(*self), name@),
            others_same(old(reg).stores(), final(reg).stores(), self.id() as int),
    {
        self.get_or_insert(reg, name, TypeKind::Array)
    }

    /// The XML fragment collection named `name`, created if missing.
    pub fn get_or_insert_xml_fragment(&self, reg: &mut DocRegistry, name: String) -> (r: RootRef)
        requires
            old(reg).wf(),
            old(reg).has(*self),
            old(reg).store(*self).mode == Mode::Free,
        ensures
            final(reg).wf(),
            r.doc == *self && r.name == name && r.kind == TypeKind::XmlFragment,
            has_root(final(reg).store(*self), name@),
            others_same(old(reg).stores(), final(reg).stores(), self.id() as int),
    {
        self.get_or_insert(reg, name, TypeKind::XmlFragment)
    }

    /// Subscribes to events of `kind`: fails while a transaction is active. The
    /// subscription list is created on the first subscription.
    pub fn observe(&self, reg: &mut DocRegistry, kind: EventKind) -> (r: Result<Subscription, TransactionAcqError>)
        requires
            old(reg).wf(),
            old(reg).has(*self),
        ensures
            final(reg).wf(),
            others_same(old(reg).stores(), final(reg).stores(), self.id() as int),
            old(reg).store(*self).mode != Mode::Free ==> r == Err::<Subscription, TransactionAcqError>(
                TransactionAcqError::ExclusiveAcqFailed,
            ) && final(reg).stores() == old(reg).stores(),
            r matches Ok(s) ==> s.doc == *self && s.kind == kind && subs_of(final(reg).store(*self))
                == subs_of(old(reg).store(*self)).push((s.id, kind)),
            r is Err ==> final(reg).stores() == old(reg).stores(),
            can_subscribe(old(reg).store(*self)) ==> r is Ok,
            final(reg).store(*self).blocks == old(reg).store(*self).blocks,
            final(reg).store(*self).mode == old(reg).store(*self).mode,
    {
        let i = self.addr;
        if reg.stores[i].mode != Mode::Free {
            return Err(TransactionAcqError::ExclusiveAcqFailed);
        }
        let ghost before = reg.stores();
        let mut hub = match reg.stores[i].events.take() {
            Some(h) => h,
            None => EventHub { next_id: 0, subs: Vec::new() },
        };
        if hub.next_id == u64::MAX {
            reg.stores[i].events = Some(hub);
            assert(reg.stores() =~= before);
            return Err(TransactionAcqError::ExclusiveAcqFailed);
        }
        let id = hub.next_id;
        hub.next_id = hub.next_id + 1;
        hub.subs.push((id, kind));
        reg.stores[i].events = Some(hub);
        proof {
            assert(reg.stores()[i as int].blocks == before[i as int].blocks);
        }
        Ok(Subscription { doc: *self, id, kind })
    }

    /// Subscribes to updates, delivered in the first wire version.
    pub fn observe_update_v1(&self, reg: &mut DocRegistry) -> (r: Result<Subscription, TransactionAcqError>)
        requires
            old(reg).wf(),
            old(reg).has(*self),
        ensures
            final(reg).wf(),
            old(reg).store(*self).mode != Mode::Free ==> r is Err,
            can_subscribe(old(reg).store(*self)) ==> r is Ok,
            r matches Ok(s) ==> s.kind == EventKind::UpdateV1 && subs_of(final(reg).store(*self))
                == subs_of(old(reg).store(*self)).push((s.id, s.kind)),
    {
        self.observe(reg, EventKind::UpdateV1)
    }

    /// Subscribes to updates, delivered in the second wire version.
    pub fn observe_update_v2(&self, reg: &mut DocRegistry) -> (r: Result<Subscription, TransactionAcqError>)
        requires
            old(reg).wf(),
            old(reg).has(*self),
        ensures
            final(reg).wf(),
            old(reg).store(*self).mode != Mode::Free ==> r is Err,
            can_subscribe(old(reg).store(*self)) ==> r is Ok,
            r matches Ok(s) ==> s.kind == EventKind::UpdateV2 && subs_of(final(reg).store(*self))
                == subs_of(old(reg).store(*self)).push((s.id, s.kind)),
    {
        self.observe(reg, EventKind::UpdateV2)
    }

    /// Subscribes to the state vectors and delete set of each committed change.
    pub fn observe_transaction_cleanup(&self, reg: &mut DocRegistry) -> (r: Result<Subscription, TransactionAcqError>)
        requires
            old(reg).wf(),
            old(reg).has(*self),
        ensures
            final(reg).wf(),
            old(reg).store(*self).mode != Mode::Free ==> r is Err,
            can_subscribe(old(reg).store(*self)) ==> r is Ok,
            r matches Ok(s) ==> s.kind == EventKind::TransactionCleanup && subs_of(
                final(reg).store(*self),
            ) == subs_of(old(reg).store(*self)).push((s.id, s.kind)),
    {
        self.observe(reg, EventKind::TransactionCleanup)
    }

    /// Subscribes to the end of every read-write transaction.
    pub fn observe_after_transaction(&self, reg: &mut DocRegistry) -> (r: Result<Subscription, TransactionAcqError>)
        requires
            old(reg).wf(),
            old(reg).has(*self),
        ensures
            final(reg).wf(),
            old(reg).store(*self).mode != Mode::Free ==> r is Err,
            can_subscribe(old(reg).store(*self)) ==> r is Ok,
            r matches Ok(s) ==> s.kind == EventKind::AfterTransaction && subs_of(
                final(reg).store(*self),
            ) == subs_of(old(reg).store(*self)).push((s.id, s.kind)),
    {
        self.observe(reg, EventKind::AfterTransaction)
    }

    /// Subscribes to nested documents being added, removed or loaded.
    pub fn observe_subdocs(&self, reg: &mut DocRegistry) -> (r: Result<Subscription, TransactionAcqError>)
        requires
            old(reg).wf(),
            old(reg).has(*self),
        ensures
            final(reg).wf(),
            old(reg).store(*self).mode != Mode::Free ==> r is Err,
            can_subscribe(old(reg).store(*self)) ==> r is Ok,
            r matches Ok(s) ==> s.kind == EventKind::Subdocs && subs_of(final(reg).store(*self))
                == subs_of(old(reg).store(*self)).push((s.id, s.kind)),
    {
        self.observe(reg, EventKind::Subdocs)
    }

    /// Subscribes to the destruction of this document.
    pub fn observe_destroy(&self, reg: &mut DocRegistry) -> (r: Result<Subscription, TransactionAcqError>)
        requires
            old(reg).wf(),
            old(reg).has(*self),
        ensures
            final(reg).wf(),
            old(reg).store(*self).mode != Mode::Free ==> r is Err,
            can_subscribe(old(reg).store(*self)) ==> r is Ok,
            r matches Ok(s) ==> s.kind == EventKind::Destroy && subs_of(final(reg).store(*self))
                == subs_of(old(reg).store(*self)).push((s.id, s.kind)),
    {
        self.observe(reg, EventKind::Destroy)
    }

    /// Requests loading of this nested document. The request is recorded in the
    /// parent's transaction only if this is a nested document not yet flagged to load.
    pub fn load(&self, reg: &mut DocRegistry, parent_txn: &mut TransactionMut)
        requires
            old(reg).wf(),
            old(reg).has(*self),
            old(reg).store(*self).mode == Mode::Free,
        ensures
            final(reg).wf(),
            others_same(old(reg).stores(), final(reg).stores(), self.id() as int),
            final(reg).store(*self).options == (Options {
                should_load: true,
                ..old(reg).store(*self).options
            }),
            final(reg).store(*self) == (Store { options: final(reg).store(*self).options, ..old(reg).store(*self) }),
            final(parent_txn).loaded@ == if old(reg).store(*self).parent is Some
                && !old(reg).store(*self).options.should_load {
                old(parent_txn).loaded@.push(*self)
            } else {
                old(parent_txn).loaded@
            },
            final(parent_txn).added@ == old(parent_txn).added@,
            final(parent_txn).removed@ == old(parent_txn).removed@,
            final(parent_txn).doc == old(parent_txn).doc,
    {
        let i = self.addr;
        if reg.stores[i].parent.is_some() && !reg.stores[i].options.should_load {
            parent_txn.loaded.push(*self);
        }
        let ghost before = reg.stores();
        reg.stores[i].options.should_load = true;
        proof {
            assert(reg.stores()[i as int].blocks == before[i as int].blocks);
        }
    }
}

/// Why the history up to a snapshot cannot be produced.
#[derive(Debug, Clone, Copy, PartialEq, Eq, Structural)]
pub enum SnapshotError {
    /// Deleted history may have been compacted: only a document that keeps it
    /// (`skip_gc`) can reproduce earlier states.
    GcEnabled,
}

/// What a committed read-write transaction produced, and which subscriptions fire
/// for it, in firing order.
#[derive(Debug)]
pub struct Commit {
    pub before_state: StateVector,
    pub after_state: StateVector,
    pub delete_set: DeleteSet,
    /// The items integrated by the transaction, and its deletions.
    pub update: Update,
    /// Whether the transaction changed anything.
    pub changed: bool,
    pub added: Vec<Doc>,
    pub removed: Vec<Doc>,
    pub loaded: Vec<Doc>,
    pub fired: Vec<Subscription>,
}

/// The subscriptions of kind `k`, in subscription order.
pub open spec fn fired_of(doc: Doc, subs: Seq<(u64, EventKind)>, k: EventKind) -> Seq<Subscription>
    decreases subs.len(),
{
    if subs.len() == 0 {
        Seq::empty()
    } else {
        let rest = fired_of(doc, subs.drop_last(), k);
        if subs.last().1 == k {
            rest.push(Subscription { doc, id: subs.last().0, kind: k })
        } else {
            rest
        }
    }
}

/// The firing order of a commit: cleanup, the two update events (only when the
/// transaction changed something), the after-transaction hook, then nested
/// document changes (only when some were recorded).
pub open spec fn firing(doc: Doc, subs: Seq<(u64, EventKind)>, changed: bool, subdocs_changed: bool) -> Seq<Subscription> {
    (if changed {
        fired_of(doc, subs, EventKind::TransactionCleanup) + fired_of(doc, subs, EventKind::UpdateV1)
            + fired_of(doc, subs, EventKind::UpdateV2)
    } else {
        Seq::empty()
    }) + fired_of(doc, subs, EventKind::AfterTransaction) + (if subdocs_changed {
        fired_of(doc, subs, EventKind::Subdocs)
    } else {
        Seq::empty()
    })
}

fn push_fired(out: &mut Vec<Subscription>, doc: Doc, subs: &Vec<(u64, EventKind)>, k: EventKind)
    ensures
        final(out)@ == old(out)@ + fired_of(doc, subs@, k),
{
    let mut i: usize = 0;
    while i < subs.len()
        invariant
            i <= subs@.len(),
            out@ == old(out)@ + fired_of(doc, subs@.subrange(0, i as int), k),
        decreases subs.len() - i,
    {
        let ghost prev = out@;
        proof {
            assert(subs@.subrange(0, i + 1).drop_last() =~= subs@.subrange(0, i as int));
        }
        if subs[i].1 == k {
            out.push(Subscription { doc, id: subs[i].0, kind: k });
        }
        i = i + 1;
        assert(out@ =~= old(out)@ + fired_of(doc, subs@.subrange(0, i as int), k));
    }
    assert(subs@.subrange(0, subs@.len() as int) =~= subs@);
}

/// The entries of `v` that are none of the instances of `drop`.
fn without(v: &Vec<usize>, drop: &Vec<Doc>) -> (r: Vec<usize>)
    ensures
        forall|x: usize| r@.contains(x) <==> (v@.contains(x) && forall|q: int| 0 <= q < drop@.len() ==> (#[trigger] drop@[q]).id() != x),
{
    let mut r: Vec<usize> = Vec::new();
    let mut j: usize = 0;
    while j < v.len()
        invariant
            j <= v@.len(),
            forall|x: usize| r@.contains(x) <==> (v@.subrange(0, j as int).contains(x) && forall|q: int| 0 <= q < drop@.len() ==> (#[trigger] drop@[q]).id() != x),
        decreases v.len() - j,
    {
        let x = v[j];
        let mut k: usize = 0;
        let mut found = false;
        while k < drop.len()
            invariant
                k <= drop@.len(),
                found == exists|q: int| 0 <= q < k && (#[trigger] drop@[q]).id() == x,
            decreases drop.len() - k,
        {
            if drop[k].addr == x {
                found = true;
            }
            k = k + 1;
        }
        let ghost r0 = r@;
        if !found {
            r.push(x);
        }
        proof {
            let s0 = v@.subrange(0, j as int);
            let s1 = v@.subrange(0, j + 1);
            assert(s1 =~= s0.push(x));
            assert forall|y: usize| r@.contains(y) <==> (s1.contains(y) && forall|q: int| 0 <= q < drop@.len() ==> (#[trigger] drop@[q]).id() != y) by {
                if r@.contains(y) && !r0.contains(y) {
                    assert(y == x);
                    assert(s1[j as int] == x);
                }
                if s1.contains(y) && !s0.contains(y) {
                    let w = choose|w: int| 0 <= w < s1.len() && s1[w] == y;
                    if w < j {
                        assert(s0[w] == y);
                    }
                    assert(y == x);
                    if !found {
                        assert(r@[r0.len() as int] == x);
                    }
                }
                if r0.contains(y) {
                    let w = choose|w: int| 0 <= w < r0.len() && r0[w] == y;
                    assert(r@[w] == y);
                }
                if s0.contains(y) {
                    let w = choose|w: int| 0 <= w < s0.len() && s0[w] == y;
                    assert(s1[w] == y);
                }
            }
        }
        j = j + 1;
    }
    assert(v@.subrange(0, v@.len() as int) =~= v@);
    r
}

impl Doc {
    /// The document that holds this one, if it is nested.
    pub fn parent_doc(&self, reg: &DocRegistry) -> (r: Option<Doc>)
        requires
            reg.has(*self),
        ensures
            r is None <==> reg.store(*self).parent is None,
            r matches Some(d) ==> reg.store(*self).parent matches Some((p, _)) && d.id() == p,
    {
        match reg.stores[self.addr].parent {
            Some((p, _)) => Some(Doc { addr: p }),
            None => None,
        }
    }

    /// The item that holds this document, if it is nested.
    pub fn branch_id(&self, reg: &DocRegistry) -> (r: Option<ID>)
        requires
            reg.has(*self),
        ensures
            r is None <==> reg.store(*self).parent is None,
            r matches Some(id) ==> reg.store(*self).parent matches Some((_, item)) && id == item,
    {
        match reg.stores[self.addr].parent {
            Some((_, item)) => Some(item),
            None => None,
        }
    }

    /// Whether two documents carry the same guid (they may still be distinct instances).
    pub fn guid_eq(&self, other: &Doc, reg: &DocRegistry) -> (r: bool)
        requires
            reg.has(*self),
            reg.has(*other),
        ensures
            r == (reg.store(*self).options.guid@ == reg.store(*other).options.guid@),
    {
        reg.stores[self.addr].options.guid == reg.stores[other.addr].options.guid
    }
}

/// The subscriptions without those numbered `id`.
pub open spec fn without_sub(subs: Seq<(u64, EventKind)>, id: u64) -> Seq<(u64, EventKind)>
    decreases subs.len(),
{
    if subs.len() == 0 {
        Seq::empty()
    } else {
        let rest = without_sub(subs.drop_last(), id);
        if subs.last().0 == id {
            rest
        } else {
            rest.push(subs.last())
        }
    }
}

proof fn lemma_without_sub_len(subs: Seq<(u64, EventKind)>, id: u64)
    ensures
        without_sub(subs, id).len() <= subs.len(),
    decreases subs.len(),
{
    if subs.len() > 0 {
        lemma_without_sub_len(subs.drop_last(), id);
    }
}

impl Doc {
    /// Ends the subscription numbered `sub.id`: its callback no longer fires. Returns
    /// whether there was such a subscription.
    pub fn unobserve(&self, reg: &mut DocRegistry, sub: &Subscription) -> (r: bool)
        requires
            old(reg).wf(),
            old(reg).has(*self),
        ensures
            final(reg).wf(),
            others_same(old(reg).stores(), final(reg).stores(), self.id() as int),
            final(reg).store(*self) == (Store { events: final(reg).store(*self).events, ..old(reg).store(*self) }),
            subs_of(final(reg).store(*self)) == without_sub(subs_of(old(reg).store(*self)), sub.id),
            r == (without_sub(subs_of(old(reg).store(*self)), sub.id).len() < subs_of(old(reg).store(*self)).len()),
    {
        let i = self.addr;
        let ghost before = reg.stores();
        let mut hub = match reg.stores[i].events.take() {
            Some(h) => h,
            None => {
                proof {
                    assert(reg.stores() =~= before);
                }
                return false;
            },
        };
        let ghost old_subs = hub.subs@;
        let mut kept: Vec<(u64, EventKind)> = Vec::new();
        let mut j: usize = 0;
        while j < hub.subs.len()
            invariant
                j <= hub.subs@.len(),
                hub.subs@ == old_subs,
                kept@ == without_sub(old_subs.subrange(0, j as int), sub.id),
            decreases hub.subs.len() - j,
        {
            proof {
                assert(old_subs.subrange(0, j + 1).drop_last() =~= old_subs.subrange(0, j as int));
            }
            if hub.subs[j].0 != sub.id {
                kept.push(hub.subs[j]);
            }
            j = j + 1;
        }
        assert(old_subs.subrange(0, old_subs.len() as int) =~= old_subs);
        proof {
            lemma_without_sub_len(old_subs, sub.id);
        }
        let removed = kept.len() < hub.subs.len();
        hub.subs = kept;
        reg.stores[i].events = Some(hub);
        proof {
            assert(reg.stores()[i as int].blocks == before[i as int].blocks);
            assert(reg.stores() =~= before.update(i as int, Store { events: reg.stores()[i as int].events, ..before[i as int] }));
        }
        removed
    }
}

/// The options that the nested-document items of `items` carry, in order.
pub open spec fn doc_options(items: Seq<Item>) -> Seq<Options>
    decreases items.len(),
{
    if items.len() == 0 {
        Seq::empty()
    } else {
        let rest = doc_options(items.drop_last());
        match items.last().content {
            Content::Doc(o) => rest.push(o),
            _ => rest,
        }
    }
}

/// Of the documents `ds` that arrived with options `os`, those that load themselves.
pub open spec fn auto_loaded(ds: Seq<Doc>, os: Seq<Options>) -> Seq<Doc>
    decreases ds.len(),
{
    if ds.len() == 0 || os.len() == 0 {
        Seq::empty()
    } else {
        let rest = auto_loaded(ds.drop_last(), os.drop_last());
        if os.last().auto_load {
            rest.push(ds.last())
        } else {
            rest
        }
    }
}

/// The new instance `d` holds a nested document that arrived with options `o` inside
/// `doc`: it shares the holder's replica identifier and starts loaded only if it loads
/// itself.
pub open spec fn arrived_one(stores: Seq<Store>, doc: Doc, d: Doc, o: Options, client_id: u64, fresh_from: nat) -> bool {
    &&& fresh_from <= d.id() < stores.len()
    &&& stores[d.id() as int].options == (Options { should_load: o.auto_load, client_id, ..o })
    &&& stores[d.id() as int].parent matches Some((p, _)) && p == doc.id()
}

/// Each of the new instances `ds` holds the nested document of the matching options.
pub open spec fn arrived(stores: Seq<Store>, doc: Doc, ds: Seq<Doc>, os: Seq<Options>, client_id: u64, fresh_from: nat) -> bool {
    &&& ds.len() == os.len()
    &&& forall|j: int| 0 <= j < ds.len() ==> arrived_one(stores, doc, #[trigger] ds[j], os[j], client_id, fresh_from)
}

/// The instances held by the slots whose items `incoming` deletes and `before` did not.
pub open spec fn newly_deleted_held(slots: Seq<(ID, usize)>, before: DeleteSet, incoming: DeleteSet) -> Seq<usize>
    decreases slots.len(),
{
    if slots.len() == 0 {
        Seq::empty()
    } else {
        let rest = newly_deleted_held(slots.drop_last(), before, incoming);
        if incoming.has(slots.last().0) && !before.has(slots.last().0) {
            rest.push(slots.last().1)
        } else {
            rest
        }
    }
}

impl TransactionMut {
    /// Inserts a local item, at the next clock of this replica.
    pub fn insert(&mut self, reg: &mut DocRegistry, parent: Parent, key: Option<String>, content: Content) -> (id: ID)
        requires
            old(reg).wf(),
            old(reg).has(old(self).doc),
            old(reg).store(old(self).doc).blocks.state().get(
                old(reg).store(old(self).doc).options.client_id,
            ) <= u32::MAX,
        ensures
            final(reg).wf(),
            others_same(old(reg).stores(), final(reg).stores(), old(self).doc.id() as int),
            id == (ID {
                client: old(reg).store(old(self).doc).options.client_id,
                clock: old(reg).store(old(self).doc).blocks.state().get(
                    old(reg).store(old(self).doc).options.client_id,
                ) as u32,
            }),
            final(reg).store(old(self).doc).blocks.covers(id),
            final(reg).store(old(self).doc).blocks.received().subset_of(
                old(reg).store(old(self).doc).blocks.received().insert(
                    Item { id, parent, key, content },
                ),
            ),
            *final(self) == *old(self),
            final(reg).store(old(self).doc).blocks.deletes() == old(reg).store(old(self).doc).blocks.deletes(),
            final(reg).store(old(self).doc).blocks.items().contains(Item { id, parent, key, content }),
            final(reg).store(old(self).doc).blocks.parent_of(id) == Some(parent),
            final(reg).store(old(self).doc) == (Store { blocks: final(reg).store(old(self).doc).blocks, ..old(reg).store(old(self).doc) }),
    {
        let i = self.doc.addr;
        let client = reg.stores[i].options.client_id;
        let ghost before = reg.stores();
        let id = reg.stores[i].blocks.insert_local(client, parent, key, content);
        proof {
            assert forall|j: int| 0 <= j < reg.stores().len() implies (#[trigger] reg.stores()[j]).blocks.wf() by {
                if j != i as int {
                    assert(reg.stores()[j] == before[j]);
                }
            }
        }
        id
    }

    /// Marks the item `id` deleted. A nested document held by an item that this
    /// deletes stops being referenced.
    pub fn remove(&mut self, reg: &mut DocRegistry, id: ID)
        requires
            old(reg).wf(),
            old(reg).has(old(self).doc),
        ensures
            final(reg).wf(),
            others_same(old(reg).stores(), final(reg).stores(), old(self).doc.id() as int),
            final(reg).store(old(self).doc).blocks.deletes().has(id),
            final(reg).store(old(self).doc).blocks.items() == old(reg).store(old(self).doc).blocks.items(),
            final(self).delete_set.has(id),
            final(self).doc == old(self).doc,
            final(self).added@ == old(self).added@,
            final(self).loaded@ == old(self).loaded@,
            final(reg).store(old(self).doc) == (Store { blocks: final(reg).store(old(self).doc).blocks, ..old(reg).store(old(self).doc) }),
            ids_of(final(self).removed@) == ids_of(old(self).removed@) + if old(reg).store(old(self).doc).blocks.deletes().has(id) {
                Seq::<usize>::empty()
            } else {
                held_by(old(reg).store(old(self).doc).slots@, id)
            },
    {
        let i = self.doc.addr;
        let was_deleted = reg.stores[i].blocks.delete_set().contains(id);
        let ghost before = reg.stores();
        reg.stores[i].blocks.delete(id);
        proof {
            assert forall|j: int| 0 <= j < reg.stores().len() implies (#[trigger] reg.stores()[j]).blocks.wf() by {
                if j != i as int {
                    assert(reg.stores()[j] == before[j]);
                }
            }
        }
        proof {
            assert(reg.stores()[i as int] == (Store { blocks: reg.stores()[i as int].blocks, ..before[i as int] }));
        }
        self.delete_set.insert(crate::block::IdRange { client: id.client, clock: id.clock, len: 1 });
        if !was_deleted {
            let ghost slots = reg.store(self.doc).slots@;
            assert(ids_of(self.removed@) =~= ids_of(old(self).removed@) + held_by(slots.subrange(0, 0), id));
            let mut k: usize = 0;
            while k < reg.stores[i].slots.len()
                invariant
                    reg.wf(),
                    i == self.doc.id(),
                    reg.has(self.doc),
                    slots == reg.store(self.doc).slots@,
                    k <= slots.len(),
                    self.doc == old(self).doc,
                    self.added@ == old(self).added@,
                    self.loaded@ == old(self).loaded@,
                    self.delete_set.has(id),
                    ids_of(self.removed@) == ids_of(old(self).removed@) + held_by(slots.subrange(0, k as int), id),
                decreases reg.store(self.doc).slots@.len() - k,
            {
                let ghost r0 = self.removed@;
                proof {
                    assert(slots.subrange(0, k + 1).drop_last() =~= slots.subrange(0, k as int));
                }
                if reg.stores[i].slots[k].0 == id {
                    let d = Doc { addr: reg.stores[i].slots[k].1 };
                    self.removed.push(d);
                    assert(ids_of(self.removed@) =~= ids_of(r0).push(d.id()));
                }
                k = k + 1;
                assert(ids_of(self.removed@) =~= ids_of(old(self).removed@) + held_by(slots.subrange(0, k as int), id));
            }
            assert(slots.subrange(0, slots.len() as int) =~= slots);
        } else {
            assert(ids_of(self.removed@) =~= ids_of(old(self).removed@) + Seq::<usize>::empty());
        }
    }

    /// The state vector of the document.
    pub fn state_vector(&self, reg: &DocRegistry) -> (r: StateVector)
        requires
            reg.has(self.doc),
        ensures
            forall|c: u64| r.get(c) == reg.store(self.doc).blocks.state().get(c),
    {
        reg.stores[self.doc.addr].blocks.state_vector()
    }

    /// A snapshot of the document's state vector and delete set.
    pub fn snapshot(&self, reg: &DocRegistry) -> (r: Snapshot)
        requires
            reg.has(self.doc),
        ensures
            forall|c: u64| r.state_vector.get(c) == reg.store(self.doc).blocks.state().get(c),
            r.delete_set.ranges@ == reg.store(self.doc).blocks.deletes().ranges@,
    {
        reg.stores[self.doc.addr].blocks.snapshot()
    }

    /// Everything the document holds that a replica with state vector `remote` lacks.
    pub fn encode_diff(&self, reg: &DocRegistry, remote: &StateVector) -> (r: Update)
        requires
            reg.has(self.doc),
        ensures
            r.items@.to_set() == select(reg.store(self.doc).blocks.items(), *remote, true),
            r.delete_set.ranges@ == reg.store(self.doc).blocks.deletes().ranges@,
    {
        reg.stores[self.doc.addr].blocks.encode_diff(remote)
    }

    /// The history up to `snapshot`; only a document that keeps deleted history can
    /// produce it.
    pub fn encode_state_from_snapshot(&self, reg: &DocRegistry, snapshot: &Snapshot) -> (r: Result<Update, SnapshotError>)
        requires
            reg.has(self.doc),
        ensures
            !reg.store(self.doc).options.skip_gc <==> r is Err,
            r matches Ok(u) ==> u.items@.to_set() == select(
                reg.store(self.doc).blocks.items(),
                snapshot.state_vector,
                false,
            ) && u.delete_set.ranges@ == snapshot.delete_set.ranges@,
    {
        if !reg.stores[self.doc.addr].options.skip_gc {
            return Err(SnapshotError::GcEnabled);
        }
        Ok(reg.stores[self.doc.addr].blocks.encode_state_from_snapshot(snapshot))
    }

    /// Applies a remote update to the document. Without identifier collisions, the
    /// document receives exactly the update's items; nested documents among the newly
    /// integrated items become referenced (and loaded when they ask to be), and those
    /// held by items that the update deletes stop being referenced.
    pub fn apply_update(&mut self, reg: &mut DocRegistry, update: Update)
        requires
            old(reg).wf(),
            old(reg).has(old(self).doc),
        ensures
            final(reg).wf(),
            old(reg).stores().len() <= final(reg).stores().len(),
            consistent(old(reg).store(old(self).doc).blocks.received().union(update.items@.to_set()))
                ==> final(reg).store(old(self).doc).blocks.received() == old(reg).store(
                old(self).doc,
            ).blocks.received().union(update.items@.to_set()),
            forall|id: ID| #[trigger] final(reg).store(old(self).doc).blocks.deletes().has(id) == (old(reg).store(old(self).doc).blocks.deletes().has(id)
                || update.delete_set.has(id)),
            final(reg).store(old(self).doc).blocks.items().subrange(0, old(reg).store(old(self).doc).blocks.items().len() as int)
                == old(reg).store(old(self).doc).blocks.items(),
            old(reg).store(old(self).doc).blocks.items().len() <= final(reg).store(old(self).doc).blocks.items().len(),
            final(self).doc == old(self).doc,
            ids_of(final(self).removed@) == ids_of(old(self).removed@) + newly_deleted_held(
                old(reg).store(old(self).doc).slots@,
                old(reg).store(old(self).doc).blocks.deletes(),
                update.delete_set,
            ),
            old(self).added@.len() <= final(self).added@.len(),
            final(self).added@.subrange(0, old(self).added@.len() as int) == old(self).added@,
            final(reg).stores().len() < usize::MAX ==> arrived(
                final(reg).stores(),
                old(self).doc,
                final(self).added@.subrange(old(self).added@.len() as int, final(self).added@.len() as int),
                doc_options(final(reg).store(old(self).doc).blocks.items().subrange(
                    old(reg).store(old(self).doc).blocks.items().len() as int,
                    final(reg).store(old(self).doc).blocks.items().len() as int,
                )),
                old(reg).store(old(self).doc).options.client_id,
                old(reg).stores().len(),
            ) && final(self).loaded@ == old(self).loaded@ + auto_loaded(
                final(self).added@.subrange(old(self).added@.len() as int, final(self).added@.len() as int),
                doc_options(final(reg).store(old(self).doc).blocks.items().subrange(
                    old(reg).store(old(self).doc).blocks.items().len() as int,
                    final(reg).store(old(self).doc).blocks.items().len() as int,
                )),
            ),
    {
        let i = self.doc.addr;
        let start = reg.stores[i].blocks.len();
        let deleted_before = reg.stores[i].blocks.delete_set();
        let incoming_deletes = update.delete_set.clone();
        let ghost before = reg.stores();
        let ghost upd_ds = update.delete_set;
        reg.stores[i].blocks.apply_update(update);
        proof {
            assert forall|j: int| 0 <= j < reg.stores().len() implies (#[trigger] reg.stores()[j]).blocks.wf() by {
                if j != i as int {
                    assert(reg.stores()[j] == before[j]);
                }
            }
        }
        let ghost after = reg.store(self.doc).blocks;
        let ghost slots = reg.store(self.doc).slots@;
        assert(slots == before[i as int].slots@);
        // nested documents whose items this update deleted stop being referenced
        let mut q: usize = 0;
        assert(ids_of(self.removed@) =~= ids_of(old(self).removed@) + newly_deleted_held(slots.subrange(0, 0), before[i as int].blocks.deletes(), upd_ds));
        while q < reg.stores[i].slots.len()
            invariant
                reg.wf(),
                i == self.doc.id(),
                reg.has(self.doc),
                reg.store(self.doc).blocks == after,
                reg.stores().len() == before.len(),
                reg.store(self.doc).options == before[i as int].options,
                slots == reg.store(self.doc).slots@,
                q <= slots.len(),
                self.doc == old(self).doc,
                self.added@ == old(self).added@,
                self.loaded@ == old(self).loaded@,
                forall|x: ID| deleted_before.has(x) == before[i as int].blocks.deletes().has(x),
                forall|x: ID| incoming_deletes.has(x) == upd_ds.has(x),
                ids_of(self.removed@) == ids_of(old(self).removed@) + newly_deleted_held(slots.subrange(0, q as int), before[i as int].blocks.deletes(), upd_ds),
            decreases slots.len() - q,
        {
            let ghost r0 = self.removed@;
            proof {
                assert(slots.subrange(0, q + 1).drop_last() =~= slots.subrange(0, q as int));
            }
            let (item, d) = reg.stores[i].slots[q];
            if incoming_deletes.contains(item) && !deleted_before.contains(item) {
                let dd = Doc { addr: d };
                self.removed.push(dd);
                assert(ids_of(self.removed@) =~= ids_of(r0).push(d));
            }
            q = q + 1;
            assert(ids_of(self.removed@) =~= ids_of(old(self).removed@) + newly_deleted_held(slots.subrange(0, q as int), before[i as int].blocks.deletes(), upd_ds));
        }
        assert(slots.subrange(0, slots.len() as int) =~= slots);
        // nested documents among the newly integrated items become referenced
        let ghost removed_done = self.removed@;
        let ghost a0 = self.added@.len();
        let ghost l0 = self.loaded@;
        let ghost cid = before[i as int].options.client_id;
        let end = reg.stores[i].blocks.len();
        let mut k = start;
        assert(self.added@.subrange(a0 as int, a0 as int) =~= Seq::<Doc>::empty());
        assert(self.added@.subrange(0, a0 as int) =~= self.added@);
        assert(doc_options(after.items().subrange(start as int, start as int)) =~= Seq::<Options>::empty()) by {
            assert(after.items().subrange(start as int, start as int) =~= Seq::<Item>::empty());
        }
        assert(auto_loaded(Seq::<Doc>::empty(), Seq::<Options>::empty()) == Seq::<Doc>::empty());
        assert(self.loaded@ =~= l0 + Seq::<Doc>::empty());
        while k < end
            invariant
                reg.wf(),
                i == self.doc.id(),
                reg.has(self.doc),
                start <= k <= end,
                start == before[i as int].blocks.items().len(),
                i < before.len(),
                end == after.items().len(),
                reg.store(self.doc).blocks == after,
                reg.store(self.doc).options.client_id == cid,
                before.len() <= reg.stores().len(),
                self.doc == old(self).doc,
                self.removed@ == removed_done,
                a0 == old(self).added@.len(),
                l0 == old(self).loaded@,
                a0 <= self.added@.len(),
                self.added@.subrange(0, a0 as int) == old(self).added@,
                reg.stores().len() < usize::MAX ==> arrived(reg.stores(), self.doc, self.added@.subrange(a0 as int, self.added@.len() as int),
                    doc_options(after.items().subrange(start as int, k as int)), cid, before.len())
                    && self.loaded@ == l0 + auto_loaded(self.added@.subrange(a0 as int, self.added@.len() as int),
                        doc_options(after.items().subrange(start as int, k as int))),
            decreases end - k,
        {
            let ghost news0 = self.added@.subrange(a0 as int, self.added@.len() as int);
            let ghost os0 = doc_options(after.items().subrange(start as int, k as int));
            let ghost stores0 = reg.stores();
            let ghost added0 = self.added@;
            proof {
                assert(after.items().subrange(start as int, k + 1).drop_last() =~= after.items().subrange(start as int, k as int));
                assert(after.items().subrange(start as int, k + 1).last() == after.items()[k as int]);
            }
            let item = reg.stores[i].blocks.item_at(k);
            match &item.content {
                Content::Doc(o) => {
                    if reg.stores.len() < usize::MAX {
                        let ghost og = *o;
                        let mut opts = o.clone();
                        opts.should_load = opts.auto_load;
                        opts.client_id = reg.stores[i].options.client_id;
                        let item_id = item.id;
                        let auto = opts.auto_load;
                        let ghost mid = reg.stores();
                        let d = reg.add_store(opts, Some((i, item_id)));
                        proof {
                            assert(reg.stores()[i as int] == mid[i as int]);
                        }
                        let ghost mid2 = reg.stores();
                        reg.stores[i].slots.insert(0, (item_id, d.addr));
                        proof {
                            assert(reg.stores()[i as int].blocks == mid2[i as int].blocks);
                            assert forall|j: int| 0 <= j < reg.stores().len() implies (#[trigger] reg.stores()[j]).blocks.wf() by {
                                if j != i as int {
                                    assert(reg.stores()[j] == mid2[j]);
                                }
                            }
                        }
                        self.added.push(d);
                        if auto {
                            self.loaded.push(d);
                        }
                        proof {
                            let news = self.added@.subrange(a0 as int, self.added@.len() as int);
                            assert(news =~= news0.push(d));
                            assert(self.added@.subrange(0, a0 as int) =~= added0.subrange(0, a0 as int));
                            let os = doc_options(after.items().subrange(start as int, k + 1));
                            assert(os == os0.push(og));
                            if reg.stores().len() < usize::MAX {
                                assert(news.drop_last() =~= news0);
                                assert(os.drop_last() =~= os0);
                                assert forall|j: int| 0 <= j < news.len() implies arrived_one(reg.stores(), self.doc, #[trigger] news[j], os[j], cid, before.len()) by {
                                    if j < news0.len() {
                                        assert(news[j] == news0[j]);
                                        assert(os[j] == os0[j]);
                                        assert(arrived_one(stores0, self.doc, news0[j], os0[j], cid, before.len()));
                                        let x = news0[j].id() as int;
                                        assert(x != i as int);
                                        assert(mid == stores0);
                                        assert(mid2[x] == mid[x]);
                                        assert(reg.stores()[x] == mid2[x]);
                                    } else {
                                        assert(news[j] == d);
                                        assert(reg.stores()[d.id() as int] == mid2[d.id() as int]);
                                    }
                                }
                                assert(self.loaded@ =~= l0 + auto_loaded(news, os));
                            }
                        }
                    } else {
                        proof {
                            assert(self.added@.subrange(a0 as int, self.added@.len() as int) == news0);
                        }
                    }
                },
                _ => {
                    proof {
                        assert(doc_options(after.items().subrange(start as int, k + 1)) == os0);
                    }
                },
            }
            k = k + 1;
        }
    }

    /// Inserts a nested document into a collection of this document. The document must
    /// not be nested anywhere yet. It becomes referenced, and loaded when it asks to be.
    pub fn insert_subdoc(&mut self, reg: &mut DocRegistry, parent: Parent, key: Option<String>, doc: Doc) -> (id: ID)
        requires
            old(reg).wf(),
            old(reg).has(old(self).doc),
            old(reg).has(doc),
            doc != old(self).doc,
            old(reg).store(doc).parent is None,
            old(reg).store(old(self).doc).blocks.state().get(
                old(reg).store(old(self).doc).options.client_id,
            ) <= u32::MAX,
        ensures
            final(reg).wf(),
            final(reg).stores().len() == old(reg).stores().len(),
            final(reg).store(old(self).doc).blocks.covers(id),
            final(reg).store(doc).parent == Some((old(self).doc.id(), id)),
            slot_of(final(reg).store(old(self).doc).slots@, id) == Some(doc.id()),
            final(reg).store(old(self).doc).blocks.items().contains(
                Item { id, parent, key, content: Content::Doc(old(reg).store(doc).options) },
            ),
            final(self).added@ == old(self).added@.push(doc),
            final(self).loaded@ == if old(reg).store(doc).options.should_load || old(reg).store(
                doc,
            ).options.auto_load {
                old(self).loaded@.push(doc)
            } else {
                old(self).loaded@
            },
            final(self).removed@ == old(self).removed@,
            final(self).doc == old(self).doc,
    {
        let i = self.doc.addr;
        let opts = reg.stores[doc.addr].options.clone();
        let load = opts.should_load || opts.auto_load;
        let id = self.insert(reg, parent, key, Content::Doc(opts));
        let ghost s1 = reg.stores();
        reg.stores[i].slots.insert(0, (id, doc.addr));
        reg.stores[doc.addr].parent = Some((i, id));
        proof {
            assert(reg.stores()[i as int].blocks == s1[i as int].blocks);
            assert forall|j: int| 0 <= j < reg.stores().len() implies (#[trigger] reg.stores()[j]).blocks.wf() by {
                assert(reg.stores()[j].blocks == s1[j].blocks);
            }
        }
        self.added.push(doc);
        if load {
            self.loaded.push(doc);
        }
        id
    }

    /// Commits the transaction: releases the document, registers the nested documents
    /// it added and unregisters those it removed, and reports what changed and which
    /// subscriptions fire, in order.
    pub fn commit(self, reg: &mut DocRegistry) -> (r: Commit)
        requires
            old(reg).wf(),
            old(reg).has(self.doc),
            self.before_len <= old(reg).store(self.doc).blocks.items().len(),
        ensures
            final(reg).wf(),
            final(reg).stores().len() == old(reg).stores().len(),
            final(reg).store(self.doc).mode == Mode::Free,
            final(reg).store(self.doc).blocks == old(reg).store(self.doc).blocks,
            r.changed == (self.before_len < old(reg).store(self.doc).blocks.items().len()
                || self.delete_set.ranges@.len() > 0),
            r.update.items@ == old(reg).store(self.doc).blocks.items().subrange(
                self.before_len as int,
                old(reg).store(self.doc).blocks.items().len() as int,
            ),
            r.update.delete_set.ranges@ == self.delete_set.ranges@,
            forall|c: u64| r.after_state.get(c) == old(reg).store(self.doc).blocks.state().get(c),
            r.added@ == self.added@,
            r.removed@ == self.removed@,
            r.loaded@ == self.loaded@,
            r.fired@ == firing(
                self.doc,
                subs_of(old(reg).store(self.doc)),
                r.changed,
                self.added@.len() + self.removed@.len() + self.loaded@.len() > 0,
            ),
            forall|j: int| 0 <= j < self.added@.len() && (forall|q: int| 0 <= q < self.removed@.len() ==> self.removed@[q] != self.added@[j])
                ==> final(reg).store(self.doc).subdocs@.contains(#[trigger] self.added@[j].id()),
            forall|q: int| 0 <= q < self.removed@.len() ==> !final(reg).store(self.doc).subdocs@.contains(#[trigger] self.removed@[q].id()),
            forall|c: u64| r.before_state.get(c) == self.before_state.get(c),
            r.delete_set.ranges@ == self.delete_set.ranges@,
            others_same(old(reg).stores(), final(reg).stores(), self.doc.id() as int),
            final(reg).store(self.doc) == (Store { mode: Mode::Free, subdocs: final(reg).store(self.doc).subdocs, ..old(reg).store(self.doc) }),
    {
        let i = self.doc.addr;
        let ghost s0 = reg.stores();
        let n = reg.stores[i].blocks.len();
        let mut items: Vec<Item> = Vec::new();
        let mut k = self.before_len;
        while k < n
            invariant
                reg.stores() == s0,
                reg.has(self.doc),
                i == self.doc.id(),
                self.before_len <= k <= n,
                n == reg.store(self.doc).blocks.items().len(),
                items@ == reg.store(self.doc).blocks.items().subrange(self.before_len as int, k as int),
            decreases n - k,
        {
            items.push(reg.stores[i].blocks.item_at(k).clone());
            k = k + 1;
            assert(items@ =~= reg.store(self.doc).blocks.items().subrange(self.before_len as int, k as int));
        }
        let changed = self.before_len < n || self.delete_set.ranges.len() > 0;
        let subdocs_changed = self.added.len() > 0 || self.removed.len() > 0 || self.loaded.len() > 0;
        let mut fired: Vec<Subscription> = Vec::new();
        match &reg.stores[i].events {
            Some(h) => {
                if changed {
                    push_fired(&mut fired, self.doc, &h.subs, EventKind::TransactionCleanup);
                    push_fired(&mut fired, self.doc, &h.subs, EventKind::UpdateV1);
                    push_fired(&mut fired, self.doc, &h.subs, EventKind::UpdateV2);
                }
                push_fired(&mut fired, self.doc, &h.subs, EventKind::AfterTransaction);
                if subdocs_changed {
                    push_fired(&mut fired, self.doc, &h.subs, EventKind::Subdocs);
                }
            },
            None => {},
        }
        proof {
            let subs = subs_of(s0[i as int]);
            if subs.len() == 0 {
                assert(fired_of(self.doc, subs, EventKind::TransactionCleanup) =~= Seq::empty());
                assert(fired_of(self.doc, subs, EventKind::UpdateV1) =~= Seq::empty());
                assert(fired_of(self.doc, subs, EventKind::UpdateV2) =~= Seq::empty());
                assert(fired_of(self.doc, subs, EventKind::AfterTransaction) =~= Seq::empty());
                assert(fired_of(self.doc, subs, EventKind::Subdocs) =~= Seq::empty());
            }
            assert(fired@ =~= firing(self.doc, subs, changed, subdocs_changed));
        }
        let after_state = reg.stores[i].blocks.state_vector();
        let TransactionMut { doc, origin: _, before_len: _, before_state, delete_set, added, removed, loaded } = self;
        let update_ds = delete_set.clone();
        reg.set_mode(doc, Mode::Free);
        let mut j: usize = 0;
        while j < added.len()
            invariant
                reg.wf(),
                reg.has(doc),
                i == doc.id(),
                reg.stores().len() == s0.len(),
                others_same(s0, reg.stores(), i as int),
                reg.store(doc) == (Store { mode: Mode::Free, subdocs: reg.store(doc).subdocs, ..s0[i as int] }),
                reg.store(doc).mode == Mode::Free,
                reg.store(doc).blocks == s0[i as int].blocks,
                j <= added@.len(),
                forall|q: int| 0 <= q < j ==> reg.store(doc).subdocs@.contains(#[trigger] added@[q].id()),
            decreases added@.len() - j,
        {
            let a = added[j].addr;
            let ghost s1 = reg.stores();
            reg.stores[i].subdocs.push(a);
            proof {
                assert(reg.stores() =~= s1.update(i as int, Store { subdocs: reg.stores()[i as int].subdocs, ..s1[i as int] }));
                assert(reg.stores()[i as int].blocks == s1[i as int].blocks);
                assert forall|q: int| 0 <= q < reg.stores().len() implies (#[trigger] reg.stores()[q]).blocks.wf() by {
                    assert(reg.stores()[q].blocks == s1[q].blocks);
                }
                assert forall|q: int| 0 <= q < j + 1 implies reg.store(doc).subdocs@.contains(#[trigger] added@[q].id()) by {
                    if q < j {
                        let w = choose|w: int| 0 <= w < s1[i as int].subdocs@.len() && s1[i as int].subdocs@[w] == added@[q].id();
                        assert(reg.store(doc).subdocs@[w] == added@[q].id());
                    } else {
                        assert(reg.store(doc).subdocs@[s1[i as int].subdocs@.len() as int] == added@[q].id());
                    }
                }
            }
            j = j + 1;
        }
        let kept = without(&reg.stores[i].subdocs, &removed);
        let ghost s4 = reg.stores();
        reg.stores[i].subdocs = kept;
        proof {
            assert(reg.stores() =~= s4.update(i as int, Store { subdocs: reg.stores()[i as int].subdocs, ..s4[i as int] }));
            assert(reg.stores()[i as int].blocks == s4[i as int].blocks);
            assert forall|q: int| 0 <= q < reg.stores().len() implies (#[trigger] reg.stores()[q]).blocks.wf() by {
                assert(reg.stores()[q].blocks == s4[q].blocks);
            }
            assert forall|q: int| 0 <= q < added@.len() && (forall|w: int| 0 <= w < removed@.len() ==> removed@[w] != added@[q])
                implies reg.store(doc).subdocs@.contains(#[trigger] added@[q].id()) by {
                assert(s4[i as int].subdocs@.contains(added@[q].id()));
                assert forall|w: int| 0 <= w < removed@.len() implies removed@[w].id() != added@[q].id() by {
                    assert(removed@[w] != added@[q]);
                }
            }
        }
        Commit {
            before_state,
            after_state,
            delete_set,
            update: Update { items, delete_set: update_ds },
            changed,
            added,
            removed,
            loaded,
            fired,
        }
    }
}

/// The instances that the slots for `item` refer to, in slot order.
pub open spec fn held_by(slots: Seq<(ID, usize)>, item: ID) -> Seq<usize>
    decreases slots.len(),
{
    if slots.len() == 0 {
        Seq::empty()
    } else {
        let rest = held_by(slots.drop_last(), item);
        if slots.last().0 == item {
            rest.push(slots.last().1)
        } else {
            rest
        }
    }
}

/// The identities of a sequence of handles.
pub open spec fn ids_of(docs: Seq<Doc>) -> Seq<usize> {
    docs.map_values(|d: Doc| d.id())
}

/// The instance that the first slot for `item` refers to.
pub open spec fn slot_of(slots: Seq<(ID, usize)>, item: ID) -> Option<usize>
    decreases slots.len(),
{
    if slots.len() == 0 {
        None
    } else if slots[0].0 == item {
        Some(slots[0].1)
    } else {
        slot_of(slots.drop_first(), item)
    }
}

/// The slots with every reference to instance `from` turned into one to `to`.
pub open spec fn retarget(slots: Seq<(ID, usize)>, from: usize, to: usize) -> Seq<(ID, usize)> {
    Seq::new(slots.len(), |j: int| if slots[j].1 == from { (slots[j].0, to) } else { slots[j] })
}

proof fn lemma_retarget_slot(slots: Seq<(ID, usize)>, from: usize, to: usize, item: ID)
    ensures
        slot_of(retarget(slots, from, to), item) == match slot_of(slots, item) {
            Some(d) => if d == from {
                Some(to)
            } else {
                Some(d)
            },
            None => None,
        },
    decreases slots.len(),
{
    if slots.len() > 0 {
        assert(retarget(slots, from, to).drop_first() =~= retarget(slots.drop_first(), from, to));
        lemma_retarget_slot(slots.drop_first(), from, to, item);
    }
}

fn retarget_vec(v: &mut Vec<(ID, usize)>, from: usize, to: usize)
    ensures
        final(v)@ == retarget(old(v)@, from, to),
{
    let mut j: usize = 0;
    while j < v.len()
        invariant
            j <= v@.len(),
            v@.len() == old(v)@.len(),
            forall|q: int| 0 <= q < j ==> v@[q] == retarget(old(v)@, from, to)[q],
            forall|q: int| j <= q < v@.len() ==> v@[q] == old(v)@[q],
        decreases v.len() - j,
    {
        if v[j].1 == from {
            let e = (v[j].0, to);
            v.set(j, e);
        }
        j = j + 1;
    }
    assert(v@ =~= retarget(old(v)@, from, to));
}

fn contains_addr(v: &Vec<usize>, a: usize) -> (r: bool)
    ensures
        r == v@.contains(a),
{
    let mut j: usize = 0;
    while j < v.len()
        invariant
            j <= v@.len(),
            forall|q: int| 0 <= q < j ==> v@[q] != a,
        decreases v.len() - j,
    {
        if v[j] == a {
            return true;
        }
        j = j + 1;
    }
    false
}

/// The destroy subscriptions of the documents `ds`, in that order.
pub open spec fn fired_in(stores: Seq<Store>, ds: Seq<usize>) -> Seq<Subscription>
    decreases ds.len(),
{
    if ds.len() == 0 {
        Seq::empty()
    } else {
        fired_in(stores, ds.drop_last()) + fired_of(
            Doc { addr: ds.last() },
            subs_of(stores[ds.last() as int]),
            EventKind::Destroy,
        )
    }
}

/// The document at position `w` of `order` is registered with one listed before it.
pub open spec fn reached(stores: Seq<Store>, order: Seq<usize>, w: int) -> bool {
    exists|v: int| 0 <= v < w && #[trigger] stores[order[v] as int].subdocs@.contains(order[w])
}

/// Every document of `ds` is registered with `root` or with a document listed after it:
/// they are nested in `root`, and listed deepest first.
pub open spec fn nested_under(stores: Seq<Store>, root: usize, ds: Seq<usize>) -> bool {
    forall|j: int|
        0 <= j < ds.len() ==> (stores[root as int].subdocs@.contains(#[trigger] ds[j]) || exists|i: int|
            j < i < ds.len() && stores[ds[i] as int].subdocs@.contains(ds[j]))
}

/// The instance `d` (of `before`) was replaced by the new instance `n` (of `after`):
/// it left its holding item, and `n` holds its options with `should_load` false and
/// took its place in that item.
pub open spec fn replaced_by(before: Seq<Store>, after: Seq<Store>, d: usize, n: usize) -> bool {
    match before[d as int].parent {
        Some((p, item)) => {
            &&& before.len() <= n < after.len()
            &&& after[d as int].parent is None
            &&& after[n as int].options == (Options { should_load: false, ..before[d as int].options })
            &&& after[n as int].parent == Some((p, item))
            &&& (slot_of(before[p as int].slots@, item) == Some(d) ==> slot_of(
                after[p as int].slots@,
                item,
            ) == Some(n))
        },
        None => false,
    }
}

/// A nested instance `d` whose holder is known was replaced (unless the registry is full).
pub open spec fn replaced(before: Seq<Store>, after: Seq<Store>, d: usize) -> bool {
    (before[d as int].parent matches Some((p, _)) && p < before.len() && after.len() < usize::MAX)
        ==> exists|n: usize| replaced_by(before, after, d, n)
}

/// As `replaced`, with the replacement recorded in `repl`.
pub open spec fn replaced_so_far(before: Seq<Store>, after: Seq<Store>, d: usize, repl: Map<usize, usize>) -> bool {
    (before[d as int].parent matches Some((p, _)) && p < before.len() && after.len() < usize::MAX)
        ==> repl.contains_key(d) && replaced_by(before, after, d, repl[d])
}

impl DocRegistry {
    /// Tears down the subscriptions of `d`, returning its destroy subscriptions.
    fn take_events(&mut self, d: Doc) -> (r: Vec<Subscription>)
        requires
            old(self).wf(),
            old(self).has(d),
        ensures
            final(self).wf(),
            others_same(old(self).stores(), final(self).stores(), d.id() as int),
            final(self).store(d) == (Store { events: None, ..old(self).store(d) }),
            r@ == fired_of(d, subs_of(old(self).store(d)), EventKind::Destroy),
    {
        let mut fired: Vec<Subscription> = Vec::new();
        let ghost before = self.stores();
        let ev = self.stores[d.addr].events.take();
        match &ev {
            Some(h) => push_fired(&mut fired, d, &h.subs, EventKind::Destroy),
            None => {
                assert(fired_of(d, Seq::empty(), EventKind::Destroy) =~= Seq::empty());
            },
        }
        proof {
            assert(self.stores()[d.id() as int].blocks == before[d.id() as int].blocks);
            assert(self.stores() =~= before.update(d.id() as int, Store { events: None, ..before[d.id() as int] }));
        }
        fired
    }

    /// Replaces the instance `d` inside its parent with a fresh instance carrying the
    /// same options, except `should_load` false. Returns the new instance, and the
    /// holding document and item.
    fn replace_instance(&mut self, d: Doc) -> (r: Option<(Doc, usize, ID)>)
        requires
            old(self).wf(),
            old(self).has(d),
        ensures
            final(self).wf(),
            old(self).stores().len() <= final(self).stores().len(),
            r matches Some((n, p, item)) ==> {
                &&& old(self).store(d).parent == Some((p, item))
                &&& p < old(self).stores().len()
                &&& n.id() == old(self).stores().len()
                &&& final(self).stores().len() == old(self).stores().len() + 1
                &&& old(self).stores().len() < usize::MAX
                &&& n != d
                &&& final(self).store(n).options == (Options { should_load: false, ..old(self).store(d).options })
                &&& final(self).store(n).parent == Some((p, item))
                &&& final(self).stores()[p as int].slots@ == retarget(old(self).stores()[p as int].slots@, d.id(), n.id())
                &&& forall|q: int| 0 <= q < old(self).stores().len() && q != p ==> (#[trigger] final(self).stores()[q]).slots@ == old(self).stores()[q].slots@
            },
            r is None ==> final(self).stores() == old(self).stores(),
            (old(self).store(d).parent matches Some((p, _)) && p < old(self).stores().len()
                && old(self).stores().len() < usize::MAX) ==> r is Some,
            forall|q: int| 0 <= q < old(self).stores().len() && q != d.id() ==> (#[trigger] final(self).stores()[q]).parent == old(self).stores()[q].parent
                && final(self).stores()[q].options == old(self).stores()[q].options,
            forall|q: int| 0 <= q < old(self).stores().len() ==> (#[trigger] final(self).stores()[q]).events == old(self).stores()[q].events
                && final(self).stores()[q].blocks == old(self).stores()[q].blocks
                && final(self).stores()[q].options == old(self).stores()[q].options,
            r is Some ==> final(self).store(d).parent is None,
    {
        let (p, item) = match self.stores[d.addr].parent {
            Some(x) => x,
            None => {
                return None;
            },
        };
        if p >= self.stores.len() || self.stores.len() == usize::MAX {
            return None;
        }
        let mut opts = self.stores[d.addr].options.clone();
        opts.should_load = false;
        let n = self.add_store(opts, Some((p, item)));
        let ghost s1 = self.stores();
        retarget_vec(&mut self.stores[p].slots, d.addr, n.addr);
        proof {
            assert(self.stores() =~= s1.update(p as int, Store { slots: self.stores()[p as int].slots, ..s1[p as int] }));
            assert(self.stores()[p as int].blocks == s1[p as int].blocks);
            assert forall|q: int| 0 <= q < self.stores().len() implies (#[trigger] self.stores()[q]).blocks.wf() by {
                assert(self.stores()[q].blocks == s1[q].blocks);
            }
        }
        let mut k: usize = 0;
        while k < self.stores[p].subdocs.len()
            invariant
                self.wf(),
                p < old(self).stores().len(),
                n.id() == old(self).stores().len(),
                n.id() < self.stores().len(),
                self.stores().len() == s1.len(),
                self.stores()[n.id() as int] == s1[n.id() as int],
                forall|q: int| 0 <= q < s1.len() && q != p ==> #[trigger] self.stores()[q] == s1[q],
                forall|q: int| 0 <= q < s1.len() ==> (#[trigger] self.stores()[q]).parent == s1[q].parent && self.stores()[q].options == s1[q].options
                    && self.stores()[q].events == s1[q].events && self.stores()[q].blocks == s1[q].blocks,
                self.stores()[p as int].slots@ == retarget(old(self).stores()[p as int].slots@, d.id(), n.id()),
                k <= self.stores()[p as int].subdocs@.len(),
            decreases self.stores()[p as int].subdocs@.len() - k,
        {
            if self.stores[p].subdocs[k] == d.addr {
                let ghost s2 = self.stores();
                self.stores[p].subdocs.set(k, n.addr);
                proof {
                    assert(self.stores() =~= s2.update(p as int, Store { subdocs: self.stores()[p as int].subdocs, ..s2[p as int] }));
                    assert(self.stores()[p as int].blocks == s2[p as int].blocks);
                    assert forall|q: int| 0 <= q < self.stores().len() implies (#[trigger] self.stores()[q]).blocks.wf() by {
                        assert(self.stores()[q].blocks == s2[q].blocks);
                    }
                }
            }
            k = k + 1;
        }
        let ghost s3 = self.stores();
        self.stores[d.addr].parent = None;
        proof {
            assert(self.stores() =~= s3.update(d.id() as int, Store { parent: None, ..s3[d.id() as int] }));
            assert forall|q: int| 0 <= q < self.stores().len() implies (#[trigger] self.stores()[q]).blocks.wf() by {
                assert(self.stores()[q].blocks == s3[q].blocks);
            }
        }
        Some((n, p, item))
    }
}

impl Doc {
    /// The nested document instance that the item `item` of this document holds.
    pub fn subdoc_at(&self, reg: &DocRegistry, item: ID) -> (r: Option<Doc>)
        requires
            reg.has(*self),
        ensures
            r matches Some(d) ==> slot_of(reg.store(*self).slots@, item) == Some(d.id()),
            r is None ==> slot_of(reg.store(*self).slots@, item) is None,
    {
        let slots = &reg.stores[self.addr].slots;
        assert(slots@ == reg.store(*self).slots@);
        let mut j: usize = 0;
        assert(slots@.subrange(0, slots@.len() as int) =~= slots@);
        while j < slots.len()
            invariant
                j <= slots@.len(),
                slots@ == reg.store(*self).slots@,
                slot_of(slots@, item) == slot_of(slots@.subrange(j as int, slots@.len() as int), item),
            decreases slots.len() - j,
        {
            let ghost rest = slots@.subrange(j as int, slots@.len() as int);
            assert(rest.drop_first() =~= slots@.subrange(j + 1, slots@.len() as int));
            if slots[j].0 == item {
                assert(rest[0] == slots@[j as int]);
                assert(rest.len() > 0);
                assert(slot_of(rest, item) == Some(rest[0].1));
                let r = Doc { addr: slots[j].1 };
                assert(r.id() == rest[0].1);
                return Some(r);
            }
            j = j + 1;
        }
        None
    }

    /// Destroys this document: first every document nested in it (deepest first),
    /// then itself. Each destroyed instance is replaced, in the item that holds it, by
    /// a fresh instance with the same options but `should_load` false; for this
    /// document the parent's transaction records the old instance as removed and the
    /// new one as added unless the item was deleted. Subscriptions of destroyed
    /// documents are torn down; their destroy subscriptions are returned, in firing
    /// order: the nested documents' first, this document's last.
    #[verifier::rlimit(80)]
    pub fn destroy(&self, reg: &mut DocRegistry, parent_txn: &mut TransactionMut) -> (fired: Vec<Subscription>)
        requires
            old(reg).wf(),
            old(reg).has(*self),
            old(reg).has(old(parent_txn).doc),
        ensures
            final(reg).wf(),
            old(reg).stores().len() <= final(reg).stores().len(),
            final(reg).store(*self).events is None,
            final(reg).store(*self).options == old(reg).store(*self).options,
            final(parent_txn).doc == old(parent_txn).doc,
            final(parent_txn).loaded@ == old(parent_txn).loaded@,
            exists|nested: Seq<usize>| {
                &&& fired@ == fired_in(old(reg).stores(), nested) + fired_of(
                    *self,
                    subs_of(old(reg).store(*self)),
                    EventKind::Destroy,
                )
                &&& nested.no_duplicates()
                &&& !nested.contains(self.id())
                &&& nested_under(old(reg).stores(), self.id(), nested)
                &&& forall|j: int| 0 <= j < nested.len() ==> nested[j] < old(reg).stores().len()
                    && (#[trigger] final(reg).stores()[nested[j] as int]).events is None
                    && replaced(old(reg).stores(), final(reg).stores(), nested[j])
            },
            match old(reg).store(*self).parent {
                Some((p, item)) => if p < old(reg).stores().len() && old(reg).stores().len() < usize::MAX {
                    let m = Doc { addr: old(reg).stores().len() as usize };
                    &&& m.id() != self.id()
                    &&& final(reg).has(m)
                    &&& final(parent_txn).removed@ == old(parent_txn).removed@.push(*self)
                    &&& final(parent_txn).added@ == if old(reg).stores()[p as int].blocks.deletes().has(item) {
                        old(parent_txn).added@
                    } else {
                        old(parent_txn).added@.push(m)
                    }
                    &&& final(reg).store(m).options == (Options { should_load: false, ..old(reg).store(*self).options })
                    &&& final(reg).store(m).parent == Some((p, item))
                    &&& (slot_of(old(reg).stores()[p as int].slots@, item) == Some(self.id())
                        ==> slot_of(final(reg).stores()[p as int].slots@, item) == Some(m.id()))
                } else {
                    &&& final(parent_txn).added@ == old(parent_txn).added@
                    &&& final(parent_txn).removed@ == old(parent_txn).removed@
                },
                None => {
                    &&& final(parent_txn).added@ == old(parent_txn).added@
                    &&& final(parent_txn).removed@ == old(parent_txn).removed@
                },
            },
    {
        // every nested document, breadth first
        let ghost s_old = old(reg).stores();
        let mut order: Vec<usize> = Vec::new();
        order.push(self.addr);
        let mut q: usize = 0;
        while q < order.len()
            invariant
                reg.stores() == s_old,
                order@.len() <= reg.stores().len(),
                q <= order@.len(),
                forall|k: int| 0 <= k < order@.len() ==> (#[trigger] order@[k]) < reg.stores().len(),
                order@[0] == self.id(),
                order@.len() >= 1,
                order@.no_duplicates(),
                forall|w: int| 1 <= w < order@.len() ==> #[trigger] reached(s_old, order@, w),
            decreases reg.stores().len() - q,
        {
            let d = order[q];
            let mut k: usize = 0;
            while k < reg.stores[d].subdocs.len()
                invariant
                    reg.stores() == s_old,
                    d < reg.stores().len(),
                    d == order@[q as int],
                    order@.len() <= reg.stores().len(),
                    q < order@.len(),
                    forall|w: int| 0 <= w < order@.len() ==> (#[trigger] order@[w]) < reg.stores().len(),
                    order@[0] == self.id(),
                    order@.no_duplicates(),
                    forall|w: int| 1 <= w < order@.len() ==> #[trigger] reached(s_old, order@, w),
                    k <= reg.stores()[d as int].subdocs@.len(),
                decreases reg.stores()[d as int].subdocs@.len() - k,
            {
                let s = reg.stores[d].subdocs[k];
                if s < reg.stores.len() && order.len() < reg.stores.len() && !contains_addr(&order, s) {
                    let ghost o0 = order@;
                    order.push(s);
                    proof {
                        assert(s_old[d as int].subdocs@[k as int] == s);
                        assert(s_old[o0[q as int] as int].subdocs@.contains(order@[o0.len() as int]));
                        assert forall|w: int| 1 <= w < order@.len() implies #[trigger] reached(s_old, order@, w) by {
                            if w < o0.len() {
                                assert(reached(s_old, o0, w));
                                let v = choose|v: int| 0 <= v < w && #[trigger] s_old[o0[v] as int].subdocs@.contains(o0[w]);
                                assert(order@[v] == o0[v]);
                                assert(s_old[order@[v] as int].subdocs@.contains(order@[w]));
                            } else {
                                assert(order@[q as int] == o0[q as int]);
                                assert(s_old[order@[q as int] as int].subdocs@.contains(order@[w]));
                            }
                        }
                        assert forall|x: int, y: int| 0 <= x < order@.len() && 0 <= y < order@.len() && x != y implies order@[x] != order@[y] by {
                            if x < o0.len() && y < o0.len() {
                            } else if x == o0.len() {
                                assert(o0[y] != s);
                            } else {
                                assert(o0[x] != s);
                            }
                        }
                    }
                }
                k = k + 1;
            }
            q = q + 1;
        }
        // this document, in the item that holds it
        let top = reg.replace_instance(*self);
        match top {
            Some((m, p, item)) => {
                let deleted = reg.stores[p].blocks.delete_set().contains(item);
                parent_txn.removed.push(*self);
                if !deleted {
                    parent_txn.added.push(m);
                }
                proof {
                    assert(reg.stores()[p as int].blocks == s_old[p as int].blocks);
                    assert(deleted == s_old[p as int].blocks.deletes().has(item));
                    lemma_retarget_slot(s_old[p as int].slots@, self.id(), m.id(), item);
                    assert forall|pp: int, it: ID| 0 <= pp < s_old.len() && (slot_of(s_old[pp].slots@, it) matches Some(x) && x != self.id())
                        implies slot_of(reg.stores()[pp].slots@, it) == #[trigger] slot_of(s_old[pp].slots@, it) by {
                        if pp == p {
                            lemma_retarget_slot(s_old[p as int].slots@, self.id(), m.id(), it);
                        }
                    }
                }
            },
            None => {},
        }
        let ghost s1 = reg.stores();
        // nested documents, deepest first
        let ghost n = order@.len();
        let ghost mut nested: Seq<usize> = Seq::empty();
        let ghost mut repl: Map<usize, usize> = Map::empty();
        let mut fired: Vec<Subscription> = Vec::new();
        let mut k = order.len();
        while k > 1
            invariant
                reg.wf(),
                s_old.len() <= reg.stores().len(),
                n == order@.len(),
                1 <= k <= n,
                forall|w: int| 0 <= w < n ==> (#[trigger] order@[w]) < s_old.len(),
                order@[0] == self.id(),
                order@.no_duplicates(),
                nested.len() == n - k,
                forall|j: int| 0 <= j < nested.len() ==> nested[j] == order@[n - 1 - j],
                fired@ == fired_in(s_old, nested),
                forall|q: int| 0 <= q < s_old.len() ==> (#[trigger] reg.stores()[q]).options == s_old[q].options
                    && reg.stores()[q].blocks == s_old[q].blocks,
                forall|q: int| 0 <= q < s_old.len() && !nested.contains(q as usize) ==> (#[trigger] reg.stores()[q]).events == s_old[q].events,
                forall|q: int| 0 <= q < s_old.len() && !nested.contains(q as usize) && q != self.id() ==> (#[trigger] reg.stores()[q]).parent == s_old[q].parent,
                forall|j: int| 0 <= j < nested.len() ==> (#[trigger] reg.stores()[nested[j] as int]).events is None,
                forall|pp: int, it: ID| 0 <= pp < s_old.len() && (slot_of(s_old[pp].slots@, it) matches Some(x) && x != self.id() && !nested.contains(x))
                    ==> slot_of(reg.stores()[pp].slots@, it) == #[trigger] slot_of(s_old[pp].slots@, it),
                forall|j: int| 0 <= j < nested.len() ==> #[trigger] replaced_so_far(s_old, reg.stores(), nested[j], repl),
                reg.store(*self).parent == (if top is Some { None } else { s_old[self.id() as int].parent }),
                parent_txn.doc == old(parent_txn).doc,
                parent_txn.loaded@ == old(parent_txn).loaded@,
                parent_txn.added@ == old(parent_txn).added@ || top is Some,
                match top {
                    Some((m, p, item)) => {
                        &&& m.id() == s_old.len()
                        &&& reg.has(m)
                        &&& s_old[self.id() as int].parent == Some((p, item))
                        &&& p < s_old.len()
                        &&& s_old.len() < usize::MAX
                        &&& reg.store(m).options == (Options { should_load: false, ..s_old[self.id() as int].options })
                        &&& reg.store(m).parent == Some((p, item))
                        &&& (slot_of(s_old[p as int].slots@, item) == Some(self.id())
                            ==> slot_of(reg.stores()[p as int].slots@, item) == Some(m.id()))
                        &&& parent_txn.removed@ == old(parent_txn).removed@.push(*self)
                        &&& parent_txn.added@ == if s_old[p as int].blocks.deletes().has(item) {
                            old(parent_txn).added@
                        } else {
                            old(parent_txn).added@.push(m)
                        }
                    },
                    None => {
                        &&& parent_txn.removed@ == old(parent_txn).removed@
                        &&& parent_txn.added@ == old(parent_txn).added@
                        &&& !(s_old[self.id() as int].parent matches Some((p, _)) && p < s_old.len() && s_old.len() < usize::MAX)
                    },
                },
            decreases k,
        {
            k = k - 1;
            let d = Doc { addr: order[k] };
            let ghost before = reg.stores();
            let ghost nested0 = nested;
            proof {
                assert(order@[k as int] != order@[0]);
                assert(!nested0.contains(d.id())) by {
                    if nested0.contains(d.id()) {
                        let j = choose|j: int| 0 <= j < nested0.len() && nested0[j] == d.id();
                        assert(order@[n - 1 - j] == order@[k as int]);
                    }
                }
            }
            let r = reg.replace_instance(d);
            let ghost mid = reg.stores();
            let mut f = reg.take_events(d);
            proof {
                let after = reg.stores();
                let repl0 = repl;
                nested = nested0.push(d.id());
                assert(nested.drop_last() =~= nested0);
                assert(before[d.id() as int].events == s_old[d.id() as int].events);
                assert(subs_of(mid[d.id() as int]) == subs_of(s_old[d.id() as int]));
                if let Some((nn, pd, it)) = r {
                    repl = repl.insert(d.id(), nn.id());
                }
                assert(forall|j: int| 0 <= j < nested.len() ==> nested[j] == order@[n - 1 - j]);
                // frames of the two calls, for stores that existed before
                assert forall|q: int| 0 <= q < before.len() && q != d.id() implies #[trigger] after[q] == mid[q] by {}
                assert forall|pp: int, it2: ID| 0 <= pp < s_old.len() && (slot_of(s_old[pp].slots@, it2) matches Some(x) && x != self.id() && !nested.contains(x))
                    implies slot_of(after[pp].slots@, it2) == #[trigger] slot_of(s_old[pp].slots@, it2) by {
                    let x = slot_of(s_old[pp].slots@, it2).unwrap();
                    assert(!nested0.contains(x));
                    assert(x != d.id()) by {
                        assert(nested[nested0.len() as int] == d.id());
                    }
                    if let Some((nn, pd, _)) = r {
                        if pd == pp {
                            lemma_retarget_slot(before[pp].slots@, d.id(), nn.id(), it2);
                        }
                    }
                    assert(after[pp].slots@ == mid[pp].slots@);
                }
                assert forall|j: int| 0 <= j < nested.len() implies #[trigger] replaced_so_far(s_old, after, nested[j], repl) by {
                    let e = nested[j];
                    if s_old[e as int].parent matches Some((p, _)) && p < s_old.len() && after.len() < usize::MAX {
                        let (p, item) = s_old[e as int].parent.unwrap();
                        if j < nested0.len() {
                            assert(nested0[j] == e);
                            assert(replaced_so_far(s_old, before, nested0[j], repl0));
                            let ne = repl0[e];
                            assert(e != d.id()) by {
                                assert(order@[n - 1 - j] != order@[k as int]);
                            }
                            assert(repl[e] == ne);
                            assert(after[e as int].parent is None);
                            assert(after[ne as int] == mid[ne as int]);
                            if let Some((nn, pd, _)) = r {
                                if pd == p {
                                    lemma_retarget_slot(before[p as int].slots@, d.id(), nn.id(), item);
                                }
                            }
                            assert(after[p as int].slots@ == mid[p as int].slots@);
                        } else {
                            assert(e == d.id());
                            assert(before[e as int].parent == s_old[e as int].parent);
                            assert(r is Some);
                            let (nn, pd, it) = r.unwrap();
                            assert(slot_of(s_old[p as int].slots@, item) == Some(e) ==> slot_of(before[p as int].slots@, item) == Some(e));
                            lemma_retarget_slot(before[p as int].slots@, d.id(), nn.id(), item);
                            assert(after[p as int].slots@ == mid[p as int].slots@);
                            assert(after[nn.id() as int] == mid[nn.id() as int]);
                        }
                    }
                }
                if let Some((m, p, item)) = top {
                    if let Some((nn, pd, _)) = r {
                        if pd == p {
                            lemma_retarget_slot(before[p as int].slots@, d.id(), nn.id(), item);
                        }
                    }
                    assert(after[m.id() as int] == mid[m.id() as int]);
                    assert(after[p as int].slots@ == mid[p as int].slots@);
                }
                assert forall|q: int| 0 <= q < s_old.len() && !nested.contains(q as usize) implies (#[trigger] after[q]).events == s_old[q].events by {
                    assert(!nested0.contains(q as usize));
                    assert(q != d.id()) by {
                        assert(nested[nested0.len() as int] == d.id());
                    }
                }
                assert forall|q: int| 0 <= q < s_old.len() && !nested.contains(q as usize) && q != self.id() implies (#[trigger] after[q]).parent == s_old[q].parent by {
                    assert(!nested0.contains(q as usize));
                    assert(q != d.id()) by {
                        assert(nested[nested0.len() as int] == d.id());
                    }
                }
                assert forall|j: int| 0 <= j < nested.len() implies (#[trigger] after[nested[j] as int]).events is None by {
                    if j < nested0.len() {
                        assert(nested0[j] == nested[j]);
                    }
                }
            }
            fired.append(&mut f);
        }
        let ghost before3 = reg.stores();
        let mut f = reg.take_events(*self);
        fired.append(&mut f);
        proof {
            let fin = reg.stores();
            assert(subs_of(before3[self.id() as int]) == subs_of(s_old[self.id() as int])) by {
                assert(!nested.contains(self.id())) by {
                    if nested.contains(self.id()) {
                        let j = choose|j: int| 0 <= j < nested.len() && nested[j] == self.id();
                        assert(order@[n - 1 - j] != order@[0]);
                    }
                }
            }
            assert(nested.no_duplicates()) by {
                assert forall|x: int, y: int| 0 <= x < nested.len() && 0 <= y < nested.len() && x != y implies nested[x] != nested[y] by {
                    assert(order@[n - 1 - x] != order@[n - 1 - y]);
                }
            }
            assert(!nested.contains(self.id())) by {
                if nested.contains(self.id()) {
                    let j = choose|j: int| 0 <= j < nested.len() && nested[j] == self.id();
                    assert(order@[n - 1 - j] != order@[0]);
                }
            }
            assert(nested_under(s_old, self.id(), nested)) by {
                assert forall|j: int| 0 <= j < nested.len() implies (s_old[self.id() as int].subdocs@.contains(#[trigger] nested[j]) || exists|i: int|
                    j < i < nested.len() && s_old[nested[i] as int].subdocs@.contains(nested[j])) by {
                    let w = n - 1 - j;
                    assert(nested[j] == order@[w]);
                    assert(reached(s_old, order@, w));
                    let v = choose|v: int| 0 <= v < w && #[trigger] s_old[order@[v] as int].subdocs@.contains(order@[w]);
                    if v == 0 {
                    } else {
                        let i = n - 1 - v;
                        assert(nested[i] == order@[v]);
                    }
                }
            }
            assert forall|j: int| 0 <= j < nested.len() implies nested[j] < s_old.len() && (#[trigger] fin[nested[j] as int]).events is None
                && replaced(s_old, fin, nested[j]) by {
                let e = nested[j];
                assert(nested[j] == order@[n - 1 - j]);
                assert(e != self.id()) by {
                    assert(order@[n - 1 - j] != order@[0]);
                }
                assert(fin[e as int] == before3[e as int]);
                assert(replaced_so_far(s_old, before3, e, repl));
                if s_old[e as int].parent matches Some((p, _)) && p < s_old.len() && fin.len() < usize::MAX {
                    let ne = repl[e];
                    let (p, item) = s_old[e as int].parent.unwrap();
                    assert(fin[ne as int] == before3[ne as int]);
                    assert(fin[p as int].slots@ == before3[p as int].slots@);
                    assert(replaced_by(s_old, fin, e, ne));
                }
            }
            if let Some((m, p, item)) = top {
                assert(fin[m.id() as int] == before3[m.id() as int]);
                assert(fin[p as int].slots@ == before3[p as int].slots@);
            }
        }
        fired
    }
}

} // verus!
