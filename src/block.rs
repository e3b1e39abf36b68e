//! Items, state vectors, delete sets and updates, and the store of integrated
//! items with its buffer of updates that wait for their causal predecessors.

use vstd::prelude::*;
use std::collections::HashMap;
use crate::options::{clone_string_option, Options};

verus! {

/// Identifier of an operation: the replica that made it and its position (clock) in
/// that replica's history.
#[derive(Debug, Clone, Copy, PartialEq, Eq, Structural)]
pub struct ID {
    pub client: u64,
    pub clock: u32,
}

/// Kind of a shared collection.
#[derive(Debug, Clone, Copy, PartialEq, Eq, Structural)]
pub enum TypeKind {
    Text,
    KeyMap,
    Array,
    XmlFragment,
}

/// Where an item lives: directly in a named root collection, or inside the
/// collection that another item holds.
#[derive(Debug)]
pub enum Parent {
    Root(String),
    Item(ID),
}

/// What one clock unit of history holds. How items of a collection are ordered
/// among each other belongs to the collection's merge algorithm, not to this store.
#[derive(Debug)]
pub enum Content {
    /// One character of text.
    Char(char),
    /// One opaque scalar value.
    Value(i64),
    /// A nested collection.
    Type(TypeKind),
    /// A nested document, carried by its options.
    Doc(Options),
}

/// One unit of history.
#[derive(Debug)]
pub struct Item {
    pub id: ID,
    pub parent: Parent,
    /// Key of the entry, for items of a map.
    pub key: Option<String>,
    pub content: Content,
}

impl Clone for Parent {
    fn clone(&self) -> (r: Self)
        ensures
            r == *self,
    {
        match self {
            Parent::Root(n) => Parent::Root(n.clone()),
            Parent::Item(id) => Parent::Item(*id),
        }
    }
}

impl Clone for Content {
    fn clone(&self) -> (r: Self)
        ensures
            r == *self,
    {
        match self {
            Content::Char(c) => Content::Char(*c),
            Content::Value(v) => Content::Value(*v),
            Content::Type(k) => Content::Type(*k),
            Content::Doc(o) => Content::Doc(o.clone()),
        }
    }
}

impl Clone for Item {
    fn clone(&self) -> (r: Self)
        ensures
            r == *self,
    {
        Item {
            id: self.id,
            parent: self.parent.clone(),
            key: clone_string_option(&self.key),
            content: self.content.clone(),
        }
    }
}

/// A run of `len` consecutive clocks of one replica, starting at `clock`.
#[derive(Debug, Clone, Copy, PartialEq, Eq, Structural)]
pub struct IdRange {
    pub client: u64,
    pub clock: u32,
    pub len: u32,
}

impl IdRange {
    pub open spec fn has(self, id: ID) -> bool {
        self.client == id.client && self.clock <= id.clock && id.clock < self.clock + self.len
    }
}

/// Whether one of the ranges holds `id`.
pub open spec fn ranges_have(rs: Seq<IdRange>, id: ID) -> bool {
    exists|i: int| 0 <= i < rs.len() && (#[trigger] rs[i]).has(id)
}

proof fn lemma_ranges_push(rs: Seq<IdRange>, r: IdRange)
    ensures
        forall|id: ID| ranges_have(rs.push(r), id) == (ranges_have(rs, id) || r.has(id)),
{
    assert forall|id: ID| ranges_have(rs.push(r), id) == (ranges_have(rs, id) || r.has(id)) by {
        let t = rs.push(r);
        if ranges_have(rs, id) {
            let i = choose|i: int| 0 <= i < rs.len() && (#[trigger] rs[i]).has(id);
            assert(t[i] == rs[i]);
        }
        if r.has(id) {
            assert(t[rs.len() as int] == r);
        }
        if ranges_have(t, id) {
            let i = choose|i: int| 0 <= i < t.len() && (#[trigger] t[i]).has(id);
            if i < rs.len() {
                assert(t[i] == rs[i]);
            }
        }
    }
}

/// The operations marked deleted, as ranges of clocks per replica.
#[derive(Debug)]
pub struct DeleteSet {
    pub ranges: Vec<IdRange>,
}

impl DeleteSet {
    /// Whether the operation `id` is marked deleted.
    pub open spec fn has(&self, id: ID) -> bool {
        ranges_have(self.ranges@, id)
    }

    /// An empty delete set.
    pub fn new() -> (r: DeleteSet)
        ensures
            forall|id: ID| !r.has(id),
    {
        DeleteSet { ranges: Vec::new() }
    }

    /// Whether the operation `id` is marked deleted.
    pub fn contains(&self, id: ID) -> (r: bool)
        ensures
            r == self.has(id),
    {
        let mut i: usize = 0;
        while i < self.ranges.len()
            invariant
                i <= self.ranges@.len(),
                forall|j: int| 0 <= j < i ==> !(#[trigger] self.ranges@[j]).has(id),
            decreases self.ranges.len() - i,
        {
            let r = self.ranges[i];
            if r.client == id.client && r.clock <= id.clock && (id.clock - r.clock) < r.len {
                assert(self.ranges@[i as int].has(id));
                return true;
            }
            i = i + 1;
        }
        false
    }

    /// Marks the range `r` deleted.
    pub fn insert(&mut self, r: IdRange)
        ensures
            forall|id: ID| #[trigger] final(self).has(id) == (old(self).has(id) || r.has(id)),
    {
        let ghost before = self.ranges@;
        self.ranges.push(r);
        proof {
            lemma_ranges_push(before, r);
        }
    }

    /// Marks deleted everything that `other` marks.
    pub fn merge(&mut self, other: &DeleteSet)
        ensures
            forall|id: ID| #[trigger] final(self).has(id) == (old(self).has(id) || other.has(id)),
    {
        let mut i: usize = 0;
        while i < other.ranges.len()
            invariant
                i <= other.ranges@.len(),
                forall|id: ID|
                    self.has(id) == (old(self).has(id) || exists|j: int|
                        0 <= j < i && (#[trigger] other.ranges@[j]).has(id)),
            decreases other.ranges.len() - i,
        {
            let ghost prev = *self;
            self.insert(other.ranges[i]);
            assert forall|id: ID|
                self.has(id) == (old(self).has(id) || exists|j: int|
                    0 <= j < i + 1 && (#[trigger] other.ranges@[j]).has(id)) by {
                if other.ranges@[i as int].has(id) {
                    assert(0 <= i < i + 1);
                }
            }
            i = i + 1;
        }
    }
}

impl Clone for DeleteSet {
    fn clone(&self) -> (r: Self)
        ensures
            r.ranges@ == self.ranges@,
    {
        let mut ranges: Vec<IdRange> = Vec::new();
        let mut i: usize = 0;
        while i < self.ranges.len()
            invariant
                i <= self.ranges@.len(),
                ranges@ == self.ranges@.subrange(0, i as int),
            decreases self.ranges.len() - i,
        {
            ranges.push(self.ranges[i]);
            i = i + 1;
            assert(ranges@ =~= self.ranges@.subrange(0, i as int));
        }
        assert(ranges@ =~= self.ranges@);
        DeleteSet { ranges }
    }
}

/// For each replica, the clock of the next operation expected from it (zero when
/// nothing of it is known).
#[derive(Debug)]
pub struct StateVector {
    clocks: HashMap<u64, u64>,
}

impl StateVector {
    pub closed spec fn map(&self) -> Map<u64, u64> {
        self.clocks@
    }

    /// The next expected clock of replica `client`.
    pub open spec fn get(&self, client: u64) -> nat {
        if self.map().contains_key(client) {
            self.map()[client] as nat
        } else {
            0
        }
    }

    /// An empty state vector: nothing is known of any replica.
    pub fn new() -> (r: StateVector)
        ensures
            forall|c: u64| r.get(c) == 0,
    {
        broadcast use vstd::std_specs::hash::group_hash_axioms;

        StateVector { clocks: HashMap::new() }
    }

    /// The next expected clock of replica `client`.
    pub fn clock_of(&self, client: u64) -> (r: u64)
        ensures
            r == self.get(client),
    {
        broadcast use vstd::std_specs::hash::group_hash_axioms;

        match self.clocks.get(&client) {
            Some(v) => *v,
            None => 0,
        }
    }

    /// Sets the next expected clock of replica `client`.
    pub fn set(&mut self, client: u64, clock: u64)
        ensures
            final(self).get(client) == clock,
            forall|c: u64| c != client ==> final(self).get(c) == old(self).get(c),
    {
        broadcast use vstd::std_specs::hash::group_hash_axioms;

        self.clocks.insert(client, clock);
    }
}

impl Clone for StateVector {
    fn clone(&self) -> (r: Self)
        ensures
            forall|c: u64| r.get(c) == self.get(c),
    {
        broadcast use vstd::std_specs::hash::group_hash_axioms;

        StateVector { clocks: self.clocks.clone() }
    }
}

/// A batch of history sent between replicas: items, and operations marked deleted.
#[derive(Debug)]
pub struct Update {
    pub items: Vec<Item>,
    pub delete_set: DeleteSet,
}

} // verus!
