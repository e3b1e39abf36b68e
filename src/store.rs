//! The store of integrated history of one replica, and its buffer of items that
//! wait for their causal predecessors.

use vstd::prelude::*;
use crate::block::{Content, DeleteSet, ID, IdRange, Item, Parent, StateVector, Update};

verus! {

/// Every item of a set has a counterpart with the same identifier in `have`.
#[verifier::opaque]
pub open spec fn ids_covered(have: Set<Item>, want: Set<Item>) -> bool {
    forall|x: Item| #[trigger]
        want.contains(x) ==> exists|y: Item| #[trigger] have.contains(y) && y.id == x.id
}

/// No two items of the set share an identifier: the replicas that made them kept
/// their identifiers distinct.
pub open spec fn consistent(s: Set<Item>) -> bool {
    forall|x: Item, y: Item| #[trigger] s.contains(x) && #[trigger] s.contains(y) && x.id == y.id ==> x == y
}

/// Whether an item of `items` has identifier `id`.
pub open spec fn covered(items: Seq<Item>, id: ID) -> bool {
    exists|i: int| 0 <= i < items.len() && (#[trigger] items[i]).id == id
}

/// `items` holds, for each replica, exactly its clocks below `state`'s entry, once each.
#[verifier::opaque]
pub open spec fn integrated_wf(items: Seq<Item>, state: StateVector) -> bool {
    &&& forall|i: int|
        0 <= i < items.len() ==> ((#[trigger] items[i]).id.clock as nat) < state.get(items[i].id.client)
    &&& forall|id: ID| (id.clock as nat) < state.get(id.client) ==> #[trigger] covered(items, id)
    &&& forall|i: int, j: int|
        0 <= i < j < items.len() ==> (#[trigger] items[i]).id != (#[trigger] items[j]).id
    &&& forall|c: u64| #[trigger] state.get(c) <= u32::MAX as nat + 1
}

/// The integrated history of one document replica, the items that wait for their
/// causal predecessors, and the delete set.
#[derive(Debug)]
pub struct BlockStore {
    blocks: Vec<Item>,
    state: StateVector,
    pending: Vec<Item>,
    deleted: DeleteSet,
}

impl BlockStore {
    /// Integrated items, in the order they were integrated.
    pub closed spec fn items(&self) -> Seq<Item> {
        self.blocks@
    }

    /// Items that wait for a predecessor.
    pub closed spec fn waiting(&self) -> Seq<Item> {
        self.pending@
    }

    /// The next expected clock of each replica.
    pub closed spec fn state(&self) -> StateVector {
        self.state
    }

    /// The operations marked deleted.
    pub closed spec fn deletes(&self) -> DeleteSet {
        self.deleted
    }

    /// Whether an integrated item has identifier `id`.
    pub open spec fn covers(&self, id: ID) -> bool {
        covered(self.items(), id)
    }

    /// Everything received so far: integrated or waiting.
    pub open spec fn received(&self) -> Set<Item> {
        self.items().to_set().union(self.waiting().to_set())
    }

    /// The integrated part: for each replica, exactly its clocks below the state vector's
    /// entry, once each.
    pub open spec fn wf_integrated(&self) -> bool {
        integrated_wf(self.items(), self.state())
    }

    /// Well-formed: the integrated part is exactly the gap-free prefixes, and every
    /// waiting item is strictly ahead of its replica's next expected clock.
    pub open spec fn wf(&self) -> bool {
        &&& self.wf_integrated()
        &&& forall|j: int|
            0 <= j < self.waiting().len() ==> ((#[trigger] self.waiting()[j]).id.clock as nat)
                > self.state().get(self.waiting()[j].id.client)
    }

    /// An empty store.
    pub fn new() -> (r: BlockStore)
        ensures
            r.wf(),
            r.items().len() == 0,
            r.waiting().len() == 0,
            forall|c: u64| r.state().get(c) == 0,
            forall|id: ID| !r.deletes().has(id),
    {
        reveal(integrated_wf);
        BlockStore {
            blocks: Vec::new(),
            state: StateVector::new(),
            pending: Vec::new(),
            deleted: DeleteSet::new(),
        }
    }

    /// Takes one item: integrates it if its clock is the next expected one of its
    /// replica (returning true), drops it if it is already integrated, and otherwise
    /// keeps it in `next`.
    fn integrate_one(&mut self, x: Item, next: &mut Vec<Item>) -> (progress: bool)
        requires
            old(self).wf_integrated(),
        ensures
            final(self).wf_integrated(),
            final(self).waiting() == old(self).waiting(),
            final(self).deletes() == old(self).deletes(),
            final(self).items().subrange(0, old(self).items().len() as int) == old(self).items(),
            old(self).items().len() <= final(self).items().len(),
            final(self).items().to_set().union(final(next)@.to_set()).subset_of(
                old(self).items().to_set().insert(x).union(old(next)@.to_set()),
            ),
            ids_covered(
                final(self).items().to_set().union(final(next)@.to_set()),
                old(self).items().to_set().insert(x).union(old(next)@.to_set()),
            ),
            progress ==> final(next)@ == old(next)@,
            !progress ==> final(self).state() == old(self).state(),
            !progress ==> final(next)@.len() <= old(next)@.len() + 1,
            !progress ==> forall|j: int|
                0 <= j < final(next)@.len() ==> ((#[trigger] final(next)@[j]).id.clock as nat)
                    > final(self).state().get(final(next)@[j].id.client) || j < old(next)@.len(),
            !progress ==> final(next)@.subrange(0, old(next)@.len() as int) == old(next)@,
            old(next)@.len() <= final(next)@.len(),
            forall|c: u64| #[trigger] old(self).state().get(c) <= final(self).state().get(c),
    {
        reveal(integrated_wf);
        reveal(ids_covered);
        let ghost items0 = self.items();
        let ghost before = items0.to_set().insert(x).union(old(next)@.to_set());
        let c = self.state.clock_of(x.id.client);
        if (x.id.clock as u64) < c {
            proof {
                assert(self.covers(x.id));
                let i = choose|i: int| 0 <= i < self.items().len() && (#[trigger] self.items()[i]).id
                    == x.id;
                let now = self.items().to_set().union(next@.to_set());
                assert(now.contains(self.items()[i]));
                assert forall|z: Item| #[trigger] before.contains(z) implies exists|y: Item|
                    #[trigger] now.contains(y) && y.id == z.id by {
                    if z == x {
                        assert(now.contains(self.items()[i]));
                    } else {
                        assert(now.contains(z));
                    }
                }
            }
            false
        } else if (x.id.clock as u64) == c {
            let ghost xg = x;
            self.state.set(x.id.client, c + 1);
            self.blocks.push(x);
            proof {
                let n = self.items().len() - 1;
                assert(self.items()[n] == xg);
                assert(forall|i: int| 0 <= i < items0.len() ==> self.items()[i] == items0[i]);
                assert(forall|c: u64| c != xg.id.client ==> self.state().get(c) == old(self).state().get(c));
                assert forall|id: ID| (id.clock as nat) < self.state().get(
                    id.client,
                ) implies #[trigger] covered(self.items(), id) by {
                    if id == xg.id {
                        assert(self.items()[n].id == id);
                    } else {
                        assert(covered(items0, id));
                        let i = choose|i: int|
                            0 <= i < items0.len() && (#[trigger] items0[i]).id == id;
                        assert(self.items()[i] == items0[i]);
                    }
                }
                assert forall|i: int, j: int|
                    0 <= i < j < self.items().len() implies (#[trigger] self.items()[i]).id != (
                    #[trigger] self.items()[j]).id by {
                    if j == n {
                        assert(self.items()[i] == items0[i]);
                    }
                }
                items0.lemma_push_to_set_commute(xg);
                assert(self.items() == items0.push(xg));
                let now = self.items().to_set().union(next@.to_set());
                assert(now =~= before);
                assert(self.items().subrange(0, items0.len() as int) =~= items0);
            }
            true
        } else {
            let ghost xg = x;
            next.push(x);
            proof {
                old(next)@.lemma_push_to_set_commute(xg);
                let now = self.items().to_set().union(next@.to_set());
                assert(now =~= before);
                assert(next@.subrange(0, old(next)@.len() as int) =~= old(next)@);
            }
            false
        }
    }

    /// Integrates, repeatedly, every item of `work` whose clock is the next expected
    /// one of its replica; drops those already integrated; keeps the others waiting.
    fn integrate(&mut self, work: Vec<Item>)
        requires
            old(self).wf_integrated(),
            old(self).waiting().len() == 0,
        ensures
            final(self).wf(),
            final(self).received().subset_of(old(self).items().to_set().union(work@.to_set())),
            ids_covered(final(self).received(), old(self).items().to_set().union(work@.to_set())),
            final(self).items().subrange(0, old(self).items().len() as int) == old(self).items(),
            old(self).items().len() <= final(self).items().len(),
            final(self).deletes() == old(self).deletes(),
            forall|c: u64| #[trigger] old(self).state().get(c) <= final(self).state().get(c),
    {
        let ghost r0 = old(self).items().to_set().union(work@.to_set());
        let ghost old_items = old(self).items();
        let mut work = work;
        let mut done = false;
        proof {
            lemma_covered_refl(r0);
        }
        while !done
            invariant
                self.wf_integrated(),
                self.waiting().len() == 0,
                self.items().to_set().union(work@.to_set()).subset_of(r0),
                ids_covered(self.items().to_set().union(work@.to_set()), r0),
                self.items().subrange(0, old_items.len() as int) == old_items,
                old_items.len() <= self.items().len(),
                self.deletes() == old(self).deletes(),
                forall|c: u64| #[trigger] old(self).state().get(c) <= self.state().get(c),
                done ==> forall|j: int|
                    0 <= j < work@.len() ==> ((#[trigger] work@[j]).id.clock as nat)
                        > self.state().get(work@[j].id.client),
            decreases work@.len() * 2 + (if done { 0int } else { 1int }),
        {
            let ghost s0 = self.state();
            let ghost n0 = work@.len();
            let mut next: Vec<Item> = Vec::new();
            let mut progress = false;
            proof {
                assert(self.items().to_set().union(work@.to_set()).union(next@.to_set())
                    =~= self.items().to_set().union(work@.to_set()));
            }
            while work.len() > 0
                invariant
                    self.wf_integrated(),
                    self.waiting().len() == 0,
                    self.items().to_set().union(work@.to_set()).union(next@.to_set()).subset_of(r0),
                    ids_covered(self.items().to_set().union(work@.to_set()).union(next@.to_set()), r0),
                    self.items().subrange(0, old_items.len() as int) == old_items,
                    old_items.len() <= self.items().len(),
                    self.deletes() == old(self).deletes(),
                    forall|c: u64| #[trigger] old(self).state().get(c) <= self.state().get(c),
                    work@.len() + next@.len() + (if progress { 1int } else { 0int }) <= n0,
                    !progress ==> self.state() == s0,
                    !progress ==> forall|j: int|
                        0 <= j < next@.len() ==> ((#[trigger] next@[j]).id.clock as nat) > s0.get(
                            next@[j].id.client,
                        ),
                decreases work@.len(),
            {
                let ghost items_b = self.items();
                let ghost next_b = next@;
                let ghost work_b = work@;
                let x = work.pop().unwrap();
                let ghost xg = x;
                let ghost work_a = work@;
                proof {
                    assert(work_b =~= work_a.push(xg));
                    work_a.lemma_push_to_set_commute(xg);
                    assert(items_b.to_set().union(work_b.to_set()).union(next_b.to_set())
                        == items_b.to_set().union(work_a.to_set().insert(xg)).union(
                        next_b.to_set(),
                    ));
                }
                let p = self.integrate_one(x, &mut next);
                proof {
                    lemma_covered_step(
                        items_b.to_set(),
                        next_b.to_set(),
                        self.items().to_set(),
                        next@.to_set(),
                        work_a.to_set(),
                        xg,
                        r0,
                    );
                    if !p && !progress {
                        assert forall|j: int| 0 <= j < next@.len() implies ((#[trigger] next@[j]).id.clock as nat)
                            > s0.get(next@[j].id.client) by {
                            if j < next_b.len() {
                                assert(next@.subrange(0, next_b.len() as int)[j] == next@[j]);
                                assert(next@[j] == next_b[j]);
                            }
                        }
                    }
                }
                if p {
                    progress = true;
                }
            }
            let ghost emptied = work@;
            proof {
                assert(emptied =~= Seq::<Item>::empty());
                assert(emptied.to_set() =~= Set::<Item>::empty());
            }
            if !progress {
                done = true;
            }
            let ghost held = self.items().to_set().union(work@.to_set()).union(next@.to_set());
            work = next;
            proof {
                assert(self.items().to_set().union(work@.to_set()) =~= held);
            }
        }
        let ghost held = self.items().to_set().union(work@.to_set());
        let ghost w = work@;
        let ghost before = *self;
        assert(before.wf_integrated());
        self.pending = work;
        proof {
            reveal(integrated_wf);
            assert(self.items() == before.items());
            assert(self.state() == before.state());
            assert(self.wf_integrated());
            assert(self.waiting() == w);
            assert(held =~= self.received());
        }
    }
}

proof fn lemma_covered_refl(s: Set<Item>)
    ensures
        ids_covered(s, s),
{
    reveal(ids_covered);
    assert forall|x: Item| #[trigger] s.contains(x) implies exists|y: Item| #[trigger] s.contains(y)
        && y.id == x.id by {
        assert(s.contains(x));
    }
}

/// One step of integration keeps what is held inside, and covering, what was received.
proof fn lemma_covered_step(
    items_b: Set<Item>,
    next_b: Set<Item>,
    items_a: Set<Item>,
    next_a: Set<Item>,
    work: Set<Item>,
    x: Item,
    r0: Set<Item>,
)
    requires
        items_b.union(work.insert(x)).union(next_b).subset_of(r0),
        ids_covered(items_b.union(work.insert(x)).union(next_b), r0),
        items_a.union(next_a).subset_of(items_b.insert(x).union(next_b)),
        ids_covered(items_a.union(next_a), items_b.insert(x).union(next_b)),
    ensures
        items_a.union(work).union(next_a).subset_of(r0),
        ids_covered(items_a.union(work).union(next_a), r0),
{
    reveal(ids_covered);
    let before = items_b.union(work.insert(x)).union(next_b);
    let now = items_a.union(work).union(next_a);
    assert forall|z: Item| #[trigger] now.contains(z) implies r0.contains(z) by {
        if items_a.union(next_a).contains(z) {
            assert(items_b.insert(x).union(next_b).contains(z));
        }
        assert(before.contains(z));
    }
    assert forall|z: Item| #[trigger] r0.contains(z) implies exists|y: Item| #[trigger] now.contains(y)
        && y.id == z.id by {
        let y = choose|y: Item| #[trigger] before.contains(y) && y.id == z.id;
        if work.contains(y) {
            assert(now.contains(y));
        } else {
            assert(items_b.insert(x).union(next_b).contains(y));
            let w = choose|w: Item| #[trigger] items_a.union(next_a).contains(w) && w.id == y.id;
            assert(now.contains(w));
        }
    }
}

/// A point-in-time marker of a store: its state vector and delete set.
#[derive(Debug)]
pub struct Snapshot {
    pub state_vector: StateVector,
    pub delete_set: DeleteSet,
}

/// Everything that the updates of `us` carry.
pub open spec fn items_of(us: Seq<Update>) -> Set<Item> {
    Set::new(|x: Item| exists|i: int| 0 <= i < us.len() && (#[trigger] us[i]).items@.contains(x))
}

/// Whether one of the updates of `us` marks `id` deleted.
pub open spec fn deleted_by(us: Seq<Update>, id: ID) -> bool {
    exists|i: int| 0 <= i < us.len() && (#[trigger] us[i]).delete_set.has(id)
}

/// The items of `items` whose clock is at or above (`above`) or below (otherwise) the
/// entry of their replica in `sv`.
pub open spec fn select(items: Seq<Item>, sv: StateVector, above: bool) -> Set<Item> {
    items.to_set().filter(|x: Item| above == ((x.id.clock as nat) >= sv.get(x.id.client)))
}

proof fn lemma_concat_to_set(a: Seq<Item>, b: Seq<Item>)
    ensures
        (a + b).to_set() == a.to_set().union(b.to_set()),
{
    vstd::seq_lib::seq_to_set_distributes_over_add(a, b);
}

proof fn lemma_covered_union(a: Set<Item>, b: Set<Item>, u: Set<Item>, r: Set<Item>)
    requires
        ids_covered(a, b.union(u)),
        ids_covered(b, r),
    ensures
        ids_covered(a, r.union(u)),
{
    reveal(ids_covered);
    assert forall|z: Item| #[trigger] r.union(u).contains(z) implies exists|y: Item| #[trigger] a.contains(y)
        && y.id == z.id by {
        if u.contains(z) {
            assert(b.union(u).contains(z));
        } else {
            let w = choose|w: Item| #[trigger] b.contains(w) && w.id == z.id;
            assert(b.union(u).contains(w));
        }
    }
}

/// When no two received items share an identifier, what a store holds is exactly
/// what it received.
pub proof fn lemma_received_exact(have: Set<Item>, want: Set<Item>)
    requires
        have.subset_of(want),
        ids_covered(have, want),
        consistent(want),
    ensures
        have == want,
{
    reveal(ids_covered);
    assert forall|x: Item| want.contains(x) implies have.contains(x) by {
        let y = choose|y: Item| #[trigger] have.contains(y) && y.id == x.id;
        assert(want.contains(y));
    }
    assert(have =~= want);
}

/// Two well-formed stores that received the same items agree on everything they
/// integrated, on their state vectors and on what waits.
pub proof fn lemma_same_received_same_state(a: BlockStore, b: BlockStore)
    requires
        a.wf(),
        b.wf(),
        a.received() == b.received(),
    ensures
        forall|c: u64| a.state().get(c) == b.state().get(c),
        a.items().to_set() == b.items().to_set(),
        a.waiting().to_set() == b.waiting().to_set(),
{
    reveal(integrated_wf);
    assert forall|c: u64| a.state().get(c) == b.state().get(c) by {
        lemma_state_le(a, b, c);
        lemma_state_le(b, a, c);
    }
    assert forall|x: Item| a.items().to_set().contains(x) <==> b.items().to_set().contains(x) by {
        lemma_held_side(a, b, x);
        lemma_held_side(b, a, x);
    }
    assert forall|x: Item| a.waiting().to_set().contains(x) <==> b.waiting().to_set().contains(x) by {
        lemma_held_side(a, b, x);
        lemma_held_side(b, a, x);
    }
    assert(a.items().to_set() =~= b.items().to_set());
    assert(a.waiting().to_set() =~= b.waiting().to_set());
}

proof fn lemma_state_le(a: BlockStore, b: BlockStore, c: u64)
    requires
        a.wf(),
        b.wf(),
        a.received() == b.received(),
    ensures
        a.state().get(c) <= b.state().get(c),
{
    reveal(integrated_wf);
    if a.state().get(c) > b.state().get(c) {
        let k = b.state().get(c);
        let id = ID { client: c, clock: k as u32 };
        assert(covered(a.items(), id));
        let i = choose|i: int| 0 <= i < a.items().len() && (#[trigger] a.items()[i]).id == id;
        let x = a.items()[i];
        assert(a.received().contains(x));
        if b.items().contains(x) {
            let j = choose|j: int| 0 <= j < b.items().len() && b.items()[j] == x;
            assert((b.items()[j].id.clock as nat) < b.state().get(b.items()[j].id.client));
        } else {
            assert(b.waiting().contains(x));
            let j = choose|j: int| 0 <= j < b.waiting().len() && b.waiting()[j] == x;
            assert((b.waiting()[j].id.clock as nat) > b.state().get(b.waiting()[j].id.client));
        }
    }
}

proof fn lemma_held_side(a: BlockStore, b: BlockStore, x: Item)
    requires
        a.wf(),
        b.wf(),
        a.received() == b.received(),
    ensures
        a.items().contains(x) ==> b.items().contains(x),
        a.waiting().contains(x) ==> b.waiting().contains(x),
{
    reveal(integrated_wf);
    lemma_state_le(a, b, x.id.client);
    lemma_state_le(b, a, x.id.client);
    if a.items().contains(x) {
        let i = choose|i: int| 0 <= i < a.items().len() && a.items()[i] == x;
        assert((a.items()[i].id.clock as nat) < a.state().get(a.items()[i].id.client));
        assert(b.received().contains(x));
        if b.waiting().contains(x) {
            let j = choose|j: int| 0 <= j < b.waiting().len() && b.waiting()[j] == x;
            assert((b.waiting()[j].id.clock as nat) > b.state().get(b.waiting()[j].id.client));
        }
    }
    if a.waiting().contains(x) {
        let i = choose|i: int| 0 <= i < a.waiting().len() && a.waiting()[i] == x;
        assert((a.waiting()[i].id.clock as nat) > a.state().get(a.waiting()[i].id.client));
        assert(b.received().contains(x));
        if b.items().contains(x) {
            let j = choose|j: int| 0 <= j < b.items().len() && b.items()[j] == x;
            assert((b.items()[j].id.clock as nat) < b.state().get(b.items()[j].id.client));
        }
    }
}

/// Applying the same updates in any order, any number of times, converges: stores
/// that start alike and then receive two sequences holding the same updates end with
/// the same integrated items, state vector, waiting items and delete set, provided no
/// two items share an identifier.
pub proof fn lemma_apply_converges(
    start: BlockStore,
    us1: Seq<Update>,
    us2: Seq<Update>,
    a: BlockStore,
    b: BlockStore,
)
    requires
        us1.to_set() == us2.to_set(),
        a.wf(),
        b.wf(),
        a.received() == start.received().union(items_of(us1)),
        b.received() == start.received().union(items_of(us2)),
        forall|id: ID| #[trigger] a.deletes().has(id) == (start.deletes().has(id) || deleted_by(us1, id)),
        forall|id: ID| #[trigger] b.deletes().has(id) == (start.deletes().has(id) || deleted_by(us2, id)),
    ensures
        forall|c: u64| a.state().get(c) == b.state().get(c),
        a.items().to_set() == b.items().to_set(),
        a.waiting().to_set() == b.waiting().to_set(),
        forall|id: ID| a.deletes().has(id) == b.deletes().has(id),
{
    assert forall|x: Item| items_of(us1).contains(x) <==> items_of(us2).contains(x) by {
        if items_of(us1).contains(x) {
            let i = choose|i: int| 0 <= i < us1.len() && (#[trigger] us1[i]).items@.contains(x);
            assert(us1.to_set().contains(us1[i]));
            assert(us2.contains(us1[i]));
            let j = choose|j: int| 0 <= j < us2.len() && us2[j] == us1[i];
            assert(us2[j].items@.contains(x));
        }
        if items_of(us2).contains(x) {
            let i = choose|i: int| 0 <= i < us2.len() && (#[trigger] us2[i]).items@.contains(x);
            assert(us2.to_set().contains(us2[i]));
            assert(us1.contains(us2[i]));
            let j = choose|j: int| 0 <= j < us1.len() && us1[j] == us2[i];
            assert(us1[j].items@.contains(x));
        }
    }
    assert(items_of(us1) =~= items_of(us2));
    lemma_same_received_same_state(a, b);
    assert forall|id: ID| a.deletes().has(id) == b.deletes().has(id) by {
        if deleted_by(us1, id) {
            let i = choose|i: int| 0 <= i < us1.len() && (#[trigger] us1[i]).delete_set.has(id);
            assert(us1.to_set().contains(us1[i]));
            assert(us2.contains(us1[i]));
            let j = choose|j: int| 0 <= j < us2.len() && us2[j] == us1[i];
            assert(us2[j].delete_set.has(id));
        }
        if deleted_by(us2, id) {
            let i = choose|i: int| 0 <= i < us2.len() && (#[trigger] us2[i]).delete_set.has(id);
            assert(us2.to_set().contains(us2[i]));
            assert(us1.contains(us2[i]));
            let j = choose|j: int| 0 <= j < us1.len() && us1[j] == us2[i];
            assert(us1[j].delete_set.has(id));
        }
    }
}

impl BlockStore {
    /// Applies a remote update: marks its deletions, then integrates every item whose
    /// predecessors are all integrated, drops those already integrated, and keeps the
    /// rest waiting; waiting items are retried until nothing more can be integrated.
    /// Without identifier collisions, what the store received grows by exactly the
    /// update's items.
    pub fn apply_update(&mut self, update: Update)
        requires
            old(self).wf(),
        ensures
            final(self).wf(),
            final(self).received().subset_of(old(self).received().union(update.items@.to_set())),
            ids_covered(final(self).received(), old(self).received().union(update.items@.to_set())),
            consistent(old(self).received().union(update.items@.to_set())) ==> final(self).received()
                == old(self).received().union(update.items@.to_set()),
            final(self).items().subrange(0, old(self).items().len() as int) == old(self).items(),
            old(self).items().len() <= final(self).items().len(),
            forall|id: ID|
                #[trigger] final(self).deletes().has(id) == (old(self).deletes().has(id)
                    || update.delete_set.has(id)),
    {
        let Update { items, delete_set } = update;
        let mut ds = DeleteSet::new();
        std::mem::swap(&mut ds, &mut self.deleted);
        let ghost d0 = ds;
        ds.merge(&delete_set);
        assert(forall|id: ID| #[trigger] ds.has(id) == (d0.has(id) || delete_set.has(id)));
        self.deleted = ds;
        let ghost merged = self.deleted;
        let mut work: Vec<Item> = Vec::new();
        std::mem::swap(&mut work, &mut self.pending);
        assert(self.deleted == merged);
        let ghost w0 = work@;
        let mut incoming = items;
        let ghost inc = incoming@;
        work.append(&mut incoming);
        proof {
            lemma_concat_to_set(w0, inc);
            assert(old(self).received() == old(self).items().to_set().union(w0.to_set()));
            assert(self.items().to_set().union(work@.to_set()) =~= old(self).received().union(
                inc.to_set(),
            ));
        }
        self.integrate(work);
        proof {
            assert(self.deletes() == merged);
            if consistent(old(self).received().union(inc.to_set())) {
                lemma_received_exact(self.received(), old(self).received().union(inc.to_set()));
            }
        }
    }

    /// Applies updates one after another. Without identifier collisions, what the store
    /// received grows by exactly the items of all of them, whatever their order.
    pub fn apply_updates(&mut self, updates: Vec<Update>)
        requires
            old(self).wf(),
        ensures
            final(self).wf(),
            final(self).received().subset_of(old(self).received().union(items_of(updates@))),
            ids_covered(final(self).received(), old(self).received().union(items_of(updates@))),
            consistent(old(self).received().union(items_of(updates@))) ==> final(self).received()
                == old(self).received().union(items_of(updates@)),
            forall|id: ID|
                #[trigger] final(self).deletes().has(id) == (old(self).deletes().has(id) || deleted_by(updates@, id)),
    {
        let ghost us = updates@;
        let mut rest = updates;
        let ghost mut taken: Seq<Update> = Seq::empty();
        proof {
            lemma_covered_refl(old(self).received());
            assert(old(self).received().union(items_of(taken)) =~= old(self).received());
            assert(taken + rest@ =~= us);
        }
        while rest.len() > 0
            invariant
                self.wf(),
                taken + rest@ == us,
                self.received().subset_of(old(self).received().union(items_of(taken))),
                ids_covered(self.received(), old(self).received().union(items_of(taken))),
                forall|id: ID|
                    #[trigger] self.deletes().has(id) == (old(self).deletes().has(id) || deleted_by(taken, id)),
            decreases rest@.len(),
        {
            let ghost before = self.received();
            let ghost taken0 = taken;
            let ghost rest0 = rest@;
            let u = rest.remove(0);
            let ghost ug = u;
            self.apply_update(u);
            proof {
                lemma_covered_union(
                    self.received(),
                    before,
                    ug.items@.to_set(),
                    old(self).received().union(items_of(taken0)),
                );
            }
            proof {
                taken = taken.push(ug);
            }
            proof {
                assert(rest0 =~= seq![ug] + rest@);
                assert(taken + rest@ =~= taken0 + rest0);
                assert(items_of(taken) =~= items_of(taken0).union(ug.items@.to_set())) by {
                    assert forall|x: Item| items_of(taken).contains(x) <==> items_of(taken0).union(
                        ug.items@.to_set(),
                    ).contains(x) by {
                        if items_of(taken).contains(x) {
                            let i = choose|i: int|
                                0 <= i < taken.len() && (#[trigger] taken[i]).items@.contains(x);
                            if i < taken0.len() {
                                assert(taken0[i] == taken[i]);
                            }
                        }
                        if items_of(taken0).contains(x) {
                            let i = choose|i: int|
                                0 <= i < taken0.len() && (#[trigger] taken0[i]).items@.contains(x);
                            assert(taken[i] == taken0[i]);
                        }
                        if ug.items@.to_set().contains(x) {
                            assert(taken[taken0.len() as int] == ug);
                        }
                    }
                }
                assert(old(self).received().union(items_of(taken0)).union(ug.items@.to_set())
                    =~= old(self).received().union(items_of(taken)));
                assert forall|id: ID| #[trigger] self.deletes().has(id) == (old(self).deletes().has(id)
                    || deleted_by(taken, id)) by {
                    if deleted_by(taken0, id) {
                        let i = choose|i: int| 0 <= i < taken0.len() && (#[trigger] taken0[i]).delete_set.has(id);
                        assert(taken[i] == taken0[i]);
                    }
                    if ug.delete_set.has(id) {
                        assert(taken[taken0.len() as int] == ug);
                    }
                    if deleted_by(taken, id) {
                        let i = choose|i: int| 0 <= i < taken.len() && (#[trigger] taken[i]).delete_set.has(id);
                        if i < taken0.len() {
                            assert(taken[i] == taken0[i]);
                        }
                    }
                }
            }
        }
        proof {
            assert(taken =~= us);
            assert(items_of(taken) =~= items_of(us)) by {
                assert forall|x: Item| items_of(taken).contains(x) <==> items_of(us).contains(x) by {
                    if items_of(taken).contains(x) {
                        let i = choose|i: int| 0 <= i < taken.len() && (#[trigger] taken[i]).items@.contains(x);
                        assert(us[i] == taken[i]);
                    }
                    if items_of(us).contains(x) {
                        let i = choose|i: int| 0 <= i < us.len() && (#[trigger] us[i]).items@.contains(x);
                        assert(taken[i] == us[i]);
                    }
                }
            }
            assert forall|id: ID| (deleted_by(taken, id))
                == (deleted_by(us, id)) by {
                if deleted_by(taken, id) {
                    let i = choose|i: int| 0 <= i < taken.len() && (#[trigger] taken[i]).delete_set.has(id);
                    assert(us[i] == taken[i]);
                }
                if deleted_by(us, id) {
                    let i = choose|i: int| 0 <= i < us.len() && (#[trigger] us[i]).delete_set.has(id);
                    assert(taken[i] == us[i]);
                }
            }
            if consistent(old(self).received().union(items_of(us))) {
                lemma_received_exact(self.received(), old(self).received().union(items_of(us)));
            }
        }
    }
}

fn select_items(items: &Vec<Item>, sv: &StateVector, above: bool) -> (r: Vec<Item>)
    ensures
        r@.to_set() == select(items@, *sv, above),
{
    let mut r: Vec<Item> = Vec::new();
    let mut i: usize = 0;
    while i < items.len()
        invariant
            i <= items@.len(),
            r@.to_set() == select(items@.subrange(0, i as int), *sv, above),
        decreases items.len() - i,
    {
        let x = &items[i];
        let ghost xg = *x;
        let ghost r0 = r@;
        let c = sv.clock_of(x.id.client);
        proof {
            assert(items@.subrange(0, i + 1) =~= items@.subrange(0, i as int).push(xg));
            items@.subrange(0, i as int).lemma_push_to_set_commute(xg);
        }
        if above == ((x.id.clock as u64) >= c) {
            r.push(x.clone());
            proof {
                r0.lemma_push_to_set_commute(xg);
            }
            assert(r@.to_set() =~= select(items@.subrange(0, i + 1), *sv, above));
        } else {
            assert(r@.to_set() =~= select(items@.subrange(0, i + 1), *sv, above));
        }
        i = i + 1;
    }
    assert(items@.subrange(0, items@.len() as int) =~= items@);
    r
}

impl BlockStore {
    /// The state vector: for each replica, the clock of the next operation expected.
    pub fn state_vector(&self) -> (r: StateVector)
        ensures
            forall|c: u64| r.get(c) == self.state().get(c),
    {
        self.state.clone()
    }

    /// The operations marked deleted.
    pub fn delete_set(&self) -> (r: DeleteSet)
        ensures
            r.ranges@ == self.deletes().ranges@,
    {
        self.deleted.clone()
    }

    /// A snapshot of the current state vector and delete set.
    pub fn snapshot(&self) -> (r: Snapshot)
        ensures
            forall|c: u64| r.state_vector.get(c) == self.state().get(c),
            r.delete_set.ranges@ == self.deletes().ranges@,
    {
        Snapshot { state_vector: self.state.clone(), delete_set: self.deleted.clone() }
    }

    /// Whether some received items still wait for a predecessor.
    pub fn has_pending(&self) -> (r: bool)
        ensures
            r == (self.waiting().len() > 0),
    {
        self.pending.len() > 0
    }

    /// Number of integrated items.
    pub fn len(&self) -> (r: usize)
        ensures
            r == self.items().len(),
    {
        self.blocks.len()
    }

    /// The integrated item at position `i` of integration order.
    pub fn item_at(&self, i: usize) -> (r: &Item)
        requires
            i < self.items().len(),
        ensures
            *r == self.items()[i as int],
    {
        &self.blocks[i]
    }

    /// The differential update for a replica whose state vector is `remote`: every
    /// integrated item it lacks, and the whole delete set.
    pub fn encode_diff(&self, remote: &StateVector) -> (r: Update)
        ensures
            r.items@.to_set() == select(self.items(), *remote, true),
            r.delete_set.ranges@ == self.deletes().ranges@,
    {
        Update { items: select_items(&self.blocks, remote, true), delete_set: self.deleted.clone() }
    }

    /// The history up to a snapshot: the integrated items below its state vector, and
    /// its delete set.
    pub fn encode_state_from_snapshot(&self, snapshot: &Snapshot) -> (r: Update)
        ensures
            r.items@.to_set() == select(self.items(), snapshot.state_vector, false),
            r.delete_set.ranges@ == snapshot.delete_set.ranges@,
    {
        Update {
            items: select_items(&self.blocks, &snapshot.state_vector, false),
            delete_set: snapshot.delete_set.clone(),
        }
    }

    /// Marks the operation `id` deleted.
    pub fn delete(&mut self, id: ID)
        requires
            old(self).wf(),
        ensures
            final(self).wf(),
            final(self).items() == old(self).items(),
            final(self).waiting() == old(self).waiting(),
            final(self).state() == old(self).state(),
            forall|x: ID| #[trigger] final(self).deletes().has(x) == (old(self).deletes().has(x) || x == id),
    {
        let mut ds = DeleteSet::new();
        std::mem::swap(&mut ds, &mut self.deleted);
        ds.insert(IdRange { client: id.client, clock: id.clock, len: 1 });
        self.deleted = ds;
    }

    /// Position of the integrated item with identifier `id`.
    pub fn find(&self, id: ID) -> (r: Option<usize>)
        ensures
            r matches Some(i) ==> i < self.items().len() && self.items()[i as int].id == id,
            r is None ==> !self.covers(id),
    {
        let mut i: usize = 0;
        while i < self.blocks.len()
            invariant
                i <= self.items().len(),
                forall|j: int| 0 <= j < i ==> (#[trigger] self.items()[j]).id != id,
            decreases self.blocks.len() - i,
        {
            if self.blocks[i].id == id {
                return Some(i);
            }
            i = i + 1;
        }
        None
    }

    /// The parent of the integrated item `id`.
    pub open spec fn parent_of(&self, id: ID) -> Option<Parent> {
        if self.covers(id) {
            let i = choose|i: int| 0 <= i < self.items().len() && (#[trigger] self.items()[i]).id == id;
            Some(self.items()[i].parent)
        } else {
            None
        }
    }

    /// Whether `id` is alive when following at most `fuel` parents: integrated, not
    /// deleted, and under a root or under an alive item.
    pub open spec fn alive_in(&self, id: ID, fuel: nat) -> bool
        decreases fuel,
    {
        if fuel == 0 {
            false
        } else {
            self.covers(id) && !self.deletes().has(id) && match self.parent_of(id) {
                Some(Parent::Item(p)) => self.alive_in(p, (fuel - 1) as nat),
                _ => true,
            }
        }
    }

    /// Whether the item `id` is alive: it and every item above it up to a root
    /// collection are integrated and not deleted. A chain of parents longer than the
    /// store (a cycle) is not alive.
    pub open spec fn alive(&self, id: ID) -> bool {
        self.alive_in(id, self.items().len())
    }

    /// Whether the item `id` is alive.
    pub fn is_alive(&self, id: ID) -> (r: bool)
        requires
            self.wf(),
        ensures
            r == self.alive(id),
    {
        reveal(integrated_wf);
        let mut cur = id;
        let mut fuel = self.blocks.len();
        while fuel > 0
            invariant
                self.wf(),
                fuel <= self.items().len(),
                self.alive(id) == self.alive_in(cur, fuel as nat),
            decreases fuel,
        {
            match self.find(cur) {
                None => {
                    return false;
                },
                Some(i) => {
                    if self.deleted.contains(cur) {
                        return false;
                    }
                    proof {
                        let k = choose|k: int|
                            0 <= k < self.items().len() && (#[trigger] self.items()[k]).id == cur;
                        reveal(integrated_wf);
                        if k < i as int {
                            assert(self.items()[k].id != self.items()[i as int].id);
                        } else if k > i as int {
                            assert(self.items()[i as int].id != self.items()[k].id);
                        }
                        assert(k == i as int);
                    }
                    match &self.blocks[i].parent {
                        Parent::Root(_) => {
                            return true;
                        },
                        Parent::Item(p) => {
                            cur = *p;
                            fuel = fuel - 1;
                        },
                    }
                },
            }
        }
        false
    }
}

impl BlockStore {
    /// Integrates a local operation of replica `client` at its next clock.
    pub fn insert_local(&mut self, client: u64, parent: Parent, key: Option<String>, content: Content) -> (id: ID)
        requires
            old(self).wf(),
            old(self).state().get(client) <= u32::MAX,
        ensures
            final(self).wf(),
            id == (ID { client, clock: old(self).state().get(client) as u32 }),
            final(self).covers(id),
            final(self).received().subset_of(
                old(self).received().insert(Item { id, parent, key, content }),
            ),
            ids_covered(final(self).received(), old(self).received().insert(Item { id, parent, key, content })),
            final(self).items().subrange(0, old(self).items().len() as int) == old(self).items(),
            old(self).items().len() <= final(self).items().len(),
            final(self).deletes() == old(self).deletes(),
            final(self).items().contains(Item { id, parent, key, content }),
            final(self).parent_of(id) == Some(parent),
    {
        let clock = self.state.clock_of(client) as u32;
        let id = ID { client, clock };
        let item = Item { id, parent, key, content };
        let ghost ig = item;
        let mut work: Vec<Item> = Vec::new();
        std::mem::swap(&mut work, &mut self.pending);
        let ghost w0 = work@;
        work.push(item);
        proof {
            w0.lemma_push_to_set_commute(ig);
            assert(self.items().to_set().union(work@.to_set()) =~= old(self).received().insert(ig));
        }
        let ghost mid = *self;
        assert(mid.state() == old(self).state());
        self.integrate(work);
        proof {
            reveal(ids_covered);
            let r0 = mid.items().to_set().union(work@.to_set());
            assert(r0.contains(ig));
            let y = choose|y: Item| #[trigger] self.received().contains(y) && y.id == ig.id;
            if self.waiting().contains(y) {
                let j = choose|j: int| 0 <= j < self.waiting().len() && self.waiting()[j] == y;
                assert(mid.state() == old(self).state());
                assert(mid.state().get(client) <= self.state().get(client));
                assert(self.waiting()[j].id.clock as nat > self.state().get(self.waiting()[j].id.client));
            } else {
                let j = choose|j: int| 0 <= j < self.items().len() && self.items()[j] == y;
                assert(self.items()[j].id == id);
                assert(r0.contains(y));
                reveal(integrated_wf);
                if y != ig {
                    assert(old(self).received().contains(y));
                    if old(self).items().contains(y) {
                        let q = choose|q: int| 0 <= q < old(self).items().len() && old(self).items()[q] == y;
                        assert((old(self).items()[q].id.clock as nat) < old(self).state().get(old(self).items()[q].id.client));
                    } else {
                        let q = choose|q: int| 0 <= q < old(self).waiting().len() && old(self).waiting()[q] == y;
                        assert((old(self).waiting()[q].id.clock as nat) > old(self).state().get(old(self).waiting()[q].id.client));
                    }
                }
                assert(self.items().contains(ig));
                lemma_parent_of(*self, j);
            }
        }
        id
    }
}

/// The parent of an integrated item is the one it was integrated with.
pub proof fn lemma_parent_of(s: BlockStore, i: int)
    requires
        s.wf(),
        0 <= i < s.items().len(),
    ensures
        s.parent_of(s.items()[i].id) == Some(s.items()[i].parent),
{
    reveal(integrated_wf);
    let id = s.items()[i].id;
    let k = choose|k: int| 0 <= k < s.items().len() && (#[trigger] s.items()[k]).id == id;
    if k < i {
        assert(s.items()[k].id != s.items()[i].id);
    } else if i < k {
        assert(s.items()[i].id != s.items()[k].id);
    }
}

/// An integrated, undeleted item under a root collection is alive with one step.
pub proof fn lemma_alive_at_root(s: BlockStore, id: ID, name: String)
    requires
        s.covers(id),
        !s.deletes().has(id),
        s.parent_of(id) == Some(Parent::Root(name)),
    ensures
        s.alive_in(id, 1),
{
}

/// An integrated, undeleted item whose parent is alive within `f` steps is alive
/// within `f + 1`: liveness passes down to nested items at any depth.
pub proof fn lemma_alive_below(s: BlockStore, id: ID, p: ID, f: nat)
    requires
        s.covers(id),
        !s.deletes().has(id),
        s.parent_of(id) == Some(Parent::Item(p)),
        s.alive_in(p, f),
    ensures
        s.alive_in(id, f + 1),
{
}

/// Liveness within fewer steps than the store has items is liveness.
pub proof fn lemma_alive_within(s: BlockStore, id: ID, f: nat)
    requires
        f <= s.items().len(),
        s.alive_in(id, f),
    ensures
        s.alive(id),
{
    lemma_alive_mono(s, id, f, s.items().len());
}

proof fn lemma_alive_mono(s: BlockStore, id: ID, f: nat, g: nat)
    requires
        f <= g,
        s.alive_in(id, f),
    ensures
        s.alive_in(id, g),
    decreases f,
{
    if let Some(Parent::Item(p)) = s.parent_of(id) {
        lemma_alive_mono(s, p, (f - 1) as nat, (g - 1) as nat);
    }
}

/// An item marked deleted is not alive.
pub proof fn lemma_deleted_not_alive(s: BlockStore, id: ID)
    requires
        s.deletes().has(id),
    ensures
        !s.alive(id),
{
}

/// An item whose parent item is not alive is not alive either: removing an item
/// takes everything nested under it, at any depth, with it.
pub proof fn lemma_dead_parent(s: BlockStore, id: ID, p: ID)
    requires
        s.parent_of(id) == Some(Parent::Item(p)),
        !s.alive(p),
    ensures
        !s.alive(id),
{
    if s.alive(id) {
        lemma_alive_mono(s, p, (s.items().len() - 1) as nat, s.items().len());
    }
}

/// The items a well-formed store integrated carry distinct identifiers, so any part of
/// them can be received by another store without collisions.
pub proof fn lemma_select_consistent(s: BlockStore, sv: StateVector, above: bool)
    requires
        s.wf(),
    ensures
        consistent(select(s.items(), sv, above)),
{
    reveal(integrated_wf);
    assert forall|x: Item, y: Item| #[trigger] select(s.items(), sv, above).contains(x) && #[trigger] select(
        s.items(),
        sv,
        above,
    ).contains(y) && x.id == y.id implies x == y by {
        let i = choose|i: int| 0 <= i < s.items().len() && s.items()[i] == x;
        let j = choose|j: int| 0 <= j < s.items().len() && s.items()[j] == y;
        if i < j {
            assert(s.items()[i].id != s.items()[j].id);
        } else if j < i {
            assert(s.items()[j].id != s.items()[i].id);
        }
    }
}

/// Snapshot isolation: the history up to a snapshot taken when a store was `a0`,
/// produced later when it has become `a1` (which only added items), and received by a
/// store `fresh` that held nothing else, makes `fresh` integrate exactly the items `a0`
/// had, none of the later ones, with nothing left waiting.
pub proof fn lemma_snapshot_isolation(a0: BlockStore, a1: BlockStore, snapshot: StateVector, fresh: BlockStore)
    requires
        a0.wf(),
        a1.wf(),
        a0.items().len() <= a1.items().len(),
        a1.items().subrange(0, a0.items().len() as int) == a0.items(),
        forall|c: u64| #[trigger] snapshot.get(c) == a0.state().get(c),
        fresh.wf(),
        fresh.received() == select(a1.items(), snapshot, false),
    ensures
        fresh.items().to_set() == a0.items().to_set(),
        fresh.waiting().len() == 0,
{
    reveal(integrated_wf);
    let sel = select(a1.items(), snapshot, false);
    assert forall|x: Item| sel.contains(x) <==> a0.items().to_set().contains(x) by {
        if sel.contains(x) {
            let k = choose|k: int| 0 <= k < a1.items().len() && a1.items()[k] == x;
            assert(snapshot.get(x.id.client) == a0.state().get(x.id.client));
            assert(covered(a0.items(), x.id));
            let i = choose|i: int| 0 <= i < a0.items().len() && (#[trigger] a0.items()[i]).id == x.id;
            assert(a1.items().subrange(0, a0.items().len() as int)[i] == a1.items()[i]);
            assert(a1.items()[i] == a0.items()[i]);
            if k < i {
                assert(a1.items()[k].id != a1.items()[i].id);
            } else if i < k {
                assert(a1.items()[i].id != a1.items()[k].id);
            }
            assert(a0.items()[i] == x);
        }
        if a0.items().to_set().contains(x) {
            let i = choose|i: int| 0 <= i < a0.items().len() && a0.items()[i] == x;
            assert(a1.items().subrange(0, a0.items().len() as int)[i] == a1.items()[i]);
            assert(a1.items()[i] == x);
            assert((a0.items()[i].id.clock as nat) < a0.state().get(a0.items()[i].id.client));
            assert(snapshot.get(x.id.client) == a0.state().get(x.id.client));
        }
    }
    assert(sel =~= a0.items().to_set());
    // nothing waits: every received item is below the fresh store's state vector
    if fresh.waiting().len() > 0 {
        let w = fresh.waiting()[0];
        assert(fresh.received().contains(w));
        assert(a0.items().to_set().contains(w));
        let c = w.id.client;
        assert((w.id.clock as nat) > fresh.state().get(c));
        let i = choose|i: int| 0 <= i < a0.items().len() && a0.items()[i] == w;
        assert((a0.items()[i].id.clock as nat) < a0.state().get(a0.items()[i].id.client));
        let k = fresh.state().get(c);
        let id = ID { client: c, clock: k as u32 };
        assert(covered(a0.items(), id));
        let j = choose|j: int| 0 <= j < a0.items().len() && (#[trigger] a0.items()[j]).id == id;
        let z = a0.items()[j];
        assert(a0.items().to_set().contains(z));
        assert(fresh.received().contains(z));
        if fresh.items().contains(z) {
            let q = choose|q: int| 0 <= q < fresh.items().len() && fresh.items()[q] == z;
            assert((fresh.items()[q].id.clock as nat) < fresh.state().get(fresh.items()[q].id.client));
        } else {
            assert(fresh.waiting().contains(z));
            let q = choose|q: int| 0 <= q < fresh.waiting().len() && fresh.waiting()[q] == z;
            assert((fresh.waiting()[q].id.clock as nat) > fresh.state().get(fresh.waiting()[q].id.client));
        }
    }
    assert(fresh.waiting().to_set() =~= Set::<Item>::empty());
    assert(fresh.items().to_set() =~= fresh.received());
}

} // verus!
