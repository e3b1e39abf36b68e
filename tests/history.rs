use yrs::block::{Content, DeleteSet, IdRange, Item, Parent, StateVector, TypeKind, Update, ID};
use yrs::store::BlockStore;

fn ch(client: u64, clock: u32, c: char) -> Item {
    Item {
        id: ID { client, clock },
        parent: Parent::Root("text".to_string()),
        key: None,
        content: Content::Char(c),
    }
}

fn update(items: Vec<Item>) -> Update {
    Update { items, delete_set: DeleteSet::new() }
}

fn chars(s: &BlockStore) -> Vec<(u64, u32, char)> {
    let mut v = Vec::new();
    for i in 0..s.len() {
        let it = s.item_at(i);
        if let Content::Char(c) = it.content {
            v.push((it.id.client, it.id.clock, c));
        }
    }
    v.sort();
    v
}

#[test]
fn out_of_order_updates() {
    let u1 = || update(vec![ch(1, 0, 'a'), ch(1, 1, 'b')]);
    let u2 = || update(vec![ch(1, 2, 'c')]);
    let u3 = || update(vec![ch(1, 3, 'd')]);
    let mut s = BlockStore::new();
    s.apply_update(u1());
    assert!(!s.has_pending());
    s.apply_update(u3());
    assert!(s.has_pending());
    assert_eq!(s.state_vector().clock_of(1), 2);
    s.apply_update(u2());
    assert!(!s.has_pending());
    assert_eq!(s.state_vector().clock_of(1), 4);

    let mut in_order = BlockStore::new();
    in_order.apply_updates(vec![u1(), u2(), u3()]);
    assert_eq!(chars(&s), chars(&in_order));
    assert_eq!(chars(&s).len(), 4);
}

#[test]
fn permutations_with_duplicates_converge() {
    let a = || update(vec![ch(1, 0, 'x'), ch(1, 1, 'y')]);
    let b = || update(vec![ch(2, 0, 'p'), ch(1, 2, 'z')]);
    let c = || Update {
        items: vec![ch(2, 1, 'q')],
        delete_set: DeleteSet { ranges: vec![IdRange { client: 1, clock: 1, len: 1 }] },
    };
    let mut s1 = BlockStore::new();
    s1.apply_updates(vec![a(), b(), c()]);
    let mut s2 = BlockStore::new();
    s2.apply_updates(vec![c(), b(), c(), a(), b()]);
    assert_eq!(chars(&s1), chars(&s2));
    assert_eq!(chars(&s1).len(), 5);
    for client in [1u64, 2, 3] {
        assert_eq!(s1.state_vector().clock_of(client), s2.state_vector().clock_of(client));
    }
    assert!(!s1.has_pending() && !s2.has_pending());
    let d1 = s1.delete_set();
    let d2 = s2.delete_set();
    for clock in 0..3 {
        let id = ID { client: 1, clock };
        assert_eq!(d1.contains(id), d2.contains(id));
    }
    assert!(d1.contains(ID { client: 1, clock: 1 }));
}

#[test]
fn partially_duplicated_update() {
    let mut s = BlockStore::new();
    s.apply_update(update(vec![ch(1, 0, 'h'), ch(1, 1, 'i')]));
    s.apply_update(update(vec![ch(1, 1, 'i'), ch(1, 2, '!')]));
    assert_eq!(s.len(), 3);
    assert_eq!(s.state_vector().clock_of(1), 3);
}

#[test]
fn gap_that_never_fills_stays_pending() {
    let mut s = BlockStore::new();
    s.apply_update(update(vec![ch(7, 5, 'z')]));
    assert!(s.has_pending());
    assert_eq!(s.len(), 0);
    assert_eq!(s.state_vector().clock_of(7), 0);
}

#[test]
fn local_inserts_take_consecutive_clocks() {
    let mut s = BlockStore::new();
    let a = s.insert_local(9, Parent::Root("t".to_string()), None, Content::Char('a'));
    let b = s.insert_local(9, Parent::Root("t".to_string()), None, Content::Char('b'));
    assert_eq!(a, ID { client: 9, clock: 0 });
    assert_eq!(b, ID { client: 9, clock: 1 });
    assert_eq!(s.find(b), Some(1));
    assert_eq!(s.find(ID { client: 9, clock: 2 }), None);
}

#[test]
fn encode_diff_sends_only_what_is_missing() {
    let mut a = BlockStore::new();
    a.apply_update(update(vec![ch(1, 0, 'a'), ch(1, 1, 'b'), ch(2, 0, 'c')]));
    let mut b = BlockStore::new();
    b.apply_update(update(vec![ch(1, 0, 'a')]));
    let diff = a.encode_diff(&b.state_vector());
    assert_eq!(diff.items.len(), 2);
    b.apply_update(diff);
    assert_eq!(chars(&a), chars(&b));
    let none = a.encode_diff(&a.state_vector());
    assert_eq!(none.items.len(), 0);
    let empty = StateVector::new();
    assert_eq!(a.encode_diff(&empty).items.len(), 3);
}

#[test]
fn apply_snapshot_updates() {
    let mut s = BlockStore::new();
    for c in "hello".chars() {
        s.insert_local(1, Parent::Root("test".to_string()), None, Content::Char(c));
    }
    let snap = s.snapshot();
    for c in " world".chars() {
        s.insert_local(1, Parent::Root("test".to_string()), None, Content::Char(c));
    }
    let u = s.encode_state_from_snapshot(&snap);
    let mut fresh = BlockStore::new();
    fresh.apply_update(u);
    let text: String = chars(&fresh).into_iter().map(|(_, _, c)| c).collect();
    assert_eq!(text, "hello");
    assert!(!fresh.has_pending());
}

#[test]
fn check_liveness() {
    let root = || Parent::Root("root".to_string());
    let mut d1 = BlockStore::new();
    let a = d1.insert_local(1, root(), Some("a".to_string()), Content::Type(TypeKind::KeyMap));
    let aa = d1.insert_local(1, Parent::Item(a), Some("aa".to_string()), Content::Type(TypeKind::KeyMap));
    assert!(d1.is_alive(a), "1st level nesting");
    assert!(d1.is_alive(aa), "2nd level nesting");

    let mut d2 = BlockStore::new();
    d2.apply_update(d1.encode_diff(&d2.state_vector()));
    assert!(d2.is_alive(a), "1st level nesting (remote)");
    assert!(d2.is_alive(aa), "2nd level nesting (remote)");

    d1.delete(a);
    assert!(!d1.is_alive(a), "child was removed");
    assert!(!d1.is_alive(aa), "parent was removed");

    d2.apply_update(d1.encode_diff(&d2.state_vector()));
    assert!(!d2.is_alive(a), "child was removed (remote)");
    assert!(!d2.is_alive(aa), "parent was removed (remote)");
    assert!(!d2.is_alive(ID { client: 5, clock: 0 }));
}
