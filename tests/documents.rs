use yrs::block::{Content, Parent, TypeKind};
use yrs::doc::{Doc, DocAddr, DocRegistry, EventKind, Mode, SnapshotError, TransactionAcqError};
use yrs::options::Options;

fn guid(reg: &DocRegistry, d: Doc) -> String {
    d.guid(reg).clone()
}

fn guids(reg: &DocRegistry, ds: &[Doc]) -> Vec<String> {
    ds.iter().map(|d| guid(reg, *d)).collect()
}

fn subdoc_with_guid(reg: &mut DocRegistry, g: &str, should_load: bool) -> Doc {
    let mut o = Options::default();
    o.guid = g.to_string();
    o.should_load = should_load;
    Doc::with_options(reg, o)
}

#[test]
fn handles_and_identity() {
    let mut reg = DocRegistry::new();
    let a = Doc::with_client_id(&mut reg, 1490905955);
    let b = Doc::new(&mut reg);
    assert_eq!(a.client_id(&reg), 1490905955);
    assert_eq!(a.options(&reg).client_id, 1490905955);
    assert_eq!(a.guid(&reg).len(), 36);
    assert!(Doc::ptr_eq(&a, &a));
    assert!(!Doc::ptr_eq(&a, &b));
    assert_eq!(a.into_raw(), 0);
    assert_eq!(b.as_raw(), 1);
    assert_eq!(DocAddr::new(&b), b.addr());
    assert!(Doc::ptr_eq(&Doc::from_raw(1), &b));
}

#[test]
fn transaction_arbitration() {
    let mut reg = DocRegistry::new();
    let d = Doc::new(&mut reg);
    let r1 = d.try_transact(&mut reg).unwrap();
    let r2 = d.transact(&mut reg);
    assert_eq!(reg.get(d).mode, Mode::Shared(2));
    assert_eq!(d.try_transact_mut(&mut reg).err(), Some(TransactionAcqError::ExclusiveAcqFailed));
    r1.end(&mut reg);
    r2.end(&mut reg);
    assert_eq!(reg.get(d).mode, Mode::Free);
    let w = d.try_transact_mut_with(&mut reg, vec![7]).unwrap();
    assert_eq!(w.origin, Some(vec![7]));
    assert_eq!(d.try_transact(&mut reg), Err(TransactionAcqError::SharedAcqFailed));
    assert_eq!(d.try_transact_mut(&mut reg).err(), Some(TransactionAcqError::ExclusiveAcqFailed));
    assert_eq!(d.observe_update_v1(&mut reg), Err(TransactionAcqError::ExclusiveAcqFailed));
    w.commit(&mut reg);
    assert_eq!(reg.get(d).mode, Mode::Free);
    let again = d.transact_mut_with(&mut reg, vec![1, 2]);
    assert_eq!(again.origin, Some(vec![1, 2]));
    again.commit(&mut reg);
}

#[test]
fn root_collections() {
    let mut reg = DocRegistry::new();
    let d = Doc::new(&mut reg);
    let t = d.get_or_insert_text(&mut reg, "text".to_string());
    assert_eq!(t.kind, TypeKind::Text);
    assert_eq!(t.name, "text");
    let m = d.get_or_insert_map(&mut reg, "map".to_string());
    assert_eq!(m.kind, TypeKind::KeyMap);
    let a = d.get_or_insert_array(&mut reg, "array".to_string());
    assert_eq!(a.kind, TypeKind::Array);
    let x = d.get_or_insert_xml_fragment(&mut reg, "xml".to_string());
    assert_eq!(x.kind, TypeKind::XmlFragment);
    d.get_or_insert_text(&mut reg, "text".to_string());
    assert_eq!(reg.get(d).roots.len(), 4);
}

#[test]
fn on_update() {
    let mut reg = DocRegistry::new();
    let d = Doc::with_client_id(&mut reg, 1);
    let cleanup = d.observe_transaction_cleanup(&mut reg).unwrap();
    let v1 = d.observe_update_v1(&mut reg).unwrap();
    let after = d.observe_after_transaction(&mut reg).unwrap();
    let v2 = d.observe_update_v2(&mut reg).unwrap();
    let subdocs = d.observe_subdocs(&mut reg).unwrap();
    let mut txn = d.transact_mut(&mut reg);
    for c in "abc".chars() {
        txn.insert(&mut reg, Parent::Root("test".to_string()), None, Content::Char(c));
    }
    let commit = txn.commit(&mut reg);
    assert!(commit.changed);
    assert_eq!(commit.update.items.len(), 3);
    assert_eq!(commit.after_state.clock_of(1), 3);
    assert_eq!(commit.before_state.clock_of(1), 0);
    assert_eq!(commit.fired, vec![cleanup, v1, v2, after]);
    assert_eq!(subdocs.kind, EventKind::Subdocs);

    // a transaction that changes nothing fires only the after-transaction hook
    let txn = d.transact_mut(&mut reg);
    let commit = txn.commit(&mut reg);
    assert!(!commit.changed);
    assert_eq!(commit.fired, vec![after]);
}

#[test]
fn observe_transaction_cleanup() {
    let mut reg = DocRegistry::new();
    let d = Doc::with_client_id(&mut reg, 1);
    let cleanup = d.observe_transaction_cleanup(&mut reg).unwrap();
    let mut txn = d.transact_mut(&mut reg);
    let id = txn.insert(&mut reg, Parent::Root("test".to_string()), None, Content::Char('a'));
    let c = txn.commit(&mut reg);
    assert_eq!(c.fired, vec![cleanup]);
    let mut txn = d.transact_mut(&mut reg);
    txn.remove(&mut reg, id);
    let c = txn.commit(&mut reg);
    assert!(c.changed);
    assert!(c.delete_set.contains(id));
    assert_eq!(c.fired, vec![cleanup]);
}

#[test]
fn subdoc() {
    let mut reg = DocRegistry::new();
    let doc = Doc::with_client_id(&mut reg, 1);
    let subs = doc.observe_subdocs(&mut reg).unwrap();
    doc.get_or_insert_map(&mut reg, "mysubdocs".to_string());
    let doc_a = subdoc_with_guid(&mut reg, "A", true);
    let mut txn = doc.transact_mut(&mut reg);
    let slot_a = txn.insert_subdoc(&mut reg, Parent::Root("mysubdocs".to_string()), Some("a".to_string()), doc_a);
    doc_a.load(&mut reg, &mut txn);
    let c = txn.commit(&mut reg);
    assert_eq!(guids(&reg, &c.added), vec!["A"]);
    assert!(c.removed.is_empty());
    assert_eq!(guids(&reg, &c.loaded), vec!["A"]);
    assert_eq!(c.fired.last(), Some(&subs));

    // loading again changes nothing
    let mut txn = doc.transact_mut(&mut reg);
    let a_ref = doc.subdoc_at(&reg, slot_a).unwrap();
    a_ref.load(&mut reg, &mut txn);
    let c = txn.commit(&mut reg);
    assert!(c.added.is_empty() && c.removed.is_empty() && c.loaded.is_empty());
    assert!(!c.fired.contains(&subs));

    // destroying replaces the instance in its slot
    let mut txn = doc.transact_mut(&mut reg);
    a_ref.destroy(&mut reg, &mut txn);
    let c = txn.commit(&mut reg);
    assert_eq!(guids(&reg, &c.added), vec!["A"]);
    assert_eq!(guids(&reg, &c.removed), vec!["A"]);
    assert!(c.loaded.is_empty());
    let fresh = doc.subdoc_at(&reg, slot_a).unwrap();
    assert!(!Doc::ptr_eq(&fresh, &a_ref));
    assert_eq!(guid(&reg, fresh), "A");
    assert!(!fresh.options(&reg).should_load);

    // the new instance is not loaded yet, so loading it is recorded
    let mut txn = doc.transact_mut(&mut reg);
    fresh.load(&mut reg, &mut txn);
    let c = txn.commit(&mut reg);
    assert!(c.added.is_empty() && c.removed.is_empty());
    assert_eq!(guids(&reg, &c.loaded), vec!["A"]);

    // a document inserted with loading off is only added
    let doc_b = subdoc_with_guid(&mut reg, "A", false);
    let mut txn = doc.transact_mut(&mut reg);
    txn.insert_subdoc(&mut reg, Parent::Root("mysubdocs".to_string()), Some("b".to_string()), doc_b);
    let c = txn.commit(&mut reg);
    assert_eq!(guids(&reg, &c.added), vec!["A"]);
    assert!(c.loaded.is_empty());
    let mut txn = doc.transact_mut(&mut reg);
    doc_b.load(&mut reg, &mut txn);
    let c = txn.commit(&mut reg);
    assert_eq!(guids(&reg, &c.loaded), vec!["A"]);

    // removing the item that holds a nested document removes it
    let mut txn = doc.transact_mut(&mut reg);
    txn.remove(&mut reg, slot_a);
    let c = txn.commit(&mut reg);
    assert_eq!(c.removed.len(), 1);
    assert!(Doc::ptr_eq(&c.removed[0], &fresh));
}

#[test]
fn subdoc_load_edge_cases() {
    let mut reg = DocRegistry::new();
    let doc = Doc::with_client_id(&mut reg, 1);
    let sub = Doc::new(&mut reg);
    let uuid = guid(&reg, sub);
    let mut txn = doc.transact_mut(&mut reg);
    let slot = txn.insert_subdoc(&mut reg, Parent::Root("test".to_string()), None, sub);
    assert!(sub.options(&reg).should_load);
    assert!(!sub.options(&reg).auto_load);
    let c = txn.commit(&mut reg);
    assert_eq!(guids(&reg, &c.added), vec![uuid.clone()]);
    assert_eq!(guids(&reg, &c.loaded), vec![uuid.clone()]);

    let mut txn = doc.transact_mut(&mut reg);
    sub.destroy(&mut reg, &mut txn);
    let c = txn.commit(&mut reg);
    let sub2 = doc.subdoc_at(&reg, slot).unwrap();
    assert!(!Doc::ptr_eq(&sub, &sub2));
    assert_eq!(guids(&reg, &c.added), vec![uuid.clone()]);
    assert_eq!(guids(&reg, &c.removed), vec![uuid.clone()]);
    assert!(c.loaded.is_empty());

    // remote replica: the nested document arrives unloaded
    let doc2 = Doc::with_client_id(&mut reg, 2);
    let sv = reg.get(doc2).blocks.state_vector();
    let u = reg.get(doc).blocks.encode_diff(&sv);
    let mut txn = doc2.transact_mut(&mut reg);
    txn.apply_update(&mut reg, u);
    let c = txn.commit(&mut reg);
    assert_eq!(c.added.len(), 1);
    assert!(c.loaded.is_empty());
    let sub3 = c.added[0];
    assert!(!sub3.options(&reg).should_load);
    assert_eq!(guid(&reg, sub3), uuid);
    let mut txn = doc2.transact_mut(&mut reg);
    sub3.load(&mut reg, &mut txn);
    let c = txn.commit(&mut reg);
    assert!(sub3.options(&reg).should_load);
    assert_eq!(guids(&reg, &c.loaded), vec![uuid]);
}

#[test]
fn subdoc_auto_load_edge_cases() {
    let mut reg = DocRegistry::new();
    let doc = Doc::with_client_id(&mut reg, 1);
    let mut o = Options::default();
    o.auto_load = true;
    let sub = Doc::with_options(&mut reg, o);
    let mut txn = doc.transact_mut(&mut reg);
    txn.insert_subdoc(&mut reg, Parent::Root("test".to_string()), None, sub);
    let c = txn.commit(&mut reg);
    assert_eq!(c.added.len(), 1);
    assert_eq!(c.loaded.len(), 1);

    let doc2 = Doc::with_client_id(&mut reg, 2);
    let sv = reg.get(doc2).blocks.state_vector();
    let u = reg.get(doc).blocks.encode_diff(&sv);
    let mut txn = doc2.transact_mut(&mut reg);
    txn.apply_update(&mut reg, u);
    let c = txn.commit(&mut reg);
    assert_eq!(c.added.len(), 1);
    assert_eq!(c.loaded.len(), 1);
    assert!(c.added[0].options(&reg).auto_load);
    assert!(c.added[0].options(&reg).should_load);
    assert_eq!(c.added[0].client_id(&reg), 2);
}

#[test]
fn destroy_fires_and_tears_down_subscriptions() {
    let mut reg = DocRegistry::new();
    let doc = Doc::with_client_id(&mut reg, 1);
    let sub = Doc::new(&mut reg);
    let nested = Doc::new(&mut reg);
    let on_destroy = sub.observe_destroy(&mut reg).unwrap();
    let nested_destroy = nested.observe_destroy(&mut reg).unwrap();
    let mut txn = doc.transact_mut(&mut reg);
    txn.insert_subdoc(&mut reg, Parent::Root("test".to_string()), None, sub);
    txn.commit(&mut reg);
    let mut inner = sub.transact_mut(&mut reg);
    inner.insert_subdoc(&mut reg, Parent::Root("inner".to_string()), None, nested);
    inner.commit(&mut reg);

    let mut txn = doc.transact_mut(&mut reg);
    let fired = sub.destroy(&mut reg, &mut txn);
    txn.commit(&mut reg);
    assert_eq!(fired, vec![nested_destroy, on_destroy]);
    assert!(reg.get(sub).events.is_none());
    assert!(reg.get(nested).events.is_none());
}

#[test]
fn snapshot_needs_kept_history() {
    let mut reg = DocRegistry::new();
    let mut o = Options::with_client_id(1);
    o.skip_gc = true;
    let kept = Doc::with_options(&mut reg, o);
    let gc = Doc::with_client_id(&mut reg, 2);

    let mut txn = kept.transact_mut(&mut reg);
    for c in "hello".chars() {
        txn.insert(&mut reg, Parent::Root("test".to_string()), None, Content::Char(c));
    }
    let snap = txn.snapshot(&reg);
    for c in " world".chars() {
        txn.insert(&mut reg, Parent::Root("test".to_string()), None, Content::Char(c));
    }
    let u = txn.encode_state_from_snapshot(&reg, &snap).unwrap();
    assert_eq!(u.items.len(), 5);
    txn.commit(&mut reg);

    let txn = gc.transact_mut(&mut reg);
    let snap = txn.snapshot(&reg);
    assert_eq!(txn.encode_state_from_snapshot(&reg, &snap).err(), Some(SnapshotError::GcEnabled));
    txn.commit(&mut reg);
}

#[test]
fn unobserved_subscription_no_longer_fires() {
    let mut reg = DocRegistry::new();
    let d = Doc::with_client_id(&mut reg, 3);
    let sub = d.observe_update_v1(&mut reg).unwrap();
    let mut txn = d.transact_mut(&mut reg);
    txn.insert(&mut reg, Parent::Root("test".to_string()), None, Content::Char('a'));
    assert_eq!(txn.commit(&mut reg).fired, vec![sub]);
    assert!(d.unobserve(&mut reg, &sub));
    assert!(!d.unobserve(&mut reg, &sub));
    let mut txn = d.transact_mut(&mut reg);
    txn.insert(&mut reg, Parent::Root("test".to_string()), None, Content::Char('b'));
    assert!(txn.commit(&mut reg).fired.is_empty());
}

#[test]
fn guid_equality_is_not_identity() {
    let mut reg = DocRegistry::new();
    let a = subdoc_with_guid(&mut reg, "same", true);
    let b = subdoc_with_guid(&mut reg, "same", true);
    assert!(a.guid_eq(&b, &reg));
    assert!(!Doc::ptr_eq(&a, &b));
    let parent = Doc::with_client_id(&mut reg, 1);
    assert_eq!(a.parent_doc(&reg), None);
    let mut txn = parent.transact_mut(&mut reg);
    let slot = txn.insert_subdoc(&mut reg, Parent::Root("m".to_string()), None, a);
    txn.commit(&mut reg);
    assert_eq!(a.parent_doc(&reg), Some(parent));
    assert_eq!(a.branch_id(&reg), Some(slot));
}

#[test]
fn remote_removal_of_a_nested_document() {
    let mut reg = DocRegistry::new();
    let d1 = Doc::with_client_id(&mut reg, 1);
    let d2 = Doc::with_client_id(&mut reg, 2);
    let sub = Doc::new(&mut reg);
    let mut txn = d1.transact_mut(&mut reg);
    let slot = txn.insert_subdoc(&mut reg, Parent::Root("m".to_string()), None, sub);
    txn.commit(&mut reg);
    let u = reg.get(d1).blocks.encode_diff(&reg.get(d2).blocks.state_vector());
    let mut txn = d2.transact_mut(&mut reg);
    txn.apply_update(&mut reg, u);
    let c = txn.commit(&mut reg);
    assert_eq!(c.added.len(), 1);
    let remote_sub = c.added[0];

    let mut txn = d1.transact_mut(&mut reg);
    txn.remove(&mut reg, slot);
    txn.commit(&mut reg);
    let u = reg.get(d1).blocks.encode_diff(&reg.get(d2).blocks.state_vector());
    let mut txn = d2.transact_mut(&mut reg);
    txn.apply_update(&mut reg, u);
    let c = txn.commit(&mut reg);
    assert_eq!(c.removed, vec![remote_sub]);
    assert!(c.added.is_empty());
}

#[test]
fn destroy_of_a_document_in_a_deleted_item() {
    let mut reg = DocRegistry::new();
    let doc = Doc::with_client_id(&mut reg, 1);
    let sub = Doc::new(&mut reg);
    let mut txn = doc.transact_mut(&mut reg);
    let slot = txn.insert_subdoc(&mut reg, Parent::Root("m".to_string()), None, sub);
    txn.commit(&mut reg);
    let mut txn = doc.transact_mut(&mut reg);
    txn.remove(&mut reg, slot);
    txn.commit(&mut reg);
    let mut txn = doc.transact_mut(&mut reg);
    sub.destroy(&mut reg, &mut txn);
    let c = txn.commit(&mut reg);
    assert!(c.added.is_empty());
    assert_eq!(c.removed, vec![sub]);
    let fresh = doc.subdoc_at(&reg, slot).unwrap();
    assert!(!Doc::ptr_eq(&fresh, &sub));
}

#[test]
fn destroy_of_a_top_level_document_records_nothing() {
    let mut reg = DocRegistry::new();
    let doc = Doc::with_client_id(&mut reg, 1);
    let other = Doc::with_client_id(&mut reg, 2);
    let on_destroy = doc.observe_destroy(&mut reg).unwrap();
    let mut txn = other.transact_mut(&mut reg);
    let fired = doc.destroy(&mut reg, &mut txn);
    let c = txn.commit(&mut reg);
    assert_eq!(fired, vec![on_destroy]);
    assert!(c.added.is_empty() && c.removed.is_empty() && c.loaded.is_empty());
    assert_eq!(doc.client_id(&reg), 1);
}
