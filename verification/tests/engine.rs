use loro_core::change::{Change, OpContent, RemoteOp};
use loro_core::container::{ContainerID, ContainerType};
use loro_core::errors::LoroError;
use loro_core::id::OpID;
use loro_core::registry::ContainerRegistry;
use loro_core::version::VersionVector;
use loro_core::{Configure, LoroCore};

fn map_set_change(
    client: u64,
    start_counter: u64,
    container_name: u64,
    key: u64,
    value: u64,
    deps: Vec<OpID>,
) -> Change {
    Change {
        client,
        start_counter,
        ops: vec![RemoteOp {
            container: ContainerID::Root { name: container_name, kind: ContainerType::MapType },
            content: OpContent::MapSet { key, value: Some(value) },
            counter: start_counter,
        }],
        deps,
        timestamp: 0,
    }
}

#[test]
fn text_concurrent_inserts_converge() {
    // Client 1 types "ab"; client 2, concurrently from an empty start,
    // types "c" at the front. After a full exchange both replicas must
    // show the same text, with the tie broken by operation identifier:
    // of two concurrent insertions at one anchor, the higher identifier
    // settles on the left.
    let mut a = LoroCore::new(Configure::default(), Some(1));
    let mut b = LoroCore::new(Configure::default(), Some(2));
    let ta = a.get_text(7).unwrap();
    ta.insert(&mut a, 0, 'a');
    ta.insert(&mut a, 1, 'b');
    let tb = b.get_text(7).unwrap();
    tb.insert(&mut b, 0, 'c');

    let to_b = a.export(b.vv());
    b.import(to_b).unwrap();
    let to_a = b.export(a.vv());
    a.import(to_a).unwrap();

    assert_eq!(ta.chars(&a), vec!['c', 'a', 'b']);
    assert_eq!(tb.chars(&b), vec!['c', 'a', 'b']);
}

#[test]
fn map_lww_merge_higher_counter_wins() {
    // Client 1 writes key 10 at counter 5; client 2 writes the same key at
    // counter 3. The operation with the greater identifier under the
    // (counter, client) order wins on both replicas.
    let mut a = LoroCore::new(Configure::default(), Some(1));
    let mut b = LoroCore::new(Configure::default(), Some(2));
    let ma = a.get_map(3).unwrap();
    for i in 0..5u64 {
        ma.insert(&mut a, 100 + i, 0);
    }
    ma.insert(&mut a, 10, 1); // OpID (1, 5)
    let mb = b.get_map(3).unwrap();
    for i in 0..3u64 {
        mb.insert(&mut b, 200 + i, 0);
    }
    mb.insert(&mut b, 10, 2); // OpID (2, 3)

    let to_b = a.export(b.vv());
    b.import(to_b).unwrap();
    let to_a = b.export(a.vv());
    a.import(to_a).unwrap();

    assert_eq!(ma.get(&a, 10), Some(1));
    assert_eq!(mb.get(&b, 10), Some(1));
}

#[test]
fn map_lww_merge_higher_client_breaks_tie() {
    // Same key, same counter: the higher client identifier wins.
    let mut a = LoroCore::new(Configure::default(), Some(1));
    let mut b = LoroCore::new(Configure::default(), Some(2));
    let ma = a.get_map(3).unwrap();
    ma.insert(&mut a, 10, 5); // OpID (1, 0)
    let mb = b.get_map(3).unwrap();
    mb.insert(&mut b, 10, 6); // OpID (2, 0)

    let to_b = a.export(b.vv());
    b.import(to_b).unwrap();
    let to_a = b.export(a.vv());
    a.import(to_a).unwrap();

    assert_eq!(ma.get(&a, 10), Some(6));
    assert_eq!(mb.get(&b, 10), Some(6));
}

#[test]
fn missing_dependency_then_success() {
    // C2 depends on C1, which the store has not seen: the import must fail
    // with MissingDependency and leave the store untouched; importing C1
    // and then the combined batch succeeds, skipping the duplicate.
    let c1 = map_set_change(1, 0, 3, 1, 7, vec![]);
    let c2 = map_set_change(2, 0, 3, 2, 8, vec![OpID { client: 1, counter: 0 }]);

    let mut z = LoroCore::new(Configure::default(), Some(9));
    let r = z.import(vec![c2]);
    assert_eq!(r, Err(LoroError::MissingDependency));
    assert_eq!(z.vv().get(1), 0);
    assert_eq!(z.vv().get(2), 0);
    let m = z.get_map(3).unwrap();
    assert_eq!(m.get(&z, 2), None);

    let c1 = map_set_change(1, 0, 3, 1, 7, vec![]);
    assert_eq!(z.import(vec![c1]), Ok(0));

    let c1 = map_set_change(1, 0, 3, 1, 7, vec![]);
    let c2 = map_set_change(2, 0, 3, 2, 8, vec![OpID { client: 1, counter: 0 }]);
    assert_eq!(z.import(vec![c1, c2]), Ok(1));
    assert_eq!(z.vv().get(1), 1);
    assert_eq!(z.vv().get(2), 1);
    assert_eq!(m.get(&z, 1), Some(7));
    assert_eq!(m.get(&z, 2), Some(8));
}

#[test]
fn out_of_order_batch_resolves_by_rescanning() {
    // The dependent change comes first in the batch; the fixed-point scan
    // must still apply both.
    let c1 = map_set_change(1, 0, 3, 1, 7, vec![]);
    let c2 = map_set_change(2, 0, 3, 2, 8, vec![OpID { client: 1, counter: 0 }]);
    let mut z = LoroCore::new(Configure::default(), Some(9));
    assert_eq!(z.import(vec![c2, c1]), Ok(0));
    assert_eq!(z.vv().get(1), 1);
    assert_eq!(z.vv().get(2), 1);
}

#[test]
fn import_is_idempotent() {
    let mut a = LoroCore::new(Configure::default(), Some(1));
    let ma = a.get_map(3).unwrap();
    ma.insert(&mut a, 1, 11);
    ma.insert(&mut a, 2, 22);

    let mut b = LoroCore::new(Configure::default(), Some(2));
    let batch = a.export(b.vv());
    let batch_again = a.export(b.vv());
    assert_eq!(b.import(batch), Ok(0));
    let (changes_once, containers_once) = b.debug_inspect();
    let vv_once = b.vv();

    // Re-delivering the same batch changes nothing and reports every
    // change as a duplicate.
    assert_eq!(b.import(batch_again), Ok(2));
    let (changes_twice, containers_twice) = b.debug_inspect();
    assert_eq!(changes_once, changes_twice);
    assert_eq!(containers_once, containers_twice);
    assert_eq!(b.vv().get(1), vv_once.get(1));
    assert_eq!(b.vv().get(2), vv_once.get(2));
    let mb = b.get_map(3).unwrap();
    assert_eq!(mb.get(&b, 1), Some(11));
    assert_eq!(mb.get(&b, 2), Some(22));
}

#[test]
fn vv_stays_monotonic() {
    let mut a = LoroCore::new(Configure::default(), Some(1));
    let ma = a.get_map(3).unwrap();
    let v0 = a.vv();
    ma.insert(&mut a, 1, 1);
    let v1 = a.vv();
    ma.insert(&mut a, 2, 2);
    let mut b = LoroCore::new(Configure::default(), Some(2));
    let mb = b.get_map(3).unwrap();
    mb.insert(&mut b, 9, 9);
    let to_a = b.export(a.vv());
    a.import(to_a).unwrap();
    let v2 = a.vv();
    for client in [1u64, 2] {
        assert!(v0.get(client) <= v1.get(client));
        assert!(v1.get(client) <= v2.get(client));
    }
    assert_eq!(v2.get(1), 2);
    assert_eq!(v2.get(2), 1);
}

#[test]
fn export_import_round_trip_dominates() {
    let mut a = LoroCore::new(Configure::default(), Some(1));
    let ta = a.get_text(5).unwrap();
    ta.insert(&mut a, 0, 'x');
    ta.insert(&mut a, 1, 'y');
    let ma = a.get_map(6).unwrap();
    ma.insert(&mut a, 4, 44);

    let mut b = LoroCore::new(Configure::default(), Some(2));
    let batch = a.export(b.vv());
    b.import(batch).unwrap();

    // B's frontier now dominates A's at export time, and the touched
    // containers materialize identically.
    assert!(b.vv().get(1) >= a.vv().get(1));
    let tb = b.get_text(5).unwrap();
    assert_eq!(tb.chars(&b), ta.chars(&a));
    let mb = b.get_map(6).unwrap();
    assert_eq!(mb.get(&b, 4), Some(44));
}

#[test]
fn causal_gating_defers_dependent_change() {
    // A change with an unmet dependency must not touch any container or
    // the frontier.
    let c2 = map_set_change(2, 0, 3, 2, 8, vec![OpID { client: 1, counter: 3 }]);
    let mut z = LoroCore::new(Configure::default(), Some(9));
    let m = z.get_map(3).unwrap();
    let (changes_before, containers_before) = z.debug_inspect();
    assert_eq!(z.import(vec![c2]), Err(LoroError::MissingDependency));
    let (changes_after, containers_after) = z.debug_inspect();
    assert_eq!(changes_before, changes_after);
    assert_eq!(containers_before, containers_after);
    assert_eq!(z.vv().get(2), 0);
    assert_eq!(m.get(&z, 2), None);
}

#[test]
fn text_delete_tombstones() {
    let mut a = LoroCore::new(Configure::default(), Some(1));
    let ta = a.get_text(7).unwrap();
    ta.insert(&mut a, 0, 'a');
    ta.insert(&mut a, 1, 'b');
    ta.delete(&mut a, 0);
    assert_eq!(ta.chars(&a), vec!['b']);
    ta.insert(&mut a, 0, 'z');
    assert_eq!(ta.chars(&a), vec!['z', 'b']);
}

#[test]
fn map_delete_writes_tombstone() {
    let mut a = LoroCore::new(Configure::default(), Some(1));
    let ma = a.get_map(3).unwrap();
    ma.insert(&mut a, 1, 10);
    assert_eq!(ma.get(&a, 1), Some(10));
    ma.delete(&mut a, 1);
    assert_eq!(ma.get(&a, 1), None);
}

#[test]
fn version_vector_set_end_refuses_backward() {
    let mut vv = VersionVector::new();
    assert_eq!(vv.set_end(1, 5), Ok(()));
    assert_eq!(vv.get(1), 5);
    assert_eq!(vv.set_end(1, 3), Err(LoroError::CausalityViolation));
    assert_eq!(vv.get(1), 5);
    assert_eq!(vv.set_end(1, 5), Ok(()));
}

#[test]
fn version_vector_merge_and_includes() {
    let mut a = VersionVector::new();
    a.set_end(1, 4).unwrap();
    a.set_end(2, 1).unwrap();
    let mut b = VersionVector::new();
    b.set_end(1, 2).unwrap();
    b.set_end(3, 7).unwrap();
    a.merge(&b);
    assert_eq!(a.get(1), 4);
    assert_eq!(a.get(2), 1);
    assert_eq!(a.get(3), 7);
    assert!(a.includes(&OpID { client: 3, counter: 6 }));
    assert!(!a.includes(&OpID { client: 3, counter: 7 }));
    assert!(!a.includes(&OpID { client: 4, counter: 0 }));
}

#[test]
fn version_vector_dominance_and_concurrency() {
    let mut a = VersionVector::new();
    a.set_end(1, 3).unwrap();
    let mut b = VersionVector::new();
    b.set_end(1, 2).unwrap();
    assert!(a.dominates(&b));
    assert!(!b.dominates(&a));
    // Concurrent: each knows something the other lacks.
    b.set_end(2, 1).unwrap();
    assert!(!a.dominates(&b));
    assert!(!b.dominates(&a));
    assert!(a.dominates(&a));
}

#[test]
fn container_type_conflict_is_refused() {
    let mut reg = ContainerRegistry::new();
    let id = ContainerID::Root { name: 1, kind: ContainerType::MapType };
    assert!(reg.get_or_create_container(&id, ContainerType::MapType).is_ok());
    assert_eq!(
        reg.get_or_create_container(&id, ContainerType::TextType),
        Err(LoroError::ContainerTypeConflict)
    );
}

#[test]
fn same_name_other_type_is_refused() {
    // One name belongs to one container type: asking for it under the
    // other variant fails with ContainerTypeConflict and mutates nothing.
    let mut a = LoroCore::new(Configure::default(), Some(1));
    let m = a.get_map(7).unwrap();
    m.insert(&mut a, 1, 1);
    let (changes_before, containers_before) = a.debug_inspect();
    assert_eq!(a.get_text(7).unwrap_err(), LoroError::ContainerTypeConflict);
    let (changes_after, containers_after) = a.debug_inspect();
    assert_eq!(changes_before, changes_after);
    assert_eq!(containers_before, containers_after);
    assert_eq!(m.get(&a, 1), Some(1));
    // The map handle under the same name is still served.
    assert!(a.get_map(7).is_ok());
    // And the mirrored direction conflicts too.
    let mut b = LoroCore::new(Configure::default(), Some(2));
    let _ = b.get_text(9).unwrap();
    assert_eq!(b.get_map(9).unwrap_err(), LoroError::ContainerTypeConflict);
}

#[test]
fn get_container_reports_existence() {
    let mut a = LoroCore::new(Configure::default(), Some(1));
    let id = ContainerID::Root { name: 7, kind: ContainerType::MapType };
    assert!(a.get_container(&id).is_none());
    let _ = a.get_map(7).unwrap();
    assert!(a.get_container(&id).is_some());
}

#[test]
fn export_is_empty_for_up_to_date_peer() {
    let mut a = LoroCore::new(Configure::default(), Some(1));
    let ma = a.get_map(3).unwrap();
    ma.insert(&mut a, 1, 1);
    let full = a.export(VersionVector::new());
    assert_eq!(full.len(), 1);
    let none = a.export(a.vv());
    assert_eq!(none.len(), 0);
}

#[test]
fn map_converges_in_any_import_order() {
    // Three writers touch the same key; two observers import the batches
    // in opposite orders and must agree.
    let mut w1 = LoroCore::new(Configure::default(), Some(1));
    let mut w2 = LoroCore::new(Configure::default(), Some(2));
    let mut w3 = LoroCore::new(Configure::default(), Some(3));
    w1.get_map(4).unwrap().insert(&mut w1, 1, 11);
    w2.get_map(4).unwrap().insert(&mut w2, 1, 22);
    w3.get_map(4).unwrap().insert(&mut w3, 1, 33);

    let empty = VersionVector::new();
    let mut x = LoroCore::new(Configure::default(), Some(8));
    x.import(w1.export(empty)).unwrap();
    let empty = VersionVector::new();
    x.import(w2.export(empty)).unwrap();
    let empty = VersionVector::new();
    x.import(w3.export(empty)).unwrap();

    let mut y = LoroCore::new(Configure::default(), Some(9));
    let empty = VersionVector::new();
    y.import(w3.export(empty)).unwrap();
    let empty = VersionVector::new();
    y.import(w2.export(empty)).unwrap();
    let empty = VersionVector::new();
    y.import(w1.export(empty)).unwrap();

    // OpIDs all have counter 0, so the highest client (3) wins everywhere.
    assert_eq!(x.get_map(4).unwrap().get(&x, 1), Some(33));
    assert_eq!(y.get_map(4).unwrap().get(&y, 1), Some(33));
}

#[test]
fn text_exchange_with_deletes_converges() {
    let mut a = LoroCore::new(Configure::default(), Some(1));
    let ta = a.get_text(7).unwrap();
    ta.insert(&mut a, 0, 'a');
    ta.insert(&mut a, 1, 'b');
    ta.insert(&mut a, 2, 'c');
    ta.delete(&mut a, 1);
    assert_eq!(ta.chars(&a), vec!['a', 'c']);

    let mut b = LoroCore::new(Configure::default(), Some(2));
    let tb = b.get_text(7).unwrap();
    tb.insert(&mut b, 0, 'z');

    let to_b = a.export(b.vv());
    b.import(to_b).unwrap();
    let to_a = b.export(a.vv());
    a.import(to_a).unwrap();

    assert_eq!(ta.chars(&a), vec!['z', 'a', 'c']);
    assert_eq!(tb.chars(&b), vec!['z', 'a', 'c']);
}

#[test]
fn default_store_is_empty() {
    let a = LoroCore::default();
    let (changes, containers) = a.debug_inspect();
    assert_eq!(changes, 0);
    assert_eq!(containers, 0);
}

#[test]
fn generated_client_id_when_unspecified() {
    let a = LoroCore::new(Configure::default(), None);
    let (changes, containers) = a.debug_inspect();
    assert_eq!(changes, 0);
    assert_eq!(containers, 0);
}
