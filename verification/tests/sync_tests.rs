use peersync::p2p::record_exchange_success;
use peersync::store::ChangeLogStore;
use peersync::sync::SyncStateTable;
use peersync::sync::changeset_digest_hex;

#[test]
fn test_changeset_digest_known_value() {
    // SHA-256 of the empty input, as lower-case hex.
    assert_eq!(
        changeset_digest_hex(b""),
        "e3b0c44298fc1c149afbf4c8996fb92427ae41e4649b934ca495991b7852b855"
    );
    // SHA-256 of "abc".
    assert_eq!(
        changeset_digest_hex(b"abc"),
        "ba7816bf8f01cfea414140de5dae2223b00361a396177a9cb410ff61f20015ad"
    );
}

#[test]
fn test_sync_state_starts_empty() {
    let table = SyncStateTable::new();
    assert!(table.get_state("peer-a").is_none());
}

#[test]
fn test_record_success_advances() {
    let mut table = SyncStateTable::new();
    table.record_success("peer-a", 1000, "d1".to_string());
    let st = table.get_state("peer-a").unwrap();
    assert_eq!(st.last_seq, 1);
    assert_eq!(st.last_pull_at, 1000);
    assert_eq!(st.last_push_at, 1000);
    assert_eq!(st.changeset_digest, "d1");

    table.record_success("peer-a", 2000, "d2".to_string());
    let st2 = table.get_state("peer-a").unwrap();
    assert_eq!(st2.last_seq, 2);
    assert_eq!(st2.last_pull_at, 2000);
    assert_eq!(st2.changeset_digest, "d2");

    // An untouched peer keeps no state.
    assert!(table.get_state("peer-b").is_none());
}

#[test]
fn test_record_exchange_success_bookkeeping() {
    let mut table = SyncStateTable::new();
    let mut store = ChangeLogStore::new();
    store.put_group(1);
    store.put_record(10, 1, b"payload".to_vec()).unwrap();

    record_exchange_success(&mut table, &mut store, "peer-a", 5000, b"abc");

    let st = table.get_state("peer-a").unwrap();
    assert_eq!(st.last_seq, 1);
    assert_eq!(
        st.changeset_digest,
        "ba7816bf8f01cfea414140de5dae2223b00361a396177a9cb410ff61f20015ad"
    );
    // The checkpoint covers everything stamped so far: nothing is pending.
    let pending = store.pending_changes_for_peer("peer-a");
    let mut replica = ChangeLogStore::new();
    replica.apply_incoming_changes(&pending, "src").unwrap();
    assert_eq!(replica.group_count(), 0);
    assert_eq!(replica.record_count(), 0);
}

#[test]
fn test_exchange_union() {
    // A holds a record unknown to B; B holds one unknown to A. After one
    // full exchange session both stores contain both.
    let mut a = ChangeLogStore::new();
    a.put_group(1);
    a.put_record(1001, 1, b"O1".to_vec()).unwrap();

    let mut b = ChangeLogStore::new();
    b.put_group(1);
    b.put_record(1002, 1, b"O2".to_vec()).unwrap();

    // Initiator A sends first, then receives; responder B receives, applies,
    // then sends its pending changes.
    let from_a = a.pending_changes_for_peer("b");
    b.apply_incoming_changes(&from_a, "a").unwrap();
    let from_b = b.pending_changes_for_peer("a");
    a.apply_incoming_changes(&from_b, "b").unwrap();

    assert_eq!(a.get_record(1001).unwrap().1, b"O1".to_vec());
    assert_eq!(a.get_record(1002).unwrap().1, b"O2".to_vec());
    assert_eq!(b.get_record(1001).unwrap().1, b"O1".to_vec());
    assert_eq!(b.get_record(1002).unwrap().1, b"O2".to_vec());
}

#[test]
fn test_exchange_last_delivered_wins() {
    // A and B independently edit record 55; A initiates, so after the
    // session B's row 55 holds A's incoming value — replace policy, not
    // timestamp-based.
    let mut a = ChangeLogStore::new();
    a.put_group(1);
    a.put_record(55, 1, b"draft".to_vec()).unwrap();

    let mut b = ChangeLogStore::new();
    b.put_group(1);
    b.put_record(55, 1, b"final".to_vec()).unwrap();

    let from_a = a.pending_changes_for_peer("b");
    b.apply_incoming_changes(&from_a, "a").unwrap();

    assert_eq!(b.get_record(55).unwrap().1, b"draft".to_vec());
}
