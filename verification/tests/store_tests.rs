use peersync::errors::ProtocolFramingError;
use peersync::errors::MergeError;
use peersync::frame::check_frame_len;
use peersync::frame::encode_frame;
use peersync::frame::parse_frame_len;
use peersync::store::ChangeLogStore;
use peersync::store::Edit;
use peersync::store::encode_changeset;
use peersync::store::parse_changeset_bytes;

#[test]
fn test_empty_store() {
    let store = ChangeLogStore::new();
    assert_eq!(store.group_count(), 0);
    assert_eq!(store.record_count(), 0);
    assert_eq!(store.get_record(1), None);
}

#[test]
fn test_put_and_get_record() {
    let mut store = ChangeLogStore::new();
    store.put_group(7);
    store.put_record(55, 7, b"draft".to_vec()).unwrap();
    let (gid, data) = store.get_record(55).unwrap();
    assert_eq!(gid, 7);
    assert_eq!(data, b"draft".to_vec());
    assert_eq!(store.group_count(), 1);
    assert_eq!(store.record_count(), 1);
}

#[test]
fn test_put_record_without_group_fails() {
    let mut store = ChangeLogStore::new();
    let r = store.put_record(55, 7, b"draft".to_vec());
    assert_eq!(r, Err(MergeError::ConstraintViolation));
    assert_eq!(store.record_count(), 0);
}

#[test]
fn test_put_record_replaces() {
    let mut store = ChangeLogStore::new();
    store.put_group(7);
    store.put_record(55, 7, b"draft".to_vec()).unwrap();
    store.put_record(55, 7, b"final".to_vec()).unwrap();
    let (_, data) = store.get_record(55).unwrap();
    assert_eq!(data, b"final".to_vec());
    assert_eq!(store.record_count(), 1);
}

#[test]
fn test_changeset_codec_roundtrip() {
    let edits = vec![
        Edit::Group { id: 7 },
        Edit::Record { id: 55, group_id: 7, data: b"hello".to_vec() },
        Edit::Record { id: 56, group_id: 7, data: Vec::new() },
    ];
    let bytes = encode_changeset(&edits);
    let back = parse_changeset_bytes(&bytes).unwrap();
    assert_eq!(back.len(), 3);
    match &back[0] {
        Edit::Group { id } => assert_eq!(*id, 7),
        _ => panic!("expected a group edit"),
    }
    match &back[1] {
        Edit::Record { id, group_id, data } => {
            assert_eq!(*id, 55);
            assert_eq!(*group_id, 7);
            assert_eq!(data, &b"hello".to_vec());
        },
        _ => panic!("expected a record edit"),
    }
}

#[test]
fn test_changeset_codec_layout() {
    // One group edit: count prefix 1, tag 1, id 9 little-endian.
    let edits = vec![Edit::Group { id: 9 }];
    let bytes = encode_changeset(&edits);
    assert_eq!(
        bytes,
        vec![1, 0, 0, 0, 0, 0, 0, 0, 1, 9, 0, 0, 0, 0, 0, 0, 0]
    );
}

#[test]
fn test_parse_rejects_garbage() {
    assert!(parse_changeset_bytes(b"not a changeset").is_none());
    assert!(parse_changeset_bytes(b"").is_none());
    // Announces one edit but holds none.
    assert!(parse_changeset_bytes(&[1, 0, 0, 0, 0, 0, 0, 0]).is_none());
    // Trailing bytes after the announced edits are refused.
    let mut bytes = encode_changeset(&vec![Edit::Group { id: 1 }]);
    bytes.push(0);
    assert!(parse_changeset_bytes(&bytes).is_none());
}

#[test]
fn test_apply_unreadable_changeset() {
    let mut store = ChangeLogStore::new();
    store.put_group(1);
    let r = store.apply_incoming_changes(b"garbage", "peer-a");
    assert_eq!(r, Err(MergeError::UnreadableChangeset));
    assert_eq!(store.group_count(), 1);
}

#[test]
fn test_atomic_merge_constraint_violation() {
    // A changeset whose application would violate a referential
    // constraint leaves every table's row count unchanged.
    let mut store = ChangeLogStore::new();
    store.put_group(1);
    store.put_record(10, 1, b"kept".to_vec()).unwrap();
    let groups_before = store.group_count();
    let records_before = store.record_count();

    let bad = encode_changeset(&vec![
        Edit::Group { id: 2 },
        Edit::Record { id: 11, group_id: 99, data: b"orphan".to_vec() },
    ]);
    let r = store.apply_incoming_changes(&bad, "peer-a");
    assert_eq!(r, Err(MergeError::ConstraintViolation));
    assert_eq!(store.group_count(), groups_before);
    assert_eq!(store.record_count(), records_before);
    assert_eq!(store.get_record(10).unwrap().1, b"kept".to_vec());
    assert_eq!(store.get_record(11), None);
}

#[test]
fn test_apply_accepts_group_created_in_changeset() {
    // A record may refer to a group created anywhere in the same changeset.
    let mut store = ChangeLogStore::new();
    let cs = encode_changeset(&vec![
        Edit::Record { id: 5, group_id: 3, data: b"x".to_vec() },
        Edit::Group { id: 3 },
    ]);
    store.apply_incoming_changes(&cs, "peer-a").unwrap();
    assert_eq!(store.get_record(5).unwrap().0, 3);
}

#[test]
fn test_apply_replace_policy() {
    // Last delivered wins: the incoming version replaces the local one.
    let mut store = ChangeLogStore::new();
    store.put_group(1);
    store.put_record(55, 1, b"final".to_vec()).unwrap();
    let incoming = encode_changeset(&vec![
        Edit::Record { id: 55, group_id: 1, data: b"draft".to_vec() },
    ]);
    store.apply_incoming_changes(&incoming, "peer-a").unwrap();
    assert_eq!(store.get_record(55).unwrap().1, b"draft".to_vec());
}

#[test]
fn test_round_trip_to_empty_replica() {
    // The changeset pending for a fresh peer, applied to an empty replica,
    // reproduces the source store exactly.
    let mut source = ChangeLogStore::new();
    source.put_group(1);
    source.put_group(2);
    source.put_record(10, 1, b"alpha".to_vec()).unwrap();
    source.put_record(20, 2, b"beta".to_vec()).unwrap();

    let pending = source.pending_changes_for_peer("replica");
    let mut replica = ChangeLogStore::new();
    replica.apply_incoming_changes(&pending, "source").unwrap();

    assert_eq!(replica.group_count(), source.group_count());
    assert_eq!(replica.record_count(), source.record_count());
    assert_eq!(replica.get_record(10), source.get_record(10));
    assert_eq!(replica.get_record(20), source.get_record(20));
}

#[test]
fn test_checkpoint_limits_pending() {
    let mut store = ChangeLogStore::new();
    store.put_group(1);
    store.put_record(10, 1, b"old".to_vec()).unwrap();
    // Mark the peer current up to everything so far.
    let cp = store.current_seq() - 1;
    store.set_checkpoint("peer-a", cp);
    store.put_record(11, 1, b"new".to_vec()).unwrap();

    let pending = store.pending_changes_for_peer("peer-a");
    let mut replica = ChangeLogStore::new();
    // The pending changeset carries only the new record, whose group is
    // not included, so an empty replica refuses it.
    assert_eq!(
        replica.apply_incoming_changes(&pending, "x"),
        Err(MergeError::ConstraintViolation)
    );
    let edits = parse_changeset_bytes(&pending).unwrap();
    assert_eq!(edits.len(), 1);
    match &edits[0] {
        Edit::Record { id, .. } => assert_eq!(*id, 11),
        _ => panic!("expected the new record only"),
    }
}

#[test]
fn test_concurrent_disjoint_sessions_union() {
    // Two changesets touching disjoint primary keys both succeed and the
    // store afterwards reflects the union of both changes.
    let mut store = ChangeLogStore::new();
    store.put_group(1);
    let cs_a = encode_changeset(&vec![
        Edit::Record { id: 100, group_id: 1, data: b"from-a".to_vec() },
    ]);
    let cs_b = encode_changeset(&vec![
        Edit::Record { id: 200, group_id: 1, data: b"from-b".to_vec() },
    ]);
    store.apply_incoming_changes(&cs_a, "peer-a").unwrap();
    store.apply_incoming_changes(&cs_b, "peer-b").unwrap();
    assert_eq!(store.get_record(100).unwrap().1, b"from-a".to_vec());
    assert_eq!(store.get_record(200).unwrap().1, b"from-b".to_vec());

    // The opposite order gives the same store.
    let mut other = ChangeLogStore::new();
    other.put_group(1);
    other.apply_incoming_changes(&cs_b, "peer-b").unwrap();
    other.apply_incoming_changes(&cs_a, "peer-a").unwrap();
    assert_eq!(other.get_record(100), store.get_record(100));
    assert_eq!(other.get_record(200), store.get_record(200));
    assert_eq!(other.record_count(), store.record_count());
}

#[test]
fn test_frame_roundtrip() {
    let payload = b"changeset bytes".to_vec();
    let framed = encode_frame(&payload);
    assert_eq!(framed.len(), 8 + payload.len());
    let announced = parse_frame_len(&framed[..8]).unwrap();
    assert_eq!(announced, payload.len() as u64);
    assert_eq!(&framed[8..], &payload[..]);
}

#[test]
fn test_frame_length_prefix_little_endian() {
    let payload = vec![0u8; 258];
    let framed = encode_frame(&payload);
    assert_eq!(&framed[..8], &[2, 1, 0, 0, 0, 0, 0, 0]);
}

#[test]
fn test_frame_len_checks() {
    assert_eq!(parse_frame_len(&[1, 2, 3]), Err(ProtocolFramingError::Truncated));
    assert_eq!(check_frame_len(100, 1000), Ok(100usize));
    assert_eq!(check_frame_len(1001, 1000), Err(ProtocolFramingError::LengthTooLarge));
}
