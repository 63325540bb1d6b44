use gix_norm::tree::{lookup_step, Advance, Kind, ObjectId, Tree};

fn sample_id() -> ObjectId {
    ObjectId::from_bytes((0u8..20).collect())
}

#[test]
fn id_returns_the_identifier_it_was_built_from() {
    let tree = Tree::from_data(sample_id(), b"entry-data".to_vec());
    assert_eq!(tree.id().bytes, (0u8..20).collect::<Vec<u8>>());
}

#[test]
fn detach_severs_the_data_and_keeps_the_kind() {
    let tree = Tree::from_data(sample_id(), b"entry-data".to_vec());
    let detached = tree.detach();
    assert_eq!(detached.kind, Kind::Tree);
    assert_eq!(detached.id.bytes, sample_id().bytes);
    assert_eq!(detached.data, b"entry-data".to_vec());
}

#[test]
fn detached_copies_the_data() {
    let tree = Tree::from_data(sample_id(), b"entry-data".to_vec());
    let detached = tree.detached();
    assert_eq!(detached.kind, Kind::Tree);
    assert_eq!(detached.data, tree.data);
}

#[test]
fn take_data_leaves_the_tree_empty() {
    let mut tree = Tree::from_data(sample_id(), b"entry-data".to_vec());
    let data = tree.take_data();
    assert_eq!(data, b"entry-data".to_vec());
    assert!(tree.data.is_empty());
    assert_eq!(tree.id().bytes, sample_id().bytes);
}

fn sample_tree_data() -> Vec<u8> {
    // Two entries in git tree encoding: "<octal mode> <name>\0" + 20 oid bytes.
    let mut data = Vec::new();
    data.extend_from_slice(b"100644 a.txt\0");
    data.extend_from_slice(&[0x01; 20]);
    data.extend_from_slice(b"40000 dir\0");
    data.extend_from_slice(&[0x02; 20]);
    data
}

#[test]
fn find_entry_decodes_and_finds_by_name() {
    let tree = Tree::from_data(sample_id(), sample_tree_data());
    let entry = tree.find_entry(b"a.txt").expect("a.txt is present");
    assert_eq!(entry.mode, 0o100644);
    assert_eq!(entry.filename, b"a.txt".to_vec());
    assert_eq!(entry.oid.bytes, vec![0x01; 20]);

    let entry = tree.find_entry(b"dir").expect("dir is present");
    assert_eq!(entry.mode, 0o40000);
    assert_eq!(entry.oid.bytes, vec![0x02; 20]);
}

#[test]
fn find_entry_returns_none_for_missing_names() {
    let tree = Tree::from_data(sample_id(), sample_tree_data());
    assert!(tree.find_entry(b"missing").is_none());
    assert!(tree.find_entry(b"a.tx").is_none());
}

#[test]
fn lookup_step_descends_into_inner_components() {
    let data = sample_tree_data();
    match lookup_step(&data, b"dir", false) {
        Advance::Descend(oid) => assert_eq!(oid.bytes, vec![0x02; 20]),
        other => panic!("expected a descend, got {other:?}"),
    }
    match lookup_step(&data, b"a.txt", true) {
        Advance::Found(e) => assert_eq!(e.mode, 0o100644),
        other => panic!("expected the entry, got {other:?}"),
    }
    assert_eq!(lookup_step(&data, b"nope", true), Advance::Missing);
    assert_eq!(lookup_step(&data, b"nope", false), Advance::Missing);
}
