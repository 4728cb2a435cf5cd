use aurorium::asset::AssetDescriptor;
use aurorium::diff::compare;
use aurorium::errors::DiffError;
use aurorium::store::{Revision, RevisionStore};

fn asset(path: &[u8], fp: &[u8], size: u64) -> AssetDescriptor {
    AssetDescriptor { path: path.to_vec(), fingerprint: fp.to_vec(), size, flags: 0 }
}

fn paths(list: &[AssetDescriptor]) -> Vec<Vec<u8>> {
    list.iter().map(|a| a.path.clone()).collect()
}

#[test]
fn compare_partitions_two_sets() {
    let old_set = vec![asset(b"a", b"11", 1), asset(b"b", b"22", 2), asset(b"gone", b"33", 3)];
    let new_set = vec![asset(b"a", b"11", 5), asset(b"b", b"99", 2), asset(b"c", b"44", 4)];
    let d = compare(&new_set, Some(&old_set)).unwrap();
    assert_eq!(paths(&d.new_assets), vec![b"c".to_vec()]);
    assert_eq!(paths(&d.changed_assets), vec![b"b".to_vec()]);
    assert_eq!(paths(&d.unchanged_assets), vec![b"a".to_vec()]);
    assert_eq!(paths(&d.removed_assets), vec![b"gone".to_vec()]);
    // the buckets cover every distinct path exactly once
    let total = d.new_assets.len() + d.changed_assets.len() + d.unchanged_assets.len()
        + d.removed_assets.len();
    assert_eq!(total, 4);
}

#[test]
fn compare_same_fingerprint_different_size_is_unchanged() {
    let old_set = vec![asset(b"a", b"11", 1)];
    let new_set = vec![asset(b"a", b"11", 999)];
    let d = compare(&new_set, Some(&old_set)).unwrap();
    assert!(d.new_assets.is_empty());
    assert!(d.changed_assets.is_empty());
    assert!(d.removed_assets.is_empty());
    assert_eq!(paths(&d.unchanged_assets), vec![b"a".to_vec()]);
}

#[test]
fn compare_without_previous_marks_everything_new() {
    let new_set = vec![asset(b"x", b"aa", 1), asset(b"y", b"bb", 2)];
    let d = compare(&new_set, None).unwrap();
    assert_eq!(paths(&d.new_assets), vec![b"x".to_vec(), b"y".to_vec()]);
    assert!(d.changed_assets.is_empty());
    assert!(d.removed_assets.is_empty());
    assert!(d.unchanged_assets.is_empty());
}

#[test]
fn compare_rejects_empty_candidate() {
    let old_set = vec![asset(b"a", b"11", 1)];
    let empty: Vec<AssetDescriptor> = Vec::new();
    assert_eq!(compare(&empty, Some(&old_set)).unwrap_err(), DiffError::EmptyCandidate);
    assert_eq!(compare(&empty, None).unwrap_err(), DiffError::EmptyCandidate);
}

fn revision(id: u64, root: &[u8]) -> Revision {
    Revision { id, root: root.to_vec(), assets: vec![asset(b"a", b"11", 1)] }
}

#[test]
fn latest_returns_maximum_identifier() {
    let mut st = RevisionStore::new();
    assert!(st.latest().is_none());
    st.insert(revision(1, b"r1"));
    st.insert(revision(2, b"r2"));
    assert_eq!(st.latest().unwrap().id, 2);
    // insertion order must not matter
    let mut st2 = RevisionStore::new();
    st2.insert(revision(2, b"r2"));
    st2.insert(revision(1, b"r1"));
    assert_eq!(st2.latest().unwrap().id, 2);
}

#[test]
fn reload_from_persisted_revisions_keeps_latest() {
    let st = RevisionStore::from_revisions(vec![revision(1, b"r1"), revision(2, b"r2")]);
    assert_eq!(st.latest().unwrap().id, 2);
    assert_eq!(st.list_ids(), vec![1, 2]);
}

#[test]
fn insert_is_idempotent_by_identifier() {
    let mut st = RevisionStore::new();
    st.insert(revision(7, b"first"));
    st.insert(revision(7, b"second"));
    assert_eq!(st.len(), 1);
    assert_eq!(st.latest().unwrap().root, b"first".to_vec());
}

#[test]
fn list_ids_comes_out_sorted() {
    let mut st = RevisionStore::new();
    st.insert(revision(30, b"c"));
    st.insert(revision(10, b"a"));
    st.insert(revision(20, b"b"));
    assert_eq!(st.list_ids(), vec![10, 20, 30]);
}

#[test]
fn resolve_finds_committed_asset_or_nothing() {
    let mut st = RevisionStore::new();
    let rev = Revision {
        id: 5,
        root: b"r5".to_vec(),
        assets: vec![asset(b"data/file.bin", b"ab12", 42)],
    };
    st.insert(rev);
    let found = st.resolve(5, &b"data/file.bin".to_vec()).unwrap();
    assert_eq!(found.size, 42);
    assert!(st.resolve(5, &b"missing".to_vec()).is_none());
    assert!(st.resolve(6, &b"data/file.bin".to_vec()).is_none());
}

#[test]
fn error_messages_name_the_failure() {
    assert_eq!(DiffError::EmptyCandidate.message(), "diff: empty candidate asset set");
}

#[test]
fn reload_drops_duplicate_identifiers_first_wins() {
    let st = RevisionStore::from_revisions(vec![
        revision(3, b"first"),
        revision(3, b"second"),
        revision(1, b"r1"),
    ]);
    assert_eq!(st.list_ids(), vec![1, 3]);
    assert_eq!(st.lookup(3).unwrap().root, b"first".to_vec());
}
