use aurorium::admission::{Admission, Verdict};
use aurorium::asset::AssetDescriptor;
use aurorium::downloader::{Downloader, TransferState};
use aurorium::fsmodel::FsModel;
use aurorium::manifest::parse;
use aurorium::store::{Revision, RevisionStore};
use aurorium::sync::{build_revision, has_work, plan_cycle};

#[test]
fn downloader_never_exceeds_the_limit() {
    let limit = 2usize;
    let mut d = Downloader::new(5, limit, 3);
    let mut open_transfers: Vec<usize> = Vec::new();
    let mut max_seen = 0usize;
    // an instrumented transport: every startable transfer is opened before
    // any finishes, so pressure on the ceiling is maximal
    loop {
        while let Some(i) = d.next_startable() {
            d.start(i);
            open_transfers.push(i);
            max_seen = max_seen.max(open_transfers.len());
        }
        match open_transfers.pop() {
            Some(i) => d.finish(i, true),
            None => break,
        }
    }
    assert!(max_seen <= limit);
    assert!(d.is_finished());
}

#[test]
fn downloader_retries_until_attempts_are_spent() {
    let mut d = Downloader::new(1, 1, 3);
    for _ in 0..3 {
        let i = d.next_startable().unwrap();
        assert_eq!(i, 0);
        d.start(i);
        d.finish(i, false);
    }
    // all three attempts failed: the asset is failed, not retried again
    assert!(d.next_startable().is_none());
    assert!(d.is_finished());
    assert_eq!(d.states[0], TransferState::Failed);
}

#[test]
fn downloader_failure_does_not_abort_the_batch() {
    let mut d = Downloader::new(2, 1, 1);
    let first = d.next_startable().unwrap();
    d.start(first);
    d.finish(first, false);
    let second = d.next_startable().unwrap();
    assert_ne!(first, second);
    d.start(second);
    d.finish(second, true);
    assert!(d.is_finished());
    assert_eq!(d.states[first], TransferState::Failed);
    assert_eq!(d.states[second], TransferState::Done);
}

#[test]
fn crash_mid_download_leaves_no_visible_file() {
    let mut fs = FsModel::new();
    let path = b"r1/a.dat".to_vec();
    assert!(fs.stage(path.clone()));
    assert!(fs.write_chunk(&path, &b"half of the".to_vec()));
    // crash: truncated write, no rename
    fs.crash();
    assert!(fs.read(&path).is_none());
}

#[test]
fn staging_refuses_what_its_contract_refuses() {
    let mut fs = FsModel::new();
    let path = b"r1/a.dat".to_vec();
    // a path can be staged once, written only while staged, committed once
    assert!(!fs.write_chunk(&path, &b"early".to_vec()));
    assert!(!fs.commit(&path));
    assert!(fs.stage(path.clone()));
    assert!(!fs.stage(path.clone()));
    assert!(fs.write_chunk(&path, &b"bytes".to_vec()));
    assert!(fs.commit(&path));
    // committed and no longer staged: neither writes nor a second rename
    assert!(!fs.write_chunk(&path, &b"late".to_vec()));
    assert!(!fs.commit(&path));
    assert!(fs.stage(path.clone()));
    assert!(fs.write_chunk(&path, &b"other".to_vec()));
    // a file is already visible at the path: the rename is refused
    assert!(!fs.commit(&path));
    assert_eq!(fs.read(&path).unwrap(), &b"bytes".to_vec());
}

#[test]
fn committed_download_is_visible_in_full() {
    let mut fs = FsModel::new();
    let path = b"r1/a.dat".to_vec();
    assert!(fs.stage(path.clone()));
    assert!(fs.write_chunk(&path, &b"first".to_vec()));
    assert!(fs.write_chunk(&path, &b" second".to_vec()));
    assert!(fs.read(&path).is_none());
    assert!(fs.commit(&path));
    assert_eq!(fs.read(&path).unwrap(), &b"first second".to_vec());
}

#[test]
fn admission_maps_each_bound_to_its_verdict() {
    let mut a = Admission::new(2, 3, 60, 0);
    assert_eq!(a.offer(1), Verdict::Admit);
    assert_eq!(a.offer(2), Verdict::Admit);
    // queue saturated before the rate limit is
    assert_eq!(a.offer(3), Verdict::QueueFull);
    a.release();
    assert_eq!(a.offer(4), Verdict::Admit);
    a.release();
    // rate limit spent within the window
    assert_eq!(a.offer(5), Verdict::RateLimited);
    // a new window admits again
    assert_eq!(a.offer(60), Verdict::Admit);
    assert!(Admission::timed_out(10, 10, 20));
    assert!(!Admission::timed_out(10, 10, 19));
}

fn fingerprint_of<'a>(st: &'a RevisionStore, id: u64, path: &[u8]) -> &'a Vec<u8> {
    &st.resolve(id, &path.to_vec()).unwrap().fingerprint
}

#[test]
fn end_to_end_cycle_downloads_only_what_changed() {
    let mut st = RevisionStore::new();

    // first cycle: everything is new
    let m1 = parse(&b"a 1111 10\nb 2222 20\n".to_vec()).unwrap();
    let r1 = build_revision(1, b"data/1".to_vec(), m1);
    let plan1 = {
        let latest = st.latest();
        plan_cycle(&r1, latest).unwrap()
    };
    assert!(has_work(&plan1));
    let downloaded1: Vec<Vec<u8>> =
        plan1.to_download.iter().map(|a| a.path.clone()).collect();
    assert_eq!(downloaded1, vec![b"a".to_vec(), b"b".to_vec()]);
    st.insert(r1);
    assert_eq!(st.latest().unwrap().id, 1);

    // second cycle: b changed, c is new, a untouched
    let m2 = parse(&b"a 1111 10\nb 3333 21\nc 4444 30\n".to_vec()).unwrap();
    let r2 = build_revision(2, b"data/2".to_vec(), m2);
    let plan2 = {
        let latest = st.latest();
        plan_cycle(&r2, latest).unwrap()
    };
    let new_paths: Vec<Vec<u8>> =
        plan2.diff.new_assets.iter().map(|a| a.path.clone()).collect();
    let changed_paths: Vec<Vec<u8>> =
        plan2.diff.changed_assets.iter().map(|a| a.path.clone()).collect();
    let unchanged_paths: Vec<Vec<u8>> =
        plan2.diff.unchanged_assets.iter().map(|a| a.path.clone()).collect();
    assert_eq!(new_paths, vec![b"c".to_vec()]);
    assert_eq!(changed_paths, vec![b"b".to_vec()]);
    assert!(plan2.diff.removed_assets.is_empty());
    assert_eq!(unchanged_paths, vec![b"a".to_vec()]);

    // only b and c are downloaded
    let downloaded2: Vec<Vec<u8>> =
        plan2.to_download.iter().map(|a| a.path.clone()).collect();
    assert_eq!(downloaded2, vec![b"c".to_vec(), b"b".to_vec()]);

    // the files land under each revision's own root: the downloads under
    // the new root, the unchanged assets carried over from the old root
    let mut fs = FsModel::new();
    for (root, path, bytes) in [
        (b"data/1/".to_vec(), b"a", b"alpha".to_vec()),
        (b"data/1/".to_vec(), b"b", b"beta-old".to_vec()),
        (b"data/2/".to_vec(), b"b", b"beta-new".to_vec()),
        (b"data/2/".to_vec(), b"c", b"gamma".to_vec()),
    ] {
        let full = [root.as_slice(), path.as_slice()].concat();
        assert!(fs.stage(full.clone()));
        assert!(fs.write_chunk(&full, &bytes));
        assert!(fs.commit(&full));
    }
    for asset in &plan2.diff.unchanged_assets {
        let from = [b"data/1/".as_slice(), asset.path.as_slice()].concat();
        let to = [b"data/2/".as_slice(), asset.path.as_slice()].concat();
        let bytes = fs.read(&from).unwrap().clone();
        assert!(fs.stage(to.clone()));
        assert!(fs.write_chunk(&to, &bytes));
        assert!(fs.commit(&to));
    }

    st.insert(r2);
    assert_eq!(st.latest().unwrap().id, 2);

    // path a serves the same content under both revisions
    assert_eq!(fingerprint_of(&st, 1, b"a"), fingerprint_of(&st, 2, b"a"));
    assert_eq!(
        fs.read(&b"data/1/a".to_vec()).unwrap(),
        fs.read(&b"data/2/a".to_vec()).unwrap()
    );
}

#[test]
fn empty_manifest_never_wipes_the_mirror() {
    let mut st = RevisionStore::new();
    let m1 = parse(&b"a 1111 10\n".to_vec()).unwrap();
    let r1 = build_revision(1, b"data/1".to_vec(), m1);
    st.insert(r1);

    let m2 = parse(&Vec::new()).unwrap();
    let r2 = build_revision(2, b"data/2".to_vec(), m2);
    let plan = {
        let latest = st.latest();
        plan_cycle(&r2, latest)
    };
    assert!(plan.is_err());
    // the cycle aborted: the registry still serves the last good revision
    assert_eq!(st.latest().unwrap().id, 1);
}

#[test]
fn asset_equality_of_content_is_by_fingerprint() {
    let a = AssetDescriptor { path: b"p".to_vec(), fingerprint: b"ff".to_vec(), size: 1, flags: 0 };
    let b = a.clone();
    assert_eq!(a.fingerprint, b.fingerprint);
    assert_eq!(a.path, b.path);
}
