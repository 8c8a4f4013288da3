use std::collections::BTreeMap;

use plurifold::collections::NameSet;
use plurifold::store::{
    digest_of, next_put_step, LocalObjectStore, PutEvent, PutStep, StoreError, StoredObject,
};

/// Files by path.
struct Disk {
    files: BTreeMap<String, Vec<u8>>,
}

impl Disk {
    fn new() -> Disk {
        Disk { files: BTreeMap::new() }
    }

    fn perform(&mut self, step: PutStep, stored: &StoredObject, temporary: &str, bytes: &[u8]) -> PutEvent {
        match step {
            PutStep::Look | PutStep::LookAgain => {
                if self.files.contains_key(&stored.path) {
                    PutEvent::Present
                } else {
                    PutEvent::Absent
                }
            }
            PutStep::Write => {
                self.files.insert(temporary.to_owned(), bytes.to_vec());
                PutEvent::Succeeded
            }
            PutStep::Rename => {
                if self.files.contains_key(&stored.path) {
                    return PutEvent::Refused;
                }
                let moved = self.files.remove(temporary).unwrap();
                self.files.insert(stored.path.clone(), moved);
                PutEvent::Succeeded
            }
            PutStep::Discard => {
                self.files.remove(temporary);
                PutEvent::Succeeded
            }
            PutStep::Done | PutStep::Failed => unreachable!("nothing is left to do"),
        }
    }

    fn put(&mut self, store: &LocalObjectStore, bytes: &[u8]) -> StoredObject {
        let content = bytes.to_vec();
        let stored = store.place(&content);
        let temporary = store.temporary_path(&content, 1, self.files.len() as u64);
        let mut step = PutStep::Look;
        while step != PutStep::Done {
            let event = self.perform(step, &stored, &temporary, bytes);
            step = next_put_step(step, event);
        }
        stored
    }

    fn get(&self, store: &LocalObjectStore, digest: &str) -> Result<Vec<u8>, StoreError> {
        let path = store.path_for_digest(digest)?;
        store.release(digest, self.files[&path].clone())
    }

    fn names(&self) -> NameSet {
        NameSet::from_list(self.files.keys().cloned().collect())
    }
}

#[test]
fn content_addressing_deduplicates_and_verifies() {
    let store = LocalObjectStore::new("/objects");
    let mut disk = Disk::new();
    let first = disk.put(&store, b"plurifold");
    let second = disk.put(&store, b"plurifold");
    assert_eq!(first.digest, second.digest);
    assert_eq!(disk.get(&store, &first.digest).unwrap(), b"plurifold");
    assert_eq!(disk.files.len(), 1);
}

#[test]
fn corrupted_bytes_are_rejected() {
    let store = LocalObjectStore::new("/objects");
    let mut disk = Disk::new();
    let object = disk.put(&store, b"correct");
    disk.files.insert(object.path.clone(), b"wrong".to_vec());
    assert!(matches!(
        disk.get(&store, &object.digest),
        Err(StoreError::DigestMismatch { .. })
    ));
}

#[test]
fn concurrent_writers_converge_on_one_blob() {
    let store = LocalObjectStore::new("/objects");
    let mut disk = Disk::new();
    let content = b"same-content".to_vec();
    let stored = store.place(&content);
    let temporaries: Vec<String> =
        (0..8).map(|number| store.temporary_path(&content, 7, number)).collect();
    let mut steps = vec![PutStep::Look; 8];
    let mut round = 0;
    while steps.iter().any(|step| *step != PutStep::Done) {
        for writer in 0..8 {
            if steps[writer] != PutStep::Done {
                let event = disk.perform(steps[writer], &stored, &temporaries[writer], &content);
                steps[writer] = next_put_step(steps[writer], event);
                assert_ne!(steps[writer], PutStep::Failed);
            }
        }
        round += 1;
        assert!(round <= 5);
    }
    let digests: Vec<String> = (0..8).map(|_| store.place(&content).digest).collect();
    assert!(digests.windows(2).all(|pair| pair[0] == pair[1]));
    assert_eq!(disk.files.len(), 1);
    assert_eq!(disk.get(&store, &stored.digest).unwrap(), b"same-content");
}

#[test]
fn digests_are_hexadecimal_sha256() {
    assert_eq!(
        digest_of(&b"abc".to_vec()),
        "sha256:ba7816bf8f01cfea414140de5dae2223b00361a396177a9cb410ff61f20015ad"
    );
    assert_eq!(
        digest_of(&Vec::new()),
        "sha256:e3b0c44298fc1c149afbf4c8996fb92427ae41e4649b934ca495991b7852b855"
    );
}

#[test]
fn blobs_lie_under_their_digits() {
    let store = LocalObjectStore::new("/objects");
    let stored = store.place(&b"abc".to_vec());
    assert_eq!(store.root(), "/objects");
    assert_eq!(store.directory(), "/objects/sha256");
    assert_eq!(stored.size_bytes, 3);
    assert_eq!(
        stored.path,
        "/objects/sha256/ba7816bf8f01cfea414140de5dae2223b00361a396177a9cb410ff61f20015ad"
    );
    assert_eq!(store.path_for_digest(&stored.digest), Ok(stored.path.clone()));
    assert_eq!(
        store.temporary_path(&b"abc".to_vec(), 12, 34),
        "/objects/sha256/.ba7816bf8f01cfea414140de5dae2223b00361a396177a9cb410ff61f20015ad.12.34.tmp"
    );
    assert_eq!(LocalObjectStore::new("objects/").directory(), "objects/sha256");
}

#[test]
fn unsupported_digests_are_refused() {
    let store = LocalObjectStore::new("/objects");
    let short = "sha256:abc".to_owned();
    let other = format!("md5:{}", "0".repeat(64));
    let odd = format!("sha256:{}", "g".repeat(64));
    for digest in [short, other, odd] {
        assert_eq!(
            store.path_for_digest(&digest),
            Err(StoreError::UnsupportedDigest(digest.clone()))
        );
        assert!(!store.contains(&digest, &NameSet::new()));
    }
    assert_eq!(
        StoreError::UnsupportedDigest("x".into()).message(),
        "unsupported digest x"
    );
    assert!(store.path_for_digest(&format!("sha256:{}", "A".repeat(64))).is_ok());
}

#[test]
fn a_store_contains_what_lies_in_its_place() {
    let store = LocalObjectStore::new("/objects");
    let mut disk = Disk::new();
    let stored = disk.put(&store, b"here");
    assert!(store.contains(&stored.digest, &disk.names()));
    assert!(!store.contains(&digest_of(&b"elsewhere".to_vec()), &disk.names()));
}

#[test]
fn mismatches_name_both_digests() {
    let store = LocalObjectStore::new("/objects");
    let expected = digest_of(&b"a".to_vec());
    let actual = digest_of(&b"b".to_vec());
    let error = store.verify(&expected, &b"b".to_vec()).unwrap_err();
    assert_eq!(
        error.message(),
        format!("object digest mismatch: expected {expected}, got {actual}")
    );
    assert_eq!(store.verify(&actual, &b"b".to_vec()), Ok(()));
}
