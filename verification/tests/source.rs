use chnroute::source::{
    source_file, CheckAction, FileManifest, Manifest, SnapshotCheck, SourceManifest, SOURCE_COUNT,
};
use sha2::{Digest, Sha256};

fn contents(index: usize) -> Vec<u8> {
    if source_file(index).name == "china.txt" {
        b"1.0.0.0/24\n".to_vec()
    } else {
        Vec::new()
    }
}

fn manifest() -> Manifest {
    let mut files = Vec::new();
    for index in 0..SOURCE_COUNT {
        let source = source_file(index);
        let bytes = contents(index);
        files.push(FileManifest {
            name: source.name.to_owned(),
            sha256: format!("{:x}", Sha256::digest(&bytes)),
            bytes: bytes.len() as u64,
            prefixes: usize::from(!bytes.is_empty()),
            address_family: source.family.number(),
        });
    }
    files.sort_by(|a, b| a.name.cmp(&b.name));
    Manifest {
        schema_version: 1,
        source: SourceManifest {
            repository: "gaoyifan/china-operator-ip".to_owned(),
            requested_ref: "ip-lists".to_owned(),
            commit: "1".repeat(40),
        },
        fetched_at: "2026-09-06T00:00:00Z".to_owned(),
        files,
    }
}

/// Runs the comparison, reading files through `read`.
fn check(manifest: Manifest, read: impl Fn(&str) -> Option<Vec<u8>>) -> (CheckAction, SnapshotCheck) {
    let (mut state, mut action) = SnapshotCheck::start(manifest);
    while let CheckAction::Read { name } = action {
        let (next, next_action) = state.step(read(name));
        state = next;
        action = next_action;
    }
    (action, state)
}

fn by_name(name: &str) -> Option<Vec<u8>> {
    (0..SOURCE_COUNT).find(|index| source_file(*index).name == name).map(contents)
}

#[test]
fn loads_a_complete_snapshot_including_empty_sets() {
    let (action, state) = check(manifest(), by_name);
    assert_eq!(action, CheckAction::Verified);
    let snapshot = state.into_snapshot();
    assert_eq!(snapshot.files.len(), SOURCE_COUNT);
    assert_eq!(snapshot.files[0], b"1.0.0.0/24\n");
    assert!(snapshot.files[1].is_empty());
}

#[test]
fn rejects_missing_files_and_invalid_manifest_entries() {
    for failure in ["missing file", "missing entry", "family", "size", "hash", "changed"] {
        let mut manifest = manifest();
        let china = manifest.files.iter().position(|file| file.name == "china.txt").unwrap();
        match failure {
            "missing entry" => {
                manifest.files.remove(china);
            },
            "family" => manifest.files[china].address_family = 6,
            "size" => manifest.files[china].bytes += 1,
            "hash" => manifest.files[china].sha256 = "0".repeat(64),
            _ => {},
        }
        let read = |name: &str| -> Option<Vec<u8>> {
            match (failure, name) {
                ("missing file", "china.txt") => None,
                ("changed", "china.txt") => Some(b"8.8.8.0/24\n".to_vec()),
                _ => by_name(name),
            }
        };
        let (action, _) = check(manifest, read);
        assert_eq!(action, CheckAction::Mismatch, "{failure}");
    }
}

#[test]
fn retains_verified_bytes_when_an_already_read_file_changes() {
    let disk: std::cell::RefCell<std::collections::HashMap<String, Vec<u8>>> = std::cell::RefCell::new(
        (0..SOURCE_COUNT).map(|index| (source_file(index).name.to_owned(), contents(index))).collect(),
    );
    let read = |name: &str| -> Option<Vec<u8>> {
        let bytes = disk.borrow().get(name).cloned();
        if name == "googlecn6.txt" {
            disk.borrow_mut().insert("china.txt".to_owned(), b"8.8.8.0/24\n".to_vec());
        }
        bytes
    };
    let (action, state) = check(manifest(), read);

    assert_eq!(action, CheckAction::Verified);
    let snapshot = state.into_snapshot();
    assert_eq!(snapshot.files[0], b"1.0.0.0/24\n");
    assert_eq!(
        format!("{:x}", Sha256::digest(&snapshot.files[0])),
        snapshot.manifest.files.iter().find(|file| file.name == "china.txt").unwrap().sha256
    );
    let (action, _) = check(manifest(), |name| disk.borrow().get(name).cloned());
    assert_eq!(action, CheckAction::Mismatch);
}

#[test]
fn rejects_a_source_file_that_does_not_match_the_manifest() {
    let read = |name: &str| -> Option<Vec<u8>> {
        if name == "china.txt" {
            Some(b"8.8.8.0/24\n".to_vec())
        } else {
            by_name(name)
        }
    };
    let (action, _) = check(manifest(), read);
    assert_eq!(action, CheckAction::Mismatch);
}
