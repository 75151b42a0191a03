use std::collections::HashMap;

use chnroute::advert::{is_commit_sha, parse_git_advertisement, AdvertError};
use chnroute::family::IpFamily;
use chnroute::fetch::{
    validate_options, Fetch, FetchAction, FetchError, FetchEvent, FetchOptions, FetchResult, FetchStatus,
};
use chnroute::paths::{OutputError, OutputProbe};
use chnroute::prefix::PrefixFault;
use chnroute::source::{source_file, validate_cidrs, Manifest, SourceError, SourceFile, SOURCE_COUNT};
use sha2::{Digest, Sha256};

const FIRST_COMMIT: &str = "1111111111111111111111111111111111111111";
const SECOND_COMMIT: &str = "2222222222222222222222222222222222222222";
const REFS_URL: &str = "https://github.com/gaoyifan/china-operator-ip.git/info/refs?service=git-upload-pack";

fn packet(payload: &[u8]) -> Vec<u8> {
    let mut packet = format!("{:04x}", payload.len() + 4).into_bytes();
    packet.extend_from_slice(payload);
    packet
}

fn advertisement(refs: &[(&str, &str)]) -> Vec<u8> {
    let mut bytes = packet(b"# service=git-upload-pack\n");
    bytes.extend_from_slice(b"0000");
    for (commit, reference) in refs {
        bytes.extend(packet(format!("{commit} {reference}\n").as_bytes()));
    }
    bytes.extend_from_slice(b"0000");
    bytes
}

fn raw_url(commit: &str, name: &str) -> String {
    format!("https://raw.githubusercontent.com/gaoyifan/china-operator-ip/{commit}/{name}")
}

fn hex_digest(bytes: &[u8]) -> String {
    format!("{:x}", Sha256::digest(bytes))
}

/// An in-memory world for a fetch: the responses of the network and the
/// contents of the output directory.
struct World {
    responses: HashMap<String, Vec<u8>>,
    requests: Vec<String>,
    manifest: Option<Manifest>,
    files: HashMap<String, Vec<u8>>,
    staging: Vec<(String, Vec<u8>)>,
}

impl World {
    fn snapshot(commit: &str, ipv4: &[u8], ipv6: &[u8]) -> Self {
        let mut responses = HashMap::new();
        responses.insert(REFS_URL.to_owned(), advertisement(&[(commit, "refs/heads/ip-lists")]));
        for index in 0..SOURCE_COUNT {
            let source = source_file(index);
            let bytes = match source.family {
                IpFamily::V4 => ipv4.to_vec(),
                IpFamily::V6 => ipv6.to_vec(),
            };
            responses.insert(raw_url(commit, source.name), bytes);
        }
        World { responses, requests: Vec::new(), manifest: None, files: HashMap::new(), staging: Vec::new() }
    }

    fn probe(&self) -> OutputProbe<Manifest> {
        match &self.manifest {
            Some(manifest) => OutputProbe::Owned(manifest.clone()),
            None if self.files.is_empty() => OutputProbe::Missing,
            None => OutputProbe::Unowned,
        }
    }

    fn fetch(&mut self, options: FetchOptions) -> Result<FetchResult, String> {
        let (mut fetch, mut action) = Fetch::start(options);
        loop {
            let event = match action {
                FetchAction::Download { url, .. } => {
                    self.requests.push(url.clone());
                    match self.responses.get(&url) {
                        Some(bytes) => FetchEvent::Downloaded(bytes.clone()),
                        None => return Err(format!("no fake response for {url}")),
                    }
                },
                FetchAction::InspectOutput => FetchEvent::OutputInspected(self.probe()),
                FetchAction::ReadSnapshotFile { name } => FetchEvent::SnapshotFile(self.files.get(name).cloned()),
                FetchAction::PrepareStaging => {
                    self.staging.clear();
                    FetchEvent::StagingReady
                },
                FetchAction::StageFile { name, bytes } => {
                    self.staging.push((name.to_owned(), bytes));
                    FetchEvent::FileStaged
                },
                FetchAction::Publish { manifest } => {
                    self.files = self.staging.drain(..).collect();
                    self.manifest = Some(manifest);
                    FetchEvent::Published
                },
                FetchAction::Finish(result) => return Ok(result),
                FetchAction::Fail(error) => return Err(format!("{error:?}")),
            };
            let (next, next_action) = fetch.step(event);
            fetch = next;
            action = next_action;
        }
    }
}

fn options(requested_ref: &str) -> FetchOptions {
    FetchOptions { requested_ref: requested_ref.to_owned(), output: "data/raw".to_owned(), force: false }
}

#[test]
fn validates_address_family_and_canonical_prefixes() {
    let v4 = SourceFile { name: "test.txt", family: IpFamily::V4 };
    assert_eq!(validate_cidrs(v4, b"1.0.0.0/24\n10.0.0.0/8\n").unwrap(), 2);
    assert!(validate_cidrs(v4, b"2001:db8::/32\n").is_err());
    assert!(validate_cidrs(v4, b"1.0.0.1/24\n").is_err());
    assert_eq!(validate_cidrs(v4, b"\n").unwrap(), 0);
}

#[test]
fn upstream_file_errors_name_the_line() {
    let v6 = SourceFile { name: "test6.txt", family: IpFamily::V6 };
    assert_eq!(
        validate_cidrs(v6, b"2001:db8::/32\n\n10.0.0.0/8\n"),
        Err(SourceError::Line {
            line: 3,
            fault: PrefixFault::WrongFamily { expected: IpFamily::V6, found: IpFamily::V4 },
        })
    );
    assert_eq!(validate_cidrs(v6, b"\xff\n"), Err(SourceError::NotUtf8));
    assert_eq!(
        validate_cidrs(v6, b"# comment\n"),
        Err(SourceError::Line { line: 1, fault: PrefixFault::NotCidr })
    );
    assert_eq!(validate_cidrs(v6, "\u{feff}2001:db8::/32\r\n".as_bytes()), Ok(1));
}

#[test]
fn resolves_branches_and_peeled_tags_from_git_advertisement() {
    let bytes = advertisement(&[
        (FIRST_COMMIT, "refs/heads/ip-lists"),
        (FIRST_COMMIT, "refs/tags/v1"),
        (SECOND_COMMIT, "refs/tags/v1^{}"),
    ]);

    assert_eq!(parse_git_advertisement(&bytes, "ip-lists").unwrap(), FIRST_COMMIT);
    assert_eq!(parse_git_advertisement(&bytes, "v1").unwrap(), SECOND_COMMIT);
    assert!(parse_git_advertisement(&bytes, "missing").is_err());
}

#[test]
fn advertisement_prefers_branches_and_reads_capabilities() {
    let upper = "ABCDEF0123456789ABCDEF0123456789ABCDEF01";
    let mut bytes = packet(b"# service=git-upload-pack\n");
    bytes.extend_from_slice(b"0000");
    bytes.extend(packet(format!("{SECOND_COMMIT} refs/tags/main\0multi_ack side-band\n").as_bytes()));
    bytes.extend(packet(format!("{upper} refs/heads/main\n").as_bytes()));
    bytes.extend_from_slice(b"0000");
    assert_eq!(
        parse_git_advertisement(&bytes, "main").unwrap(),
        "abcdef0123456789abcdef0123456789abcdef01"
    );
    assert_eq!(parse_git_advertisement(b"", "main"), Err(AdvertError::NotFound));
}

#[test]
fn advertisement_errors() {
    assert_eq!(parse_git_advertisement(b"00", "main"), Err(AdvertError::Truncated));
    assert_eq!(
        parse_git_advertisement(b"zz00", "main"),
        Err(AdvertError::BadLengthText("zz00".to_owned()))
    );
    assert_eq!(parse_git_advertisement(b"0003", "main"), Err(AdvertError::BadLength(3)));
    assert_eq!(parse_git_advertisement(b"0010abc", "main"), Err(AdvertError::BadLength(16)));
    assert_eq!(parse_git_advertisement(b"\xff\xff00", "main"), Err(AdvertError::LengthNotUtf8));
    assert_eq!(parse_git_advertisement(&packet(b"\xff x"), "main"), Err(AdvertError::PayloadNotUtf8));
    assert_eq!(
        parse_git_advertisement(&packet(b"123 refs/heads/main\n"), "main"),
        Err(AdvertError::InvalidCommit("123".to_owned()))
    );
    assert_eq!(parse_git_advertisement(b"+004", "main"), Err(AdvertError::NotFound));
}

#[test]
fn recognizes_full_commit_hashes() {
    assert!(is_commit_sha(FIRST_COMMIT));
    assert!(is_commit_sha("ABCDEF0123456789ABCDEF0123456789ABCDEF01"));
    assert!(!is_commit_sha("ip-lists"));
    assert!(!is_commit_sha("111111111111111111111111111111111111111g"));
    assert!(!is_commit_sha("11111111111111111111111111111111111111111"));
}

#[test]
fn downloads_exact_files_and_writes_manifest() {
    let mut world = World::snapshot(FIRST_COMMIT, b"1.0.0.0/24\n", b"2001:db8::/32\n");

    let result = world.fetch(options("ip-lists")).unwrap();

    assert_eq!(result.status, FetchStatus::Updated);
    assert_eq!(result.file_count, 16);
    assert_eq!(result.prefix_count, 16);
    assert_eq!(result.commit, FIRST_COMMIT);
    assert_eq!(result.repository, "gaoyifan/china-operator-ip");
    assert_eq!(world.requests.len(), 17);
    assert_eq!(world.requests[0], REFS_URL);
    assert_eq!(world.requests[1], raw_url(FIRST_COMMIT, "china.txt"));
    assert_eq!(world.files["china.txt"], b"1.0.0.0/24\n");
    assert_eq!(world.files["china6.txt"], b"2001:db8::/32\n");
    let manifest = world.manifest.clone().unwrap();
    assert_eq!(manifest.schema_version, 1);
    assert_eq!(manifest.source.commit, FIRST_COMMIT);
    assert_eq!(manifest.source.requested_ref, "ip-lists");
    let stamp = manifest.fetched_at.as_bytes();
    assert!(stamp.len() >= 20 && stamp[4] == b'-' && stamp[10] == b'T' && stamp[stamp.len() - 1] == b'Z');
    assert_eq!(manifest.files.len(), 16);
    let china = manifest.files.iter().find(|file| file.name == "china.txt").unwrap();
    assert_eq!(china.sha256, hex_digest(b"1.0.0.0/24\n"));
    assert_eq!(china.bytes, 11);
    assert_eq!(china.prefixes, 1);
    assert_eq!(china.address_family, 4);
    let china6 = manifest.files.iter().find(|file| file.name == "china6.txt").unwrap();
    assert_eq!(china6.address_family, 6);
}

#[test]
fn skips_valid_current_snapshot_without_downloading_files() {
    let mut world = World::snapshot(FIRST_COMMIT, b"1.0.0.0/24\n", b"2001:db8::/32\n");
    world.fetch(options("ip-lists")).unwrap();

    let mut second = World::snapshot(FIRST_COMMIT, b"9.0.0.0/24\n", b"2001:db9::/32\n");
    second.responses.retain(|url, _| url.contains("/info/refs"));
    second.manifest = world.manifest.clone();
    second.files = world.files.clone();
    let result = second.fetch(options("ip-lists")).unwrap();

    assert_eq!(result.status, FetchStatus::Unchanged);
    assert_eq!(result.file_count, 16);
    assert_eq!(result.prefix_count, 16);
    assert_eq!(second.requests.len(), 1);
}

#[test]
fn downloads_again_when_forced_or_when_a_file_changed() {
    let mut world = World::snapshot(FIRST_COMMIT, b"1.0.0.0/24\n", b"2001:db8::/32\n");
    world.fetch(options("ip-lists")).unwrap();

    let mut forced = options("ip-lists");
    forced.force = true;
    let result = world.fetch(forced).unwrap();
    assert_eq!(result.status, FetchStatus::Updated);

    world.files.insert("cmcc6.txt".to_owned(), b"2001:db9::/32\n".to_vec());
    world.requests.clear();
    let result = world.fetch(options("ip-lists")).unwrap();
    assert_eq!(result.status, FetchStatus::Updated);
    assert_eq!(world.requests.len(), 17);
}

#[test]
fn failed_update_keeps_previous_snapshot() {
    let mut world = World::snapshot(FIRST_COMMIT, b"1.0.0.0/24\n", b"2001:db8::/32\n");
    world.fetch(options("ip-lists")).unwrap();
    let original = world.manifest.clone().unwrap();

    let mut second = World::snapshot(SECOND_COMMIT, b"2.0.0.0/24\n", b"2001:db9::/32\n");
    second.responses.remove(&raw_url(SECOND_COMMIT, "googlecn6.txt"));
    second.manifest = world.manifest.clone();
    second.files = world.files.clone();
    assert!(second.fetch(options("ip-lists")).is_err());

    assert_eq!(second.manifest.unwrap(), original);
    assert_eq!(second.files["china.txt"], b"1.0.0.0/24\n");
}

#[test]
fn refuses_an_invalid_upstream_file() {
    let mut world = World::snapshot(FIRST_COMMIT, b"1.0.0.1/24\n", b"2001:db8::/32\n");
    let error = world.fetch(options("ip-lists")).unwrap_err();
    assert!(error.contains("china.txt"), "{error}");
    assert!(world.manifest.is_none());
}

#[test]
fn refuses_to_replace_unowned_directory() {
    let mut world = World::snapshot(FIRST_COMMIT, b"1.0.0.0/24\n", b"2001:db8::/32\n");
    world.files.insert("user-file.txt".to_owned(), b"keep me".to_vec());
    let (fetch, action) = Fetch::start(options(FIRST_COMMIT));
    assert!(matches!(action, FetchAction::InspectOutput));
    let (_, action) = fetch.step(FetchEvent::OutputInspected(world.probe()));
    assert!(matches!(action, FetchAction::Fail(FetchError::Output(OutputError::Unowned))));
    assert!(world.fetch(options("ip-lists")).is_err());
    assert_eq!(world.files["user-file.txt"], b"keep me");
}

#[test]
fn takes_a_full_commit_hash_without_resolving_it() {
    let upper = "ABCDEF0123456789ABCDEF0123456789ABCDEF01";
    let (fetch, action) = Fetch::start(options(upper));
    assert!(matches!(action, FetchAction::InspectOutput));
    assert_eq!(fetch.commit, "abcdef0123456789abcdef0123456789abcdef01");
    let (_, action) = fetch.step(FetchEvent::OutputInspected(OutputProbe::Missing));
    assert!(matches!(action, FetchAction::PrepareStaging));
}

#[test]
fn resolving_asks_for_the_reference_advertisement() {
    let (_, action) = Fetch::start(options("ip-lists"));
    match action {
        FetchAction::Download { url, accept, max_bytes } => {
            assert_eq!(url, REFS_URL);
            assert_eq!(accept, "application/x-git-upload-pack-advertisement");
            assert_eq!(max_bytes, 4 * 1024 * 1024);
        },
        other => panic!("unexpected action {other:?}"),
    }
}

#[test]
fn checks_the_options() {
    let mut blank = options("  ");
    blank.output = "data/raw".to_owned();
    assert!(matches!(validate_options(&blank), Err(FetchError::EmptyRef)));
    for output in ["", ".", "..", "/", "data/..", "./."] {
        let mut bad = options("ip-lists");
        bad.output = output.to_owned();
        assert!(matches!(validate_options(&bad), Err(FetchError::BadOutput)), "{output:?}");
    }
    for output in ["raw", "data/raw/", "data/raw/.", "/tmp/raw"] {
        let mut good = options("ip-lists");
        good.output = output.to_owned();
        assert!(validate_options(&good).is_ok(), "{output:?}");
    }
    let (_, action) = Fetch::start(blank);
    assert!(matches!(action, FetchAction::Fail(FetchError::EmptyRef)));
}

#[test]
fn refuses_an_unexpected_event() {
    let (fetch, _) = Fetch::start(options("ip-lists"));
    let (_, action) = fetch.step(FetchEvent::Published);
    assert!(matches!(action, FetchAction::Fail(FetchError::UnexpectedEvent)));
}
