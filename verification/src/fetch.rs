//! Fetching a snapshot of the upstream files. The decisions of a fetch are a
//! state machine: `Fetch::start` checks the options and asks for the first
//! piece of outside work, and each `Fetch::step` takes the outcome of that
//! work and asks for the next, until the fetch finishes or fails. Whoever
//! drives it performs the downloads, looks at the output directory, reads
//! and writes files, and publishes the staged directory.

use crate::advert::{advertised_commit, is_commit_sha, is_sha, lower_sha, lowercase_sha, parse_git_advertisement, AdvertError};
use crate::paths::{components_view, final_name, has_final_name, OutputError, OutputProbe};
use crate::source::{
    compatible, contents_match, copy_entry, expected_entry, expected_file, file_matches, is_compatible, sha256,
    sha256_hex, source_check, source_family, source_file, source_name, validate_cidrs, FileManifest,
    Manifest, SourceError, SourceManifest, MANIFEST_SCHEMA_VERSION, REPOSITORY_ID, SOURCE_COUNT,
};
use crate::text::{chars_to_string, str_chars, trim, trim_chars};
use time::format_description::well_known::Rfc3339;
use time::OffsetDateTime;
use vstd::prelude::*;

verus! {

/// The owner of the upstream repository.
pub const OWNER: &'static str = "gaoyifan";

/// The name of the upstream repository.
pub const REPOSITORY: &'static str = "china-operator-ip";

/// Where the upstream repository's Git service is.
pub const GITHUB_ROOT: &'static str = "https://github.com/";

/// Where the upstream repository's files are served.
pub const RAW_ROOT: &'static str = "https://raw.githubusercontent.com/";

/// The media type asked for when resolving a reference.
pub const ADVERTISEMENT_TYPE: &'static str = "application/x-git-upload-pack-advertisement";

/// The media type asked for when downloading a file.
pub const DATA_TYPE: &'static str = "application/octet-stream";

/// The most bytes that a reference advertisement may have.
pub const MAX_REF_DISCOVERY_BYTES: usize = 4 * 1024 * 1024;

/// The most bytes that an upstream file may have.
pub const MAX_DATA_BYTES: usize = 64 * 1024 * 1024;

/// The text of the URL that `reqwest::Url` gives for `base` with the path
/// segments appended, or `None` when `base` is refused.
pub uninterp spec fn url_path_text(base: Seq<char>, segments: Seq<Seq<char>>) -> Option<Seq<char>>;

/// The same, with one query pair appended as well.
pub uninterp spec fn url_query_text(
    base: Seq<char>,
    segments: Seq<Seq<char>>,
    key: Seq<char>,
    value: Seq<char>,
) -> Option<Seq<char>>;

/// `reqwest::Url::parse(base)`, then `path_segments_mut().extend(segments)`
/// (which escapes each segment), then the URL's text. `None` when the base
/// does not parse or cannot take path segments.
#[verifier::external_body]
fn url_with_path(base: &str, segments: &Vec<String>) -> (url: Option<String>)
    ensures
        match url {
            Some(u) => url_path_text(base@, components_view(segments@)) == Some(u@),
            None => url_path_text(base@, components_view(segments@)) is None,
        },
{
    let mut url = reqwest::Url::parse(base).ok()?;
    url.path_segments_mut().ok()?.extend(segments.iter());
    Some(url.to_string())
}

/// As `url_with_path`, followed by `query_pairs_mut().append_pair(key, value)`.
#[verifier::external_body]
fn url_with_query(base: &str, segments: &Vec<String>, key: &str, value: &str) -> (url: Option<String>)
    ensures
        match url {
            Some(u) => url_query_text(base@, components_view(segments@), key@, value@) == Some(u@),
            None => url_query_text(base@, components_view(segments@), key@, value@) is None,
        },
{
    let mut url = reqwest::Url::parse(base).ok()?;
    url.path_segments_mut().ok()?.extend(segments.iter());
    url.query_pairs_mut().append_pair(key, value);
    Some(url.to_string())
}

/// A decimal digit.
pub open spec fn is_digit(c: char) -> bool {
    '0' <= c <= '9'
}

/// An RFC 3339 time in UTC as the `time` crate writes it:
/// `YYYY-MM-DDTHH:MM:SS`, then `.` and one or more digits when there is a
/// fraction of a second, then `Z`.
pub open spec fn is_rfc3339_utc(s: Seq<char>) -> bool {
    &&& s.len() >= 20
    &&& is_digit(s[0]) && is_digit(s[1]) && is_digit(s[2]) && is_digit(s[3])
    &&& s[4] == '-' && is_digit(s[5]) && is_digit(s[6])
    &&& s[7] == '-' && is_digit(s[8]) && is_digit(s[9])
    &&& s[10] == 'T' && is_digit(s[11]) && is_digit(s[12])
    &&& s[13] == ':' && is_digit(s[14]) && is_digit(s[15])
    &&& s[16] == ':' && is_digit(s[17]) && is_digit(s[18])
    &&& s.last() == 'Z'
    &&& s.len() > 20 ==> s[19] == '.' && s.len() >= 22 && forall|i: int| 20 <= i < s.len() - 1 ==> is_digit(#[trigger] s[i])
}

/// `time::OffsetDateTime::now_utc()` written with the `Rfc3339` format.
/// Which time it is depends on the clock and is not stated; the `time`
/// crate writes a UTC time as four-digit year, month, day, `T`, hours,
/// minutes, seconds, a fraction only when it is not zero, and `Z`, and
/// refuses years outside 0 to 9999 (then `None`).
#[verifier::external_body]
fn now_rfc3339() -> (stamp: Option<String>)
    ensures
        stamp matches Some(s) ==> is_rfc3339_utc(s@),
{
    OffsetDateTime::now_utc().format(&Rfc3339).ok()
}

/// The URL of the upstream repository's reference advertisement.
pub open spec fn ref_url() -> Option<Seq<char>> {
    url_query_text(
        GITHUB_ROOT@,
        seq![OWNER@, REPOSITORY@ + ".git"@, "info"@, "refs"@],
        "service"@,
        "git-upload-pack"@,
    )
}

/// The URL of the upstream file at `index` in the given commit.
pub open spec fn raw_url(commit: Seq<char>, index: int) -> Option<Seq<char>> {
    url_path_text(RAW_ROOT@, seq![OWNER@, REPOSITORY@, commit, source_name(index)])
}

fn string_of(s: &str) -> (out: String)
    ensures
        out@ == s@,
{
    s.to_owned()
}

fn git_ref_url() -> (url: Option<String>)
    ensures
        match url {
            Some(u) => ref_url() == Some(u@),
            None => ref_url() is None,
        },
{
    let mut repository = string_of(REPOSITORY);
    repository.append(".git");
    let mut segments: Vec<String> = Vec::new();
    segments.push(string_of(OWNER));
    segments.push(repository);
    segments.push(string_of("info"));
    segments.push(string_of("refs"));
    proof {
        assert(components_view(segments@) =~= seq![OWNER@, REPOSITORY@ + ".git"@, "info"@, "refs"@]);
    }
    url_with_query(GITHUB_ROOT, &segments, "service", "git-upload-pack")
}

fn raw_file_url(commit: &str, name: &str, Ghost(index): Ghost<int>) -> (url: Option<String>)
    requires
        name@ == source_name(index),
    ensures
        match url {
            Some(u) => raw_url(commit@, index) == Some(u@),
            None => raw_url(commit@, index) is None,
        },
{
    let mut segments: Vec<String> = Vec::new();
    segments.push(string_of(OWNER));
    segments.push(string_of(REPOSITORY));
    segments.push(string_of(commit));
    segments.push(string_of(name));
    proof {
        assert(components_view(segments@) =~= seq![OWNER@, REPOSITORY@, commit@, source_name(index)]);
    }
    url_with_path(RAW_ROOT, &segments)
}

/// Why an HTTP response is refused.
#[derive(Clone, Copy, Debug, Eq, PartialEq, Structural)]
pub enum ResponseError {
    /// The status is not a success (2xx).
    Status(u16),
    /// The body is, or announces to be, longer than the limit.
    TooLarge,
}

/// Checks a response before its body is read: the status must be a
/// success, and a declared length must not exceed `max_bytes`.
pub fn check_response_head(status: u16, content_length: Option<u64>, max_bytes: usize) -> (res: Result<
    (),
    ResponseError,
>)
    ensures
        !(200 <= status <= 299) ==> res == Err::<(), ResponseError>(ResponseError::Status(status)),
        200 <= status <= 299 ==> (content_length matches Some(n) && n > max_bytes) ==> res == Err::<
            (),
            ResponseError,
        >(ResponseError::TooLarge),
        200 <= status <= 299 ==> !(content_length matches Some(n) && n > max_bytes) ==> res is Ok,
{
    if !(200 <= status && status <= 299) {
        return Err(ResponseError::Status(status));
    }
    match content_length {
        Some(n) => if n > max_bytes as u64 {
            Err(ResponseError::TooLarge)
        } else {
            Ok(())
        },
        None => Ok(()),
    }
}

/// How many bytes of a body to read: one more than the limit, so that a
/// longer body is noticed.
pub fn body_read_limit(max_bytes: usize) -> (limit: u64)
    requires
        max_bytes < u64::MAX,
    ensures
        limit == max_bytes + 1,
{
    max_bytes as u64 + 1
}

/// Checks the length of the body that was read.
pub fn check_body_length(body_len: usize, max_bytes: usize) -> (res: Result<(), ResponseError>)
    ensures
        res is Ok <==> body_len <= max_bytes,
        res is Err ==> res == Err::<(), ResponseError>(ResponseError::TooLarge),
{
    if body_len > max_bytes {
        Err(ResponseError::TooLarge)
    } else {
        Ok(())
    }
}

/// What to fetch and where to put it.
#[derive(Clone, Debug)]
pub struct FetchOptions {
    /// A branch, a tag or a full commit hash of the upstream repository.
    pub requested_ref: String,
    /// The directory that receives the snapshot.
    pub output: String,
    /// Download again even when the snapshot in `output` is current.
    pub force: bool,
}

/// Whether a fetch wrote a new snapshot.
#[derive(Clone, Copy, Debug, Eq, PartialEq, Structural)]
pub enum FetchStatus {
    Updated,
    Unchanged,
}

/// What a fetch produced.
#[derive(Clone, Debug)]
pub struct FetchResult {
    pub status: FetchStatus,
    pub repository: &'static str,
    pub commit: String,
    pub file_count: usize,
    pub prefix_count: usize,
}

/// Why a fetch failed.
#[derive(Clone, Debug)]
pub enum FetchError {
    /// The requested reference is blank.
    EmptyRef,
    /// The output path does not name a directory of its own.
    BadOutput,
    /// The reference could not be resolved from the advertisement.
    Resolve(AdvertError),
    /// The existing output must not be replaced.
    Output(OutputError),
    /// An upstream file was refused.
    InvalidSource { name: &'static str, error: SourceError },
    /// A URL of the upstream repository could not be built.
    Url,
    /// The time of the fetch could not be written.
    Timestamp,
    /// The manifest's prefix counts add up to more than a `usize` holds.
    PrefixCountOverflow,
    /// The driver reported something that was not asked for.
    UnexpectedEvent,
}

/// The options are usable: the reference is not blank and the output
/// path ends in a name.
pub open spec fn options_error(options: FetchOptions) -> Option<FetchError> {
    if trim(options.requested_ref@).len() == 0 {
        Some(FetchError::EmptyRef)
    } else if final_name(options.output@) is None {
        Some(FetchError::BadOutput)
    } else {
        None
    }
}

/// Checks the options of a fetch.
pub fn validate_options(options: &FetchOptions) -> (res: Result<(), FetchError>)
    ensures
        match options_error(*options) {
            Some(e) => res matches Err(err) && err == e,
            None => res is Ok,
        },
{
    let chars = str_chars(options.requested_ref.as_str());
    let trimmed = trim_chars(chars.as_slice());
    if trimmed.len() == 0 {
        return Err(FetchError::EmptyRef);
    }
    if !has_final_name(options.output.as_str()) {
        return Err(FetchError::BadOutput);
    }
    Ok(())
}

/// What was found where the snapshot goes: nothing to keep, a snapshot of
/// this program, or a reason not to replace it.
pub open spec fn existing_snapshot_of(probe: OutputProbe<Manifest>) -> Result<Option<Manifest>, OutputError> {
    match probe {
        OutputProbe::Missing => Ok(None),
        OutputProbe::EmptyDirectory => Ok(None),
        OutputProbe::Symlink => Err(OutputError::Symlink),
        OutputProbe::NotDirectory => Err(OutputError::NotDirectory),
        OutputProbe::Unowned => Err(OutputError::Unowned),
        OutputProbe::Owned(manifest) => if compatible(manifest) {
            Ok(Some(manifest))
        } else {
            Err(OutputError::Incompatible)
        },
    }
}

/// Decides about the output directory of a fetch: a missing or empty
/// directory may be filled, a snapshot of this program may be replaced,
/// anything else is kept.
pub fn existing_snapshot(probe: OutputProbe<Manifest>) -> (res: Result<Option<Manifest>, OutputError>)
    ensures
        res == existing_snapshot_of(probe),
{
    match probe {
        OutputProbe::Missing => Ok(None),
        OutputProbe::EmptyDirectory => Ok(None),
        OutputProbe::Symlink => Err(OutputError::Symlink),
        OutputProbe::NotDirectory => Err(OutputError::NotDirectory),
        OutputProbe::Unowned => Err(OutputError::Unowned),
        OutputProbe::Owned(manifest) => if is_compatible(&manifest) {
            Ok(Some(manifest))
        } else {
            Err(OutputError::Incompatible)
        },
    }
}

/// The sum of the prefix counts of the entries.
pub open spec fn prefix_total(files: Seq<FileManifest>) -> int
    decreases files.len(),
{
    if files.len() == 0 {
        0
    } else {
        prefix_total(files.drop_last()) + files.last().prefixes
    }
}

/// What a fetch reports for a snapshot with this manifest: the number of
/// files and of prefixes that the manifest lists.
pub fn result_from_manifest(status: FetchStatus, commit: String, manifest: &Manifest) -> (res: Option<FetchResult>)
    ensures
        prefix_total(manifest.files@) <= usize::MAX ==> (res matches Some(r) && r.status == status
            && r.repository@ == REPOSITORY_ID@ && r.commit == commit && r.file_count == manifest.files@.len()
            && r.prefix_count == prefix_total(manifest.files@)),
        prefix_total(manifest.files@) > usize::MAX ==> res is None,
{
    let mut total: usize = 0;
    let mut i: usize = 0;
    while i < manifest.files.len()
        invariant
            0 <= i <= manifest.files.len(),
            total == prefix_total(manifest.files@.take(i as int)),
        decreases manifest.files.len() - i,
    {
        proof {
            assert(manifest.files@.take(i + 1).drop_last() =~= manifest.files@.take(i as int));
        }
        let prefixes = manifest.files[i].prefixes;
        if total > usize::MAX - prefixes {
            proof {
                lemma_prefix_total_grows(manifest.files@, i + 1);
            }
            return None;
        }
        total = total + prefixes;
        i = i + 1;
    }
    proof {
        assert(manifest.files@.take(i as int) =~= manifest.files@);
    }
    Some(FetchResult {
        status,
        repository: REPOSITORY_ID,
        commit,
        file_count: manifest.files.len(),
        prefix_count: total,
    })
}

proof fn lemma_prefix_total_grows(files: Seq<FileManifest>, k: int)
    requires
        0 <= k <= files.len(),
    ensures
        prefix_total(files.take(k)) <= prefix_total(files),
    decreases files.len() - k,
{
    if k < files.len() {
        assert(files.take(k + 1).drop_last() =~= files.take(k));
        lemma_prefix_total_grows(files, k + 1);
    } else {
        assert(files.take(k) =~= files);
    }
}

/// The two manifests hold the same values.
pub open spec fn same_manifest(a: Manifest, b: Manifest) -> bool {
    &&& a.schema_version == b.schema_version
    &&& a.source == b.source
    &&& a.fetched_at == b.fetched_at
    &&& a.files@ == b.files@
}

/// A copy of a manifest.
pub fn copy_manifest(manifest: &Manifest) -> (copy: Manifest)
    ensures
        same_manifest(copy, *manifest),
{
    let mut files: Vec<FileManifest> = Vec::new();
    let mut i: usize = 0;
    while i < manifest.files.len()
        invariant
            0 <= i <= manifest.files.len(),
            files@ == manifest.files@.take(i as int),
        decreases manifest.files.len() - i,
    {
        files.push(copy_entry(&manifest.files[i]));
        i = i + 1;
        assert(files@ =~= manifest.files@.take(i as int));
    }
    proof {
        assert(files@ =~= manifest.files@);
    }
    let copy = Manifest {
        schema_version: manifest.schema_version,
        source: SourceManifest {
            repository: manifest.source.repository.clone(),
            requested_ref: manifest.source.requested_ref.clone(),
            commit: manifest.source.commit.clone(),
        },
        fetched_at: manifest.fetched_at.clone(),
        files,
    };
    copy
}

/// No two entries share a name.
pub open spec fn names_unique(files: Seq<FileManifest>) -> bool {
    forall|i: int, j: int| 0 <= i < j < files.len() ==> (#[trigger] files[i]).name@ != (#[trigger] files[j]).name@
}

/// Entries that record the upstream files in order have distinct names.
pub proof fn lemma_recorded_names_unique(files: Seq<FileManifest>, downloads: Seq<Seq<u8>>)
    requires
        files.len() <= SOURCE_COUNT,
        downloads.len() >= files.len(),
        forall|i: int| 0 <= i < files.len() ==> records(#[trigger] files[i], i, downloads[i]),
    ensures
        names_unique(files),
{
    assert forall|i: int, j: int| 0 <= i < j < files.len() implies (#[trigger] files[i]).name@
        != (#[trigger] files[j]).name@ by {
        assert(records(files[i], i, downloads[i]));
        assert(records(files[j], j, downloads[j]));
        crate::source::lemma_source_names_distinct(i, j);
    }
}

/// An entry records the upstream file at `index` whose contents were
/// `bytes`: its name, digest, size, prefix count and family.
pub open spec fn records(entry: FileManifest, index: int, bytes: Seq<u8>) -> bool {
    &&& entry.name@ == source_name(index)
    &&& entry.sha256@ == sha256_hex(bytes)
    &&& entry.bytes == bytes.len()
    &&& source_check(bytes, source_family(index)) == Ok::<nat, SourceError>(entry.prefixes as nat)
    &&& entry.address_family == source_family(index).version()
}

/// Where a fetch stands, and what it waits for.
#[derive(Debug)]
pub enum FetchPhase {
    /// Waiting for the reference advertisement.
    Resolving,
    /// Waiting for what is found at the output directory.
    Inspecting,
    /// Comparing the existing snapshot with its manifest; waiting for the
    /// contents of the file at `index`, which `entry` describes.
    Checking { manifest: Manifest, index: usize, entry: FileManifest },
    /// Waiting for an empty staging directory.
    Preparing,
    /// Waiting for the upstream file at `index`.
    Downloading { index: usize },
    /// Waiting for the file at `index` to be written to the staging
    /// directory; `pending` is its manifest entry.
    Staging { index: usize, pending: FileManifest },
    /// Waiting for the staging directory, with this manifest, to replace the
    /// output directory.
    Publishing { manifest: Manifest },
    /// Finished or failed.
    Done,
}

/// What the driver of a fetch reports.
#[derive(Debug)]
pub enum FetchEvent {
    /// The requested download gave these bytes.
    Downloaded(Vec<u8>),
    /// This was found at the output directory.
    OutputInspected(OutputProbe<Manifest>),
    /// The requested file of the existing snapshot has these contents, or
    /// does not exist.
    SnapshotFile(Option<Vec<u8>>),
    /// The staging directory is ready.
    StagingReady,
    /// The file was written to the staging directory.
    FileStaged,
    /// The staging directory replaced the output directory.
    Published,
}

/// What a fetch asks of its driver next.
#[derive(Debug)]
pub enum FetchAction {
    /// Download the URL, asking for the media type, and refuse more than
    /// `max_bytes` bytes.
    Download { url: String, accept: &'static str, max_bytes: usize },
    /// Look at the output directory.
    InspectOutput,
    /// Read the named file of the existing snapshot.
    ReadSnapshotFile { name: &'static str },
    /// Create an empty staging directory beside the output directory.
    PrepareStaging,
    /// Write the bytes to the named file of the staging directory.
    StageFile { name: &'static str, bytes: Vec<u8> },
    /// Write the manifest to the staging directory and let the staging
    /// directory replace the output directory.
    Publish { manifest: Manifest },
    /// The fetch is finished.
    Finish(FetchResult),
    /// The fetch failed.
    Fail(FetchError),
}

/// A fetch in progress.
pub struct Fetch {
    pub options: FetchOptions,
    /// The commit being fetched, once it is known.
    pub commit: String,
    pub phase: FetchPhase,
    /// The entries of the files downloaded and staged so far.
    pub entries: Vec<FileManifest>,
    /// The contents of the files downloaded so far.
    pub downloads: Ghost<Seq<Seq<u8>>>,
    /// The contents of the existing snapshot's files compared so far.
    pub checked: Ghost<Seq<Seq<u8>>>,
}

/// The existing snapshot is the one asked for: not forced, same reference,
/// same commit.
pub open spec fn is_current(options: FetchOptions, commit: Seq<char>, manifest: Manifest) -> bool {
    &&& !options.force
    &&& manifest.source.requested_ref@ == options.requested_ref@
    &&& manifest.source.commit@ == commit
}

/// Every file of the existing snapshot up to `checked.len()` has an entry
/// in the manifest and the contents that its entry records.
pub open spec fn all_match(manifest: Manifest, checked: Seq<Seq<u8>>) -> bool {
    forall|i: int|
        0 <= i < checked.len() ==> #[trigger] expected_entry(manifest, i) is Some && file_matches(
            expected_entry(manifest, i)->0,
            i,
            checked[i],
        )
}

impl Fetch {
    /// The machine's invariant, for each phase.
    pub open spec fn wf(&self) -> bool {
        &&& self.entries@.len() <= self.downloads@.len()
        &&& forall|i: int| 0 <= i < self.entries@.len() ==> records(#[trigger] self.entries@[i], i, self.downloads@[i])
        &&& match self.phase {
            FetchPhase::Resolving => self.downloads@.len() == 0,
            FetchPhase::Inspecting => self.downloads@.len() == 0 && is_sha(self.commit@),
            FetchPhase::Checking { manifest, index, entry } => {
                &&& self.downloads@.len() == 0
                &&& is_sha(self.commit@)
                &&& index < SOURCE_COUNT
                &&& compatible(manifest)
                &&& is_current(self.options, self.commit@, manifest)
                &&& self.checked@.len() == index
                &&& all_match(manifest, self.checked@)
                &&& expected_entry(manifest, index as int) == Some(entry)
            },
            FetchPhase::Preparing => self.downloads@.len() == 0 && is_sha(self.commit@),
            FetchPhase::Downloading { index } => {
                &&& is_sha(self.commit@)
                &&& index < SOURCE_COUNT
                &&& self.entries@.len() == index
                &&& self.downloads@.len() == index
            },
            FetchPhase::Staging { index, pending } => {
                &&& is_sha(self.commit@)
                &&& index < SOURCE_COUNT
                &&& self.entries@.len() == index
                &&& self.downloads@.len() == index + 1
                &&& records(pending, index as int, self.downloads@[index as int])
            },
            FetchPhase::Publishing { manifest } => {
                &&& is_sha(self.commit@)
                &&& self.entries@.len() == SOURCE_COUNT
                &&& self.downloads@.len() == SOURCE_COUNT
                &&& manifest.files@ == self.entries@
                &&& manifest.schema_version == MANIFEST_SCHEMA_VERSION
                &&& manifest.source.repository@ == REPOSITORY_ID@
                &&& manifest.source.requested_ref@ == self.options.requested_ref@
                &&& manifest.source.commit@ == self.commit@
            },
            FetchPhase::Done => true,
        }
    }

    /// The request to download the upstream file at `index`, or the failure
    /// to build its URL.
    pub open spec fn asks_download(commit: Seq<char>, index: int, action: FetchAction) -> bool {
        match raw_url(commit, index) {
            Some(url) => action matches FetchAction::Download { url: u, accept, max_bytes } && u@ == url
                && accept@ == DATA_TYPE@ && max_bytes == MAX_DATA_BYTES,
            None => action matches FetchAction::Fail(FetchError::Url),
        }
    }

    /// How a fetch begins.
    pub open spec fn start_spec(options: FetchOptions, fetch: Fetch, action: FetchAction) -> bool {
        &&& fetch.options == options
        &&& fetch.downloads@.len() == 0
        &&& match options_error(options) {
            Some(e) => fetch.phase is Done && (action matches FetchAction::Fail(err) && err == e),
            None => if is_sha(options.requested_ref@) {
                &&& fetch.commit@ == lower_sha(options.requested_ref@)
                &&& fetch.phase is Inspecting
                &&& action is InspectOutput
            } else {
                match ref_url() {
                    Some(url) => fetch.phase is Resolving && (action matches FetchAction::Download {
                        url: u,
                        accept,
                        max_bytes,
                    } && u@ == url && accept@ == ADVERTISEMENT_TYPE@ && max_bytes == MAX_REF_DISCOVERY_BYTES),
                    None => fetch.phase is Done && action matches FetchAction::Fail(FetchError::Url),
                }
            },
        }
    }

    /// Starts a fetch: checks the options, then takes a full commit hash as
    /// it is (in lower case) and asks to look at the output directory, or
    /// asks for the reference advertisement to resolve a branch or tag.
    pub fn start(options: FetchOptions) -> (res: (Fetch, FetchAction))
        ensures
            res.0.wf(),
            Fetch::start_spec(options, res.0, res.1),
    {
        let mut fetch = Fetch {
            options,
            commit: String::new(),
            phase: FetchPhase::Done,
            entries: Vec::new(),
            downloads: Ghost(Seq::empty()),
            checked: Ghost(Seq::empty()),
        };
        match validate_options(&fetch.options) {
            Ok(()) => {},
            Err(e) => {
                return (fetch, FetchAction::Fail(e));
            },
        }
        if is_commit_sha(fetch.options.requested_ref.as_str()) {
            let chars = str_chars(fetch.options.requested_ref.as_str());
            let lower = lowercase_sha(chars.as_slice());
            fetch.commit = chars_to_string(lower.as_slice());
            proof {
                assert forall|i: int| 0 <= i < fetch.commit@.len() implies crate::advert::is_hex_char(
                    #[trigger] fetch.commit@[i],
                ) by {
                    assert(crate::advert::is_hex_char(options.requested_ref@[i]));
                }
            }
            fetch.phase = FetchPhase::Inspecting;
            return (fetch, FetchAction::InspectOutput);
        }
        match git_ref_url() {
            Some(url) => {
                fetch.phase = FetchPhase::Resolving;
                (fetch, FetchAction::Download { url, accept: ADVERTISEMENT_TYPE, max_bytes: MAX_REF_DISCOVERY_BYTES })
            },
            None => (fetch, FetchAction::Fail(FetchError::Url)),
        }
    }

    /// What a fetch does once the existing snapshot's files before `index`
    /// matched its manifest: compare the next file, or, after the last one,
    /// finish without downloading; a file that the manifest does not
    /// describe ends the comparison and the download begins.
    pub open spec fn continues_check(
        commit: Seq<char>,
        manifest: Manifest,
        index: int,
        after: Fetch,
        action: FetchAction,
    ) -> bool {
        if index >= SOURCE_COUNT {
            Fetch::finishes(FetchStatus::Unchanged, commit, manifest, after, action)
        } else {
            match expected_entry(manifest, index) {
                Some(entry) => (after.phase matches FetchPhase::Checking { manifest: m, index: k, entry: e } && m
                    == manifest && k == index && e == entry) && (action matches FetchAction::ReadSnapshotFile {
                    name,
                } && name@ == source_name(index)),
                None => after.phase is Preparing && action is PrepareStaging,
            }
        }
    }

    /// The fetch finishes with the result for the manifest, or fails when
    /// the manifest's prefix counts overflow.
    pub open spec fn finishes(
        status: FetchStatus,
        commit: Seq<char>,
        manifest: Manifest,
        after: Fetch,
        action: FetchAction,
    ) -> bool {
        &&& after.phase is Done
        &&& if prefix_total(manifest.files@) <= usize::MAX {
            action matches FetchAction::Finish(r) && r.status == status && r.repository@ == REPOSITORY_ID@
                && r.commit@ == commit && r.file_count == manifest.files@.len() && r.prefix_count
                == prefix_total(manifest.files@)
        } else {
            action matches FetchAction::Fail(FetchError::PrefixCountOverflow)
        }
    }

    /// The fetch asks for the upstream file at `index`, or fails when its
    /// URL cannot be built.
    pub open spec fn downloads_next(commit: Seq<char>, index: int, after: Fetch, action: FetchAction) -> bool {
        &&& Fetch::asks_download(commit, index, action)
        &&& action is Download ==> (after.phase matches FetchPhase::Downloading { index: k } && k == index)
        &&& action is Fail ==> after.phase is Done
    }

    /// How a fetch moves on when its driver reports `event`.
    pub open spec fn step_spec(before: Fetch, event: FetchEvent, after: Fetch, action: FetchAction) -> bool {
        let options = before.options;
        let commit = before.commit@;
        &&& after.options == options
        &&& (before.phase is Downloading && event is Downloaded) || after.downloads@ == before.downloads@
        &&& match (before.phase, event) {
            (FetchPhase::Resolving, FetchEvent::Downloaded(bytes)) => match advertised_commit(
                bytes@,
                options.requested_ref@,
            ) {
                Ok(c) => after.commit@ == c && after.phase is Inspecting && action is InspectOutput,
                Err(e) => after.phase is Done && (action matches FetchAction::Fail(FetchError::Resolve(err))
                    && err@ == e),
            },
            (FetchPhase::Inspecting, FetchEvent::OutputInspected(probe)) => after.commit == before.commit
                && match existing_snapshot_of(probe) {
                Err(e) => after.phase is Done && (action matches FetchAction::Fail(FetchError::Output(err))
                    && err == e),
                Ok(Some(manifest)) => if is_current(options, commit, manifest) {
                    after.checked@ == Seq::<Seq<u8>>::empty() && Fetch::continues_check(
                        commit,
                        manifest,
                        0,
                        after,
                        action,
                    )
                } else {
                    after.phase is Preparing && action is PrepareStaging
                },
                Ok(None) => after.phase is Preparing && action is PrepareStaging,
            },
            (FetchPhase::Checking { manifest, index, entry }, FetchEvent::SnapshotFile(contents)) => after.commit
                == before.commit && match contents {
                Some(bytes) => if bytes@.len() == entry.bytes && sha256_hex(bytes@) == entry.sha256@ {
                    after.checked@ == before.checked@.push(bytes@) && Fetch::continues_check(
                        commit,
                        manifest,
                        index + 1,
                        after,
                        action,
                    )
                } else {
                    after.phase is Preparing && action is PrepareStaging
                },
                None => after.phase is Preparing && action is PrepareStaging,
            },
            (FetchPhase::Preparing, FetchEvent::StagingReady) => after.commit == before.commit
                && Fetch::downloads_next(commit, 0, after, action),
            (FetchPhase::Downloading { index }, FetchEvent::Downloaded(bytes)) => after.commit == before.commit
                && match source_check(bytes@, source_family(index as int)) {
                Err(e) => after.phase is Done && after.downloads@ == before.downloads@ && (action matches FetchAction::Fail(
                    FetchError::InvalidSource { name, error },
                ) && name@ == source_name(index as int) && error == e),
                Ok(_) => (after.phase matches FetchPhase::Staging { index: k, pending } && k == index && records(
                    pending,
                    index as int,
                    bytes@,
                )) && after.downloads@ == before.downloads@.push(bytes@) && (action matches FetchAction::StageFile {
                    name,
                    bytes: staged,
                } && name@ == source_name(index as int) && staged@ == bytes@),
            },
            (FetchPhase::Staging { index, pending }, FetchEvent::FileStaged) => after.commit == before.commit
                && after.entries@ == before.entries@.push(pending) && if index + 1 < SOURCE_COUNT {
                Fetch::downloads_next(commit, index + 1, after, action)
            } else {
                ||| (action matches FetchAction::Publish { manifest } && (manifest.files@ == after.entries@
                    && is_rfc3339_utc(manifest.fetched_at@)
                    && manifest.schema_version == MANIFEST_SCHEMA_VERSION && manifest.source.repository@
                    == REPOSITORY_ID@ && manifest.source.requested_ref@ == options.requested_ref@
                    && manifest.source.commit@ == commit && (after.phase matches FetchPhase::Publishing {
                    manifest: kept,
                } && same_manifest(kept, manifest))))
                ||| after.phase is Done && action matches FetchAction::Fail(FetchError::Timestamp)
            },
            (FetchPhase::Publishing { manifest }, FetchEvent::Published) => after.commit == before.commit
                && Fetch::finishes(FetchStatus::Updated, commit, manifest, after, action),
            _ => after.commit == before.commit && after.phase is Done && action matches FetchAction::Fail(
                FetchError::UnexpectedEvent,
            ),
        }
    }

    fn check_from(
        options: FetchOptions,
        commit: String,
        manifest: Manifest,
        index: usize,
        checked: Ghost<Seq<Seq<u8>>>,
    ) -> (res: (Fetch, FetchAction))
        requires
            index <= SOURCE_COUNT,
            is_sha(commit@),
            compatible(manifest),
            is_current(options, commit@, manifest),
            checked@.len() == index,
            all_match(manifest, checked@),
        ensures
            res.0.wf(),
            res.0.options == options,
            res.0.commit == commit,
            res.0.checked == checked,
            res.0.downloads@ == Seq::<Seq<u8>>::empty(),
            Fetch::continues_check(commit@, manifest, index as int, res.0, res.1),
            res.1 matches FetchAction::Finish(r) && r.status == FetchStatus::Unchanged ==> all_match(manifest, checked@)
                && checked@.len() == SOURCE_COUNT,
    {
        if index == SOURCE_COUNT {
            let result = result_from_manifest(FetchStatus::Unchanged, commit.clone(), &manifest);
            let fetch = Fetch {
                options,
                commit,
                phase: FetchPhase::Done,
                entries: Vec::new(),
                downloads: Ghost(Seq::empty()),
                checked,
            };
            return match result {
                Some(r) => (fetch, FetchAction::Finish(r)),
                None => (fetch, FetchAction::Fail(FetchError::PrefixCountOverflow)),
            };
        }
        match expected_file(&manifest, index) {
            Some(entry) => {
                let name = source_file(index).name;
                let fetch = Fetch {
                    options,
                    commit,
                    phase: FetchPhase::Checking { manifest, index, entry },
                    entries: Vec::new(),
                    downloads: Ghost(Seq::empty()),
                    checked,
                };
                (fetch, FetchAction::ReadSnapshotFile { name })
            },
            None => {
                let fetch = Fetch {
                    options,
                    commit,
                    phase: FetchPhase::Preparing,
                    entries: Vec::new(),
                    downloads: Ghost(Seq::empty()),
                    checked,
                };
                (fetch, FetchAction::PrepareStaging)
            },
        }
    }

    fn download_from(
        options: FetchOptions,
        commit: String,
        entries: Vec<FileManifest>,
        downloads: Ghost<Seq<Seq<u8>>>,
        checked: Ghost<Seq<Seq<u8>>>,
        index: usize,
    ) -> (res: (Fetch, FetchAction))
        requires
            index < SOURCE_COUNT,
            is_sha(commit@),
            entries@.len() == index,
            downloads@.len() == index,
            forall|i: int| 0 <= i < entries@.len() ==> records(#[trigger] entries@[i], i, downloads@[i]),
        ensures
            res.0.wf(),
            res.0.options == options,
            res.0.commit == commit,
            res.0.entries@ == entries@,
            res.0.downloads == downloads,
            Fetch::downloads_next(commit@, index as int, res.0, res.1),
    {
        let name = source_file(index).name;
        let url = raw_file_url(commit.as_str(), name, Ghost(index as int));
        match url {
            Some(url) => {
                let fetch = Fetch { options, commit, phase: FetchPhase::Downloading { index }, entries, downloads, checked };
                (fetch, FetchAction::Download { url, accept: DATA_TYPE, max_bytes: MAX_DATA_BYTES })
            },
            None => {
                let fetch = Fetch { options, commit, phase: FetchPhase::Done, entries, downloads, checked };
                (fetch, FetchAction::Fail(FetchError::Url))
            },
        }
    }

    /// Moves the fetch on by the outcome of the work it asked for.
    pub fn step(self, event: FetchEvent) -> (res: (Fetch, FetchAction))
        requires
            self.wf(),
        ensures
            res.0.wf(),
            Fetch::step_spec(self, event, res.0, res.1),
            res.1 matches FetchAction::Publish { manifest } ==> manifest.files@.len() == SOURCE_COUNT && forall|i: int|
                0 <= i < SOURCE_COUNT ==> records(#[trigger] manifest.files@[i], i, res.0.downloads@[i]),
            res.1 matches FetchAction::Publish { manifest } ==> names_unique(manifest.files@),
            res.1 matches FetchAction::Finish(r) && r.status == FetchStatus::Unchanged ==> (self.phase matches FetchPhase::Checking {
                manifest,
                ..
            } && compatible(manifest) && is_current(self.options, self.commit@, manifest) && res.0.checked@.len()
                == SOURCE_COUNT && all_match(manifest, res.0.checked@)),
    {
        let Fetch { options, commit, phase, entries, downloads, checked } = self;
        proof {
            if downloads@.len() == 0 {
                assert(downloads@ =~= Seq::<Seq<u8>>::empty());
            }
        }
        match (phase, event) {
            (FetchPhase::Resolving, FetchEvent::Downloaded(bytes)) => {
                match parse_git_advertisement(bytes.as_slice(), options.requested_ref.as_str()) {
                    Ok(found) => {
                        proof {
                            assert(is_sha(found@)) by {
                                lemma_advertised_is_sha(bytes@, options.requested_ref@);
                            }
                        }
                        let fetch = Fetch { options, commit: found, phase: FetchPhase::Inspecting, entries, downloads, checked };
                        (fetch, FetchAction::InspectOutput)
                    },
                    Err(e) => {
                        let fetch = Fetch { options, commit, phase: FetchPhase::Done, entries, downloads, checked };
                        (fetch, FetchAction::Fail(FetchError::Resolve(e)))
                    },
                }
            },
            (FetchPhase::Inspecting, FetchEvent::OutputInspected(probe)) => {
                match existing_snapshot(probe) {
                    Err(e) => {
                        let fetch = Fetch { options, commit, phase: FetchPhase::Done, entries, downloads, checked };
                        (fetch, FetchAction::Fail(FetchError::Output(e)))
                    },
                    Ok(Some(manifest)) => {
                        let current = !options.force && manifest.source.requested_ref == options.requested_ref
                            && manifest.source.commit == commit;
                        if current {
                            Fetch::check_from(options, commit, manifest, 0, Ghost(Seq::empty()))
                        } else {
                            let fetch = Fetch { options, commit, phase: FetchPhase::Preparing, entries, downloads, checked };
                            (fetch, FetchAction::PrepareStaging)
                        }
                    },
                    Ok(None) => {
                        let fetch = Fetch { options, commit, phase: FetchPhase::Preparing, entries, downloads, checked };
                        (fetch, FetchAction::PrepareStaging)
                    },
                }
            },
            (FetchPhase::Checking { manifest, index, entry }, FetchEvent::SnapshotFile(contents)) => {
                let same = match &contents {
                    Some(bytes) => contents_match(&entry, bytes.as_slice()),
                    None => false,
                };
                if same {
                    let ghost seen = match contents {
                        Some(bytes) => bytes@,
                        None => Seq::empty(),
                    };
                    let ghost grown = checked@.push(seen);
                    proof {
                        assert forall|i: int| 0 <= i < grown.len() implies #[trigger] expected_entry(manifest, i) is Some
                            && file_matches(expected_entry(manifest, i)->0, i, grown[i]) by {
                            if i < checked@.len() {
                                assert(grown[i] == checked@[i]);
                                assert(expected_entry(manifest, i) is Some);
                            }
                        }
                    }
                    Fetch::check_from(options, commit, manifest, index + 1, Ghost(grown))
                } else {
                    let fetch = Fetch { options, commit, phase: FetchPhase::Preparing, entries, downloads, checked };
                    (fetch, FetchAction::PrepareStaging)
                }
            },
            (FetchPhase::Preparing, FetchEvent::StagingReady) => {
                Fetch::download_from(options, commit, entries, downloads, checked, 0)
            },
            (FetchPhase::Downloading { index }, FetchEvent::Downloaded(bytes)) => {
                let source = source_file(index);
                match validate_cidrs(source, bytes.as_slice()) {
                    Err(error) => {
                        let fetch = Fetch { options, commit, phase: FetchPhase::Done, entries, downloads, checked };
                        (fetch, FetchAction::Fail(FetchError::InvalidSource { name: source.name, error }))
                    },
                    Ok(prefixes) => {
                        let pending = FileManifest {
                            name: string_of(source.name),
                            sha256: sha256(bytes.as_slice()),
                            bytes: bytes.len() as u64,
                            prefixes,
                            address_family: source.family.number(),
                        };
                        let ghost grown = downloads@.push(bytes@);
                        proof {
                            assert forall|i: int| 0 <= i < entries@.len() implies records(
                                #[trigger] entries@[i],
                                i,
                                grown[i],
                            ) by {
                                assert(grown[i] == downloads@[i]);
                            }
                        }
                        let fetch = Fetch {
                            options,
                            commit,
                            phase: FetchPhase::Staging { index, pending },
                            entries,
                            downloads: Ghost(grown),
                            checked,
                        };
                        (fetch, FetchAction::StageFile { name: source.name, bytes })
                    },
                }
            },
            (FetchPhase::Staging { index, pending }, FetchEvent::FileStaged) => {
                let mut entries = entries;
                let ghost before = entries@;
                entries.push(pending);
                proof {
                    assert forall|i: int| 0 <= i < entries@.len() implies records(
                        #[trigger] entries@[i],
                        i,
                        downloads@[i],
                    ) by {
                        if i < before.len() {
                            assert(entries@[i] == before[i]);
                        }
                    }
                }
                if index + 1 < SOURCE_COUNT {
                    return Fetch::download_from(options, commit, entries, downloads, checked, index + 1);
                }
                let stamp = now_rfc3339();
                match stamp {
                    Some(fetched_at) => {
                        let manifest = Manifest {
                            schema_version: MANIFEST_SCHEMA_VERSION,
                            source: SourceManifest {
                                repository: string_of(REPOSITORY_ID),
                                requested_ref: options.requested_ref.clone(),
                                commit: commit.clone(),
                            },
                            fetched_at,
                            files: copy_entries(&entries),
                        };
                        let kept = copy_manifest(&manifest);
                        proof {
                            lemma_recorded_names_unique(manifest.files@, downloads@);
                        }
                        let fetch = Fetch {
                            options,
                            commit,
                            phase: FetchPhase::Publishing { manifest: kept },
                            entries,
                            downloads,
                            checked,
                        };
                        (fetch, FetchAction::Publish { manifest })
                    },
                    None => {
                        let fetch = Fetch { options, commit, phase: FetchPhase::Done, entries, downloads, checked };
                        (fetch, FetchAction::Fail(FetchError::Timestamp))
                    },
                }
            },
            (FetchPhase::Publishing { manifest }, FetchEvent::Published) => {
                let result = result_from_manifest(FetchStatus::Updated, commit.clone(), &manifest);
                let fetch = Fetch { options, commit, phase: FetchPhase::Done, entries, downloads, checked };
                match result {
                    Some(r) => (fetch, FetchAction::Finish(r)),
                    None => (fetch, FetchAction::Fail(FetchError::PrefixCountOverflow)),
                }
            },
            (_, _) => {
                let fetch = Fetch { options, commit, phase: FetchPhase::Done, entries, downloads, checked };
                (fetch, FetchAction::Fail(FetchError::UnexpectedEvent))
            },
        }
    }
}

/// A copy of manifest entries.
pub fn copy_entries(entries: &Vec<FileManifest>) -> (copy: Vec<FileManifest>)
    ensures
        copy@ == entries@,
{
    let mut copy: Vec<FileManifest> = Vec::new();
    let mut i: usize = 0;
    while i < entries.len()
        invariant
            0 <= i <= entries.len(),
            copy@ == entries@.take(i as int),
        decreases entries.len() - i,
    {
        copy.push(copy_entry(&entries[i]));
        i = i + 1;
        assert(copy@ =~= entries@.take(i as int));
    }
    assert(copy@ =~= entries@);
    copy
}

/// What the advertisement gives for a name is always a full commit hash.
pub proof fn lemma_advertised_is_sha(bytes: Seq<u8>, requested: Seq<char>)
    ensures
        advertised_commit(bytes, requested) matches Ok(c) ==> is_sha(c),
{
    crate::advert::lemma_scan_finds_shas(bytes, requested, (None, None, None));
}

/// A run of a fetch: `states[0]` and `actions[0]` come from
/// `Fetch::start`, `events[k]` answers `actions[k]`, and each step follows
/// `Fetch::step_spec`.
pub open spec fn fetch_run(
    options: FetchOptions,
    states: Seq<Fetch>,
    events: Seq<FetchEvent>,
    actions: Seq<FetchAction>,
) -> bool {
    &&& states.len() == actions.len()
    &&& events.len() + 1 == actions.len()
    &&& Fetch::start_spec(options, states[0], actions[0])
    &&& forall|k: int|
        0 <= k < events.len() ==> run_step(#[trigger] states[k], events[k], states[k + 1], actions[k + 1])
    &&& forall|k: int| 0 <= k < states.len() ==> (#[trigger] states[k]).wf()
}

/// One step of a run, as `Fetch::step_spec` states it; kept folded so that
/// a proof about a run unfolds only the steps it looks at.
#[verifier::opaque]
pub open spec fn run_step(before: Fetch, event: FetchEvent, after: Fetch, action: FetchAction) -> bool {
    Fetch::step_spec(before, event, after, action)
}

proof fn lemma_step_at(
    options: FetchOptions,
    states: Seq<Fetch>,
    events: Seq<FetchEvent>,
    actions: Seq<FetchAction>,
    j: int,
)
    requires
        fetch_run(options, states, events, actions),
        0 <= j < events.len(),
    ensures
        Fetch::step_spec(states[j], events[j], states[j + 1], actions[j + 1]),
        states[j].wf(),
        states[j + 1].wf(),
{
    reveal(run_step);
    assert(run_step(states[j], events[j], states[j + 1], actions[j + 1]));
}

/// The phases before any download of an upstream file.
pub open spec fn is_early(phase: FetchPhase) -> bool {
    phase is Resolving || phase is Inspecting || phase is Checking
}

/// What may be asked before any upstream file is downloaded: the
/// advertisement (only as the first request), a look at the output
/// directory, and reads of the existing snapshot.
pub open spec fn early_action(action: FetchAction, index: int) -> bool {
    ||| action is InspectOutput
    ||| action is ReadSnapshotFile
    ||| (action matches FetchAction::Download { accept, .. } && index == 0 && accept@ == ADVERTISEMENT_TYPE@)
}

proof fn lemma_early_prefix(
    options: FetchOptions,
    states: Seq<Fetch>,
    events: Seq<FetchEvent>,
    actions: Seq<FetchAction>,
    k: int,
)
    requires
        fetch_run(options, states, events, actions),
        0 <= k < states.len(),
        is_early(states[k].phase),
    ensures
        forall|i: int| 0 <= i <= k ==> early_action(#[trigger] actions[i], i),
    decreases k,
{
    if k > 0 {
        let j = k - 1;
        lemma_step_at(options, states, events, actions, j);
        assert(is_early(states[j].phase));
        lemma_early_prefix(options, states, events, actions, j);
        assert(early_action(actions[k], k));
    }
}

/// A fetch that finishes with the snapshot unchanged asked for no upstream
/// file and wrote nothing: at most the reference advertisement (as its first
/// request), the look at the output directory and reads of the existing
/// files were asked for.
pub proof fn lemma_unchanged_run_downloads_nothing(
    options: FetchOptions,
    states: Seq<Fetch>,
    events: Seq<FetchEvent>,
    actions: Seq<FetchAction>,
)
    requires
        fetch_run(options, states, events, actions),
        actions.last() matches FetchAction::Finish(r) && r.status == FetchStatus::Unchanged,
    ensures
        forall|i: int| 0 <= i < actions.len() - 1 ==> early_action(#[trigger] actions[i], i),
{
    let n = actions.len() - 1;
    assert(n > 0) by {
        if n == 0 {
            assert(Fetch::start_spec(options, states[0], actions[0]));
        }
    }
    let m = n - 1;
    lemma_step_at(options, states, events, actions, m);
    assert(is_early(states[m].phase));
    lemma_early_prefix(options, states, events, actions, m);
}

proof fn lemma_after_publish(
    options: FetchOptions,
    states: Seq<Fetch>,
    events: Seq<FetchEvent>,
    actions: Seq<FetchAction>,
    j: int,
    k: int,
)
    requires
        fetch_run(options, states, events, actions),
        0 <= j <= k < actions.len(),
        actions[j] is Publish,
    ensures
        states[k].phase is Publishing || states[k].phase is Done,
        k > j ==> (actions[k] is Finish || actions[k] matches FetchAction::Fail(FetchError::PrefixCountOverflow)
            || actions[k] matches FetchAction::Fail(FetchError::UnexpectedEvent)),
    decreases k - j,
{
    if k == j {
        if j == 0 {
            assert(Fetch::start_spec(options, states[0], actions[0]));
        } else {
            lemma_step_at(options, states, events, actions, j - 1);
        }
    } else {
        lemma_after_publish(options, states, events, actions, j, k - 1);
        lemma_step_at(options, states, events, actions, k - 1);
    }
}

/// A fetch that fails while resolving, inspecting, downloading, checking or
/// staging never asks to publish: the existing snapshot is replaced only
/// after every upstream file was downloaded and staged.
pub proof fn lemma_failed_run_publishes_nothing(
    options: FetchOptions,
    states: Seq<Fetch>,
    events: Seq<FetchEvent>,
    actions: Seq<FetchAction>,
)
    requires
        fetch_run(options, states, events, actions),
        actions.last() matches FetchAction::Fail(e) && !(e is PrefixCountOverflow) && !(e is UnexpectedEvent),
    ensures
        forall|i: int| 0 <= i < actions.len() ==> !(#[trigger] actions[i] is Publish),
{
    assert forall|i: int| 0 <= i < actions.len() implies !(#[trigger] actions[i] is Publish) by {
        if actions[i] is Publish {
            lemma_after_publish(options, states, events, actions, i, actions.len() - 1);
        }
    }
}

/// A fetch that finishes with a new snapshot published it: the manifest
/// it asked to publish lists the sixteen upstream files in order, each
/// with the name, digest, size, prefix count and family of the bytes that
/// were downloaded for it, names the requested reference and the commit,
/// and gives the result's counts.
pub proof fn lemma_updated_run_published(
    options: FetchOptions,
    states: Seq<Fetch>,
    events: Seq<FetchEvent>,
    actions: Seq<FetchAction>,
)
    requires
        fetch_run(options, states, events, actions),
        actions.last() matches FetchAction::Finish(r) && r.status == FetchStatus::Updated,
    ensures
        exists|j: int|
            0 <= j < actions.len() && (#[trigger] actions[j] matches FetchAction::Publish { manifest } && {
                &&& manifest.files@.len() == SOURCE_COUNT
                &&& names_unique(manifest.files@)
                &&& forall|i: int|
                    0 <= i < SOURCE_COUNT ==> records(#[trigger] manifest.files@[i], i, states[j].downloads@[i])
                &&& manifest.source.requested_ref@ == options.requested_ref@
                &&& manifest.source.commit@ == actions.last()->Finish_0.commit@
                &&& actions.last()->Finish_0.file_count == SOURCE_COUNT
                &&& actions.last()->Finish_0.prefix_count == prefix_total(manifest.files@)
            }),
{
    let n = actions.len() - 1;
    assert(n > 0) by {
        if n == 0 {
            assert(Fetch::start_spec(options, states[0], actions[0]));
        }
    }
    let m = n - 1;
    lemma_step_at(options, states, events, actions, m);
    assert(states[m].phase is Publishing);
    assert(m > 0) by {
        if m == 0 {
            assert(Fetch::start_spec(options, states[0], actions[0]));
        }
    }
    let j = m - 1;
    lemma_step_at(options, states, events, actions, j);
    assert(states[j].wf() && states[m].wf());
    assert(states[j + 1].options == options) by {
        lemma_options_kept(options, states, events, actions, j + 1);
    }
    let manifest = actions[m]->Publish_manifest;
    assert forall|i: int| 0 <= i < SOURCE_COUNT implies records(#[trigger] manifest.files@[i], i, states[m].downloads@[i]) by {
        assert(manifest.files@[i] == states[m].entries@[i]);
    }
    lemma_recorded_names_unique(manifest.files@, states[m].downloads@);
}

proof fn lemma_options_kept(
    options: FetchOptions,
    states: Seq<Fetch>,
    events: Seq<FetchEvent>,
    actions: Seq<FetchAction>,
    k: int,
)
    requires
        fetch_run(options, states, events, actions),
        0 <= k < states.len(),
    ensures
        states[k].options == options,
    decreases k,
{
    if k > 0 {
        lemma_options_kept(options, states, events, actions, k - 1);
        lemma_step_at(options, states, events, actions, k - 1);
    }
}

/// The output holds the manifest `manifest` of a snapshot that is current
/// for the fetch, describes every upstream file, and the driver reports,
/// from step `k + 1` on, the file contents that the manifest records.
pub open spec fn current_snapshot_reported(
    states: Seq<Fetch>,
    events: Seq<FetchEvent>,
    k: int,
    manifest: Manifest,
) -> bool {
    &&& 0 <= k
    &&& k + SOURCE_COUNT < events.len()
    &&& states[k].phase is Inspecting
    &&& events[k] == FetchEvent::OutputInspected(OutputProbe::Owned(manifest))
    &&& compatible(manifest)
    &&& is_current(states[k].options, states[k].commit@, manifest)
    &&& forall|i: int| 0 <= i < SOURCE_COUNT ==> #[trigger] expected_entry(manifest, i) is Some
    &&& forall|t: int|
        1 <= t <= SOURCE_COUNT ==> (#[trigger] events[k + t] matches FetchEvent::SnapshotFile(Some(bytes))
            && file_matches(expected_entry(manifest, t - 1)->0, t - 1, bytes@))
}

#[verifier::rlimit(100)]
#[verifier::spinoff_prover]
proof fn lemma_checking_progress(
    options: FetchOptions,
    states: Seq<Fetch>,
    events: Seq<FetchEvent>,
    actions: Seq<FetchAction>,
    k: int,
    manifest: Manifest,
    t: int,
)
    requires
        fetch_run(options, states, events, actions),
        current_snapshot_reported(states, events, k, manifest),
        1 <= t <= SOURCE_COUNT,
    ensures
        states[k + t].phase == (FetchPhase::Checking {
            manifest,
            index: (t - 1) as usize,
            entry: expected_entry(manifest, t - 1)->0,
        }),
        states[k + t].commit == states[k].commit,
        actions[k + t] matches FetchAction::ReadSnapshotFile { name } && name@ == source_name(t - 1),
    decreases t,
{
    assert(expected_entry(manifest, t - 1) is Some);
    if t == 1 {
        lemma_step_at(options, states, events, actions, k);
    } else {
        lemma_checking_progress(options, states, events, actions, k, manifest, t - 1);
        let p = k + t - 1;
        lemma_step_at(options, states, events, actions, p);
        assert(events[k + (t - 1)] matches FetchEvent::SnapshotFile(Some(bytes)) && file_matches(
            expected_entry(manifest, t - 2)->0,
            t - 2,
            bytes@,
        ));
        assert(k + (t - 1) == p);
    }
}

/// A fetch that finds a current snapshot of its own, whose files all still
/// have the contents its manifest records, reads those sixteen files in
/// order and then finishes with the snapshot unchanged, reporting the
/// manifest's commit and counts, without downloading or writing anything.
pub proof fn lemma_current_snapshot_unchanged(
    options: FetchOptions,
    states: Seq<Fetch>,
    events: Seq<FetchEvent>,
    actions: Seq<FetchAction>,
    k: int,
    manifest: Manifest,
)
    requires
        fetch_run(options, states, events, actions),
        current_snapshot_reported(states, events, k, manifest),
        prefix_total(manifest.files@) <= usize::MAX,
    ensures
        forall|t: int|
            1 <= t <= SOURCE_COUNT ==> (#[trigger] actions[k + t] matches FetchAction::ReadSnapshotFile { name } && name@
                == source_name(t - 1)),
        actions[k + SOURCE_COUNT + 1] matches FetchAction::Finish(r) && r.status == FetchStatus::Unchanged
            && r.commit@ == states[k].commit@ && r.file_count == manifest.files@.len() && r.prefix_count
            == prefix_total(manifest.files@),
{
    assert forall|t: int| 1 <= t <= SOURCE_COUNT implies (#[trigger] actions[k + t] matches FetchAction::ReadSnapshotFile {
        name,
    } && name@ == source_name(t - 1)) by {
        lemma_checking_progress(options, states, events, actions, k, manifest, t);
    }
    let n = SOURCE_COUNT as int;
    lemma_checking_progress(options, states, events, actions, k, manifest, n);
    let p = k + n;
    lemma_step_at(options, states, events, actions, p);
    assert(events[k + n] matches FetchEvent::SnapshotFile(Some(bytes)) && file_matches(
        expected_entry(manifest, n - 1)->0,
        n - 1,
        bytes@,
    ));
}

/// A fetch that finds at the output something it must not replace (a
/// symbolic link, a file, a directory that is not its own, a snapshot of
/// another schema or repository) fails right away, having asked for at most
/// the reference advertisement before, and nothing to be written.
pub proof fn lemma_refused_output(
    options: FetchOptions,
    states: Seq<Fetch>,
    events: Seq<FetchEvent>,
    actions: Seq<FetchAction>,
    k: int,
)
    requires
        fetch_run(options, states, events, actions),
        0 <= k < events.len(),
        states[k].phase is Inspecting,
        events[k] matches FetchEvent::OutputInspected(probe) && existing_snapshot_of(probe) is Err,
    ensures
        actions[k + 1] matches FetchAction::Fail(FetchError::Output(e)) && events[k]->OutputInspected_0 matches probe
            && existing_snapshot_of(probe) == Err::<Option<Manifest>, OutputError>(e),
        forall|i: int| 0 <= i <= k ==> early_action(#[trigger] actions[i], i),
{
    lemma_step_at(options, states, events, actions, k);
    lemma_early_prefix(options, states, events, actions, k);
}

/// A fetch never writes over what it does not own. Looking at the output
/// ends the fetch, with the reason, when a symbolic link, a file, a
/// directory without a manifest, or a snapshot of another schema or
/// repository is there; a missing output or an empty directory is filled
/// anew.
pub proof fn lemma_foreign_output_refused(before: Fetch, probe: OutputProbe<Manifest>, after: Fetch, action: FetchAction)
    requires
        before.phase is Inspecting,
        Fetch::step_spec(before, FetchEvent::OutputInspected(probe), after, action),
    ensures
        probe is Symlink ==> after.phase is Done && action matches FetchAction::Fail(
            FetchError::Output(OutputError::Symlink),
        ),
        probe is NotDirectory ==> after.phase is Done && action matches FetchAction::Fail(
            FetchError::Output(OutputError::NotDirectory),
        ),
        probe is Unowned ==> after.phase is Done && action matches FetchAction::Fail(
            FetchError::Output(OutputError::Unowned),
        ),
        (probe matches OutputProbe::Owned(m) && (m.schema_version != crate::source::MANIFEST_SCHEMA_VERSION
            || m.source.repository@ != crate::source::REPOSITORY_ID@)) ==> after.phase is Done
            && action matches FetchAction::Fail(FetchError::Output(OutputError::Incompatible)),
        (probe is Missing || probe is EmptyDirectory) ==> after.phase is Preparing && action is PrepareStaging,
{
}

/// A fetch that finds at the output a symbolic link, a file or a directory
/// without a manifest fails right there: up to that point it asked for at
/// most the reference advertisement, a look at the output and reads of
/// files, and it never asks to stage or publish anything.
pub proof fn lemma_foreign_output_run(
    options: FetchOptions,
    states: Seq<Fetch>,
    events: Seq<FetchEvent>,
    actions: Seq<FetchAction>,
    k: int,
)
    requires
        fetch_run(options, states, events, actions),
        0 <= k < events.len(),
        states[k].phase is Inspecting,
        events[k] matches FetchEvent::OutputInspected(probe) && (probe is Symlink || probe is NotDirectory
            || probe is Unowned),
    ensures
        actions[k + 1] matches FetchAction::Fail(FetchError::Output(_)),
        forall|i: int|
            0 <= i <= k + 1 ==> !(#[trigger] actions[i] is PrepareStaging) && !(actions[i] is Publish) && !(
            actions[i] is StageFile),
{
    lemma_step_at(options, states, events, actions, k);
    let probe = events[k]->OutputInspected_0;
    lemma_foreign_output_refused(states[k], probe, states[k + 1], actions[k + 1]);
    lemma_early_prefix(options, states, events, actions, k);
}

/// Step `d` of the run downloaded the upstream file at `index`: it asked
/// for that file's URL in the fetch's commit, as data of at most
/// `MAX_DATA_BYTES` bytes, and was answered with `bytes`.
pub open spec fn downloaded_at(
    states: Seq<Fetch>,
    events: Seq<FetchEvent>,
    actions: Seq<FetchAction>,
    d: int,
    index: int,
    bytes: Seq<u8>,
) -> bool {
    &&& raw_url(states[d].commit@, index) matches Some(url) && (actions[d] matches FetchAction::Download {
        url: u,
        accept,
        max_bytes,
    } && u@ == url && accept@ == DATA_TYPE@ && max_bytes == MAX_DATA_BYTES)
    &&& events[d] matches FetchEvent::Downloaded(b) && b@ == bytes
}

proof fn lemma_downloading_asked(
    options: FetchOptions,
    states: Seq<Fetch>,
    events: Seq<FetchEvent>,
    actions: Seq<FetchAction>,
    k: int,
)
    requires
        fetch_run(options, states, events, actions),
        0 <= k < states.len(),
        states[k].phase is Downloading,
    ensures
        raw_url(states[k].commit@, states[k].phase->Downloading_index as int) matches Some(url) && (
        actions[k] matches FetchAction::Download { url: u, accept, max_bytes } && u@ == url && accept@ == DATA_TYPE@
            && max_bytes == MAX_DATA_BYTES),
{
    if k == 0 {
        assert(Fetch::start_spec(options, states[0], actions[0]));
    } else {
        lemma_step_at(options, states, events, actions, k - 1);
    }
}

/// What one step does to the downloads kept: nothing, or, when a
/// download of the next upstream file is answered, adds its bytes; the
/// commit stays once something was downloaded.
proof fn lemma_step_downloads(before: Fetch, event: FetchEvent, after: Fetch, action: FetchAction)
    requires
        before.wf(),
        Fetch::step_spec(before, event, after, action),
    ensures
        (after.downloads@ == before.downloads@ && (before.downloads@.len() > 0 ==> after.commit == before.commit)) || (
        before.phase matches FetchPhase::Downloading { index } && event matches FetchEvent::Downloaded(b) && index
            == before.downloads@.len() && after.downloads@ == before.downloads@.push(b@) && after.commit
            == before.commit),
{
}

proof fn lemma_run_step_downloads(
    options: FetchOptions,
    states: Seq<Fetch>,
    events: Seq<FetchEvent>,
    actions: Seq<FetchAction>,
    j: int,
)
    requires
        fetch_run(options, states, events, actions),
        0 <= j < events.len(),
    ensures
        (states[j + 1].downloads@ == states[j].downloads@ && (states[j].downloads@.len() > 0 ==> states[j + 1].commit
            == states[j].commit)) || (states[j].phase matches FetchPhase::Downloading { index } && events[j] matches FetchEvent::Downloaded(
            b,
        ) && index == states[j].downloads@.len() && states[j + 1].downloads@ == states[j].downloads@.push(b@)
            && states[j + 1].commit == states[j].commit),
{
    lemma_step_at(options, states, events, actions, j);
    assert(states[j].wf());
    lemma_step_downloads(states[j], events[j], states[j + 1], actions[j + 1]);
}

/// The contents that a fetch keeps for the upstream file at `i` came from
/// the download, earlier in the run, of that very file in the fetch's
/// commit: the fetch records exactly the bytes it was given.
pub proof fn lemma_download_traced(
    options: FetchOptions,
    states: Seq<Fetch>,
    events: Seq<FetchEvent>,
    actions: Seq<FetchAction>,
    k: int,
    i: int,
)
    requires
        fetch_run(options, states, events, actions),
        0 <= k < states.len(),
        0 <= i < states[k].downloads@.len(),
    ensures
        exists|d: int|
            0 <= d < k && states[d].commit == states[k].commit && #[trigger] downloaded_at(
                states,
                events,
                actions,
                d,
                i,
                states[k].downloads@[i],
            ),
    decreases k,
{
    if k == 0 {
        assert(Fetch::start_spec(options, states[0], actions[0]));
    } else {
        let j = k - 1;
        lemma_run_step_downloads(options, states, events, actions, j);
        if i < states[j].downloads@.len() {
            lemma_download_traced(options, states, events, actions, j, i);
            let d = choose|d: int|
                0 <= d < j && states[d].commit == states[j].commit && #[trigger] downloaded_at(
                    states,
                    events,
                    actions,
                    d,
                    i,
                    states[j].downloads@[i],
                );
            assert(states[k].downloads@[i] == states[j].downloads@[i]);
            assert(downloaded_at(states, events, actions, d, i, states[k].downloads@[i]));
        } else {
            lemma_downloading_asked(options, states, events, actions, j);
            assert(downloaded_at(states, events, actions, j, i, states[k].downloads@[i]));
        }
    }
}

} // verus!
