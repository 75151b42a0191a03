//! The fetched snapshot: the upstream files it is made of, its manifest, and
//! the checks that tie files and manifest together.

use crate::family::IpFamily;
use crate::prefix::{network_of, parse_network, PrefixFault};
use crate::text::{chars_eq, lines, split_lines, str_chars, strip_bom, strip_bom_chars, trim, trim_chars, utf8_str};
use sha2::{Digest, Sha256};
use vstd::prelude::*;
use vstd::utf8::{decode_utf8, valid_utf8};

verus! {

/// The upstream repository, as `owner/name`.
pub const REPOSITORY_ID: &'static str = "gaoyifan/china-operator-ip";

/// The schema version that fetched snapshots are written with.
pub const MANIFEST_SCHEMA_VERSION: u32 = 1;

/// How many upstream files a snapshot holds.
pub const SOURCE_COUNT: usize = 16;

/// An upstream file and the address family of its prefixes.
#[derive(Clone, Copy, Debug)]
pub struct SourceFile {
    pub name: &'static str,
    pub family: IpFamily,
}

/// The name of the upstream file at `index`: each data set has an IPv4
/// file and, after it, an IPv6 file.
pub open spec fn source_name(index: int) -> Seq<char> {
    if index == 0 {
        "china.txt"@
    } else if index == 1 {
        "china6.txt"@
    } else if index == 2 {
        "chinanet.txt"@
    } else if index == 3 {
        "chinanet6.txt"@
    } else if index == 4 {
        "cmcc.txt"@
    } else if index == 5 {
        "cmcc6.txt"@
    } else if index == 6 {
        "unicom.txt"@
    } else if index == 7 {
        "unicom6.txt"@
    } else if index == 8 {
        "cernet.txt"@
    } else if index == 9 {
        "cernet6.txt"@
    } else if index == 10 {
        "cstnet.txt"@
    } else if index == 11 {
        "cstnet6.txt"@
    } else if index == 12 {
        "drpeng.txt"@
    } else if index == 13 {
        "drpeng6.txt"@
    } else if index == 14 {
        "googlecn.txt"@
    } else {
        "googlecn6.txt"@
    }
}

/// No two upstream files share a name.
pub proof fn lemma_source_names_distinct(i: int, j: int)
    requires
        0 <= i < j < SOURCE_COUNT,
    ensures
        source_name(i) != source_name(j),
{
    reveal_strlit("china.txt");
    reveal_strlit("china6.txt");
    reveal_strlit("chinanet.txt");
    reveal_strlit("chinanet6.txt");
    reveal_strlit("cmcc.txt");
    reveal_strlit("cmcc6.txt");
    reveal_strlit("unicom.txt");
    reveal_strlit("unicom6.txt");
    reveal_strlit("cernet.txt");
    reveal_strlit("cernet6.txt");
    reveal_strlit("cstnet.txt");
    reveal_strlit("cstnet6.txt");
    reveal_strlit("drpeng.txt");
    reveal_strlit("drpeng6.txt");
    reveal_strlit("googlecn.txt");
    reveal_strlit("googlecn6.txt");
    let a = source_name(i);
    let b = source_name(j);
    if a.len() == b.len() {
        if a[0] == b[0] {
            if a[1] == b[1] {
                if a[4] == b[4] {
                    assert(a[5] != b[5] || a[6] != b[6]);
                }
            }
        }
    }
}

/// The family of the upstream file at `index`.
pub open spec fn source_family(index: int) -> IpFamily {
    if index % 2 == 0 {
        IpFamily::V4
    } else {
        IpFamily::V6
    }
}

/// The upstream file at `index`, in the fixed order of the snapshot.
pub fn source_file(index: usize) -> (file: SourceFile)
    requires
        index < SOURCE_COUNT,
    ensures
        file.name@ == source_name(index as int),
        file.family == source_family(index as int),
{
    let family = if index % 2 == 0 {
        IpFamily::V4
    } else {
        IpFamily::V6
    };
    let name = if index == 0 {
        "china.txt"
    } else if index == 1 {
        "china6.txt"
    } else if index == 2 {
        "chinanet.txt"
    } else if index == 3 {
        "chinanet6.txt"
    } else if index == 4 {
        "cmcc.txt"
    } else if index == 5 {
        "cmcc6.txt"
    } else if index == 6 {
        "unicom.txt"
    } else if index == 7 {
        "unicom6.txt"
    } else if index == 8 {
        "cernet.txt"
    } else if index == 9 {
        "cernet6.txt"
    } else if index == 10 {
        "cstnet.txt"
    } else if index == 11 {
        "cstnet6.txt"
    } else if index == 12 {
        "drpeng.txt"
    } else if index == 13 {
        "drpeng6.txt"
    } else if index == 14 {
        "googlecn.txt"
    } else {
        "googlecn6.txt"
    };
    SourceFile { name, family }
}

/// What the manifest records of one upstream file.
#[derive(Clone, Debug, Eq, PartialEq)]
pub struct FileManifest {
    pub name: String,
    pub sha256: String,
    pub bytes: u64,
    pub prefixes: usize,
    pub address_family: u8,
}

/// A copy of a manifest entry.
pub fn copy_entry(entry: &FileManifest) -> (copy: FileManifest)
    ensures
        copy == *entry,
{
    FileManifest {
        name: entry.name.clone(),
        sha256: entry.sha256.clone(),
        bytes: entry.bytes,
        prefixes: entry.prefixes,
        address_family: entry.address_family,
    }
}

/// Where a snapshot came from.
#[derive(Clone, Debug, Eq, PartialEq)]
pub struct SourceManifest {
    pub repository: String,
    pub requested_ref: String,
    pub commit: String,
}

/// The manifest of a snapshot. `files` lists one entry per file name, in
/// the order of the names.
#[derive(Clone, Debug, Eq, PartialEq)]
pub struct Manifest {
    pub schema_version: u32,
    pub source: SourceManifest,
    pub fetched_at: String,
    pub files: Vec<FileManifest>,
}

/// A snapshot whose files were checked against its manifest: `files[i]`
/// holds the bytes of the upstream file at index `i`.
#[derive(Clone, Debug)]
pub struct Snapshot {
    pub manifest: Manifest,
    pub files: Vec<Vec<u8>>,
}

/// The lower-case hexadecimal SHA-256 digest of `bytes`, as sha2 computes
/// it.
pub uninterp spec fn sha256_hex(bytes: Seq<u8>) -> Seq<char>;

/// `sha2::Sha256::digest`, written with `{:x}`: the digest of the bytes in
/// lower-case hexadecimal.
#[verifier::external_body]
pub(crate) fn sha256(bytes: &[u8]) -> (digest: String)
    ensures
        digest@ == sha256_hex(bytes@),
{
    format!("{:x}", Sha256::digest(bytes))
}

/// Whether the two strings are equal.
pub fn str_eq(a: &str, b: &str) -> (res: bool)
    ensures
        res == (a@ == b@),
{
    let x = str_chars(a);
    let y = str_chars(b);
    chars_eq(x.as_slice(), y.as_slice())
}

/// The index of the first entry for `name`, or the number of entries when
/// there is none.
pub open spec fn entry_index(files: Seq<FileManifest>, name: Seq<char>) -> int
    decreases files.len(),
{
    if files.len() == 0 {
        0
    } else if files[0].name@ == name {
        0
    } else {
        1 + entry_index(files.drop_first(), name)
    }
}

proof fn lemma_entry_index(files: Seq<FileManifest>, name: Seq<char>, k: int)
    requires
        0 <= k <= files.len(),
        forall|i: int| 0 <= i < k ==> (#[trigger] files[i]).name@ != name,
        k == files.len() || files[k].name@ == name,
    ensures
        entry_index(files, name) == k,
    decreases k,
{
    if k > 0 {
        let t = files.drop_first();
        assert forall|i: int| 0 <= i < k - 1 implies (#[trigger] t[i]).name@ != name by {
            assert(t[i] == files[i + 1]);
        }
        if k < files.len() {
            assert(t[k - 1] == files[k]);
        }
        lemma_entry_index(t, name, k - 1);
    }
}

/// Finds the entry for `name`.
pub fn find_entry(files: &Vec<FileManifest>, name: &str) -> (k: usize)
    ensures
        k as int == entry_index(files@, name@),
        k <= files.len(),
{
    let mut k: usize = 0;
    while k < files.len()
        invariant
            0 <= k <= files.len(),
            forall|i: int| 0 <= i < k ==> (#[trigger] files@[i]).name@ != name@,
        decreases files.len() - k,
    {
        if str_eq(files[k].name.as_str(), name) {
            proof {
                lemma_entry_index(files@, name@, k as int);
            }
            return k;
        }
        k = k + 1;
    }
    proof {
        lemma_entry_index(files@, name@, k as int);
    }
    k
}

/// The manifest is of the schema and repository that this program writes.
pub open spec fn compatible(manifest: Manifest) -> bool {
    manifest.schema_version == MANIFEST_SCHEMA_VERSION && manifest.source.repository@ == REPOSITORY_ID@
}

/// Whether the manifest is of this program's schema and repository.
pub fn is_compatible(manifest: &Manifest) -> (res: bool)
    ensures
        res == compatible(*manifest),
{
    manifest.schema_version == MANIFEST_SCHEMA_VERSION && str_eq(manifest.source.repository.as_str(), REPOSITORY_ID)
}

/// The upstream file at `index` has the entry `entry`, of its family,
/// and `bytes` are the contents that the entry records.
pub open spec fn file_matches(entry: FileManifest, index: int, bytes: Seq<u8>) -> bool {
    &&& entry.address_family == source_family(index).version()
    &&& bytes.len() == entry.bytes
    &&& sha256_hex(bytes) == entry.sha256@
}

/// What the manifest expects of the upstream file at `index`: its entry,
/// when the manifest lists every upstream file, has an entry for this one
/// and records the file's family for it.
pub open spec fn expected_entry(manifest: Manifest, index: int) -> Option<FileManifest> {
    let k = entry_index(manifest.files@, source_name(index));
    if manifest.files@.len() != SOURCE_COUNT || k >= manifest.files@.len() {
        None
    } else if manifest.files@[k].address_family != source_family(index).version() {
        None
    } else {
        Some(manifest.files@[k])
    }
}

/// The entry that the manifest holds for the upstream file at `index`,
/// or `None` when the snapshot cannot match the manifest.
pub fn expected_file(manifest: &Manifest, index: usize) -> (res: Option<FileManifest>)
    requires
        index < SOURCE_COUNT,
    ensures
        res == expected_entry(*manifest, index as int),
{
    if manifest.files.len() != SOURCE_COUNT {
        return None;
    }
    let source = source_file(index);
    let k = find_entry(&manifest.files, source.name);
    if k >= manifest.files.len() {
        return None;
    }
    if manifest.files[k].address_family != source.family.number() {
        return None;
    }
    Some(copy_entry(&manifest.files[k]))
}

/// Whether `bytes` have the size and digest that the entry records.
pub fn contents_match(entry: &FileManifest, bytes: &[u8]) -> (res: bool)
    ensures
        res == (bytes@.len() == entry.bytes && sha256_hex(bytes@) == entry.sha256@),
{
    if bytes.len() as u64 != entry.bytes {
        return false;
    }
    let digest = sha256(bytes);
    str_eq(digest.as_str(), entry.sha256.as_str())
}

/// Why an upstream file is refused.
#[derive(Clone, Copy, Debug, Eq, PartialEq)]
pub enum SourceError {
    /// The file is not UTF-8.
    NotUtf8,
    /// Line `line`, counted from 1, is not a canonical prefix of the
    /// file's family.
    Line { line: usize, fault: PrefixFault },
}

/// A line of an upstream file: `None` when it is blank, else the prefix it
/// holds or why it holds none. Byte order marks may begin the first line.
pub open spec fn source_line(line: Seq<char>, index: int, family: IpFamily) -> Option<Result<crate::prefix::Cidr, PrefixFault>> {
    let t = trim(
        if index == 0 {
            strip_bom(line)
        } else {
            line
        },
    );
    if t.len() == 0 {
        None
    } else {
        Some(network_of(t, family))
    }
}

/// Checks the first lines of an upstream file in order: their number of
/// prefixes, or the index of the first refused line and why.
pub open spec fn check_lines(ls: Seq<Seq<char>>, family: IpFamily) -> Result<nat, (int, PrefixFault)>
    decreases ls.len(),
{
    if ls.len() == 0 {
        Ok(0)
    } else {
        match check_lines(ls.drop_last(), family) {
            Err(e) => Err(e),
            Ok(n) => match source_line(ls.last(), ls.len() - 1, family) {
                None => Ok(n),
                Some(Ok(_)) => Ok(n + 1),
                Some(Err(fault)) => Err((ls.len() - 1, fault)),
            },
        }
    }
}

/// What checking an upstream file of `family` gives: the number of
/// prefixes it lists, or why it is refused.
pub open spec fn source_check(bytes: Seq<u8>, family: IpFamily) -> Result<nat, SourceError> {
    if !valid_utf8(bytes) {
        Err(SourceError::NotUtf8)
    } else {
        match check_lines(lines(decode_utf8(bytes)), family) {
            Ok(n) => Ok(n),
            Err((index, fault)) => Err(SourceError::Line { line: (index + 1) as usize, fault }),
        }
    }
}

proof fn lemma_check_lines_error(ls: Seq<Seq<char>>, family: IpFamily, k: int)
    requires
        0 <= k <= ls.len(),
        check_lines(ls.take(k), family) is Err,
    ensures
        check_lines(ls, family) == check_lines(ls.take(k), family),
    decreases ls.len() - k,
{
    if k < ls.len() {
        assert(ls.take(k + 1).drop_last() =~= ls.take(k));
        lemma_check_lines_error(ls, family, k + 1);
    } else {
        assert(ls.take(k) =~= ls);
    }
}

proof fn lemma_check_lines_bound(ls: Seq<Seq<char>>, family: IpFamily)
    ensures
        check_lines(ls, family) matches Ok(n) ==> n <= ls.len(),
    decreases ls.len(),
{
    if ls.len() > 0 {
        lemma_check_lines_bound(ls.drop_last(), family);
    }
}

/// Checks that every non-blank line of an upstream file is a canonical
/// prefix of the file's family, and counts the prefixes. The bytes are not
/// changed: blank lines, white space around a prefix and byte order marks
/// at the start are allowed.
pub fn validate_cidrs(source: SourceFile, bytes: &[u8]) -> (res: Result<usize, SourceError>)
    ensures
        match source_check(bytes@, source.family) {
            Ok(n) => n <= usize::MAX && res == Ok::<usize, SourceError>(n as usize),
            Err(e) => res == Err::<usize, SourceError>(e),
        },
{
    let text = match utf8_str(bytes) {
        Some(text) => text,
        None => {
            return Err(SourceError::NotUtf8);
        },
    };
    let chars = str_chars(text);
    let text_lines = split_lines(&chars);
    let ghost ls = lines(decode_utf8(bytes@));
    let mut prefixes: usize = 0;
    let mut index: usize = 0;
    proof {
        assert(ls.take(0) =~= seq![]);
    }
    while index < text_lines.len()
        invariant
            0 <= index <= text_lines.len(),
            valid_utf8(bytes@),
            ls == lines(decode_utf8(bytes@)),
            text_lines@.len() == ls.len(),
            forall|i: int| 0 <= i < text_lines@.len() ==> #[trigger] text_lines@[i]@ == ls[i],
            check_lines(ls.take(index as int), source.family) == Ok::<nat, (int, PrefixFault)>(prefixes as nat),
            prefixes <= index,
        decreases text_lines.len() - index,
    {
        let raw = &text_lines[index];
        let line = if index == 0 {
            let stripped = strip_bom_chars(raw.as_slice());
            trim_chars(stripped.as_slice())
        } else {
            trim_chars(raw.as_slice())
        };
        proof {
            assert(ls.take(index + 1).drop_last() =~= ls.take(index as int));
            assert(ls.take(index + 1).last() == ls[index as int]);
        }
        if line.len() == 0 {
            index = index + 1;
            continue;
        }
        match parse_network(line.as_slice(), source.family) {
            Ok(_) => {},
            Err(fault) => {
                proof {
                    assert(source_line(ls[index as int], index as int, source.family) == Some(
                        Err::<crate::prefix::Cidr, PrefixFault>(fault),
                    ));
                    assert(check_lines(ls.take(index + 1), source.family) == Err::<nat, (int, PrefixFault)>(
                        (index as int, fault),
                    ));
                    lemma_check_lines_error(ls, source.family, index + 1);
                }
                return Err(SourceError::Line { line: index + 1, fault });
            },
        }
        prefixes = prefixes + 1;
        index = index + 1;
    }
    proof {
        assert(ls.take(index as int) =~= ls);
    }
    Ok(prefixes)
}

/// What comparing a snapshot with its manifest asks for next.
#[derive(Clone, Copy, Debug, Eq, PartialEq)]
pub enum CheckAction {
    /// Read the named file of the snapshot and report its contents.
    Read { name: &'static str },
    /// Every file matched the manifest.
    Verified,
    /// The snapshot does not match its manifest.
    Mismatch,
}

/// What follows once the files before `index` matched: the next file to
/// read, or the verdict.
pub open spec fn check_action(manifest: Manifest, index: int, action: CheckAction) -> bool {
    if index >= SOURCE_COUNT {
        action == CheckAction::Verified
    } else if expected_entry(manifest, index) is None {
        action == CheckAction::Mismatch
    } else {
        action matches CheckAction::Read { name } && name@ == source_name(index)
    }
}

/// Every file up to `contents.len()` has an entry in the manifest and the
/// contents that its entry records.
pub open spec fn contents_match_manifest(manifest: Manifest, contents: Seq<Vec<u8>>) -> bool {
    forall|i: int|
        0 <= i < contents.len() ==> #[trigger] expected_entry(manifest, i) is Some && file_matches(
            expected_entry(manifest, i)->0,
            i,
            contents[i]@,
        )
}

/// A comparison of a snapshot's files with its manifest, file by file in
/// the fixed order, keeping the contents that matched.
pub struct SnapshotCheck {
    pub manifest: Manifest,
    pub contents: Vec<Vec<u8>>,
}

impl SnapshotCheck {
    pub open spec fn wf(&self) -> bool {
        &&& self.contents@.len() <= SOURCE_COUNT
        &&& contents_match_manifest(self.manifest, self.contents@)
    }

    fn next(manifest: Manifest, contents: Vec<Vec<u8>>) -> (res: (SnapshotCheck, CheckAction))
        requires
            contents@.len() <= SOURCE_COUNT,
            contents_match_manifest(manifest, contents@),
        ensures
            res.0.wf(),
            res.0.manifest == manifest,
            res.0.contents@ == contents@,
            check_action(manifest, contents@.len() as int, res.1),
    {
        let index = contents.len();
        if index >= SOURCE_COUNT {
            return (SnapshotCheck { manifest, contents }, CheckAction::Verified);
        }
        match expected_file(&manifest, index) {
            None => (SnapshotCheck { manifest, contents }, CheckAction::Mismatch),
            Some(_) => {
                let name = source_file(index).name;
                (SnapshotCheck { manifest, contents }, CheckAction::Read { name })
            },
        }
    }

    /// Starts comparing the snapshot with the manifest.
    pub fn start(manifest: Manifest) -> (res: (SnapshotCheck, CheckAction))
        ensures
            res.0.wf(),
            res.0.manifest == manifest,
            res.0.contents@.len() == 0,
            check_action(manifest, 0, res.1),
    {
        SnapshotCheck::next(manifest, Vec::new())
    }

    /// How the comparison moves on with the contents of the file it asked
    /// for.
    pub open spec fn step_spec(before: SnapshotCheck, file: Option<Vec<u8>>, after: SnapshotCheck, action: CheckAction) -> bool {
        let index = before.contents@.len() as int;
        &&& after.manifest == before.manifest
        &&& match file {
            Some(bytes) => if index < SOURCE_COUNT && expected_entry(before.manifest, index) is Some && file_matches(
                expected_entry(before.manifest, index)->0,
                index,
                bytes@,
            ) {
                after.contents@ == before.contents@.push(bytes) && check_action(before.manifest, index + 1, action)
            } else {
                action == CheckAction::Mismatch
            },
            None => action == CheckAction::Mismatch,
        }
    }

    /// Takes the contents of the file that was asked for, or `None` when it
    /// does not exist: a file that matches its entry is kept and the next
    /// is asked for; any other outcome is a mismatch.
    pub fn step(self, file: Option<Vec<u8>>) -> (res: (SnapshotCheck, CheckAction))
        requires
            self.wf(),
        ensures
            res.0.wf(),
            SnapshotCheck::step_spec(self, file, res.0, res.1),
            res.1 == CheckAction::Verified ==> res.0.contents@.len() == SOURCE_COUNT,
    {
        let SnapshotCheck { manifest, mut contents } = self;
        let index = contents.len();
        let bytes = match file {
            Some(bytes) => bytes,
            None => {
                return (SnapshotCheck { manifest, contents }, CheckAction::Mismatch);
            },
        };
        if index >= SOURCE_COUNT {
            return (SnapshotCheck { manifest, contents }, CheckAction::Mismatch);
        }
        let entry = match expected_file(&manifest, index) {
            Some(entry) => entry,
            None => {
                return (SnapshotCheck { manifest, contents }, CheckAction::Mismatch);
            },
        };
        if !contents_match(&entry, bytes.as_slice()) {
            return (SnapshotCheck { manifest, contents }, CheckAction::Mismatch);
        }
        let ghost before = contents@;
        contents.push(bytes);
        proof {
            assert forall|i: int| 0 <= i < contents@.len() implies #[trigger] expected_entry(manifest, i) is Some
                && file_matches(expected_entry(manifest, i)->0, i, contents@[i]@) by {
                if i < before.len() {
                    assert(contents@[i] == before[i]);
                }
            }
        }
        SnapshotCheck::next(manifest, contents)
    }

    /// The snapshot whose files all matched.
    pub fn into_snapshot(self) -> (snapshot: Snapshot)
        requires
            self.wf(),
            self.contents@.len() == SOURCE_COUNT,
        ensures
            snapshot.manifest == self.manifest,
            snapshot.files@ == self.contents@,
            snapshot.files@.len() == SOURCE_COUNT,
            contents_match_manifest(snapshot.manifest, snapshot.files@),
    {
        Snapshot { manifest: self.manifest, files: self.contents }
    }
}

/// A run of a comparison up to its outcome: `states[0]` and
/// `actions[0]` come from `SnapshotCheck::start`, `files[k]` answers the
/// read `actions[k]`, and each step follows `SnapshotCheck::step_spec`.
pub open spec fn check_run(
    manifest: Manifest,
    states: Seq<SnapshotCheck>,
    files: Seq<Option<Vec<u8>>>,
    actions: Seq<CheckAction>,
) -> bool {
    &&& states.len() == actions.len()
    &&& files.len() + 1 == actions.len()
    &&& states[0].manifest == manifest
    &&& states[0].contents@.len() == 0
    &&& check_action(manifest, 0, actions[0])
    &&& forall|k: int| 0 <= k < files.len() ==> (#[trigger] actions[k]) is Read
    &&& forall|k: int|
        0 <= k < files.len() ==> SnapshotCheck::step_spec(#[trigger] states[k], files[k], states[k + 1], actions[k + 1])
}

proof fn lemma_check_prefix(
    manifest: Manifest,
    states: Seq<SnapshotCheck>,
    files: Seq<Option<Vec<u8>>>,
    actions: Seq<CheckAction>,
    k: int,
)
    requires
        check_run(manifest, states, files, actions),
        0 <= k < actions.len(),
        !(actions[k] is Mismatch),
    ensures
        states[k].manifest == manifest,
        states[k].contents@.len() == k,
        check_action(manifest, k, actions[k]),
        forall|i: int|
            0 <= i < k ==> ((#[trigger] files[i]) matches Some(bytes) && states[k].contents@[i] == bytes
                && expected_entry(manifest, i) is Some && file_matches(expected_entry(manifest, i)->0, i, bytes@)),
    decreases k,
{
    if k > 0 {
        let j = k - 1;
        assert(actions[j] is Read);
        assert(SnapshotCheck::step_spec(states[j], files[j], states[j + 1], actions[j + 1]));
        lemma_check_prefix(manifest, states, files, actions, j);
        assert forall|i: int| 0 <= i < k implies (#[trigger] files[i]) matches Some(bytes) && states[k].contents@[i]
            == bytes && expected_entry(manifest, i) is Some && file_matches(expected_entry(manifest, i)->0, i, bytes@) by {
            if i < j {
                assert(states[k].contents@[i] == states[j].contents@[i]);
            }
        }
    }
}

/// The comparison reads the upstream files in their fixed order. It
/// reports them verified only when all sixteen were there and each had the
/// family, size and digest that its manifest entry records, keeping the
/// contents it was given; it reports a mismatch only for a file that the
/// manifest does not describe, that is missing, or that differs.
pub proof fn lemma_verified_run(
    manifest: Manifest,
    states: Seq<SnapshotCheck>,
    files: Seq<Option<Vec<u8>>>,
    actions: Seq<CheckAction>,
)
    requires
        check_run(manifest, states, files, actions),
    ensures
        forall|k: int| 0 <= k < files.len() ==> ((#[trigger] actions[k]) matches CheckAction::Read { name } && name@
            == source_name(k)),
        actions.last() == CheckAction::Verified ==> {
            &&& files.len() == SOURCE_COUNT
            &&& states.last().contents@.len() == SOURCE_COUNT
            &&& forall|i: int|
                0 <= i < SOURCE_COUNT ==> ((#[trigger] files[i]) matches Some(bytes) && states.last().contents@[i] == bytes
                    && expected_entry(manifest, i) is Some && file_matches(expected_entry(manifest, i)->0, i, bytes@))
        },
        actions.last() == CheckAction::Mismatch ==> exists|i: int|
            0 <= i <= files.len() && i < SOURCE_COUNT && (#[trigger] expected_entry(manifest, i) is None || (i
                < files.len() && (files[i] is None || !file_matches(expected_entry(manifest, i)->0, i, files[i]->0@)))),
{
    assert forall|k: int| 0 <= k < files.len() implies (#[trigger] actions[k]) matches CheckAction::Read { name } && name@
        == source_name(k) by {
        assert(actions[k] is Read);
        lemma_check_prefix(manifest, states, files, actions, k);
    }
    if actions.last() == CheckAction::Verified {
        lemma_check_prefix(manifest, states, files, actions, actions.len() - 1);
    }
    if actions.last() == CheckAction::Mismatch {
        let n = files.len() as int;
        if n == 0 {
            assert(expected_entry(manifest, 0) is None);
        } else {
            let j = n - 1;
            assert(actions[j] is Read);
            lemma_check_prefix(manifest, states, files, actions, j);
            assert(SnapshotCheck::step_spec(states[j], files[j], states[j + 1], actions[j + 1]));
            if files[j] is Some && expected_entry(manifest, j) is Some && file_matches(
                expected_entry(manifest, j)->0,
                j,
                files[j]->0@,
            ) {
                assert(n < SOURCE_COUNT && expected_entry(manifest, n) is None);
            } else {
                assert(files[j] is None || expected_entry(manifest, j) is None || !file_matches(
                    expected_entry(manifest, j)->0,
                    j,
                    files[j]->0@,
                ));
            }
        }
    }
}

} // verus!
