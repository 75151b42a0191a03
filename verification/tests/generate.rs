use chnroute::family::{IpAddress, IpFamily};
use chnroute::generate::{
    build_family, build_files, check_output, generate_result, output_manifest, plan_output, validate_options, GenerateError,
    GenerateOptions, OutputManifest, OutputSource, PRIVATE_V4, PRIVATE_V6, SPECIAL_V4, SPECIAL_V6,
};
use chnroute::ipset::IpSet;
use chnroute::paths::{directories_overlap, OutputError, OutputProbe};
use chnroute::source::{source_file, Manifest, Snapshot, SourceManifest, SOURCE_COUNT};
use sha2::{Digest, Sha256};

const COMMIT: &str = "1111111111111111111111111111111111111111";

const OUTPUT_FILES: [&str; 24] = [
    "chnroute.txt",
    "chnroute6.txt",
    "chnroute46.txt",
    "non-chnroute.txt",
    "non-chnroute6.txt",
    "non-chnroute46.txt",
    "china-telecom.txt",
    "china-telecom6.txt",
    "china-telecom46.txt",
    "china-mobile.txt",
    "china-mobile6.txt",
    "china-mobile46.txt",
    "china-unicom.txt",
    "china-unicom6.txt",
    "china-unicom46.txt",
    "china-other.txt",
    "china-other6.txt",
    "china-other46.txt",
    "private.txt",
    "private6.txt",
    "private46.txt",
    "special.txt",
    "special6.txt",
    "special46.txt",
];

fn addr(text: &str) -> IpAddress {
    if text.contains(':') {
        let net: ipnet::Ipv6Net = format!("{text}/128").parse().unwrap();
        IpAddress::V6(u128::from(net.addr()))
    } else {
        let net: ipnet::Ipv4Net = format!("{text}/32").parse().unwrap();
        IpAddress::V4(u32::from(net.addr()))
    }
}

fn snapshot() -> Snapshot {
    let mut files = Vec::new();
    for index in 0..SOURCE_COUNT {
        let text = match source_file(index).name {
            "china.txt" => "1.0.0.0/24\n",
            "china6.txt" => "2400::/32\n",
            "chinanet.txt" => "1.0.0.0/25\n",
            "cmcc.txt" => "1.0.0.128/26\n",
            "unicom.txt" => "1.0.0.192/26\n",
            "cernet.txt" => "1.0.1.0/25\n",
            "cstnet.txt" => "1.0.1.128/25\n",
            "cernet6.txt" => "2401::/33\n",
            "cstnet6.txt" => "2401:0:8000::/33\n",
            _ => "",
        };
        files.push(text.as_bytes().to_vec());
    }
    Snapshot {
        manifest: Manifest {
            schema_version: 1,
            source: SourceManifest {
                repository: "gaoyifan/china-operator-ip".to_owned(),
                requested_ref: "ip-lists".to_owned(),
                commit: COMMIT.to_owned(),
            },
            fetched_at: "2026-08-17T00:00:00Z".to_owned(),
            files: Vec::new(),
        },
        files,
    }
}

fn text_of<'a>(files: &'a [chnroute::generate::GeneratedFile], name: &str) -> &'a str {
    files.iter().find(|file| file.name == name).unwrap().text.as_str()
}

#[test]
fn generates_exact_canonical_files_and_set_membership() {
    let snapshot = snapshot();
    let files = build_files(&snapshot).unwrap();

    assert_eq!(files.len(), 24);
    let names: Vec<&str> = files.iter().map(|file| file.name.as_str()).collect();
    assert_eq!(names, OUTPUT_FILES.to_vec());

    assert_eq!(text_of(&files, "chnroute.txt"), "1.0.0.0/24\n");
    assert_eq!(text_of(&files, "china-other.txt"), "1.0.1.0/24\n");
    assert_eq!(text_of(&files, "china-other6.txt"), "2401::/32\n");
    assert_eq!(text_of(&files, "chnroute46.txt"), "1.0.0.0/24\n2400::/32\n");
    assert_eq!(text_of(&files, "china-other46.txt"), "1.0.1.0/24\n2401::/32\n");

    for combined in OUTPUT_FILES.iter().filter(|name| name.ends_with("46.txt")) {
        let base = combined.strip_suffix("46.txt").unwrap();
        let expected =
            format!("{}{}", text_of(&files, &format!("{base}.txt")), text_of(&files, &format!("{base}6.txt")));
        assert_eq!(text_of(&files, combined), expected);
    }

    for file in &files {
        let expected: Vec<u8> = if file.name.ends_with("46.txt") {
            vec![4, 6]
        } else if file.name.ends_with("6.txt") {
            vec![6]
        } else {
            vec![4]
        };
        assert_eq!(file.address_family, expected);
    }

    let non_v4 = IpSet::parse_cidrs(text_of(&files, "non-chnroute.txt"), IpFamily::V4, "non-chnroute.txt").unwrap();
    assert!(non_v4.contains(addr("8.8.8.8")));
    assert!(!non_v4.contains(addr("1.0.0.1")));
    assert!(!non_v4.contains(addr("10.0.0.1")));
    assert!(!non_v4.contains(addr("127.0.0.1")));

    let non_v6 =
        IpSet::parse_cidrs(text_of(&files, "non-chnroute6.txt"), IpFamily::V6, "non-chnroute6.txt").unwrap();
    assert!(non_v6.contains(addr("2001:4860::1")));
    assert!(!non_v6.contains(addr("2400::1")));
    assert!(!non_v6.contains(addr("fc00::1")));
    assert!(!non_v6.contains(addr("2001:db8::1")));
}

#[test]
fn built_in_sets_follow_their_rules() {
    let files = build_files(&snapshot()).unwrap();
    assert_eq!(text_of(&files, "private.txt"), "10.0.0.0/8\n172.16.0.0/12\n192.168.0.0/16\n");
    assert_eq!(text_of(&files, "private6.txt"), "fc00::/7\n");
    let special = IpSet::parse_cidrs(text_of(&files, "special.txt"), IpFamily::V4, "special.txt").unwrap();
    assert!(special.contains(addr("192.0.0.8")));
    assert!(!special.contains(addr("192.0.0.9")));
    assert!(!special.contains(addr("192.0.0.10")));
    assert!(special.contains(addr("100.64.0.1")));
    assert!(special.contains(addr("255.255.255.255")));
    assert!(!special.contains(addr("10.0.0.1")));
    let special6 = IpSet::parse_cidrs(text_of(&files, "special6.txt"), IpFamily::V6, "special6.txt").unwrap();
    assert!(special6.contains(addr("::1")));
    assert!(special6.contains(addr("2001::1")));
    assert!(!special6.contains(addr("2001:1::1")));
    assert!(!special6.contains(addr("2001:20::1")));
    assert!(special6.contains(addr("2001:db8::1")));
    assert!(special6.contains(addr("2002::1")));
    assert!(special6.contains(addr("3fff::1")));
    assert!(!special6.contains(addr("64:ff9b::1")));
    assert!(!special6.contains(addr("fc00::1")));
    assert!(!special6.contains(addr("2400::1")));

    let private = IpSet::parse_rules(PRIVATE_V4, IpFamily::V4, "private").unwrap();
    let special = IpSet::parse_rules(SPECIAL_V4, IpFamily::V4, "special").unwrap();
    assert!(!private.intersects(&special).unwrap());
    let private6 = IpSet::parse_rules(PRIVATE_V6, IpFamily::V6, "private").unwrap();
    let special6 = IpSet::parse_rules(SPECIAL_V6, IpFamily::V6, "special").unwrap();
    assert!(!private6.intersects(&special6).unwrap());
}

#[test]
fn refuses_overlapping_built_in_sets_and_bad_sources() {
    let snapshot = snapshot();
    let error = build_family(&snapshot, IpFamily::V4, "10.0.0.0/8\n", "10.0.0.0/16\n").err().unwrap();
    assert!(matches!(error, GenerateError::Overlap(IpFamily::V4)));

    let mut broken = self::snapshot();
    broken.files[0] = b"8.8.8.1/24\n".to_vec();
    let error = build_files(&broken).err().unwrap();
    match error {
        GenerateError::Source(chnroute::ipset::IpSetError::Line { label, line, .. }) => {
            assert_eq!(label, "china.txt");
            assert_eq!(line, 1);
        },
        other => panic!("unexpected error {other:?}"),
    }

    let mut short = self::snapshot();
    short.files.truncate(3);
    assert!(matches!(build_files(&short).err().unwrap(), GenerateError::MissingSource("cmcc.txt")));

    let mut not_text = self::snapshot();
    not_text.files[2] = vec![0xff];
    assert!(matches!(build_files(&not_text).err().unwrap(), GenerateError::SourceNotUtf8("chinanet.txt")));
}

#[test]
fn manifest_records_every_output_file() {
    let snapshot = snapshot();
    let files = build_files(&snapshot).unwrap();
    let manifest = output_manifest(&snapshot, &files);
    assert_eq!(manifest.schema_version, 2);
    assert_eq!(manifest.generator, "chnroute");
    assert_eq!(manifest.source.commit, COMMIT);
    assert_eq!(manifest.files.len(), 24);
    let entry = manifest.files.iter().find(|file| file.name == "chnroute46.txt").unwrap();
    assert_eq!(entry.address_family, vec![4, 6]);
    assert_eq!(entry.prefixes, 2);
    assert_eq!(entry.bytes, "1.0.0.0/24\n2400::/32\n".len() as u64);
    assert_eq!(entry.sha256, format!("{:x}", Sha256::digest(b"1.0.0.0/24\n2400::/32\n")));

    let result = generate_result(&manifest, "dist".to_owned()).unwrap();
    assert_eq!(result.file_count, 24);
    assert_eq!(result.commit, COMMIT);
    assert_eq!(result.output, "dist");
    let total: usize = manifest.files.iter().map(|file| file.prefixes).sum();
    assert_eq!(result.prefix_count, total);
}

fn output(schema_version: u32, generator: &str) -> OutputProbe<OutputManifest> {
    OutputProbe::Owned(OutputManifest {
        schema_version,
        generator: generator.to_owned(),
        source: OutputSource { repository: "gaoyifan/china-operator-ip".to_owned(), commit: COMMIT.to_owned() },
        files: Vec::new(),
    })
}

#[test]
fn replaces_only_its_own_output() {
    assert_eq!(check_output(&OutputProbe::Missing), Ok(()));
    assert_eq!(check_output(&OutputProbe::EmptyDirectory), Ok(()));
    assert_eq!(check_output(&output(2, "chnroute")), Ok(()));
    assert_eq!(check_output(&output(1, "chnroute")), Ok(()));
    assert_eq!(check_output(&output(3, "chnroute")), Err(OutputError::Incompatible));
    assert_eq!(check_output(&output(2, "other")), Err(OutputError::Incompatible));
    assert_eq!(check_output(&OutputProbe::Unowned), Err(OutputError::Unowned));
    assert_eq!(check_output(&OutputProbe::Symlink), Err(OutputError::Symlink));
    assert_eq!(check_output(&OutputProbe::NotDirectory), Err(OutputError::NotDirectory));
}

#[test]
fn checks_options_and_overlapping_directories() {
    let options = GenerateOptions { input: String::new(), output: "dist".to_owned() };
    assert!(matches!(validate_options(&options), Err(GenerateError::EmptyInput)));
    let options = GenerateOptions { input: "data/raw".to_owned(), output: "..".to_owned() };
    assert!(matches!(validate_options(&options), Err(GenerateError::BadOutput)));
    let options = GenerateOptions { input: "data/raw".to_owned(), output: "dist".to_owned() };
    assert!(validate_options(&options).is_ok());

    let parts = |path: &str| -> Vec<String> { path.split('/').map(|part| part.to_owned()).collect() };
    assert!(directories_overlap(&parts("/work/data"), &parts("/work/data/dist")));
    assert!(directories_overlap(&parts("/work/data/raw"), &parts("/work/data")));
    assert!(directories_overlap(&parts("/work/dist"), &parts("/work/dist")));
    assert!(!directories_overlap(&parts("/work/data/raw"), &parts("/work/dist")));
    assert!(!directories_overlap(&parts("/work/data"), &parts("/work/database")));
}

#[test]
fn refuses_to_replace_an_unowned_output_directory() {
    assert_eq!(check_output(&OutputProbe::Unowned), Err(OutputError::Unowned));
}

#[test]
fn can_replace_its_own_previous_output() {
    let snapshot = snapshot();
    let files = build_files(&snapshot).unwrap();
    let manifest = output_manifest(&snapshot, &files);
    assert_eq!(check_output(&OutputProbe::Owned(manifest)), Ok(()));
}

#[test]
fn can_replace_legacy_schema_one_output() {
    assert_eq!(check_output(&output(1, "chnroute")), Ok(()));
}

#[test]
fn plans_the_whole_output_before_writing() {
    let snapshot = snapshot();
    let planned = plan_output(&snapshot, &OutputProbe::Missing, "dist".to_owned()).unwrap();
    let names: Vec<&str> = planned.files.iter().map(|file| file.name.as_str()).collect();
    assert_eq!(names, OUTPUT_FILES.to_vec());
    assert_eq!(text_of(&planned.files, "chnroute46.txt"), "1.0.0.0/24\n2400::/32\n");
    assert_eq!(planned.manifest.schema_version, 2);
    assert_eq!(planned.manifest.generator, "chnroute");
    assert_eq!(planned.manifest.source.commit, COMMIT);
    assert_eq!(planned.manifest.files.len(), 24);
    assert_eq!(planned.result.commit, COMMIT);
    assert_eq!(planned.result.file_count, 24);
    assert_eq!(planned.result.output, "dist");
    let total: usize = planned.manifest.files.iter().map(|file| file.prefixes).sum();
    assert_eq!(planned.result.prefix_count, total);
}

#[test]
fn plans_over_a_legacy_output_with_the_current_schema() {
    let snapshot = snapshot();
    let planned = plan_output(&snapshot, &output(1, "chnroute"), "dist".to_owned()).unwrap();
    assert_eq!(planned.manifest.schema_version, 2);
    let entry = planned.manifest.files.iter().find(|file| file.name == "chnroute46.txt").unwrap();
    assert_eq!(entry.address_family, vec![4, 6]);
}

#[test]
fn plans_nothing_over_an_output_it_must_keep() {
    let snapshot = snapshot();
    assert!(matches!(
        plan_output(&snapshot, &OutputProbe::Unowned, "dist".to_owned()),
        Err(GenerateError::Output(OutputError::Unowned))
    ));
    assert!(matches!(
        plan_output(&snapshot, &output(3, "chnroute"), "dist".to_owned()),
        Err(GenerateError::Output(OutputError::Incompatible))
    ));
    let mut broken = snapshot.clone();
    broken.files[0] = b"not a prefix\n".to_vec();
    assert!(plan_output(&broken, &OutputProbe::Missing, "dist".to_owned()).is_err());
}
