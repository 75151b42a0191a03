use chnroute::display::{ascii_only, fetch_message, short_commit};
use chnroute::fetch::{FetchResult, FetchStatus};

/// The command line of the program, as its help describes it.
fn command() -> clap::Command {
    clap::Command::new("chnroute")
        .version("0.1.0")
        .about("Fetch and generate regional and operator route tables")
        .color(clap::ColorChoice::Never)
        .subcommand_required(true)
        .subcommand(
            clap::Command::new("fetch")
                .about("Download and validate upstream source data")
                .arg(
                    clap::Arg::new("requested_ref")
                        .long("ref")
                        .default_value("ip-lists")
                        .help("Upstream Git branch, tag, or full commit SHA"),
                )
                .arg(
                    clap::Arg::new("output")
                        .long("output")
                        .default_value("data/raw")
                        .help("Directory for downloaded source data"),
                )
                .arg(
                    clap::Arg::new("force")
                        .long("force")
                        .action(clap::ArgAction::SetTrue)
                        .help("Download again even when the local snapshot is current"),
                ),
        )
        .subcommand(
            clap::Command::new("generate")
                .about("Generate route tables from a fetched snapshot")
                .arg(
                    clap::Arg::new("input")
                        .long("input")
                        .default_value("data/raw")
                        .help("Directory of the fetched source data"),
                )
                .arg(
                    clap::Arg::new("output")
                        .long("output")
                        .default_value("dist")
                        .help("Directory for the generated route tables"),
                ),
        )
}

#[test]
fn help_is_ascii() {
    let help = command().render_long_help().to_string();
    assert!(help.is_ascii(), "help contains non-ASCII text: {help:?}");
}

#[test]
fn dynamic_output_is_escaped_to_ascii() {
    assert_eq!(ascii_only("path: /tmp/\u{8def}\u{7531}\n"), "path: /tmp/\\u{8def}\\u{7531}\n");
}

#[test]
fn clap_errors_can_be_rendered_as_ascii() {
    let error = command().try_get_matches_from(["chnroute", "\u{751f}\u{6210}"]).unwrap_err();
    assert!(ascii_only(&error.to_string()).is_ascii());
}

#[test]
fn escapes_match_the_standard_library() {
    let text = "a\u{e9}\u{1f600}\u{7f}\u{80}\u{10ffff}z";
    let expected: String = text
        .chars()
        .map(|c| if c.is_ascii() { c.to_string() } else { c.escape_unicode().to_string() })
        .collect();
    assert_eq!(ascii_only(text), expected);
    assert_eq!(ascii_only("plain ascii\n"), "plain ascii\n");
}

#[test]
fn shortens_commits_to_twelve_bytes() {
    assert_eq!(short_commit("1234567890abcdef1234567890abcdef12345678"), "1234567890ab");
    assert_eq!(short_commit("short"), "short");
    assert_eq!(short_commit("12345678901\u{e9}"), "12345678901\u{e9}");
}

#[test]
fn reports_a_finished_fetch() {
    let updated = FetchResult {
        status: FetchStatus::Updated,
        repository: "gaoyifan/china-operator-ip",
        commit: "1234567890abcdef1234567890abcdef12345678".to_owned(),
        file_count: 16,
        prefix_count: 10507,
    };
    assert_eq!(fetch_message(&updated), "fetched 16 files (10507 prefixes) from gaoyifan/china-operator-ip@1234567890ab");
    let unchanged = FetchResult { status: FetchStatus::Unchanged, prefix_count: 0, ..updated };
    assert_eq!(fetch_message(&unchanged), "already current: gaoyifan/china-operator-ip@1234567890ab (16 files)");
}
