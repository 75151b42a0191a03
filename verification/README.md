# chnroute

Fetches the regional and operator address lists of the
`gaoyifan/china-operator-ip` repository and generates minimal IPv4 and IPv6
route tables from them. The library in `src/` is verified with Verus; the
program in `app/` does the network and file-system work around it.

## Layout

- `src/ranges.rs`, `src/blocks.rs`: canonical interval lists and their
  decomposition into aligned blocks.
- `src/ipset.rs`, `src/text_form.rs`, `src/minimal.rs`: address sets, the
  prefix-list and rule-file readers, and the text form of a set, which reads
  back as the same set and is as short as any prefix list of the set.
- `src/prefix.rs`, `src/text.rs`, `src/family.rs`: prefixes through the
  `ipnet` crate, line splitting and trimming, address families.
- `src/advert.rs`: the Git reference advertisement.
- `src/source.rs`, `src/fetch.rs`: the snapshot, its manifest, and the fetch
  as a state machine that `app/` drives.
- `src/generate.rs`, `src/paths.rs`: the generated sets and files, the
  whole output of a generation decided before anything is written, and the
  decisions about input and output directories.
- `src/publish.rs`: putting a staged directory in place of the output, with
  the previous output moved aside and put back when the rename fails.
- `src/display.rs`: ASCII-only output and result messages.
- `app/`: the command line, HTTP, files, JSON.
