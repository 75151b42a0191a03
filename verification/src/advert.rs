//! Git's smart-HTTP reference advertisement (`info/refs?service=git-upload-pack`):
//! finding the commit that a branch or a tag names in it.

use crate::text::{
    chars_eq, chars_to_string, find_char, first_index, starts_with, starts_with_chars, str_chars,
    sub_chars, utf8_str,
};
use vstd::prelude::*;
use vstd::utf8::{decode_utf8, valid_utf8};

verus! {

/// An ASCII hexadecimal digit, as a byte.
pub open spec fn is_hex_byte(b: u8) -> bool {
    ||| 48 <= b <= 57
    ||| 65 <= b <= 70
    ||| 97 <= b <= 102
}

/// The value of a hexadecimal digit byte.
pub open spec fn hex_byte_value(b: u8) -> int {
    if 48 <= b <= 57 {
        b - 48
    } else if 65 <= b <= 70 {
        b - 55
    } else {
        b - 87
    }
}

/// The number that hexadecimal digits spell, most significant first.
pub open spec fn hex_number(digits: Seq<u8>) -> int
    decreases digits.len(),
{
    if digits.len() == 0 {
        0
    } else {
        16 * hex_number(digits.drop_last()) + hex_byte_value(digits.last())
    }
}

/// The digits of a number's text: without a leading `+`.
pub open spec fn unsigned_digits(text: Seq<u8>) -> Seq<u8> {
    if text.len() > 0 && text[0] == 43 {
        text.drop_first()
    } else {
        text
    }
}

/// Every byte is a hexadecimal digit.
pub open spec fn all_hex(digits: Seq<u8>) -> bool {
    forall|i: int| 0 <= i < digits.len() ==> is_hex_byte(#[trigger] digits[i])
}

/// What `usize::from_str_radix(text, 16)` gives for short text: an optional
/// `+` and then one or more hexadecimal digits, else nothing.
pub open spec fn hex_text_value(text: Seq<u8>) -> Option<int> {
    let digits = unsigned_digits(text);
    if digits.len() > 0 && all_hex(digits) {
        Some(hex_number(digits))
    } else {
        None
    }
}

/// An ASCII hexadecimal digit, as a character.
pub open spec fn is_hex_char(c: char) -> bool {
    ||| '0' <= c <= '9'
    ||| 'a' <= c <= 'f'
    ||| 'A' <= c <= 'F'
}

/// A full commit hash: forty hexadecimal digits.
pub open spec fn is_sha(s: Seq<char>) -> bool {
    s.len() == 40 && forall|i: int| 0 <= i < s.len() ==> is_hex_char(#[trigger] s[i])
}

/// A hexadecimal digit in lower case.
pub open spec fn lower_hex_char(c: char) -> char {
    if c == 'A' {
        'a'
    } else if c == 'B' {
        'b'
    } else if c == 'C' {
        'c'
    } else if c == 'D' {
        'd'
    } else if c == 'E' {
        'e'
    } else if c == 'F' {
        'f'
    } else {
        c
    }
}

/// A hash in lower case, as `str::to_ascii_lowercase` gives it.
pub open spec fn lower_sha(s: Seq<char>) -> Seq<char> {
    Seq::new(s.len(), |i: int| lower_hex_char(s[i]))
}

/// Why an advertisement gives no commit for the requested name.
#[derive(Clone, Debug, Eq, PartialEq)]
pub enum AdvertError {
    /// Fewer than four bytes are left where a packet length should be.
    Truncated,
    /// The four bytes of a packet length are not UTF-8.
    LengthNotUtf8,
    /// The packet length, given here as text, is not hexadecimal.
    BadLengthText(String),
    /// The packet length is 3, or runs past the end of the input.
    BadLength(usize),
    /// A packet's payload is not UTF-8.
    PayloadNotUtf8,
    /// A reference line starts with something other than a commit hash.
    InvalidCommit(String),
    /// No branch or tag of the requested name is advertised.
    NotFound,
}

/// `AdvertError` over the mathematical text of its fields.
pub enum AdvertFault {
    Truncated,
    LengthNotUtf8,
    BadLengthText(Seq<char>),
    BadLength(int),
    PayloadNotUtf8,
    InvalidCommit(Seq<char>),
    NotFound,
}

impl View for AdvertError {
    type V = AdvertFault;

    open spec fn view(&self) -> AdvertFault {
        match self {
            AdvertError::Truncated => AdvertFault::Truncated,
            AdvertError::LengthNotUtf8 => AdvertFault::LengthNotUtf8,
            AdvertError::BadLengthText(t) => AdvertFault::BadLengthText(t@),
            AdvertError::BadLength(n) => AdvertFault::BadLength(*n as int),
            AdvertError::PayloadNotUtf8 => AdvertFault::PayloadNotUtf8,
            AdvertError::InvalidCommit(c) => AdvertFault::InvalidCommit(c@),
            AdvertError::NotFound => AdvertFault::NotFound,
        }
    }
}

/// The commits found so far for the branch, the peeled tag and the tag of
/// the requested name; a later line for the same name replaces an earlier.
pub type Found = (Option<Seq<char>>, Option<Seq<char>>, Option<Seq<char>>);

/// The reference names that the requested name can stand for.
pub open spec fn branch_ref(requested: Seq<char>) -> Seq<char> {
    "refs/heads/"@ + requested
}

pub open spec fn tag_ref(requested: Seq<char>) -> Seq<char> {
    "refs/tags/"@ + requested
}

pub open spec fn peeled_tag_ref(requested: Seq<char>) -> Seq<char> {
    "refs/tags/"@ + requested + "^{}"@
}

/// `s` without the `'\n'` characters at its end.
pub open spec fn trim_newlines(s: Seq<char>) -> Seq<char>
    decreases s.len(),
{
    if s.len() > 0 && s.last() == '\n' {
        trim_newlines(s.drop_last())
    } else {
        s
    }
}

/// What one packet's text (without its final newlines) does: the service
/// announcement and lines without a space are passed over; otherwise the
/// text before the first space must be a commit hash, and the text after
/// it, up to the first NUL, is the reference that the commit is recorded
/// for when it is one of the requested names.
pub open spec fn advert_line(t: Seq<char>, requested: Seq<char>, found: Found) -> Result<Found, AdvertFault> {
    if starts_with(t, "# service="@) {
        Ok(found)
    } else {
        let space = first_index(t, ' ');
        if space >= t.len() {
            Ok(found)
        } else {
            let commit = t.take(space);
            let after = t.skip(space + 1);
            let reference = after.take(first_index(after, '\0'));
            if !is_sha(commit) {
                Err(AdvertFault::InvalidCommit(commit))
            } else if reference == branch_ref(requested) {
                Ok((Some(lower_sha(commit)), found.1, found.2))
            } else if reference == peeled_tag_ref(requested) {
                Ok((found.0, Some(lower_sha(commit)), found.2))
            } else if reference == tag_ref(requested) {
                Ok((found.0, found.1, Some(lower_sha(commit))))
            } else {
                Ok(found)
            }
        }
    }
}

/// Reads the packets of `bytes` in order. Each packet starts with its
/// length as four hexadecimal digits, the length itself included; the
/// lengths 0, 1 and 2 mark packets without a payload.
pub open spec fn scan_packets(bytes: Seq<u8>, requested: Seq<char>, found: Found) -> Result<Found, AdvertFault>
    decreases bytes.len(),
{
    if bytes.len() == 0 {
        Ok(found)
    } else if bytes.len() < 4 {
        Err(AdvertFault::Truncated)
    } else {
        let head = bytes.take(4);
        if !valid_utf8(head) {
            Err(AdvertFault::LengthNotUtf8)
        } else {
            match hex_text_value(head) {
                None => Err(AdvertFault::BadLengthText(decode_utf8(head))),
                Some(n) => if n <= 2 {
                    scan_packets(bytes.skip(4), requested, found)
                } else if n < 4 || n > bytes.len() {
                    Err(AdvertFault::BadLength(n))
                } else {
                    let payload = bytes.subrange(4, n);
                    if !valid_utf8(payload) {
                        Err(AdvertFault::PayloadNotUtf8)
                    } else {
                        match advert_line(trim_newlines(decode_utf8(payload)), requested, found) {
                            Err(e) => Err(e),
                            Ok(next) => scan_packets(bytes.skip(n), requested, next),
                        }
                    }
                },
            }
        }
    }
}

/// The commit that the advertisement gives for the requested name: its
/// branch first, then its peeled tag, then the tag itself.
pub open spec fn advertised_commit(bytes: Seq<u8>, requested: Seq<char>) -> Result<Seq<char>, AdvertFault> {
    match scan_packets(bytes, requested, (None, None, None)) {
        Err(e) => Err(e),
        Ok((branch, peeled, tag)) => if branch is Some {
            Ok(branch->0)
        } else if peeled is Some {
            Ok(peeled->0)
        } else if tag is Some {
            Ok(tag->0)
        } else {
            Err(AdvertFault::NotFound)
        },
    }
}

fn hex_byte(b: u8) -> (res: Option<usize>)
    ensures
        res is Some <==> is_hex_byte(b),
        res matches Some(v) ==> v == hex_byte_value(b) && v < 16,
{
    if 48 <= b && b <= 57 {
        Some((b - 48) as usize)
    } else if 65 <= b && b <= 70 {
        Some((b - 55) as usize)
    } else if 97 <= b && b <= 102 {
        Some((b - 87) as usize)
    } else {
        None
    }
}

proof fn lemma_hex_number_bound(digits: Seq<u8>)
    requires
        forall|i: int| 0 <= i < digits.len() ==> is_hex_byte(#[trigger] digits[i]),
    ensures
        0 <= hex_number(digits),
        digits.len() <= 4 ==> hex_number(digits) < 65536,
        digits.len() <= 3 ==> hex_number(digits) < 4096,
        digits.len() <= 2 ==> hex_number(digits) < 256,
        digits.len() <= 1 ==> hex_number(digits) < 16,
    decreases digits.len(),
{
    if digits.len() > 0 {
        let d = digits.drop_last();
        assert forall|i: int| 0 <= i < d.len() implies is_hex_byte(#[trigger] d[i]) by {
            assert(d[i] == digits[i]);
        }
        lemma_hex_number_bound(d);
        assert(is_hex_byte(digits[digits.len() - 1]));
    }
}

/// The value of a four-byte packet length.
fn packet_length(head: &[u8]) -> (res: Option<usize>)
    requires
        head@.len() == 4,
    ensures
        res matches Some(n) ==> hex_text_value(head@) == Some(n as int),
        res is None ==> hex_text_value(head@) is None,
{
    let from: usize = if head[0] == 43 {
        1
    } else {
        0
    };
    let ghost digits = head@.skip(from as int);
    proof {
        if head[0] == 43 {
            assert(digits =~= head@.drop_first());
        } else {
            assert(digits =~= head@);
        }
        assert(digits == unsigned_digits(head@));
    }
    let mut value: usize = 0;
    let mut i = from;
    while i < 4
        invariant
            from <= i <= 4,
            from <= 1,
            from == 1 <==> head@[0] == 43,
            head@.len() == 4,
            digits == head@.skip(from as int),
            digits == unsigned_digits(head@),
            forall|j: int| 0 <= j < i - from ==> is_hex_byte(#[trigger] digits[j]),
            value == hex_number(digits.take(i - from)),
            value < 65536,
        decreases 4 - i,
    {
        let d = match hex_byte(head[i]) {
            Some(d) => d,
            None => {
                proof {
                    assert(digits[i - from] == head@[i as int]);
                    assert(!is_hex_byte(digits[i - from]));
                    assert(digits == unsigned_digits(head@));
                    assert(!all_hex(unsigned_digits(head@)));
                }
                return None;
            },
        };
        proof {
            let prefix = digits.take(i - from + 1);
            assert(prefix.drop_last() =~= digits.take(i - from));
            assert(prefix.last() == head@[i as int]);
            assert(digits[i - from] == head@[i as int]);
            assert forall|j: int| 0 <= j < prefix.len() implies is_hex_byte(#[trigger] prefix[j]) by {
                assert(prefix[j] == digits[j]);
            }
            lemma_hex_number_bound(prefix);
        }
        value = value * 16 + d;
        i = i + 1;
    }
    proof {
        assert(digits.take(4 - from) =~= digits);
    }
    Some(value)
}

/// Whether `value` is a full commit hash: forty hexadecimal digits.
pub fn is_commit_sha(value: &str) -> (res: bool)
    ensures
        res == is_sha(value@),
{
    let chars = str_chars(value);
    if chars.len() != 40 {
        return false;
    }
    let mut i: usize = 0;
    while i < chars.len()
        invariant
            chars@ == value@,
            0 <= i <= chars.len(),
            forall|j: int| 0 <= j < i ==> is_hex_char(#[trigger] chars@[j]),
        decreases chars.len() - i,
    {
        let c = chars[i];
        if !(('0' <= c && c <= '9') || ('a' <= c && c <= 'f') || ('A' <= c && c <= 'F')) {
            return false;
        }
        i = i + 1;
    }
    true
}

fn lower_hex(c: char) -> (res: char)
    ensures
        res == lower_hex_char(c),
{
    if c == 'A' {
        'a'
    } else if c == 'B' {
        'b'
    } else if c == 'C' {
        'c'
    } else if c == 'D' {
        'd'
    } else if c == 'E' {
        'e'
    } else if c == 'F' {
        'f'
    } else {
        c
    }
}

/// A commit hash in lower case.
pub fn lowercase_sha(commit: &[char]) -> (out: Vec<char>)
    ensures
        out@ == lower_sha(commit@),
{
    let mut out: Vec<char> = Vec::new();
    let mut i: usize = 0;
    while i < commit.len()
        invariant
            0 <= i <= commit.len(),
            out@ == lower_sha(commit@).take(i as int),
        decreases commit.len() - i,
    {
        out.push(lower_hex(commit[i]));
        i = i + 1;
        assert(out@ =~= lower_sha(commit@).take(i as int));
    }
    assert(lower_sha(commit@).take(commit@.len() as int) =~= lower_sha(commit@));
    out
}

/// The characters of `a` followed by those of `b`.
fn join_chars(a: &[char], b: &[char]) -> (out: Vec<char>)
    ensures
        out@ == a@ + b@,
{
    let mut out = sub_chars(a, 0, a.len());
    let mut i: usize = 0;
    assert(out@ =~= a@);
    while i < b.len()
        invariant
            0 <= i <= b.len(),
            out@ == a@ + b@.take(i as int),
        decreases b.len() - i,
    {
        out.push(b[i]);
        i = i + 1;
        assert(out@ =~= a@ + b@.take(i as int));
    }
    assert(b@.take(b@.len() as int) =~= b@);
    out
}

fn opt_chars(o: &Option<Vec<char>>) -> (res: Option<Vec<char>>)
    ensures
        opt_view(&res) == opt_view(o),
{
    match o {
        Some(v) => Some(sub_chars(v.as_slice(), 0, v.len())),
        None => None,
    }
}

/// The characters of an optional list.
pub open spec fn opt_view(o: &Option<Vec<char>>) -> Option<Seq<char>> {
    match o {
        Some(v) => Some(v@),
        None => None,
    }
}

/// The reference names that `requested` can stand for, as characters.
struct RefNames {
    branch: Vec<char>,
    peeled: Vec<char>,
    tag: Vec<char>,
}

/// Applies one packet's text to the commits found so far.
fn read_line(
    t: &[char],
    names: &RefNames,
    found: (Option<Vec<char>>, Option<Vec<char>>, Option<Vec<char>>),
    Ghost(requested): Ghost<Seq<char>>,
) -> (res: Result<(Option<Vec<char>>, Option<Vec<char>>, Option<Vec<char>>), AdvertError>)
    requires
        names.branch@ == branch_ref(requested),
        names.peeled@ == peeled_tag_ref(requested),
        names.tag@ == tag_ref(requested),
    ensures
        match advert_line(t@, requested, (opt_view(&found.0), opt_view(&found.1), opt_view(&found.2))) {
            Ok(next) => res matches Ok(f) && (opt_view(&f.0), opt_view(&f.1), opt_view(&f.2)) == next,
            Err(e) => res matches Err(err) && err@ == e,
        },
{
    let marker = str_chars("# service=");
    if starts_with_chars(t, marker.as_slice()) {
        return Ok(found);
    }
    let space = find_char(t, ' ');
    if space >= t.len() {
        return Ok(found);
    }
    let commit = sub_chars(t, 0, space);
    let after = sub_chars(t, space + 1, t.len());
    let nul = find_char(after.as_slice(), '\0');
    let reference = sub_chars(after.as_slice(), 0, nul);
    proof {
        assert(commit@ =~= t@.take(space as int));
        assert(after@ =~= t@.skip(space + 1));
        assert(reference@ =~= after@.take(nul as int));
    }
    let commit_text = chars_to_string(commit.as_slice());
    if !is_commit_sha(commit_text.as_str()) {
        return Err(AdvertError::InvalidCommit(commit_text));
    }
    let lower = lowercase_sha(commit.as_slice());
    let (branch, peeled, tag) = found;
    if chars_eq(reference.as_slice(), names.branch.as_slice()) {
        Ok((Some(lower), peeled, tag))
    } else if chars_eq(reference.as_slice(), names.peeled.as_slice()) {
        Ok((branch, Some(lower), tag))
    } else if chars_eq(reference.as_slice(), names.tag.as_slice()) {
        Ok((branch, peeled, Some(lower)))
    } else {
        Ok((branch, peeled, tag))
    }
}

/// The text of a packet payload without its final newlines.
fn trim_newline_chars(s: &[char]) -> (out: Vec<char>)
    ensures
        out@ == trim_newlines(s@),
{
    let mut end = s.len();
    proof {
        assert(s@.take(end as int) =~= s@);
    }
    while end > 0 && s[end - 1] == '\n'
        invariant
            0 <= end <= s.len(),
            trim_newlines(s@.take(end as int)) == trim_newlines(s@),
        decreases end,
    {
        proof {
            assert(s@.take(end as int).drop_last() =~= s@.take(end - 1));
        }
        end = end - 1;
    }
    let out = sub_chars(s, 0, end);
    proof {
        assert(out@ =~= s@.take(end as int));
    }
    out
}

/// Finds the commit that the advertisement gives for `requested_ref`: the
/// branch of that name if there is one, else the peeled tag, else the tag.
pub fn parse_git_advertisement(bytes: &[u8], requested_ref: &str) -> (res: Result<String, AdvertError>)
    ensures
        match advertised_commit(bytes@, requested_ref@) {
            Ok(commit) => res matches Ok(c) && c@ == commit,
            Err(e) => res matches Err(err) && err@ == e,
        },
{
    let requested = str_chars(requested_ref);
    let heads = str_chars("refs/heads/");
    let tags = str_chars("refs/tags/");
    let peel = str_chars("^{}");
    let tag_name = join_chars(tags.as_slice(), requested.as_slice());
    let names = RefNames {
        branch: join_chars(heads.as_slice(), requested.as_slice()),
        peeled: join_chars(tag_name.as_slice(), peel.as_slice()),
        tag: tag_name,
    };
    let ghost req = requested_ref@;
    let mut found: (Option<Vec<char>>, Option<Vec<char>>, Option<Vec<char>>) = (None, None, None);
    let mut cursor: usize = 0;
    proof {
        assert(bytes@.skip(0) =~= bytes@);
    }
    while cursor < bytes.len()
        invariant
            0 <= cursor <= bytes.len(),
            req == requested_ref@,
            names.branch@ == branch_ref(req),
            names.peeled@ == peeled_tag_ref(req),
            names.tag@ == tag_ref(req),
            scan_packets(bytes@.skip(cursor as int), req, (opt_view(&found.0), opt_view(&found.1), opt_view(&found.2)))
                == scan_packets(bytes@, req, (None, None, None)),
        decreases bytes.len() - cursor,
    {
        let ghost rest = bytes@.skip(cursor as int);
        let ghost state = (opt_view(&found.0), opt_view(&found.1), opt_view(&found.2));
        if bytes.len() - cursor < 4 {
            return Err(AdvertError::Truncated);
        }
        let head = &bytes[cursor..cursor + 4];
        proof {
            assert(head@ =~= rest.take(4));
        }
        let head_text = match utf8_str(head) {
            Some(text) => text,
            None => {
                return Err(AdvertError::LengthNotUtf8);
            },
        };
        let length = match packet_length(head) {
            Some(n) => n,
            None => {
                return Err(AdvertError::BadLengthText(head_text.to_owned()));
            },
        };
        cursor = cursor + 4;
        if length <= 2 {
            proof {
                assert(rest.skip(4) =~= bytes@.skip(cursor as int));
            }
            continue;
        }
        if length < 4 || length - 4 > bytes.len() - cursor {
            return Err(AdvertError::BadLength(length));
        }
        let payload = &bytes[cursor..cursor + (length - 4)];
        proof {
            assert(payload@ =~= rest.subrange(4, length as int));
        }
        cursor = cursor + (length - 4);
        proof {
            assert(rest.skip(length as int) =~= bytes@.skip(cursor as int));
        }
        let text = match utf8_str(payload) {
            Some(text) => text,
            None => {
                return Err(AdvertError::PayloadNotUtf8);
            },
        };
        let chars = str_chars(text);
        let line = trim_newline_chars(chars.as_slice());
        let current = (opt_chars(&found.0), opt_chars(&found.1), opt_chars(&found.2));
        found = match read_line(line.as_slice(), &names, current, Ghost(req)) {
            Ok(next) => next,
            Err(e) => {
                return Err(e);
            },
        };
    }
    proof {
        assert(bytes@.skip(cursor as int) =~= seq![]);
    }
    let (branch, peeled, tag) = found;
    let commit = match branch {
        Some(c) => c,
        None => match peeled {
            Some(c) => c,
            None => match tag {
                Some(c) => c,
                None => {
                    return Err(AdvertError::NotFound);
                },
            },
        },
    };
    Ok(chars_to_string(commit.as_slice()))
}

/// Every commit found so far is a full hash.
pub open spec fn all_shas(found: Found) -> bool {
    &&& found.0 matches Some(c) ==> is_sha(c)
    &&& found.1 matches Some(c) ==> is_sha(c)
    &&& found.2 matches Some(c) ==> is_sha(c)
}

proof fn lemma_lower_sha(c: Seq<char>)
    requires
        is_sha(c),
    ensures
        is_sha(lower_sha(c)),
{
    assert forall|i: int| 0 <= i < lower_sha(c).len() implies is_hex_char(#[trigger] lower_sha(c)[i]) by {
        assert(is_hex_char(c[i]));
    }
}

/// Reading packets only ever records full commit hashes.
pub proof fn lemma_scan_finds_shas(bytes: Seq<u8>, requested: Seq<char>, found: Found)
    requires
        all_shas(found),
    ensures
        scan_packets(bytes, requested, found) matches Ok(f) ==> all_shas(f),
    decreases bytes.len(),
{
    if bytes.len() >= 4 {
        let head = bytes.take(4);
        if valid_utf8(head) {
            if let Some(n) = hex_text_value(head) {
                if n <= 2 {
                    lemma_scan_finds_shas(bytes.skip(4), requested, found);
                } else if 4 <= n <= bytes.len() {
                    let payload = bytes.subrange(4, n);
                    if valid_utf8(payload) {
                        let t = trim_newlines(decode_utf8(payload));
                        if let Ok(next) = advert_line(t, requested, found) {
                            let space = first_index(t, ' ');
                            if !starts_with(t, "# service="@) && space < t.len() {
                                lemma_lower_sha(t.take(space));
                            }
                            lemma_scan_finds_shas(bytes.skip(n), requested, next);
                        }
                    }
                }
            }
        }
    }
}

/// A flush or delimiter packet: four hexadecimal digits for 0, 1 or 2.
pub open spec fn is_delimiter(p: Seq<u8>) -> bool {
    p.len() == 4 && valid_utf8(p) && (hex_text_value(p) matches Some(n) && n <= 2)
}

/// A data packet: its first four bytes give its whole length in
/// hexadecimal, at least four, and its payload is UTF-8.
pub open spec fn is_data_packet(p: Seq<u8>) -> bool {
    &&& p.len() >= 4
    &&& valid_utf8(p.take(4))
    &&& hex_text_value(p.take(4)) == Some(p.len() as int)
    &&& valid_utf8(p.skip(4))
}

/// The text of a data packet, without its final newlines.
pub open spec fn packet_text(p: Seq<u8>) -> Seq<char> {
    trim_newlines(decode_utf8(p.skip(4)))
}

/// The packets one after the other.
pub open spec fn join_packets(ps: Seq<Seq<u8>>) -> Seq<u8>
    decreases ps.len(),
{
    if ps.len() == 0 {
        seq![]
    } else {
        ps[0] + join_packets(ps.drop_first())
    }
}

/// Reads the lines of well-formed packets in order.
pub open spec fn read_packets(ps: Seq<Seq<u8>>, requested: Seq<char>, found: Found) -> Result<Found, AdvertFault>
    decreases ps.len(),
{
    if ps.len() == 0 {
        Ok(found)
    } else if is_delimiter(ps[0]) {
        read_packets(ps.drop_first(), requested, found)
    } else {
        match advert_line(packet_text(ps[0]), requested, found) {
            Err(e) => Err(e),
            Ok(next) => read_packets(ps.drop_first(), requested, next),
        }
    }
}

/// Every packet is a delimiter or a data packet.
pub open spec fn well_formed(ps: Seq<Seq<u8>>) -> bool {
    forall|i: int| 0 <= i < ps.len() ==> is_delimiter(#[trigger] ps[i]) || is_data_packet(ps[i])
}

proof fn lemma_scan_one(p: Seq<u8>, rest: Seq<u8>, requested: Seq<char>, found: Found)
    requires
        is_delimiter(p) || is_data_packet(p),
    ensures
        scan_packets(p + rest, requested, found) == (if is_delimiter(p) {
            scan_packets(rest, requested, found)
        } else {
            match advert_line(packet_text(p), requested, found) {
                Err(e) => Err(e),
                Ok(next) => scan_packets(rest, requested, next),
            }
        }),
{
    let b = p + rest;
    assert(b.take(4) =~= p.take(4));
    if is_delimiter(p) {
        assert(p.take(4) =~= p);
        assert(b.skip(4) =~= rest);
    } else {
        assert(b.subrange(4, p.len() as int) =~= p.skip(4));
        assert(b.skip(p.len() as int) =~= rest);
    }
}

/// Reading well-formed packets followed by more bytes is reading the
/// packets' lines in order, then the bytes that follow.
pub proof fn lemma_scan_well_formed(ps: Seq<Seq<u8>>, rest: Seq<u8>, requested: Seq<char>, found: Found)
    requires
        well_formed(ps),
    ensures
        scan_packets(join_packets(ps) + rest, requested, found) == match read_packets(ps, requested, found) {
            Err(e) => Err(e),
            Ok(next) => scan_packets(rest, requested, next),
        },
    decreases ps.len(),
{
    if ps.len() == 0 {
        assert(join_packets(ps) + rest =~= rest);
    } else {
        let tail = ps.drop_first();
        assert(well_formed(tail)) by {
            assert forall|i: int| 0 <= i < tail.len() implies is_delimiter(#[trigger] tail[i]) || is_data_packet(tail[i]) by {
                assert(tail[i] == ps[i + 1]);
            }
        }
        assert(is_delimiter(ps[0]) || is_data_packet(ps[0]));
        assert(join_packets(ps) + rest =~= ps[0] + (join_packets(tail) + rest));
        lemma_scan_one(ps[0], join_packets(tail) + rest, requested, found);
        if is_delimiter(ps[0]) {
            lemma_scan_well_formed(tail, rest, requested, found);
        } else {
            match advert_line(packet_text(ps[0]), requested, found) {
                Err(e) => {},
                Ok(next) => {
                    lemma_scan_well_formed(tail, rest, requested, next);
                },
            }
        }
    }
}

/// An advertisement made of well-formed packets names the commit that
/// reading their lines in order finds: the branch's, else the peeled
/// tag's, else the tag's, the last packet for each winning; a refused line
/// refuses the whole advertisement.
pub proof fn lemma_well_formed_advertisement(ps: Seq<Seq<u8>>, requested: Seq<char>)
    requires
        well_formed(ps),
    ensures
        advertised_commit(join_packets(ps), requested) == match read_packets(ps, requested, (None, None, None)) {
            Err(e) => Err(e),
            Ok((branch, peeled, tag)) => if branch is Some {
                Ok(branch->0)
            } else if peeled is Some {
                Ok(peeled->0)
            } else if tag is Some {
                Ok(tag->0)
            } else {
                Err(AdvertFault::NotFound)
            },
        },
{
    lemma_scan_well_formed(ps, seq![], requested, (None, None, None));
    assert(join_packets(ps) + seq![] =~= join_packets(ps));
}

/// Well-formed packets followed by a cut-off packet length (one to three
/// bytes) are refused, unless a line before already was.
pub proof fn lemma_truncated_advertisement(ps: Seq<Seq<u8>>, tail: Seq<u8>, requested: Seq<char>)
    requires
        well_formed(ps),
        0 < tail.len() < 4,
    ensures
        advertised_commit(join_packets(ps) + tail, requested) is Err,
        read_packets(ps, requested, (None, None, None)) is Ok ==> advertised_commit(join_packets(ps) + tail, requested)
            == Err::<Seq<char>, AdvertFault>(AdvertFault::Truncated),
{
    lemma_scan_well_formed(ps, tail, requested, (None, None, None));
}

/// The head of what follows cannot start a packet: its four length bytes
/// are not UTF-8 or not hexadecimal, the length is 3 or runs past the end,
/// or the payload it delimits is not UTF-8.
pub open spec fn malformed_head(tail: Seq<u8>) -> bool {
    &&& tail.len() >= 4
    &&& {
        ||| !valid_utf8(tail.take(4))
        ||| hex_text_value(tail.take(4)) is None
        ||| (hex_text_value(tail.take(4)) matches Some(n) && (n == 3 || n > tail.len()))
        ||| (hex_text_value(tail.take(4)) matches Some(n) && 4 <= n <= tail.len() && !valid_utf8(
            tail.subrange(4, n),
        ))
    }
}

/// Well-formed packets followed by a malformed packet are refused, unless a
/// line before already was.
pub proof fn lemma_malformed_advertisement(ps: Seq<Seq<u8>>, tail: Seq<u8>, requested: Seq<char>)
    requires
        well_formed(ps),
        malformed_head(tail),
    ensures
        advertised_commit(join_packets(ps) + tail, requested) is Err,
{
    lemma_scan_well_formed(ps, tail, requested, (None, None, None));
}

/// Well-formed packets followed by a data packet whose line starts with
/// something other than a commit hash (and is not the service line) are
/// refused with that text, unless a line before already was.
pub proof fn lemma_invalid_commit_refused(ps: Seq<Seq<u8>>, p: Seq<u8>, rest: Seq<u8>, requested: Seq<char>)
    requires
        well_formed(ps),
        read_packets(ps, requested, (None, None, None)) is Ok,
        is_data_packet(p),
        !starts_with(packet_text(p), "# service="@),
        first_index(packet_text(p), ' ') < packet_text(p).len(),
        !is_sha(packet_text(p).take(first_index(packet_text(p), ' '))),
    ensures
        advertised_commit(join_packets(ps) + (p + rest), requested) == Err::<Seq<char>, AdvertFault>(
            AdvertFault::InvalidCommit(packet_text(p).take(first_index(packet_text(p), ' '))),
        ),
{
    let found = read_packets(ps, requested, (None, None, None))->Ok_0;
    lemma_scan_well_formed(ps, p + rest, requested, (None, None, None));
    lemma_scan_one(p, rest, requested, found);
}

/// A packet whose line names some other reference leaves what was found
/// unchanged: reading it and then the rest is reading the rest.
pub proof fn lemma_other_reference_ignored(
    p: Seq<u8>,
    rest: Seq<u8>,
    requested: Seq<char>,
    found: Found,
)
    requires
        is_data_packet(p),
        is_sha(packet_text(p).take(first_index(packet_text(p), ' '))),
        ({
            let t = packet_text(p);
            let after = t.skip(first_index(t, ' ') + 1);
            let reference = after.take(first_index(after, '\0'));
            &&& !starts_with(t, "# service="@)
            &&& reference != branch_ref(requested)
            &&& reference != peeled_tag_ref(requested)
            &&& reference != tag_ref(requested)
        }),
    ensures
        scan_packets(p + rest, requested, found) == scan_packets(rest, requested, found),
{
    lemma_scan_one(p, rest, requested, found);
}

} // verus!
