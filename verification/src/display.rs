//! What the program prints: messages kept to ASCII, and commits shortened.

use crate::fetch::{FetchResult, FetchStatus};
use crate::text::{push_char, str_chars};
use vstd::prelude::*;
use vstd::string::StringSliceAdditionalSpecFns;
use vstd::utf8::{decode_utf8, encode_utf8, is_ascii_chars, is_char_boundary};

verus! {

/// The lower-case hexadecimal digit of `d`.
pub open spec fn hex_digit(d: nat) -> char {
    if d < 10 {
        (48 + d) as char
    } else {
        (87 + d) as char
    }
}

/// `n` in lower-case hexadecimal, without leading zeros.
pub open spec fn hex_text(n: nat) -> Seq<char>
    decreases n,
{
    if n < 16 {
        seq![hex_digit(n)]
    } else {
        hex_text(n / 16).push(hex_digit(n % 16))
    }
}

/// The escape `\u{...}` of a character, with its code point in lower-case
/// hexadecimal, as `char::escape_unicode` writes it.
pub open spec fn unicode_escape(c: char) -> Seq<char> {
    seq!['\\', 'u', '{'] + hex_text((c as u32) as nat) + seq!['}']
}

/// `s` with every character outside ASCII replaced by its escape.
pub open spec fn escape_non_ascii(s: Seq<char>) -> Seq<char>
    decreases s.len(),
{
    if s.len() == 0 {
        seq![]
    } else {
        escape_non_ascii(s.drop_last()) + if '\0' <= s.last() <= '\u{7f}' {
            seq![s.last()]
        } else {
            unicode_escape(s.last())
        }
    }
}

fn digit_char(d: u32) -> (c: char)
    requires
        d < 16,
    ensures
        c == hex_digit(d as nat),
{
    if d == 0 {
        '0'
    } else if d == 1 {
        '1'
    } else if d == 2 {
        '2'
    } else if d == 3 {
        '3'
    } else if d == 4 {
        '4'
    } else if d == 5 {
        '5'
    } else if d == 6 {
        '6'
    } else if d == 7 {
        '7'
    } else if d == 8 {
        '8'
    } else if d == 9 {
        '9'
    } else if d == 10 {
        'a'
    } else if d == 11 {
        'b'
    } else if d == 12 {
        'c'
    } else if d == 13 {
        'd'
    } else if d == 14 {
        'e'
    } else {
        'f'
    }
}

fn push_hex(out: &mut String, n: u32)
    ensures
        final(out)@ == old(out)@ + hex_text(n as nat),
    decreases n,
{
    if n >= 16 {
        push_hex(out, n / 16);
    }
    push_char(out, digit_char(n % 16));
    proof {
        if n >= 16 {
            assert(old(out)@ + hex_text(n as nat) =~= old(out)@ + hex_text((n / 16) as nat) + seq![
                hex_digit((n % 16) as nat),
            ]);
        } else {
            assert(hex_text(n as nat) =~= seq![hex_digit(n as nat)]);
        }
    }
}

/// `input` with every character outside ASCII written as its `\u{...}`
/// escape, so that the text can be printed anywhere.
pub fn ascii_only(input: &str) -> (output: String)
    ensures
        output@ == escape_non_ascii(input@),
        is_ascii_chars(output@),
        is_ascii_chars(input@) ==> output@ == input@,
{
    let chars = str_chars(input);
    let mut output = String::new();
    let mut i: usize = 0;
    while i < chars.len()
        invariant
            0 <= i <= chars.len(),
            chars@ == input@,
            output@ == escape_non_ascii(chars@.take(i as int)),
        decreases chars.len() - i,
    {
        let c = chars[i];
        let ghost before = output@;
        if '\0' <= c && c <= '\u{7f}' {
            push_char(&mut output, c);
        } else {
            push_char(&mut output, '\\');
            push_char(&mut output, 'u');
            push_char(&mut output, '{');
            push_hex(&mut output, c as u32);
            push_char(&mut output, '}');
        }
        proof {
            assert(chars@.take(i + 1).drop_last() =~= chars@.take(i as int));
            assert(chars@.take(i + 1).last() == c);
            if '\0' <= c && c <= '\u{7f}' {
                assert(output@ =~= before + seq![c]);
            } else {
                assert(output@ =~= before + seq!['\\', 'u', '{'] + hex_text((c as u32) as nat) + seq!['}']);
                assert(output@ =~= before + unicode_escape(c));
            }
        }
        i = i + 1;
    }
    proof {
        assert(chars@.take(chars@.len() as int) =~= chars@);
        lemma_escape_is_ascii(input@);
        if is_ascii_chars(input@) {
            lemma_ascii_unchanged(input@);
        }
    }
    output
}

proof fn lemma_hex_text_ascii(n: nat)
    ensures
        is_ascii_chars(hex_text(n)),
    decreases n,
{
    if n >= 16 {
        lemma_hex_text_ascii(n / 16);
        let t = hex_text(n);
        assert forall|i: int| 0 <= i < t.len() implies '\0' <= #[trigger] t[i] <= '\u{7f}' by {
            if i < t.len() - 1 {
                assert(t[i] == hex_text(n / 16)[i]);
            }
        }
    }
}

/// Escaping leaves only ASCII characters.
pub proof fn lemma_escape_is_ascii(s: Seq<char>)
    ensures
        is_ascii_chars(escape_non_ascii(s)),
    decreases s.len(),
{
    if s.len() > 0 {
        lemma_escape_is_ascii(s.drop_last());
        let head = escape_non_ascii(s.drop_last());
        let tail = if '\0' <= s.last() <= '\u{7f}' {
            seq![s.last()]
        } else {
            unicode_escape(s.last())
        };
        let c = s.last();
        lemma_hex_text_ascii((c as u32) as nat);
        let h = hex_text((c as u32) as nat);
        assert forall|i: int| 0 <= i < tail.len() implies '\0' <= #[trigger] tail[i] <= '\u{7f}' by {
            if '\0' <= c <= '\u{7f}' {
                assert(tail =~= seq![c]);
                assert(tail[i] == c);
            } else {
                assert(tail == seq!['\\', 'u', '{'] + h + seq!['}']);
                if i == 0 {
                    assert(tail[i] == '\\');
                } else if i == 1 {
                    assert(tail[i] == 'u');
                } else if i == 2 {
                    assert(tail[i] == '{');
                } else if i < 3 + h.len() {
                    assert(tail[i] == h[i - 3]);
                    assert('\0' <= h[i - 3] <= '\u{7f}');
                } else {
                    assert(tail[i] == '}');
                }
            }
        }
        let t = head + tail;
        assert forall|i: int| 0 <= i < t.len() implies '\0' <= #[trigger] t[i] <= '\u{7f}' by {
            if i < head.len() {
                assert(t[i] == head[i]);
            } else {
                assert(t[i] == tail[i - head.len()]);
            }
        }
    }
}

/// Text that is already ASCII is left as it is.
pub proof fn lemma_ascii_unchanged(s: Seq<char>)
    requires
        is_ascii_chars(s),
    ensures
        escape_non_ascii(s) == s,
    decreases s.len(),
{
    if s.len() > 0 {
        let init = s.drop_last();
        assert forall|i: int| 0 <= i < init.len() implies '\0' <= #[trigger] init[i] <= '\u{7f}' by {
            assert(init[i] == s[i]);
        }
        lemma_ascii_unchanged(init);
        assert('\0' <= s[s.len() - 1] <= '\u{7f}');
        assert(escape_non_ascii(s) =~= s);
    }
}

/// The first twelve bytes of a commit, or the whole text when it is
/// shorter or twelve bytes would split a character.
pub fn short_commit(commit: &str) -> (short: &str)
    ensures
        if is_char_boundary(commit.spec_bytes(), 12) {
            short.spec_bytes() == commit.spec_bytes().take(12)
        } else {
            short == commit
        },
{
    if commit.is_char_boundary(12) {
        let parts = commit.split_at(12);
        proof {
            assert(commit.spec_bytes().subrange(0, 12) =~= commit.spec_bytes().take(12));
            assert(parts.0.spec_bytes() =~= commit.spec_bytes().take(12));
        }
        parts.0
    } else {
        commit
    }
}

/// `n` in decimal, without leading zeros.
pub open spec fn decimal(n: nat) -> Seq<char>
    decreases n,
{
    if n < 10 {
        seq![hex_digit(n)]
    } else {
        decimal(n / 10).push(hex_digit(n % 10))
    }
}

fn push_decimal(out: &mut String, n: usize)
    ensures
        final(out)@ == old(out)@ + decimal(n as nat),
    decreases n,
{
    if n >= 10 {
        push_decimal(out, n / 10);
    }
    push_char(out, digit_char((n % 10) as u32));
    proof {
        if n >= 10 {
            assert(old(out)@ + decimal(n as nat) =~= old(out)@ + decimal((n / 10) as nat) + seq![
                hex_digit((n % 10) as nat),
            ]);
        } else {
            assert(decimal(n as nat) =~= seq![hex_digit(n as nat)]);
        }
    }
}

/// The commit as `short_commit` shortens it.
pub open spec fn short_text(commit: Seq<char>) -> Seq<char> {
    if is_char_boundary(encode_utf8(commit), 12) {
        decode_utf8(encode_utf8(commit).take(12))
    } else {
        commit
    }
}

/// The line that reports a finished fetch.
pub open spec fn fetch_summary(result: FetchResult) -> Seq<char> {
    let commit = result.repository@ + "@"@ + short_text(result.commit@);
    match result.status {
        FetchStatus::Updated => "fetched "@ + decimal(result.file_count as nat) + " files ("@ + decimal(
            result.prefix_count as nat,
        ) + " prefixes) from "@ + commit,
        FetchStatus::Unchanged => "already current: "@ + commit + " ("@ + decimal(result.file_count as nat)
            + " files)"@,
    }
}

/// Reports a finished fetch in one line: how many files and prefixes were
/// fetched from which commit, or that the snapshot was already current.
pub fn fetch_message(result: &FetchResult) -> (message: String)
    ensures
        message@ == fetch_summary(*result),
{
    let short = short_commit(result.commit.as_str());
    proof {
        vstd::utf8::encode_utf8_decode_utf8(short@);
        vstd::utf8::encode_utf8_decode_utf8(result.commit@);
    }
    let mut commit = result.repository.to_owned();
    commit.append("@");
    commit.append(short);
    let mut message = String::new();
    match result.status {
        FetchStatus::Updated => {
            message.append("fetched ");
            push_decimal(&mut message, result.file_count);
            message.append(" files (");
            push_decimal(&mut message, result.prefix_count);
            message.append(" prefixes) from ");
            message.append(commit.as_str());
        },
        FetchStatus::Unchanged => {
            message.append("already current: ");
            message.append(commit.as_str());
            message.append(" (");
            push_decimal(&mut message, result.file_count);
            message.append(" files)");
        },
    }
    proof {
        assert(message@ =~= fetch_summary(*result));
    }
    message
}

} // verus!
