//! Directories on disk as the program sees them: the final name of a path,
//! whether two directories nest, and what was found where output goes.

use crate::text::{str_chars, sub_chars};
use vstd::prelude::*;

verus! {

/// The index just after the last `/` of `s`, or 0 when it has none.
pub open spec fn after_last_slash(s: Seq<char>) -> int
    decreases s.len(),
{
    if s.len() == 0 {
        0
    } else if s.last() == '/' {
        s.len() as int
    } else {
        after_last_slash(s.drop_last())
    }
}

/// The final component of a path written with `/` separators, when it is
/// a name: repeated and trailing separators and `.` components after the
/// first are passed over, and a path that ends in `..`, is a lone `.`, is
/// the root or is empty has no final name.
pub open spec fn final_name(s: Seq<char>) -> Option<Seq<char>>
    decreases s.len(),
{
    if s.len() == 0 {
        None
    } else if s.last() == '/' {
        final_name(s.drop_last())
    } else {
        let k = after_last_slash(s);
        let part = s.skip(k);
        if part == seq!['.'] {
            if k == 0 {
                None
            } else {
                proof {
                    lemma_after_last_slash(s);
                    assert(s.skip(k).len() == 1);
                }
                final_name(s.take(k))
            }
        } else if part == seq!['.', '.'] {
            None
        } else {
            Some(part)
        }
    }
}

pub proof fn lemma_after_last_slash(s: Seq<char>)
    ensures
        0 <= after_last_slash(s) <= s.len(),
        after_last_slash(s) > 0 ==> s[after_last_slash(s) - 1] == '/',
        forall|i: int| after_last_slash(s) <= i < s.len() ==> s[i] != '/',
    decreases s.len(),
{
    if s.len() > 0 && s.last() != '/' {
        lemma_after_last_slash(s.drop_last());
        assert forall|i: int| after_last_slash(s) <= i < s.len() implies s[i] != '/' by {
            if i < s.len() - 1 {
                assert(s.drop_last()[i] == s[i]);
            }
        }
    }
}

proof fn lemma_after_last_slash_is(s: Seq<char>, k: int)
    requires
        0 <= k <= s.len(),
        k > 0 ==> s[k - 1] == '/',
        forall|i: int| k <= i < s.len() ==> s[i] != '/',
    ensures
        after_last_slash(s) == k,
    decreases s.len(),
{
    if s.len() > k {
        let t = s.drop_last();
        assert forall|i: int| k <= i < t.len() implies t[i] != '/' by {
            assert(t[i] == s[i]);
        }
        if k > 0 {
            assert(t[k - 1] == s[k - 1]);
        }
        lemma_after_last_slash_is(t, k);
    }
}

/// Whether the path text has a final name.
pub fn has_final_name(path: &str) -> (res: bool)
    ensures
        res == final_name(path@) is Some,
{
    let chars = str_chars(path);
    let mut end = chars.len();
    proof {
        assert(chars@.take(end as int) =~= path@);
    }
    while end > 0
        invariant
            0 <= end <= chars.len(),
            chars@ == path@,
            final_name(chars@.take(end as int)) == final_name(path@),
        decreases end,
    {
        let ghost s = chars@.take(end as int);
        if chars[end - 1] == '/' {
            proof {
                assert(s.drop_last() =~= chars@.take(end - 1));
            }
            end = end - 1;
            continue;
        }
        let mut k = end;
        while k > 0 && chars[k - 1] != '/'
            invariant
                0 <= k <= end <= chars.len(),
                forall|i: int| k <= i < end ==> chars@[i] != '/',
            decreases k,
        {
            k = k - 1;
        }
        proof {
            assert forall|i: int| k <= i < s.len() implies s[i] != '/' by {
                assert(s[i] == chars@[i]);
            }
            if k > 0 {
                assert(s[k - 1] == chars@[k - 1]);
            }
            lemma_after_last_slash_is(s, k as int);
        }
        let part = sub_chars(chars.as_slice(), k, end);
        proof {
            assert(part@ =~= s.skip(k as int));
        }
        if part.len() == 1 && part[0] == '.' {
            proof {
                assert(part@ =~= seq!['.']);
            }
            if k == 0 {
                return false;
            }
            proof {
                assert(s.take(k as int) =~= chars@.take(k as int));
            }
            end = k;
            continue;
        }
        if part.len() == 2 && part[0] == '.' && part[1] == '.' {
            proof {
                assert(part@ =~= seq!['.', '.']);
            }
            return false;
        }
        proof {
            assert(part@ != seq!['.']) by {
                if part@ =~= seq!['.'] {
                    assert(part@.len() == 1);
                }
            }
            assert(part@ != seq!['.', '.']) by {
                if part@ =~= seq!['.', '.'] {
                    assert(part@.len() == 2);
                }
            }
        }
        return true;
    }
    false
}

/// `x` is `y` or a directory inside it, compared component by component.
pub open spec fn is_within(x: Seq<Seq<char>>, y: Seq<Seq<char>>) -> bool {
    y.len() <= x.len() && forall|i: int| 0 <= i < y.len() ==> x[i] == y[i]
}

/// The components of a path, as text.
pub open spec fn components_view(parts: Seq<String>) -> Seq<Seq<char>> {
    parts.map_values(|p: String| p@)
}

fn starts_with_components(x: &Vec<String>, y: &Vec<String>) -> (res: bool)
    ensures
        res == is_within(components_view(x@), components_view(y@)),
{
    if y.len() > x.len() {
        return false;
    }
    let mut i: usize = 0;
    while i < y.len()
        invariant
            y.len() <= x.len(),
            0 <= i <= y.len(),
            forall|j: int| 0 <= j < i ==> components_view(x@)[j] == components_view(y@)[j],
        decreases y.len() - i,
    {
        if !(x[i] == y[i]) {
            assert(components_view(x@)[i as int] != components_view(y@)[i as int]);
            return false;
        }
        i = i + 1;
    }
    true
}

/// Whether one of two directories, given by the components of their
/// resolved paths, lies inside the other or is the same.
pub fn directories_overlap(input: &Vec<String>, output: &Vec<String>) -> (res: bool)
    ensures
        res == (is_within(components_view(input@), components_view(output@)) || is_within(
            components_view(output@),
            components_view(input@),
        )),
{
    starts_with_components(input, output) || starts_with_components(output, input)
}

/// What is found where an output directory is to go.
#[derive(Clone, Debug)]
pub enum OutputProbe<M> {
    /// Nothing is there.
    Missing,
    /// A symbolic link is there.
    Symlink,
    /// Something that is not a directory is there.
    NotDirectory,
    /// An empty directory is there.
    EmptyDirectory,
    /// A directory without a manifest, and with something in it, is there.
    Unowned,
    /// A directory with this manifest is there.
    Owned(M),
}

/// Why an existing output directory must not be replaced.
#[derive(Clone, Copy, Debug, Eq, PartialEq, Structural)]
pub enum OutputError {
    Symlink,
    NotDirectory,
    Unowned,
    Incompatible,
}

} // verus!
