//! Package options: a package argument may carry `#`-separated option
//! tokens after its name.

use vstd::prelude::*;

use crate::text::{chars_of, contains_char, split_on, split_on_chars, string_of};

verus! {

/// Whether a package argument carries option tokens.
pub fn has_opts(pkg: &str) -> (r: bool)
    ensures
        r == pkg@.contains('#'),
{
    let v = chars_of(pkg);
    contains_char(&v, '#')
}

/// Split a package argument into its name and its option tokens: the part
/// before the first `#`, and every `#`-separated part after it.
pub fn split_opts(pkg: &str) -> (r: (String, Vec<String>))
    ensures
        r.0@ == split_on(pkg@, '#')[0],
        r.1.deep_view() == split_on(pkg@, '#').drop_first(),
{
    let v = chars_of(pkg);
    let mut parts = split_on_chars(&v, '#');
    let ghost pv = parts.deep_view();
    assert(pv.len() >= 1) by {
        assert(split_on(pkg@, '#').len() >= 1);
    }
    let name = parts.remove(0);
    proof {
        assert(parts.deep_view() =~= pv.drop_first());
    }
    (name, parts)
}

} // verus!
