//! Paths: from a string to the names to follow.

use crate::model::{drop_empty, is_absolute, segments};
use crate::node::names_of;
use crate::text::{split, split_range, string_of, to_chars};
use vstd::prelude::*;
use vstd::string::StrSliceExecFns;

verus! {

/// The names of a path: what stands between its slashes, empty pieces left
/// out.
pub fn split_path(path_name: &str) -> (names: Vec<String>)
    ensures
        names_of(names@) == segments(path_name@),
{
    let chars = to_chars(path_name);
    let ranges = split_range(&chars, 0, chars.len(), '/');
    let ghost pieces = split(path_name@, '/');
    assert(chars@.subrange(0, chars@.len() as int) =~= path_name@);
    let mut names: Vec<String> = Vec::new();
    let mut i: usize = 0;
    assert(pieces.subrange(0, 0) =~= Seq::<Seq<char>>::empty());
    assert(names_of(names@) =~= Seq::<Seq<char>>::empty());
    while i < ranges.len()
        invariant
            i <= ranges.len(),
            crate::text::marks(chars@, ranges@, pieces),
            names_of(names@) == drop_empty(pieces.subrange(0, i as int)),
        decreases ranges.len() - i,
    {
        let r = ranges[i];
        proof {
            assert(pieces.subrange(0, i + 1).drop_last() =~= pieces.subrange(0, i as int));
            assert(pieces.subrange(0, i + 1).last() == pieces[i as int]);
        }
        if r.0 < r.1 {
            let name = string_of(&chars, r.0, r.1);
            let ghost before = names_of(names@);
            names.push(name);
            assert(names_of(names@) =~= before.push(pieces[i as int]));
        }
        i += 1;
    }
    assert(pieces.subrange(0, i as int) =~= pieces);
    names
}

/// Whether the path starts with a slash.
pub fn starts_at_root(path_name: &str) -> (b: bool)
    ensures
        b == is_absolute(path_name@),
{
    !path_name.is_empty() && path_name.get_char(0) == '/'
}

} // verus!
