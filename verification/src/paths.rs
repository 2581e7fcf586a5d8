//! What is asked of a path as such: whether two spellings name the same
//! path, and how many components a path has.

use camino::Utf8Path;
use vstd::prelude::*;

verus! {

/// Whether `camino` finds the same components in the paths spelled `a` and
/// `b`.
pub uninterp spec fn same_components(a: Seq<char>, b: Seq<char>) -> bool;

/// The number of components that `camino` finds in the path spelled `path`.
pub uninterp spec fn component_count(path: Seq<char>) -> usize;

/// Two spellings name the same path: they are the same text, or they have
/// the same components.
pub open spec fn same_path(a: Seq<char>, b: Seq<char>) -> bool {
    a == b || same_components(a, b)
}

/// Compares two paths with `==` on `camino::Utf8Path`, which compares their
/// components one by one. A text has the components that it has, so equal
/// texts compare equal; of different texts nothing is claimed but that the
/// answer depends on the two texts alone.
#[verifier::external_body]
pub(crate) fn paths_equal(a: &str, b: &str) -> (same: bool)
    ensures
        same == (a@ == b@ || same_components(a@, b@)),
{
    Utf8Path::new(a) == Utf8Path::new(b)
}

/// Counts what `camino::Utf8Path::components` yields for `path`. The count
/// depends on the text of the path alone.
#[verifier::external_body]
pub(crate) fn count_components(path: &str) -> (count: usize)
    ensures
        count == component_count(path@),
{
    Utf8Path::new(path).components().count()
}

} // verus!
