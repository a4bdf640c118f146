use vstd::prelude::*;

verus! {

/// The components of a path as camino splits it: the root `/` when the path is
/// rooted, then each name, with repeated and trailing separators dropped.
pub uninterp spec fn components_of(p: Seq<char>) -> Seq<Seq<char>>;

/// Relies on `camino::Utf8Path::iter`: the path's components, each as its text.
/// The result depends on the path's characters alone.
#[verifier::external_body]
pub(crate) fn path_components(p: &str) -> (r: Vec<String>)
    ensures
        r.deep_view() == components_of(p@),
{
    camino::Utf8Path::new(p).iter().map(|c| c.to_string()).collect()
}

} // verus!
