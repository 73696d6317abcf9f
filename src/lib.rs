pub mod backtracking;
pub mod prefix;
pub mod program;
pub mod threaded;

use vstd::prelude::*;
use vstd::string::StringSliceAdditionalSpecFns;

verus! {

/// A matcher that reports the shortest match of its pattern in a string.
pub trait Engine: Sized {
    /// What `shortest_match` reports for the bytes `text`.
    spec fn spec_shortest_match(&self, text: Seq<u8>) -> Option<(usize, usize)>;

    /// Reports the shortest match in `s`, as byte offsets.
    fn shortest_match(&mut self, s: &str) -> (r: Option<(usize, usize)>)
        requires
            s.spec_bytes().len() < usize::MAX,
        ensures
            r == old(self).spec_shortest_match(s.spec_bytes()),
            forall|t: Seq<u8>| #[trigger] final(self).spec_shortest_match(t) == old(self).spec_shortest_match(t),
            r matches Some((a, b)) ==> a <= b <= s.spec_bytes().len(),
    ;

    /// An independent matcher that reports what this one reports.
    fn clone_box(&self) -> (r: Box<Self>)
        ensures
            forall|t: Seq<u8>| #[trigger] (*r).spec_shortest_match(t) == self.spec_shortest_match(t),
    ;
}

} // verus!
