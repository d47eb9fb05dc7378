//! The shape of what the VCS gateway reports: a local branch.

use vstd::prelude::*;

verus! {

/// One local branch as enumerated by the VCS.
pub struct GitBranch {
    /// The branch's short ref name.
    pub ref_name: String,
}

impl View for GitBranch {
    type V = Seq<char>;

    open spec fn view(&self) -> Seq<char> {
        self.ref_name@
    }
}

impl DeepView for GitBranch {
    type V = Seq<char>;

    open spec fn deep_view(&self) -> Seq<char> {
        self.ref_name@
    }
}

impl GitBranch {
    /// Wrap a branch name reported by the VCS.
    pub fn new(ref_name: String) -> (r: GitBranch)
        ensures
            r@ == ref_name@,
    {
        GitBranch { ref_name }
    }
}

} // verus!
