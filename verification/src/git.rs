//! The version-control status: the combination of the two probe results
//! (current branch, uncommitted changes) into one status, and the parsing of
//! the raw probe output into those results. Invoking the external tool
//! itself is the caller's business; these functions take its exit state and
//! captured output as plain values.

use vstd::prelude::*;
use crate::text::{trim, trim_spec};

verus! {

/// The mathematical value of a version-control status.
pub ghost struct GitStatusView {
    pub branch: Seq<char>,
    pub uncommitted: bool,
}

/// A version-control status: the current branch and whether the working
/// tree has uncommitted changes.
pub struct GitStatus {
    pub branch: String,
    pub uncommitted: bool,
}

impl View for GitStatus {
    type V = GitStatusView;

    open spec fn view(&self) -> GitStatusView {
        GitStatusView { branch: self.branch@, uncommitted: self.uncommitted }
    }
}

/// The rendering of a status: the branch, a space, and an asterisk exactly
/// when there are uncommitted changes (so a clean tree renders with a
/// trailing space).
pub open spec fn spec_render_status(g: GitStatusView) -> Seq<char> {
    g.branch + " "@ + (if g.uncommitted {
        "*"@
    } else {
        Seq::<char>::empty()
    })
}

impl GitStatus {
    /// Render this status for display.
    pub fn render(&self) -> (r: String)
        ensures
            r@ == spec_render_status(self@),
    {
        let mut r = self.branch.clone();
        r.append(" ");
        if self.uncommitted {
            r.append("*");
        }
        proof {
            assert(r@ =~= spec_render_status(self@));
        }
        r
    }
}

/// The branch-name probe result, from the external tool's exit state and
/// captured output: absent when the tool did not succeed (the directory is
/// no working copy), otherwise the trimmed single-line output.
pub fn branch_from_output(success: bool, output: &str) -> (r: Option<String>)
    ensures
        success <==> r is Some,
        r matches Some(b) ==> b@ == trim_spec(output@),
{
    if success {
        Some(trim(output))
    } else {
        None
    }
}

/// The uncommitted-changes probe result, from the external tool's exit
/// state and captured machine-readable output: absent when the tool did not
/// succeed, otherwise whether the output lists any entry at all (that is,
/// is non-empty).
pub fn uncommitted_from_output(success: bool, output: &str) -> (r: Option<bool>)
    ensures
        success <==> r is Some,
        r matches Some(u) ==> u == (output@.len() > 0),
{
    if success {
        Some(!output.is_empty())
    } else {
        None
    }
}

/// Combine the two probe results into one status: present exactly when both
/// probes succeeded; no partial status is ever reported.
pub fn get_git_status(branch: Option<String>, uncommitted: Option<bool>) -> (r: Option<GitStatus>)
    ensures
        r is Some <==> (branch is Some && uncommitted is Some),
        r matches Some(g) ==> g@ == (GitStatusView {
            branch: branch->0@,
            uncommitted: uncommitted->0,
        }),
{
    match (branch, uncommitted) {
        (Some(b), Some(u)) => Some(GitStatus { branch: b, uncommitted: u }),
        _ => None,
    }
}

} // verus!
