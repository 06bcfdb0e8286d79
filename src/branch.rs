//! Branches: named refs under `refs/heads/` and the one HEAD points at.
use vstd::prelude::*;

verus! {

/// A branch as listed: its tip is `None` while the branch has no commit.
pub struct Branch {
    pub name: String,
    pub is_current: bool,
    pub last_commit_hash: Option<String>,
    pub ref_path: String,
}

/// `refs/heads/`.
pub open spec fn heads_prefix() -> Seq<char> {
    seq!['r', 'e', 'f', 's', '/', 'h', 'e', 'a', 'd', 's', '/']
}

/// The branch that a HEAD reference names, if it names one.
pub open spec fn head_branch(head: Seq<char>) -> Option<Seq<char>> {
    if crate::text::has_prefix(head, heads_prefix()) {
        Some(head.subrange(11, head.len() as int))
    } else {
        None
    }
}

} // verus!
