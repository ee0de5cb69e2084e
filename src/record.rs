//! One attachment entry of the archive metadata.
use vstd::prelude::*;

verus! {

/// An attachment as the archive metadata lists it. `kind` holds the entry's
/// `type` field.
pub struct Attachment {
    pub kind: String,
    pub url: String,
    pub pull_request: Option<String>,
    pub issue: Option<String>,
    pub issue_comment: Option<String>,
    pub user: String,
    pub asset_name: String,
    pub asset_content_type: String,
    pub asset_url: String,
    pub created_at: String,
}

/// The identifier of the item the attachment belongs to: its pull request,
/// else its issue, else its issue comment; none when all three are absent.
pub open spec fn context_of(a: Attachment) -> Option<Seq<char>> {
    match a.pull_request {
        Some(p) => Some(p@),
        None => match a.issue {
            Some(i) => Some(i@),
            None => match a.issue_comment {
                Some(c) => Some(c@),
                None => None,
            },
        },
    }
}

/// Whether the attachment can be linked to a pull request, issue or issue
/// comment.
pub open spec fn has_context(a: Attachment) -> bool {
    context_of(a) is Some
}

impl Attachment {
    /// The identifier of the item this attachment belongs to, if any.
    pub fn context(&self) -> (r: Option<&String>)
        ensures
            match r {
                Some(s) => context_of(*self) == Some(s@),
                None => context_of(*self) is None,
            },
    {
        match &self.pull_request {
            Some(p) => Some(p),
            None => match &self.issue {
                Some(i) => Some(i),
                None => match &self.issue_comment {
                    Some(c) => Some(c),
                    None => None,
                },
            },
        }
    }
}

} // verus!
