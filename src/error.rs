//! The two kinds of failure: a recoverable error that the caller reports,
//! and an integrity violation that ends the run.
use vstd::prelude::*;

use crate::paths::{attachments_dir_name, dir_view, metadata_file_name, resolved};

verus! {

/// Whether `t` occurs in `s` as a contiguous run of characters.
pub open spec fn occurs_in(t: Seq<char>, s: Seq<char>) -> bool {
    exists|i: int| 0 <= i && i + t.len() <= s.len() && #[trigger] s.subrange(i, i + t.len()) == t
}

/// A failure that is reported to the user, after which the run stops in an
/// orderly way.
pub enum AttachmentError {
    /// The first metadata file or the attachments directory is missing.
    NotFound { metadata_path: String, attachments_path: String },
    /// A metadata file does not hold a list of attachment records.
    DataFormat { path: String, detail: String },
}

/// The text reported when the archive layout is not found.
pub open spec fn not_found_message(metadata: Seq<char>, attachments: Seq<char>) -> Seq<char> {
    "Could not find `"@ + metadata + "` file and/or `"@ + attachments
        + "/` directory. This suggests that either (a) your archive contains no attachments or (b) you're not in a directory created when you extract a GitHub archive."@
}

/// The text reported when a metadata file cannot be read as records.
pub open spec fn data_format_message(path: Seq<char>, detail: Seq<char>) -> Seq<char> {
    "Could not parse `"@ + path + "`: "@ + detail
}

/// The text reported for an error.
pub open spec fn error_message(e: AttachmentError) -> Seq<char> {
    match e {
        AttachmentError::NotFound { metadata_path, attachments_path } => not_found_message(
            metadata_path@,
            attachments_path@,
        ),
        AttachmentError::DataFormat { path, detail } => data_format_message(path@, detail@),
    }
}

impl AttachmentError {
    /// The text reported for this error.
    pub fn message(&self) -> (r: String)
        ensures
            r@ == error_message(*self),
    {
        match self {
            AttachmentError::NotFound { metadata_path, attachments_path } => {
                let mut r = "Could not find `".to_owned();
                r.append(metadata_path.as_str());
                r.append("` file and/or `");
                r.append(attachments_path.as_str());
                r.append(
                    "/` directory. This suggests that either (a) your archive contains no attachments or (b) you're not in a directory created when you extract a GitHub archive.",
                );
                r
            },
            AttachmentError::DataFormat { path, detail } => {
                let mut r = "Could not parse `".to_owned();
                r.append(path.as_str());
                r.append("`: ");
                r.append(detail.as_str());
                r
            },
        }
    }
}

/// Checks that the working directory `dir` looks like an extracted archive:
/// `has_metadata` and `has_attachments_dir` tell whether the first metadata
/// file and the attachments directory exist there.
pub fn check_archive_layout(dir: &Option<String>, has_metadata: bool, has_attachments_dir: bool) -> (r:
    Result<(), AttachmentError>)
    ensures
        r is Ok <==> has_metadata && has_attachments_dir,
        match r {
            Ok(()) => true,
            Err(AttachmentError::NotFound { metadata_path, attachments_path }) => {
                &&& metadata_path@ == resolved(dir_view(*dir), metadata_file_name())
                &&& attachments_path@ == resolved(dir_view(*dir), attachments_dir_name())
            },
            Err(_) => false,
        },
{
    if has_metadata && has_attachments_dir {
        Ok(())
    } else {
        let metadata_path = crate::paths::metadata_path(dir);
        let attachments_path = crate::paths::attachments_dir_path(dir);
        Err(AttachmentError::NotFound { metadata_path, attachments_path })
    }
}

/// The message for a missing archive layout names, verbatim, the metadata
/// file and the attachments directory that were looked for, whatever the
/// working directory.
pub proof fn lemma_not_found_names_both_paths(dir: Option<Seq<char>>)
    ensures
        occurs_in(
            resolved(dir, metadata_file_name()),
            not_found_message(
                resolved(dir, metadata_file_name()),
                resolved(dir, attachments_dir_name()),
            ),
        ),
        occurs_in(
            resolved(dir, attachments_dir_name()),
            not_found_message(
                resolved(dir, metadata_file_name()),
                resolved(dir, attachments_dir_name()),
            ),
        ),
{
    let m = resolved(dir, metadata_file_name());
    let a = resolved(dir, attachments_dir_name());
    let p0 = "Could not find `"@;
    let p1 = "` file and/or `"@;
    let msg = not_found_message(m, a);
    let i = p0.len() as int;
    assert(msg.subrange(i, i + m.len()) =~= m);
    let i2 = (p0.len() + m.len() + p1.len()) as int;
    assert(msg.subrange(i2, i2 + a.len()) =~= a);
}

/// A file that the metadata lists is absent or unreadable: the archive is
/// incomplete, and the run cannot go on.
pub struct IntegrityViolation {
    pub path: String,
}

/// The text shown when the run ends on a missing attachment file.
pub open spec fn integrity_message(path: Seq<char>) -> Seq<char> {
    "Could not find listed attachment file `"@ + path
        + "`. Please make sure you're running this tool in the directory created when you extract a GitHub archive."@
}

impl IntegrityViolation {
    /// The text shown when the run ends on this violation.
    pub fn message(&self) -> (r: String)
        ensures
            r@ == integrity_message(self.path@),
    {
        let mut r = "Could not find listed attachment file `".to_owned();
        r.append(self.path.as_str());
        r.append(
            "`. Please make sure you're running this tool in the directory created when you extract a GitHub archive.",
        );
        r
    }
}

} // verus!
