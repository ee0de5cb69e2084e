//! Where the metadata files, the attachments directory and each attachment
//! lie relative to the working directory.
use vstd::prelude::*;

use crate::record::Attachment;
use crate::text::{has_prefix, starts_with};

verus! {

/// `rel` joined onto `dir` with one separator, as a path join does: an
/// absolute `rel` stands alone, and an empty `dir` adds nothing.
pub open spec fn joined(dir: Seq<char>, rel: Seq<char>) -> Seq<char> {
    if rel.len() > 0 && rel[0] == '/' {
        rel
    } else if dir.len() == 0 {
        rel
    } else if dir.last() == '/' {
        dir + rel
    } else {
        dir + seq!['/'] + rel
    }
}

/// The working directory as characters; none stands for the current one.
pub open spec fn dir_view(dir: Option<String>) -> Option<Seq<char>> {
    match dir {
        Some(d) => Some(d@),
        None => None,
    }
}

/// `rel` taken relative to the working directory `dir`.
pub open spec fn resolved(dir: Option<Seq<char>>, rel: Seq<char>) -> Seq<char> {
    match dir {
        Some(d) => joined(d, rel),
        None => rel,
    }
}

/// The placeholder that asset references use for the archive root.
pub open spec fn archive_root() -> Seq<char> {
    "tarball://root/"@
}

/// An asset reference with the archive-root placeholder taken off its front.
pub open spec fn archive_relative(loc: Seq<char>) -> Seq<char> {
    if starts_with(loc, archive_root()) {
        loc.subrange(archive_root().len() as int, loc.len() as int)
    } else {
        loc
    }
}

/// Name of the first numbered metadata file.
pub open spec fn metadata_file_name() -> Seq<char> {
    "attachments_000001.json"@
}

/// Name of the directory that holds the attachment files.
pub open spec fn attachments_dir_name() -> Seq<char> {
    "attachments"@
}

/// Joins `rel` onto `dir`.
pub fn join_path(dir: &str, rel: &str) -> (r: String)
    ensures
        r@ == joined(dir@, rel@),
{
    let n = dir.unicode_len();
    let m = rel.unicode_len();
    if m > 0 && rel.get_char(0) == '/' {
        rel.to_owned()
    } else if n == 0 {
        rel.to_owned()
    } else if dir.get_char(n - 1) == '/' {
        let mut r = dir.to_owned();
        r.append(rel);
        r
    } else {
        let mut r = dir.to_owned();
        let sep = "/";
        proof {
            reveal_strlit("/");
        }
        r.append(sep);
        r.append(rel);
        assert(r@ =~= dir@ + seq!['/'] + rel@);
        r
    }
}

/// `rel` taken relative to the working directory `dir`, or left as it is
/// when none is given.
pub fn resolve(dir: &Option<String>, rel: &str) -> (r: String)
    ensures
        r@ == resolved(dir_view(*dir), rel@),
{
    match dir {
        Some(d) => join_path(d.as_str(), rel),
        None => rel.to_owned(),
    }
}

/// Takes the archive-root placeholder off the front of an asset reference.
pub fn strip_archive_root(loc: &str) -> (r: String)
    ensures
        r@ == archive_relative(loc@),
{
    let root = "tarball://root/";
    if has_prefix(loc, root) {
        let n = loc.unicode_len();
        let m = root.unicode_len();
        loc.substring_char(m, n).to_owned()
    } else {
        loc.to_owned()
    }
}

/// Path of the first metadata file in the working directory `dir`.
pub fn metadata_path(dir: &Option<String>) -> (r: String)
    ensures
        r@ == resolved(dir_view(*dir), metadata_file_name()),
{
    resolve(dir, "attachments_000001.json")
}

/// Path of the attachments directory in the working directory `dir`.
pub fn attachments_dir_path(dir: &Option<String>) -> (r: String)
    ensures
        r@ == resolved(dir_view(*dir), attachments_dir_name()),
{
    resolve(dir, "attachments")
}

/// Path of the file behind attachment `a`, in the working directory `dir`.
pub fn attachment_path(dir: &Option<String>, a: &Attachment) -> (r: String)
    ensures
        r@ == resolved(dir_view(*dir), archive_relative(a.asset_url@)),
{
    let rel = strip_archive_root(a.asset_url.as_str());
    resolve(dir, rel.as_str())
}

} // verus!
