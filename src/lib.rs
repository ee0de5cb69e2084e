//! Inventory of the attachments referenced by an exported issue-tracker
//! archive: choosing and merging the numbered metadata files, resolving each
//! asset reference to a path, ranking the attachments by size and labelling
//! them with the pull request, issue or issue comment they belong to.
use vstd::prelude::*;

pub mod discovery;
pub mod error;
pub mod paths;
pub mod ranking;
pub mod record;
pub mod text;
