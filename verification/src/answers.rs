//! What the repository prints in answer to a question, read.
//!
//! The caller runs the repository's program and hands over what it printed.
//! A name or a hash is printed with a line end behind it; a list is printed
//! one entry to a line.

use vstd::prelude::*;
use crate::ids::CommitHash;
use crate::text::{lines, lines_of, texts_of, trim, trimmed};

verus! {

impl CommitHash {
    /// The symbolic name of this commit, read from what the repository
    /// printed for it: the output without the white space around it.
    pub fn get_name_rev(&self, output: &str) -> (name: String)
        ensures
            name@ == trimmed(output@),
    {
        trim(output)
    }

    /// The short form of this commit's hash, read from what the repository
    /// printed for it: the output without the white space around it.
    pub fn get_short_hash(&self, output: &str) -> (short: String)
        ensures
            short@ == trimmed(output@),
    {
        trim(output)
    }

    /// The one-line summary of this commit, read from what the repository
    /// printed for it: the output without the white space around it.
    pub fn get_commit_message_short(&self, output: &str) -> (summary: String)
        ensures
            summary@ == trimmed(output@),
    {
        trim(output)
    }
}

/// The local branches as the repository lists them, one to a line, with
/// the marks it puts before them.
pub fn branches(output: &str) -> (listed: Vec<String>)
    ensures
        texts_of(listed@) == lines_of(output@),
{
    lines(output)
}

/// The names of the branches whose history contains the current commit, as
/// the repository lists them, one to a line.
pub fn get_branches_containing_head(output: &str) -> (listed: Vec<String>)
    ensures
        texts_of(listed@) == lines_of(output@),
{
    lines(output)
}

/// The best common ancestor of two commits, read from what the repository
/// printed: the output without the white space around it.
pub fn get_merge_base(output: &str) -> (base: CommitHash)
    ensures
        base@ == trimmed(output@),
{
    CommitHash::from_output(output)
}

/// The best common ancestor of several commits, read from what the
/// repository printed: the output without the white space around it.
pub fn multi_merge_base(output: &str) -> (base: CommitHash)
    ensures
        base@ == trimmed(output@),
{
    CommitHash::from_output(output)
}

/// The top directory of the working tree, read from what the repository
/// printed: the output without the white space around it.
pub fn get_repo_root(output: &str) -> (root: String)
    ensures
        root@ == trimmed(output@),
{
    trim(output)
}

} // verus!
