//! Identifiers read from the repository: commit hashes and branch names.
//!
//! Both are opaque texts. Their view is the sequence of their characters, and
//! two identifiers denote the same object exactly when their views are equal.

use vstd::prelude::*;
use crate::text::{first_word, trim, trimmed, words_of};

verus! {

/// The canonical identifier of a commit.
#[derive(Debug, PartialEq, Eq, Hash)]
pub struct CommitHash(String);

impl View for CommitHash {
    type V = Seq<char>;

    closed spec fn view(&self) -> Seq<char> {
        self.0@
    }
}

impl CommitHash {
    /// Wraps an identifier that the repository has already canonicalised.
    pub fn new(text: String) -> (hash: CommitHash)
        ensures
            hash@ == text@,
    {
        CommitHash(text)
    }

    /// Reads the identifier that the repository printed: the output without
    /// the white space around it.
    pub fn from_output(output: &str) -> (hash: CommitHash)
        ensures
            hash@ == trimmed(output@),
    {
        CommitHash(trim(output))
    }

    /// The patch id of this commit, read from what the repository printed
    /// for it: the first word, if there is one.
    pub fn get_patch_id(&self, output: &str) -> (id: Option<String>)
        ensures
            id is Some <==> words_of(output@).len() > 0,
            id matches Some(word) ==> word@ == words_of(output@)[0],
    {
        first_word(output)
    }

    /// Whether both identifiers name the same commit.
    pub fn same(&self, other: &CommitHash) -> (b: bool)
        ensures
            b == (self@ == other@),
    {
        self.0 == other.0
    }

    /// The identifier's text.
    pub fn as_ref(&self) -> (text: &String)
        ensures
            text@ == self@,
    {
        &self.0
    }

    /// Gives up the identifier for its text.
    pub fn into(self) -> (text: String)
        ensures
            text@ == self@,
    {
        self.0
    }

    /// A copy of the identifier's text, as it is shown to the user.
    pub fn to_string(&self) -> (text: String)
        ensures
            text@ == self@,
    {
        self.0.clone()
    }
}

impl Clone for CommitHash {
    fn clone(&self) -> (copy: CommitHash)
        ensures
            copy@ == self@,
    {
        CommitHash(self.0.clone())
    }
}

impl Default for CommitHash {
    fn default() -> (hash: CommitHash)
        ensures
            hash@ == Seq::<char>::empty(),
    {
        CommitHash(String::new())
    }
}

/// The name of a local branch.
#[derive(Debug, PartialEq, Eq, PartialOrd, Ord, Hash)]
pub struct Branch(String);

impl View for Branch {
    type V = Seq<char>;

    closed spec fn view(&self) -> Seq<char> {
        self.0@
    }
}

impl Branch {
    /// Wraps a branch name as the repository lists it.
    pub fn new(name: String) -> (branch: Branch)
        ensures
            branch@ == name@,
    {
        Branch(name)
    }

    /// Whether both are the same branch.
    pub fn same(&self, other: &Branch) -> (b: bool)
        ensures
            b == (self@ == other@),
    {
        self.0 == other.0
    }

    /// The branch's name.
    pub fn as_ref(&self) -> (name: &String)
        ensures
            name@ == self@,
    {
        &self.0
    }

    /// Gives up the branch for its name.
    pub fn into(self) -> (name: String)
        ensures
            name@ == self@,
    {
        self.0
    }

    /// A copy of the branch's name, as it is shown to the user.
    pub fn to_string(&self) -> (name: String)
        ensures
            name@ == self@,
    {
        self.0.clone()
    }
}

impl Clone for Branch {
    fn clone(&self) -> (copy: Branch)
        ensures
            copy@ == self@,
    {
        Branch(self.0.clone())
    }
}

} // verus!
