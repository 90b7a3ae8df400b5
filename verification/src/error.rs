//! What can go wrong.

use vstd::prelude::*;
use vstd::string::*;

verus! {

/// What can go wrong.
#[derive(Debug)]
pub enum Error {
    /// There is nothing under the key.
    KeyNotFound(String),
    /// Nothing fits the query.
    NoMatches(String),
    /// The alias is taken, by the path given.
    LinkExists(String, String),
}

/// What is said of an error.
pub open spec fn said(e: Error) -> Seq<char> {
    match e {
        Error::KeyNotFound(key) => "key '"@ + key@ + "' not found"@,
        Error::NoMatches(query) => "no matches found for '"@ + query@ + "'"@,
        Error::LinkExists(alias, path) => "link already exists: '"@ + alias@ + "' → "@ + path@,
    }
}

impl Error {
    /// What is said of the error.
    pub fn message(&self) -> (r: String)
        ensures
            r@ == said(*self),
    {
        let mut out = String::new();
        match self {
            Error::KeyNotFound(key) => {
                out.append("key '");
                out.append(key.as_str());
                out.append("' not found");
            },
            Error::NoMatches(query) => {
                out.append("no matches found for '");
                out.append(query.as_str());
                out.append("'");
            },
            Error::LinkExists(alias, path) => {
                out.append("link already exists: '");
                out.append(alias.as_str());
                out.append("' → ");
                out.append(path.as_str());
            },
        }
        assert(out@ =~= said(*self));
        out
    }
}

} // verus!
