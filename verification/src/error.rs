use vstd::prelude::*;

use crate::paths::SourcePath;

verus! {

/// The failures the core can report.
///
/// `NotFound` is returned when a key has no document in the store; `Parse`
/// carries a parsing collaborator's complaint about malformed source,
/// propagated unchanged; `Derivation` reports a derivation function failing
/// on a stored document; `FeedBuild` reports a document that cannot become a
/// syndication entry, or a feed that does not validate.
#[allow(inconsistent_fields)]
#[derive(Debug)]
pub enum Error {
    NotFound { key: SourcePath },
    Parse { message: String },
    Derivation { key: SourcePath, message: String },
    FeedBuild { key: Option<SourcePath>, message: String },
}

impl Error {
    /// A short description of the failure, for reporting.
    pub fn describe(&self) -> (r: String)
        ensures
            r@ == self.describe_spec(),
    {
        match self {
            Error::NotFound { key } => {
                let mut m = key.0.clone();
                m.append(": no document has been set at this key");
                m
            },
            Error::Parse { message } => message.clone(),
            Error::Derivation { key, message } => {
                let mut m = key.0.clone();
                m.append(": ");
                m.append(message.as_str());
                m
            },
            Error::FeedBuild { key, message } => {
                match key {
                    Some(k) => {
                        let mut m = k.0.clone();
                        m.append(": ");
                        m.append(message.as_str());
                        m
                    },
                    None => message.clone(),
                }
            },
        }
    }

    /// What `describe` returns.
    pub open spec fn describe_spec(&self) -> Seq<char> {
        match self {
            Error::NotFound { key } => key@ + ": no document has been set at this key"@,
            Error::Parse { message } => message@,
            Error::Derivation { key, message } => key@ + ": "@ + message@,
            Error::FeedBuild { key, message } => match key {
                Some(k) => k@ + ": "@ + message@,
                None => message@,
            },
        }
    }
}

} // verus!
