use vstd::prelude::*;

pub mod config;
pub mod crypto;
pub mod github;
pub mod gpg;
pub mod ios;
pub mod order;
pub mod store;
pub mod text;
pub mod totp;
pub mod tree;

verus! {

/// What goes wrong in the core library.
#[derive(Debug)]
pub enum CoreError {
    Crypto(String),
    Store(String),
    Git(String),
    Http(String),
    Io(String),
}

/// The message of an error: a label for its kind, then its detail.
pub open spec fn core_message(e: CoreError) -> Seq<char> {
    match e {
        CoreError::Crypto(d) => "crypto error: "@ + d@,
        CoreError::Store(d) => "store error: "@ + d@,
        CoreError::Git(d) => "git error: "@ + d@,
        CoreError::Http(d) => "http error: "@ + d@,
        CoreError::Io(d) => "io error: "@ + d@,
    }
}

impl CoreError {
    /// The message of the error (see `core_message`).
    pub fn message(&self) -> (m: String)
        ensures
            m@ == core_message(*self),
    {
        let (label, detail) = match self {
            CoreError::Crypto(d) => ("crypto error: ", d),
            CoreError::Store(d) => ("store error: ", d),
            CoreError::Git(d) => ("git error: ", d),
            CoreError::Http(d) => ("http error: ", d),
            CoreError::Io(d) => ("io error: ", d),
        };
        let mut m = label.to_owned();
        m.append(detail.as_str());
        m
    }
}

/// The name by which the core library identifies itself.
pub fn version_tag() -> (tag: &'static str)
    ensures
        tag@ == "passero-core"@,
{
    "passero-core"
}

} // verus!
