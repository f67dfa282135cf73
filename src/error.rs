use vstd::prelude::*;

verus! {

/// The errors that the store, its server and its client tell apart.
#[derive(Debug, PartialEq, Eq)]
pub enum KvStoreError {
    /// A record or a wire message could not be decoded (its description).
    SerdeIo(String),
    /// A file or socket operation failed (its description).
    Io(String),
    /// `remove` of a key that is not bound.
    KeyNotFound,
    /// The server answered with an error message.
    ServerResponseErr(String),
    /// The embedded-database backend failed (its description).
    SledError(String),
    /// A stored value is not UTF-8 (its description).
    StringUtf8Error(String),
    /// The engine named at start-up disagrees with the one recorded earlier.
    EngineError,
    /// A configured socket address does not parse (its description).
    AddrParseError(String),
}

pub type Result<T> = core::result::Result<T, KvStoreError>;

/// Text of "Key not found".
pub open spec fn key_not_found_text() -> Seq<char> {
    seq!['K', 'e', 'y', ' ', 'n', 'o', 't', ' ', 'f', 'o', 'u', 'n', 'd']
}

/// Text of "Already created an engine conf".
pub open spec fn engine_error_text() -> Seq<char> {
    seq![
        'A', 'l', 'r', 'e', 'a', 'd', 'y', ' ', 'c', 'r', 'e', 'a', 't', 'e', 'd', ' ', 'a', 'n',
        ' ', 'e', 'n', 'g', 'i', 'n', 'e', ' ', 'c', 'o', 'n', 'f',
    ]
}

impl KvStoreError {
    /// The human-readable description of an error.
    pub open spec fn spec_message(&self) -> Seq<char> {
        match self {
            KvStoreError::SerdeIo(m) => m@,
            KvStoreError::Io(m) => m@,
            KvStoreError::KeyNotFound => key_not_found_text(),
            KvStoreError::ServerResponseErr(m) => m@,
            KvStoreError::SledError(m) => m@,
            KvStoreError::StringUtf8Error(m) => m@,
            KvStoreError::EngineError => engine_error_text(),
            KvStoreError::AddrParseError(m) => m@,
        }
    }

    /// The description sent to a client in an `Err` response.
    pub fn message(&self) -> (r: String)
        ensures
            r@ == self.spec_message(),
    {
        match self {
            KvStoreError::SerdeIo(m) => m.clone(),
            KvStoreError::Io(m) => m.clone(),
            KvStoreError::KeyNotFound => {
                let r = String::from_str("Key not found");
                proof {
                    reveal_strlit("Key not found");
                }
                r
            },
            KvStoreError::ServerResponseErr(m) => m.clone(),
            KvStoreError::SledError(m) => m.clone(),
            KvStoreError::StringUtf8Error(m) => m.clone(),
            KvStoreError::EngineError => {
                let r = String::from_str("Already created an engine conf");
                proof {
                    reveal_strlit("Already created an engine conf");
                }
                r
            },
            KvStoreError::AddrParseError(m) => m.clone(),
        }
    }
}

} // verus!
