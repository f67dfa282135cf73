//! The storage engine: its interface, its log records and the bookkeeping
//! of its index.
use vstd::prelude::*;
use crate::error::Result;

pub mod files;
pub mod index;
pub mod record;

verus! {

/// A store the server can serve from: any engine with these three
/// operations whose handle can be duplicated and sent to a worker.
///
/// Each operation's outcome is named by a predicate that the engine
/// defines: `set_returns(k, v, r)` holds when `r` is what `set` returned
/// for `k` and `v`, and likewise for the others. Callers thereby know
/// which operation produced a result, on which key and value. Engines
/// outside the verified library keep the opaque defaults.
pub trait KvsEngine: Clone + Send + 'static {
    /// `r` is a result `set(key, value)` gives on this engine.
    closed spec fn set_returns(&self, key: Seq<char>, value: Seq<char>, r: Result<()>) -> bool {
        true
    }

    /// `r` is a result `get(key)` gives on this engine.
    closed spec fn get_returns(&self, key: Seq<char>, r: Result<Option<String>>) -> bool {
        true
    }

    /// `r` is a result `remove(key)` gives on this engine.
    closed spec fn remove_returns(&self, key: Seq<char>, r: Result<()>) -> bool {
        true
    }

    /// Binds `key` to `value`.
    fn set(&self, key: String, value: String) -> (r: Result<()>)
        ensures
            self.set_returns(key@, value@, r),
    ;

    /// The value bound to `key`, if any.
    fn get(&self, key: String) -> (r: Result<Option<String>>)
        ensures
            self.get_returns(key@, r),
    ;

    /// Unbinds `key`; `KeyNotFound` when it is not bound.
    fn remove(&self, key: String) -> (r: Result<()>)
        ensures
            self.remove_returns(key@, r),
    ;
}

} // verus!
