use vstd::prelude::*;

use crate::error::KVResult;

verus! {

/// The interface of a storage engine that a server can run on.
pub trait KvsEngine {
    /// The value stored for `key`, or `None` where there is none.
    fn get(&self, key: String) -> KVResult<Option<String>>;

    /// Stores `value` for `key`.
    fn set(&mut self, key: String, value: String) -> KVResult<()>;

    /// Removes `key` and its value.
    fn remove(&mut self, key: String) -> KVResult<()>;
}

} // verus!
