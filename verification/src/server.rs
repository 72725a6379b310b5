use vstd::prelude::*;

use crate::command::LogRecord;
use crate::store::KvStore;

verus! {

/// A request that a client sends the server.
pub enum Command {
    /// Store `value` for `key`.
    Put { key: String, value: String },
    /// Answer the value stored for `key`.
    Get { key: String },
    /// Remove `key`.
    Delete { key: String },
}

/// The answer given for a key that holds no value.
pub open spec fn not_found_reply() -> Seq<char> {
    seq!['N', 'o', ' ', 'k', 'e', 'y', ' ', 'f', 'o', 'u', 'n', 'd']
}

/// The reply to a get request: the value found, or the not-found message.
pub fn get_reply(found: Option<String>) -> (reply: String)
    ensures
        reply@ == match found {
            Some(v) => v@,
            None => not_found_reply(),
        },
{
    match found {
        Some(v) => v,
        None => {
            proof {
                reveal_strlit("No key found");
            }
            "No key found".to_string()
        },
    }
}

/// Runs a request on the store and gives the reply to send back, if any.
/// For a set or a removal, `written` is the size of the record that encodes
/// it, already appended to the current write-ahead log; for a get, `stored`
/// is the record read at the pointer [`KvStore::locate`] gives for the key.
pub fn run_kv_command(store: &mut KvStore, command: Command, written: u64, stored: Option<
    LogRecord,
>) -> (reply: Option<String>)
    requires
        old(store).wf(),
        command is Get || (written > 0 && old(store).spec_storage().spec_offset() + written
            <= u64::MAX),
    ensures
        final(store).wf(),
        match command {
            Command::Put { key, value } => {
                &&& reply is None
                &&& final(store)@ == old(store)@.insert(key@, value@)
                &&& final(store).history() == old(store).history().push((key@, Some(value@)))
                &&& final(store).spec_locate(key@) matches Some(p) && p.offset == old(
                    store,
                ).spec_storage().spec_offset() && final(store).record_at(p.position()) == Some(
                    (key@, Some(value@)),
                )
                &&& final(store).spec_storage().spec_offset() == old(store).spec_storage().spec_offset()
                    + written
                &&& final(store).spec_storage().spec_current_wal() == old(
                    store,
                ).spec_storage().spec_current_wal()
            },
            Command::Get { key } => {
                &&& *final(store) == *old(store)
                &&& reply matches Some(r) && r@ == match stored {
                    Some(record) => match record@.1 {
                        Some(v) => v,
                        None => not_found_reply(),
                    },
                    None => not_found_reply(),
                }
                &&& (match old(store).spec_locate(key@) {
                    Some(p) => stored matches Some(record) && old(store).record_at(p.position())
                        == Some(record@),
                    None => stored is None,
                }) ==> (reply matches Some(r) && r@ == if old(store)@.contains_key(key@) {
                    old(store)@[key@]
                } else {
                    not_found_reply()
                })
            },
            Command::Delete { key } => {
                &&& reply is None
                &&& final(store)@ == old(store)@.remove(key@)
                &&& final(store).history() == old(store).history().push((key@, None))
                &&& final(store).spec_locate(key@) matches Some(p) && p.offset == old(
                    store,
                ).spec_storage().spec_offset() && final(store).record_at(p.position()) == Some(
                    (key@, None::<Seq<char>>),
                )
                &&& final(store).spec_storage().spec_offset() == old(store).spec_storage().spec_offset()
                    + written
                &&& final(store).spec_storage().spec_current_wal() == old(
                    store,
                ).spec_storage().spec_current_wal()
            },
        },
{
    match command {
        Command::Put { key, value } => {
            store.set(key, value, written);
            None
        },
        Command::Get { key } => {
            let found = store.get(&key, stored);
            Some(get_reply(found))
        },
        Command::Delete { key } => {
            store.remove(key, written);
            None
        },
    }
}

} // verus!
