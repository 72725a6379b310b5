use vstd::prelude::*;

verus! {

/// A record of the log: one update of the store.
pub enum LogRecord {
    /// The key (first) was set to the value (second).
    Put(String, String),
    /// The key was removed.
    Delete(String),
}

/// What a record means: the key it is about, and the value it sets, or
/// `None` for a removal.
pub type RecordModel = (Seq<char>, Option<Seq<char>>);

impl View for LogRecord {
    type V = RecordModel;

    open spec fn view(&self) -> RecordModel {
        match self {
            LogRecord::Put(k, v) => (k@, Some(v@)),
            LogRecord::Delete(k) => (k@, None),
        }
    }
}

impl LogRecord {
    /// The key of the record.
    pub fn get_key(&self) -> (key: String)
        ensures
            key@ == self@.0,
    {
        match self {
            LogRecord::Delete(k) => k.clone(),
            LogRecord::Put(k, _) => k.clone(),
        }
    }

    /// The value that the record gives its key: `Some` for a set, `None` for
    /// a removal.
    pub fn value(&self) -> (value: Option<String>)
        ensures
            match value {
                Some(v) => self@.1 == Some(v@),
                None => self@.1 is None,
            },
    {
        match self {
            LogRecord::Delete(_) => None,
            LogRecord::Put(_, v) => Some(v.clone()),
        }
    }

    /// A copy of the record.
    pub fn duplicate(&self) -> (copy: LogRecord)
        ensures
            copy@ == self@,
    {
        match self {
            LogRecord::Delete(k) => LogRecord::Delete(k.clone()),
            LogRecord::Put(k, v) => LogRecord::Put(k.clone(), v.clone()),
        }
    }
}

} // verus!
