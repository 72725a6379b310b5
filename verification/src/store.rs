use vstd::hash_map::StringHashMap;
use vstd::prelude::*;

use crate::command::{LogRecord, RecordModel};
use crate::file_storage::{LogPointer, StorageHandler};
use crate::frame::{
    concat_documents, frames_end, frames_from, frames_ordered, law_documents_written_in_turn_are_found,
    lemma_written_frames_offsets, whole_document, written_frames,
};

verus! {

/// The contents of a store after the records `history` have been applied in
/// order: a set gives its key its value, a removal takes the key out.
pub open spec fn replay(history: Seq<RecordModel>) -> Map<Seq<char>, Seq<char>>
    decreases history.len(),
{
    if history.len() == 0 {
        Map::empty()
    } else {
        apply_record(replay(history.drop_last()), history.last())
    }
}

/// The index in `history` of the latest record of `key`, or -1 where it
/// has none.
pub open spec fn latest_index(history: Seq<RecordModel>, key: Seq<char>) -> int
    decreases history.len(),
{
    if history.len() == 0 {
        -1
    } else if history.last().0 == key {
        history.len() - 1
    } else {
        latest_index(history.drop_last(), key)
    }
}

/// The contents after one record is applied to `contents`.
pub open spec fn apply_record(contents: Map<Seq<char>, Seq<char>>, record: RecordModel) -> Map<
    Seq<char>,
    Seq<char>,
> {
    match record.1 {
        Some(value) => contents.insert(record.0, value),
        None => contents.remove(record.0),
    }
}

/// The contents that an index gives, each key being resolved through the
/// record its pointer designates: a key is present when that record sets it.
pub open spec fn indexed_contents(
    index: Map<Seq<char>, LogPointer>,
    log: Map<(Seq<char>, u64), RecordModel>,
) -> Map<Seq<char>, Seq<char>> {
    Map::new(
        |k: Seq<char>|
            index.contains_key(k) && log.contains_key(index[k].position()) && log[index[k].position()].1 is Some,
        |k: Seq<char>| log[index[k].position()].1->Some_0,
    )
}

/// A key-value store kept as a write-ahead log and an index from each key to
/// the position of the latest record written for it.
pub struct KvStore {
    index_store: StringHashMap<LogPointer>,
    storage: StorageHandler,
    log: Ghost<Map<(Seq<char>, u64), RecordModel>>,
    history: Ghost<Seq<RecordModel>>,
}

impl View for KvStore {
    type V = Map<Seq<char>, Seq<char>>;

    /// The values the store holds, by key.
    closed spec fn view(&self) -> Map<Seq<char>, Seq<char>> {
        indexed_contents(self.index_store@, self.log@)
    }
}

impl KvStore {
    /// The records of the log, in the order they were read or written.
    pub closed spec fn history(&self) -> Seq<RecordModel> {
        self.history@
    }

    /// What the current write-ahead log holds at a position.
    pub closed spec fn record_at(&self, position: (Seq<char>, u64)) -> Option<RecordModel> {
        if self.log@.contains_key(position) {
            Some(self.log@[position])
        } else {
            None
        }
    }

    /// The pointer the index holds for `key`.
    pub closed spec fn spec_locate(&self, key: Seq<char>) -> Option<LogPointer> {
        if self.index_store@.contains_key(key) {
            Some(self.index_store@[key])
        } else {
            None
        }
    }

    /// The bookkeeping of the log files.
    pub closed spec fn spec_storage(&self) -> StorageHandler {
        self.storage
    }

    /// Every pointer of the index designates a record of its key in the
    /// current write-ahead log, every record lies before the offset of the
    /// next write, and the contents are those that the history replays to.
    pub closed spec fn wf(&self) -> bool {
        &&& self.storage.wf()
        &&& forall|k: Seq<char>|
            #[trigger] self.index_store@.contains_key(k) ==> {
                &&& self.log@.contains_key(self.index_store@[k].position())
                &&& self.log@[self.index_store@[k].position()].0 == k
            }
        &&& forall|pos: (Seq<char>, u64)|
            #[trigger] self.log@.contains_key(pos) ==> pos.0 == self.storage.spec_current_wal()
                && pos.1 < self.storage.spec_offset()
        &&& self@ == replay(self.history@)
        &&& forall|k: Seq<char>|
            #[trigger] latest_index(self.history@, k) >= 0 <==> self.index_store@.contains_key(k)
        &&& forall|k: Seq<char>|
            #[trigger] self.index_store@.contains_key(k) ==> self.log@[self.index_store@[k].position()]
                == self.history@[latest_index(self.history@, k)]
    }

    /// Pointing `key` at a record written at a position the log did not hold
    /// changes the contents as applying that record does.
    proof fn lemma_index_new_record(
        index: Map<Seq<char>, LogPointer>,
        log: Map<(Seq<char>, u64), RecordModel>,
        pointer: LogPointer,
        record: RecordModel,
    )
        requires
            !log.contains_key(pointer.position()),
            forall|k: Seq<char>|
                #[trigger] index.contains_key(k) ==> log.contains_key(index[k].position()),
        ensures
            indexed_contents(index.insert(record.0, pointer), log.insert(pointer.position(), record))
                == apply_record(indexed_contents(index, log), record),
    {
        let before = indexed_contents(index, log);
        let after = indexed_contents(
            index.insert(record.0, pointer),
            log.insert(pointer.position(), record),
        );
        let expected = apply_record(before, record);
        assert forall|k: Seq<char>| #[trigger] after.contains_key(k) == expected.contains_key(k) by {
            if k != record.0 && index.contains_key(k) {
                assert(index[k].position() != pointer.position());
            }
        }
        assert forall|k: Seq<char>| #[trigger] after.contains_key(k) implies after[k] == expected[k] by {
            if k != record.0 {
                assert(index[k].position() != pointer.position());
            }
        }
        assert(after =~= expected);
    }

    /// A store over the log files that `storage` keeps, whose current
    /// write-ahead log holds, at the offsets of `frames`, the documents
    /// `records`; each key is pointed at its latest record.
    pub fn new(storage: StorageHandler, frames: &Vec<(u64, u64)>, records: Vec<LogRecord>) -> (store:
        KvStore)
        requires
            storage.wf(),
            frames@.len() == records@.len(),
            frames_ordered(frames@, storage.spec_offset() as int),
        ensures
            store.wf(),
            store.history() == records@.map_values(|r: LogRecord| r@),
            store@ == replay(store.history()),
            store.spec_storage() == storage,
            forall|i: int|
                0 <= i < frames@.len() ==> store.record_at(
                    (storage.spec_current_wal(), #[trigger] frames@[i].0),
                ) == Some(records@[i]@),
            forall|pos: (Seq<char>, u64)|
                #[trigger] store.record_at(pos) is Some ==> pos.0 == storage.spec_current_wal()
                    && exists|i: int| 0 <= i < frames@.len() && pos.1 == (#[trigger] frames@[i]).0,
            forall|k: Seq<char>|
                {
                    let j = #[trigger] latest_index(store.history(), k);
                    &&& j < 0 ==> store.spec_locate(k) is None
                    &&& j >= 0 ==> (store.spec_locate(k) matches Some(p) && p.offset == frames@[j].0
                        && p.filename@ == storage.spec_current_wal() && p.log_age
                        == storage.spec_compaction_index())
                },
    {
        let entries = storage.read_all_logs(frames, &records);
        let ghost wal = storage.spec_current_wal();
        let ghost models = records@.map_values(|r: LogRecord| r@);
        let mut store = KvStore {
            index_store: StringHashMap::new(),
            storage,
            log: Ghost(Map::empty()),
            history: Ghost(Seq::empty()),
        };
        assert(store@ =~= Map::empty());
        assert(models.take(0) =~= Seq::<RecordModel>::empty());
        let mut i: usize = 0;
        while i < entries.len()
            invariant
                store.storage.wf(),
                store.storage == storage,
                wal == storage.spec_current_wal(),
                i <= entries@.len(),
                entries@.len() == frames@.len(),
                frames@.len() == records@.len(),
                models == records@.map_values(|r: LogRecord| r@),
                frames_ordered(frames@, storage.spec_offset() as int),
                forall|j: int|
                    0 <= j < entries@.len() ==> {
                        &&& (#[trigger] entries@[j]).0.offset == frames@[j].0
                        &&& entries@[j].0.filename@ == wal
                        &&& entries@[j].0.log_age == storage.spec_compaction_index()
                        &&& entries@[j].1@ == records@[j]@.0
                    },
                forall|j: int|
                    0 <= j < i ==> store.log@.contains_key((wal, #[trigger] frames@[j].0))
                        && store.log@[(wal, frames@[j].0)] == models[j],
                forall|k: Seq<char>|
                    {
                        let jj = #[trigger] latest_index(models.take(i as int), k);
                        &&& jj < 0 ==> !store.index_store@.contains_key(k)
                        &&& jj >= 0 ==> store.index_store@.contains_key(k) && store.index_store@[k].offset
                            == frames@[jj].0 && store.index_store@[k].filename@ == wal
                            && store.index_store@[k].log_age == storage.spec_compaction_index()
                    },
                forall|k: Seq<char>|
                    #[trigger] store.index_store@.contains_key(k) ==> {
                        &&& store.log@.contains_key(store.index_store@[k].position())
                        &&& store.log@[store.index_store@[k].position()].0 == k
                    },
                forall|pos: (Seq<char>, u64)|
                    #[trigger] store.log@.contains_key(pos) ==> pos.0 == wal && exists|j: int|
                        0 <= j < i && pos.1 == (#[trigger] frames@[j]).0,
                store.history@ == models.take(i as int),
                store@ == replay(store.history@),
            decreases entries@.len() - i,
        {
            let key = entries[i].1.clone();
            let pointer = entries[i].0.duplicate();
            let ghost record = records@[i as int]@;
            assert(record == models[i as int]);
            assert(pointer.position() == (wal, frames@[i as int].0));
            assert(!store.log@.contains_key(pointer.position())) by {
                if store.log@.contains_key(pointer.position()) {
                    let j = choose|j: int| 0 <= j < i && pointer.position().1 == (#[trigger] frames@[j]).0;
                    assert(frames@[j].0 + frames@[j].1 <= frames@[i as int].0);
                    assert(frames@[j].1 >= 5);
                }
            }
            proof {
                KvStore::lemma_index_new_record(store.index_store@, store.log@, pointer, record);
            }
            store.index_store.insert(key, pointer);
            let ghost old_log = store.log@;
            proof {
                store.log@ = store.log@.insert(pointer.position(), record);
                store.history@ = store.history@.push(record);
                assert(models.take(i + 1 as int).drop_last() =~= models.take(i as int));
                assert(store.history@ =~= models.take(i + 1 as int));
            }
            assert forall|j: int| 0 <= j < i + 1 implies store.log@.contains_key(
                (wal, #[trigger] frames@[j].0),
            ) && store.log@[(wal, frames@[j].0)] == models[j] by {
                if j < i {
                    assert(frames@[j].0 + frames@[j].1 <= frames@[i as int].0);
                    assert(frames@[j].1 >= 5);
                    assert(old_log.contains_key((wal, frames@[j].0)));
                }
            }
            assert forall|k: Seq<char>|
                {
                    let jj = #[trigger] latest_index(models.take(i + 1 as int), k);
                    &&& jj < 0 ==> !store.index_store@.contains_key(k)
                    &&& jj >= 0 ==> store.index_store@.contains_key(k) && store.index_store@[k].offset
                        == frames@[jj].0 && store.index_store@[k].filename@ == wal
                        && store.index_store@[k].log_age == storage.spec_compaction_index()
                } by {
                assert(models.take(i + 1 as int).last() == models[i as int]);
                assert(latest_index(models.take(i as int), k) < i) by {
                    lemma_latest_index_bounded(models.take(i as int), k);
                }
            }
            assert forall|pos: (Seq<char>, u64)|
                #[trigger] store.log@.contains_key(pos) implies pos.0 == wal && exists|j: int|
                0 <= j < i + 1 && pos.1 == (#[trigger] frames@[j]).0 by {
                if pos == pointer.position() {
                    assert(pos.1 == frames@[i as int].0);
                }
            }
            i = i + 1;
        }
        assert(models.take(models.len() as int) =~= models);
        assert forall|i: int|
            0 <= i < frames@.len() implies store.record_at(
            (storage.spec_current_wal(), #[trigger] frames@[i].0),
        ) == Some(records@[i]@) by {
            assert(models[i] == records@[i]@);
        }
        assert forall|k: Seq<char>|
            {
                let j = #[trigger] latest_index(store.history(), k);
                &&& j < 0 ==> store.spec_locate(k) is None
                &&& j >= 0 ==> (store.spec_locate(k) matches Some(p) && p.offset == frames@[j].0
                    && p.filename@ == storage.spec_current_wal() && p.log_age
                    == storage.spec_compaction_index())
            } by {
            assert(latest_index(models.take(models.len() as int), k) == latest_index(models, k));
        }
        assert forall|k: Seq<char>|
            #[trigger] latest_index(store.history@, k) >= 0 <==> store.index_store@.contains_key(k) by {
            assert(latest_index(models.take(models.len() as int), k) == latest_index(models, k));
        }
        assert forall|k: Seq<char>| #[trigger] store.index_store@.contains_key(k) implies store.log@[store.index_store@[k].position()]
            == store.history@[latest_index(store.history@, k)] by {
            assert(latest_index(models.take(models.len() as int), k) == latest_index(models, k));
            lemma_latest_index_bounded(models, k);
            let j = latest_index(models, k);
            assert(store.log@.contains_key((wal, frames@[j].0)));
        }
        assert forall|pos: (Seq<char>, u64)| #[trigger] store.log@.contains_key(pos) implies pos.0
            == store.storage.spec_current_wal() && pos.1 < store.storage.spec_offset() by {
            let j = choose|j: int| 0 <= j < frames@.len() && pos.1 == (#[trigger] frames@[j]).0;
            assert(frames@[j].1 >= 5);
        }
        store
    }

    /// Offset in the current write-ahead log at which the next record goes.
    pub fn current_offset(&self) -> (offset: u64)
        ensures
            offset == self.spec_storage().spec_offset(),
    {
        self.storage.current_offset()
    }

    /// Records that a set of `key` to `value`, encoded in `written` bytes,
    /// was appended to the current write-ahead log.
    pub fn set(&mut self, key: String, value: String, written: u64)
        requires
            old(self).wf(),
            written > 0,
            old(self).spec_storage().spec_offset() + written <= u64::MAX,
        ensures
            final(self).wf(),
            final(self)@ == old(self)@.insert(key@, value@),
            final(self).history() == old(self).history().push((key@, Some(value@))),
            final(self).spec_storage().spec_offset() == old(self).spec_storage().spec_offset()
                + written,
            final(self).spec_storage().spec_current_wal() == old(
                self,
            ).spec_storage().spec_current_wal(),
            final(self).spec_locate(key@) matches Some(p) && p.offset == old(
                self,
            ).spec_storage().spec_offset() && p.filename@ == old(
                self,
            ).spec_storage().spec_current_wal() && p.log_age == old(
                self,
            ).spec_storage().spec_compaction_index() && final(self).record_at(p.position())
                == Some((key@, Some(value@))),
            forall|k: Seq<char>| k != key@ ==> #[trigger] final(self).spec_locate(k) == old(
                self,
            ).spec_locate(k),
            forall|pos: (Seq<char>, u64)|
                old(self).record_at(pos) is Some ==> #[trigger] final(self).record_at(pos) == old(
                    self,
                ).record_at(pos),
            forall|pos: (Seq<char>, u64)|
                #[trigger] final(self).record_at(pos) is Some ==> old(self).record_at(pos) is Some
                    || pos == (old(self).spec_storage().spec_current_wal(), old(
                    self,
                ).spec_storage().spec_offset()),
            final(self).spec_storage().spec_compaction_index() == old(
                self,
            ).spec_storage().spec_compaction_index(),
            final(self).spec_storage().spec_wal_files() == old(self).spec_storage().spec_wal_files(),
            final(self).spec_storage().spec_compacted_files() == old(
                self,
            ).spec_storage().spec_compacted_files(),
    {
        let record = LogRecord::Put(key.clone(), value);
        self.append(key, record, written);
    }

    /// Records that a removal of `key`, encoded in `written` bytes, was
    /// appended to the current write-ahead log.
    pub fn remove(&mut self, key: String, written: u64)
        requires
            old(self).wf(),
            written > 0,
            old(self).spec_storage().spec_offset() + written <= u64::MAX,
        ensures
            final(self).wf(),
            final(self)@ == old(self)@.remove(key@),
            final(self).history() == old(self).history().push((key@, None)),
            final(self).spec_storage().spec_offset() == old(self).spec_storage().spec_offset()
                + written,
            final(self).spec_storage().spec_current_wal() == old(
                self,
            ).spec_storage().spec_current_wal(),
            final(self).spec_locate(key@) matches Some(p) && p.offset == old(
                self,
            ).spec_storage().spec_offset() && p.filename@ == old(
                self,
            ).spec_storage().spec_current_wal() && p.log_age == old(
                self,
            ).spec_storage().spec_compaction_index() && final(self).record_at(p.position())
                == Some((key@, None::<Seq<char>>)),
            forall|k: Seq<char>| k != key@ ==> #[trigger] final(self).spec_locate(k) == old(
                self,
            ).spec_locate(k),
            forall|pos: (Seq<char>, u64)|
                old(self).record_at(pos) is Some ==> #[trigger] final(self).record_at(pos) == old(
                    self,
                ).record_at(pos),
            forall|pos: (Seq<char>, u64)|
                #[trigger] final(self).record_at(pos) is Some ==> old(self).record_at(pos) is Some
                    || pos == (old(self).spec_storage().spec_current_wal(), old(
                    self,
                ).spec_storage().spec_offset()),
            final(self).spec_storage().spec_compaction_index() == old(
                self,
            ).spec_storage().spec_compaction_index(),
            final(self).spec_storage().spec_wal_files() == old(self).spec_storage().spec_wal_files(),
            final(self).spec_storage().spec_compacted_files() == old(
                self,
            ).spec_storage().spec_compacted_files(),
    {
        let record = LogRecord::Delete(key.clone());
        self.append(key, record, written);
    }

    fn append(&mut self, key: String, record: LogRecord, written: u64)
        requires
            old(self).wf(),
            written > 0,
            old(self).spec_storage().spec_offset() + written <= u64::MAX,
            record@.0 == key@,
        ensures
            final(self).wf(),
            final(self)@ == apply_record(old(self)@, record@),
            final(self).history() == old(self).history().push(record@),
            final(self).spec_storage().spec_offset() == old(self).spec_storage().spec_offset()
                + written,
            final(self).spec_storage().spec_current_wal() == old(
                self,
            ).spec_storage().spec_current_wal(),
            final(self).spec_locate(key@) matches Some(p) && p.offset == old(
                self,
            ).spec_storage().spec_offset() && p.filename@ == old(
                self,
            ).spec_storage().spec_current_wal() && p.log_age == old(
                self,
            ).spec_storage().spec_compaction_index() && final(self).record_at(p.position())
                == Some(record@),
            forall|k: Seq<char>| k != key@ ==> #[trigger] final(self).spec_locate(k) == old(
                self,
            ).spec_locate(k),
            forall|pos: (Seq<char>, u64)|
                old(self).record_at(pos) is Some ==> #[trigger] final(self).record_at(pos) == old(
                    self,
                ).record_at(pos),
            forall|pos: (Seq<char>, u64)|
                #[trigger] final(self).record_at(pos) is Some ==> old(self).record_at(pos) is Some
                    || pos == (old(self).spec_storage().spec_current_wal(), old(
                    self,
                ).spec_storage().spec_offset()),
            final(self).spec_storage().spec_compaction_index() == old(
                self,
            ).spec_storage().spec_compaction_index(),
            final(self).spec_storage().spec_wal_files() == old(self).spec_storage().spec_wal_files(),
            final(self).spec_storage().spec_compacted_files() == old(
                self,
            ).spec_storage().spec_compacted_files(),
    {
        let ghost wal = self.storage.spec_current_wal();
        let pointer = self.storage.write_record(written);
        assert(!self.log@.contains_key(pointer.position()));
        proof {
            KvStore::lemma_index_new_record(self.index_store@, self.log@, pointer, record@);
        }
        self.index_store.insert(key, pointer);
        proof {
            self.log@ = self.log@.insert(pointer.position(), record@);
            self.history@ = self.history@.push(record@);
            assert(self.history@.drop_last() =~= old(self).history@);
            assert forall|k: Seq<char>| #[trigger] self.index_store@.contains_key(k) implies self.log@[self.index_store@[k].position()]
                == self.history@[latest_index(self.history@, k)] by {
                if k != key@ {
                    lemma_latest_index_bounded(old(self).history@, k);
                    assert(self.index_store@[k].position() != pointer.position());
                }
            }
            assert forall|k: Seq<char>|
                #[trigger] latest_index(self.history@, k) >= 0 <==> self.index_store@.contains_key(k) by {
                if k != key@ {
                    assert(latest_index(old(self).history@, k) >= 0 <==> old(
                        self,
                    ).index_store@.contains_key(k));
                }
            }
        }
    }

    /// The pointer the index holds for `key`: where the latest record of
    /// `key` lies, if one was written.
    pub fn locate(&self, key: &String) -> (pointer: Option<LogPointer>)
        requires
            self.wf(),
        ensures
            pointer == self.spec_locate(key@),
            match pointer {
                Some(p) => self.record_at(p.position()) matches Some(record) && record.0 == key@
                    && record.1 == (if self@.contains_key(key@) {
                    Some(self@[key@])
                } else {
                    None
                }),
                None => !self@.contains_key(key@),
            },
    {
        match self.index_store.get(key.as_str()) {
            Some(p) => Some(p.duplicate()),
            None => None,
        }
    }

    /// The value of `key`, given `stored`: the record read at the pointer
    /// that [`Self::locate`] gives for `key`, or `None` where it gives none.
    pub fn get(&self, key: &String, stored: Option<LogRecord>) -> (value: Option<String>)
        requires
            self.wf(),
        ensures
            match stored {
                Some(record) => match value {
                    Some(v) => record@.1 == Some(v@),
                    None => record@.1 is None,
                },
                None => value is None,
            },
            (match self.spec_locate(key@) {
                Some(p) => stored matches Some(record) && self.record_at(p.position()) == Some(
                    record@,
                ),
                None => stored is None,
            }) ==> match value {
                Some(v) => self@.contains_key(key@) && self@[key@] == v@,
                None => !self@.contains_key(key@),
            },
    {
        match stored {
            None => None,
            Some(record) => record.value(),
        }
    }
}

proof fn lemma_latest_index_bounded(history: Seq<RecordModel>, key: Seq<char>)
    ensures
        -1 <= latest_index(history, key) < history.len(),
        latest_index(history, key) >= 0 ==> history[latest_index(history, key)].0 == key,
    decreases history.len(),
{
    if history.len() > 0 && history.last().0 != key {
        lemma_latest_index_bounded(history.drop_last(), key);
    }
}

/// The contents of a store are what its log replays to, so that a store
/// rebuilt from the same log holds the same contents.
pub proof fn law_reloading_the_log_restores_contents(store: KvStore, reloaded: KvStore)
    requires
        store.wf(),
        reloaded.wf(),
        reloaded.history() == store.history(),
    ensures
        store@ == replay(store.history()),
        reloaded@ == store@,
{
}

/// Records that `set` and `remove` appended as documents, one after
/// another, at the end of a log whose scan consumes it up to its end, are
/// found by a later scan after the log's earlier documents, each at the
/// offset `write_record` gave it: the log's end plus the sizes of the
/// documents written before it. A store rebuilt from the records of that log
/// holds the contents of the store that wrote them.
pub proof fn law_written_records_reload(
    store: KvStore,
    reloaded: KvStore,
    log: Seq<u8>,
    documents: Seq<Seq<u8>>,
)
    requires
        store.wf(),
        reloaded.wf(),
        log.len() + concat_documents(documents).len() <= u64::MAX,
        frames_from(log, 0) is Ok,
        frames_end(frames_from(log, 0)->Ok_0, 0) == log.len(),
        forall|i: int| 0 <= i < documents.len() ==> whole_document(#[trigger] documents[i]),
        reloaded.history() == store.history(),
    ensures
        frames_from(log + concat_documents(documents), 0) == Ok::<Seq<(u64, u64)>, u64>(
            frames_from(log, 0)->Ok_0 + written_frames(log.len() as int, documents),
        ),
        written_frames(log.len() as int, documents).len() == documents.len(),
        forall|i: int|
            0 <= i < documents.len() ==> #[trigger] written_frames(log.len() as int, documents)[i]
                == (
                (log.len() + concat_documents(documents.take(i)).len()) as u64,
                documents[i].len() as u64,
            ),
        reloaded@ == store@,
{
    law_documents_written_in_turn_are_found(log, documents);
    lemma_written_frames_offsets(log.len() as int, documents);
}

/// The index points each key at the latest record of that key in the log,
/// and holds no pointer for a key the log has no record of.
pub proof fn law_index_points_at_latest_record(store: KvStore, key: Seq<char>)
    requires
        store.wf(),
    ensures
        match store.spec_locate(key) {
            Some(p) => latest_index(store.history(), key) >= 0 && store.record_at(p.position())
                == Some(store.history()[latest_index(store.history(), key)]),
            None => latest_index(store.history(), key) < 0,
        },
{
    assert(latest_index(store.history(), key) >= 0 <==> store.index_store@.contains_key(key));
}

/// The latest record of a key decides it: records of other keys written
/// after it leave its value as that record gave it.
pub proof fn law_latest_record_decides(
    before: Seq<RecordModel>,
    record: RecordModel,
    after: Seq<RecordModel>,
)
    requires
        forall|i: int| 0 <= i < after.len() ==> (#[trigger] after[i]).0 != record.0,
    ensures
        replay(before.push(record) + after).contains_key(record.0) == (record.1 is Some),
        record.1 matches Some(v) ==> replay(before.push(record) + after)[record.0] == v,
    decreases after.len(),
{
    if after.len() == 0 {
        assert(before.push(record) + after =~= before.push(record));
    } else {
        let shorter = after.drop_last();
        assert forall|i: int| 0 <= i < shorter.len() implies (#[trigger] shorter[i]).0
            != record.0 by {
            assert(shorter[i] == after[i]);
        }
        law_latest_record_decides(before, record, shorter);
        assert((before.push(record) + after).drop_last() =~= before.push(record) + shorter);
        assert((before.push(record) + after).last() == after.last());
    }
}

} // verus!
