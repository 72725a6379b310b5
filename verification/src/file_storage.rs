use vstd::prelude::*;

use crate::command::LogRecord;
use crate::frame::concat_documents;
use crate::key_order::{key_less, key_lt, lemma_key_lt_irreflexive, lemma_key_lt_total, lemma_key_lt_transitive};
use crate::naming::{compact_file_name, compact_name, wal_file_name, wal_name};

verus! {

/// Where a record of the log lies: the file that holds it and the byte
/// offset at which its document starts.
#[derive(Debug, Clone)]
pub struct LogPointer {
    /// Byte offset of the record's document in its file.
    pub offset: u64,
    /// The compaction round in which the pointer was made; newer pointers
    /// supersede older ones.
    pub log_age: u8,
    /// The file that holds the record.
    pub filename: String,
}

impl LogPointer {
    /// The position the pointer designates: file name and offset.
    pub open spec fn position(&self) -> (Seq<char>, u64) {
        (self.filename@, self.offset)
    }

    /// A copy of the pointer.
    pub fn duplicate(&self) -> (copy: LogPointer)
        ensures
            copy == *self,
    {
        LogPointer { offset: self.offset, log_age: self.log_age, filename: self.filename.clone() }
    }
}

/// The bookkeeping of the log files: the current write-ahead log, the
/// offset at which the next record will be written, and the files that
/// compaction has produced so far.
pub struct StorageHandler {
    current_offset: u64,
    compaction_index: u8,
    compacted_files: Vec<String>,
    temp_files: Vec<String>,
}

/// The file names that a compaction works on, as it starts.
pub struct CompactionStart {
    /// The write-ahead log whose records are compacted.
    pub compacted_wal: String,
    /// The output of the previous compaction, whose records are merged in,
    /// if there was one.
    pub previous_compacted: Option<String>,
    /// The write-ahead log that takes new records from now on.
    pub new_wal: String,
}

/// The sum of the first `n` of `sizes`.
pub open spec fn prefix_sum(sizes: Seq<u64>, n: int) -> int
    decreases n,
{
    if n <= 0 {
        0
    } else {
        prefix_sum(sizes, n - 1) + sizes[n - 1]
    }
}

impl StorageHandler {
    /// Offset in the current write-ahead log at which the next record goes.
    pub closed spec fn spec_offset(&self) -> u64 {
        self.current_offset
    }

    /// Number of compactions started so far; also the number of the current
    /// write-ahead log.
    pub closed spec fn spec_compaction_index(&self) -> u8 {
        self.compaction_index
    }

    /// Names of the files compaction has written, oldest first.
    pub closed spec fn spec_compacted_files(&self) -> Seq<Seq<char>> {
        self.compacted_files@.map_values(|f: String| f@)
    }

    /// Names of the write-ahead logs used so far, oldest first.
    pub closed spec fn spec_wal_files(&self) -> Seq<Seq<char>> {
        self.temp_files@.map_values(|f: String| f@)
    }

    /// One write-ahead log per compaction round so far, the last being the
    /// current one; after the first, the log of round `i` is `foo_<i>.txt`.
    pub closed spec fn wf(&self) -> bool {
        &&& self.temp_files@.len() == self.compaction_index + 1
        &&& forall|i: int|
            1 <= i < self.temp_files@.len() ==> (#[trigger] self.temp_files@[i])@ == wal_name(
                i as nat,
            )
    }

    /// Name of the write-ahead log in use.
    pub closed spec fn spec_current_wal(&self) -> Seq<char> {
        self.temp_files@[self.compaction_index as int]@
    }

    /// From the first compaction on, the write-ahead log in use is
    /// `foo_<round>.txt`, the last of the logs used so far; the log of every
    /// round after the first is `foo_<that round>.txt`.
    pub proof fn lemma_wal_names(&self)
        requires
            self.wf(),
        ensures
            self.spec_wal_files().len() == self.spec_compaction_index() + 1,
            self.spec_current_wal() == self.spec_wal_files().last(),
            forall|i: int|
                1 <= i < self.spec_wal_files().len() ==> #[trigger] self.spec_wal_files()[i]
                    == wal_name(i as nat),
            self.spec_compaction_index() >= 1 ==> self.spec_current_wal() == wal_name(
                self.spec_compaction_index() as nat,
            ),
    {
        assert forall|i: int| 1 <= i < self.spec_wal_files().len() implies #[trigger] self.spec_wal_files()[i]
            == wal_name(i as nat) by {
            assert(self.spec_wal_files()[i] == self.temp_files@[i]@);
        }
        assert(self.spec_wal_files().last() == self.temp_files@[self.compaction_index as int]@);
    }

    /// The bookkeeping of a store whose first write-ahead log is the file
    /// `filename`, which holds `end_offset` bytes.
    pub fn new(filename: String, end_offset: u64) -> (s: StorageHandler)
        ensures
            s.wf(),
            s.spec_offset() == end_offset,
            s.spec_compaction_index() == 0,
            s.spec_current_wal() == filename@,
            s.spec_compacted_files() == Seq::<Seq<char>>::empty(),
            s.spec_wal_files() == seq![filename@],
    {
        let first = filename;
        let mut temp_files: Vec<String> = Vec::new();
        temp_files.push(first);
        let s = StorageHandler {
            current_offset: end_offset,
            compaction_index: 0,
            compacted_files: Vec::new(),
            temp_files,
        };
        assert(s.spec_compacted_files() =~= Seq::<Seq<char>>::empty());
        assert(s.spec_wal_files() =~= seq![s.temp_files@[0]@]);
        s
    }

    /// Offset in the current write-ahead log at which the next record goes.
    pub fn current_offset(&self) -> (offset: u64)
        ensures
            offset == self.spec_offset(),
    {
        self.current_offset
    }

    /// Number of compactions started so far.
    pub fn compaction_index(&self) -> (index: u8)
        ensures
            index == self.spec_compaction_index(),
    {
        self.compaction_index
    }

    /// Name of the write-ahead log in use.
    pub fn current_wal(&self) -> (name: String)
        requires
            self.wf(),
        ensures
            name@ == self.spec_current_wal(),
    {
        self.temp_files[self.compaction_index as usize].clone()
    }

    /// Accounts for a record of `written` bytes appended to the current
    /// write-ahead log, and points at it.
    pub fn write_record(&mut self, written: u64) -> (pointer: LogPointer)
        requires
            old(self).wf(),
            old(self).spec_offset() + written <= u64::MAX,
        ensures
            final(self).wf(),
            pointer.offset == old(self).spec_offset(),
            pointer.log_age == old(self).spec_compaction_index(),
            pointer.filename@ == old(self).spec_current_wal(),
            final(self).spec_offset() == old(self).spec_offset() + written,
            final(self).spec_compaction_index() == old(self).spec_compaction_index(),
            final(self).spec_current_wal() == old(self).spec_current_wal(),
            final(self).spec_compacted_files() == old(self).spec_compacted_files(),
            final(self).spec_wal_files() == old(self).spec_wal_files(),
    {
        let write_pos = self.current_offset;
        self.current_offset = self.current_offset + written;
        LogPointer { offset: write_pos, log_age: self.compaction_index, filename: self.current_wal() }
    }

    /// Pairs the documents found in the file `filename` (at the offsets of
    /// `frames`, holding `records`) with the keys they concern.
    pub fn read_all_logs_from_file(
        &self,
        filename: &String,
        frames: &Vec<(u64, u64)>,
        records: &Vec<LogRecord>,
    ) -> (entries: Vec<(LogPointer, String)>)
        requires
            frames@.len() == records@.len(),
        ensures
            entries@.len() == frames@.len(),
            forall|i: int|
                0 <= i < entries@.len() ==> {
                    &&& (#[trigger] entries@[i]).0.offset == frames@[i].0
                    &&& entries@[i].0.log_age == self.spec_compaction_index()
                    &&& entries@[i].0.filename@ == filename@
                    &&& entries@[i].1@ == records@[i]@.0
                },
    {
        let mut entries: Vec<(LogPointer, String)> = Vec::new();
        let mut i: usize = 0;
        while i < frames.len()
            invariant
                i <= frames@.len(),
                frames@.len() == records@.len(),
                entries@.len() == i,
                forall|j: int|
                    0 <= j < i ==> {
                        &&& (#[trigger] entries@[j]).0.offset == frames@[j].0
                        &&& entries@[j].0.log_age == self.spec_compaction_index()
                        &&& entries@[j].0.filename@ == filename@
                        &&& entries@[j].1@ == records@[j]@.0
                    },
            decreases frames@.len() - i,
        {
            let pointer = LogPointer {
                offset: frames[i].0,
                log_age: self.compaction_index,
                filename: filename.clone(),
            };
            entries.push((pointer, records[i].get_key()));
            i = i + 1;
        }
        entries
    }

    /// Pairs the documents found in the current write-ahead log with the
    /// keys they concern.
    pub fn read_all_logs(&self, frames: &Vec<(u64, u64)>, records: &Vec<LogRecord>) -> (entries: Vec<
        (LogPointer, String),
    >)
        requires
            self.wf(),
            frames@.len() == records@.len(),
        ensures
            entries@.len() == frames@.len(),
            forall|i: int|
                0 <= i < entries@.len() ==> {
                    &&& (#[trigger] entries@[i]).0.offset == frames@[i].0
                    &&& entries@[i].0.log_age == self.spec_compaction_index()
                    &&& entries@[i].0.filename@ == self.spec_current_wal()
                    &&& entries@[i].1@ == records@[i]@.0
                },
    {
        let wal = self.current_wal();
        self.read_all_logs_from_file(&wal, frames, records)
    }

    /// Moves on to the next write-ahead log.
    fn refresh_bufwriter(&mut self) -> (new_wal: String)
        requires
            old(self).wf(),
            old(self).spec_compaction_index() < 255,
        ensures
            final(self).wf(),
            new_wal@ == wal_name((old(self).spec_compaction_index() + 1) as nat),
            final(self).spec_compaction_index() == old(self).spec_compaction_index() + 1,
            final(self).spec_current_wal() == new_wal@,
            final(self).spec_wal_files() == old(self).spec_wal_files().push(new_wal@),
            final(self).spec_offset() == 0,
            final(self).spec_compacted_files() == old(self).spec_compacted_files(),
    {
        let new_filename = wal_file_name(self.compaction_index + 1);
        let ghost old_files = self.temp_files@;
        self.temp_files.push(new_filename.clone());
        self.compaction_index = self.compaction_index + 1;
        self.current_offset = 0;
        assert(self.spec_wal_files() =~= old(self).spec_wal_files().push(new_filename@)) by {
            assert(self.temp_files@ == old_files.push(new_filename));
        }
        new_filename
    }

    /// Starts a compaction: names the write-ahead log to compact and the
    /// output of the previous compaction to merge in, and moves new records
    /// on to a fresh, empty write-ahead log, whose name it gives too; the
    /// next record goes at its start.
    pub fn begin_compaction(&mut self) -> (start: CompactionStart)
        requires
            old(self).wf(),
            old(self).spec_compaction_index() < 255,
        ensures
            final(self).wf(),
            start.compacted_wal@ == old(self).spec_current_wal(),
            match start.previous_compacted {
                Some(name) => old(self).spec_compaction_index() > 0 && name@ == compact_name(
                    (old(self).spec_compaction_index() - 1) as nat,
                ),
                None => old(self).spec_compaction_index() == 0,
            },
            start.new_wal@ == wal_name((old(self).spec_compaction_index() + 1) as nat),
            final(self).spec_compaction_index() == old(self).spec_compaction_index() + 1,
            final(self).spec_current_wal() == start.new_wal@,
            final(self).spec_wal_files() == old(self).spec_wal_files().push(start.new_wal@),
            final(self).spec_offset() == 0,
            final(self).spec_compacted_files() == old(self).spec_compacted_files(),
    {
        let compacted_wal = self.current_wal();
        let target = self.compaction_index;
        let previous_compacted = if target > 0 {
            Some(compact_file_name(target - 1))
        } else {
            None
        };
        let new_wal = self.refresh_bufwriter();
        CompactionStart { compacted_wal, previous_compacted, new_wal }
    }

    /// Finishes a compaction begun by [`Self::begin_compaction`].
    /// `compacted_entries` are the pointers and keys of the records of the
    /// previous compaction's output, `wal_entries` those of the write-ahead
    /// log compacted; `merged` lists, sorted by key, the latest pointer of
    /// each key, the write-ahead log superseding the older compacted log.
    /// The records `merged` points at are written in its order to the new
    /// compacted log, taking `sizes` bytes each; gives for each key the
    /// pointer to its record there.
    pub fn compact_logs(
        &mut self,
        compacted_entries: &Vec<(LogPointer, String)>,
        wal_entries: &Vec<(LogPointer, String)>,
        merged: &Vec<(String, LogPointer)>,
        sizes: &Vec<u64>,
    ) -> (updated: Vec<(String, LogPointer)>)
        requires
            old(self).wf(),
            old(self).spec_compaction_index() >= 1,
            forall|i: int|
                0 <= i < wal_entries@.len() ==> (#[trigger] wal_entries@[i]).0.filename@ == old(
                    self,
                ).spec_wal_files()[old(self).spec_compaction_index() - 1],
            old(self).spec_compaction_index() == 1 ==> compacted_entries@.len() == 0,
            forall|i: int|
                0 <= i < compacted_entries@.len() ==> (#[trigger] compacted_entries@[i]).0.filename@
                    == compact_name((old(self).spec_compaction_index() - 2) as nat),
            sorted_by_key(merged@),
            lists_map(merged@, latest_pointer_map(compacted_entries@ + wal_entries@)),
            merged@.len() == sizes@.len(),
            prefix_sum(sizes@, sizes@.len() as int) <= u64::MAX,
        ensures
            final(self).wf(),
            sorted_by_key(updated@),
            updated@.len() == merged@.len(),
            forall|k: Seq<char>|
                #[trigger] latest_pointer_map(compacted_entries@ + wal_entries@).contains_key(k)
                    <==> exists|i: int| 0 <= i < updated@.len() && (#[trigger] updated@[i]).0@ == k,
            forall|i: int|
                0 <= i < updated@.len() ==> {
                    &&& (#[trigger] updated@[i]).0@ == merged@[i].0@
                    &&& latest_pointer_map(compacted_entries@ + wal_entries@)[updated@[i].0@]
                        == merged@[i].1
                    &&& updated@[i].1.offset == prefix_sum(sizes@, i)
                    &&& updated@[i].1.log_age == old(self).spec_compaction_index()
                    &&& updated@[i].1.filename@ == compact_name(
                        (old(self).spec_compaction_index() - 1) as nat,
                    )
                },
            updated@.len() > 0 ==> updated@[0].1.offset == 0,
            forall|i: int, j: int|
                0 <= i && j == i + 1 && j < updated@.len() ==> (#[trigger] updated@[j]).1.offset
                    == (#[trigger] updated@[i]).1.offset + sizes@[i],
            final(self).spec_compacted_files() == old(self).spec_compacted_files().push(
                compact_name((old(self).spec_compaction_index() - 1) as nat),
            ),
            final(self).spec_compaction_index() == old(self).spec_compaction_index(),
            final(self).spec_current_wal() == old(self).spec_current_wal(),
            final(self).spec_offset() == old(self).spec_offset(),
            final(self).spec_wal_files() == old(self).spec_wal_files(),
    {
        let compact_filename = compact_file_name(self.compaction_index - 1);
        let mut updated: Vec<(String, LogPointer)> = Vec::new();
        let mut write_pos: u64 = 0;
        let mut i: usize = 0;
        while i < merged.len()
            invariant
                i <= merged@.len(),
                merged@.len() == sizes@.len(),
                prefix_sum(sizes@, sizes@.len() as int) <= u64::MAX,
                write_pos == prefix_sum(sizes@, i as int),
                compact_filename@ == compact_name((self.spec_compaction_index() - 1) as nat),
                self.spec_compaction_index() >= 1,
                updated@.len() == i,
                forall|j: int|
                    0 <= j < i ==> {
                        &&& (#[trigger] updated@[j]).0@ == merged@[j].0@
                        &&& updated@[j].1.offset == prefix_sum(sizes@, j)
                        &&& updated@[j].1.log_age == self.spec_compaction_index()
                        &&& updated@[j].1.filename@ == compact_filename@
                    },
            decreases merged@.len() - i,
        {
            proof {
                lemma_prefix_sum_monotone(sizes@, i + 1, sizes@.len() as int);
            }
            let pointer = LogPointer {
                offset: write_pos,
                log_age: self.compaction_index,
                filename: compact_filename.clone(),
            };
            write_pos = write_pos + sizes[i];
            updated.push((merged[i].0.clone(), pointer));
            i = i + 1;
        }
        assert forall|i: int, j: int|
            0 <= i && j == i + 1 && j < updated@.len() implies (#[trigger] updated@[j]).1.offset
            == (#[trigger] updated@[i]).1.offset + sizes@[i] by {
            assert(prefix_sum(sizes@, j) == prefix_sum(sizes@, i) + sizes@[i]);
        }
        let ghost m = latest_pointer_map(compacted_entries@ + wal_entries@);
        assert forall|a: int, b: int| 0 <= a < b < updated@.len() implies key_lt(
            (#[trigger] updated@[a]).0@,
            (#[trigger] updated@[b]).0@,
        ) by {
            assert(key_lt(merged@[a].0@, merged@[b].0@));
        }
        assert forall|k: Seq<char>| #[trigger] m.contains_key(k) <==> exists|i: int|
            0 <= i < updated@.len() && (#[trigger] updated@[i]).0@ == k by {
            if m.contains_key(k) {
                let i = choose|i: int| 0 <= i < merged@.len() && (#[trigger] merged@[i]).0@ == k;
                assert(updated@[i].0@ == k);
            }
            if exists|i: int| 0 <= i < updated@.len() && (#[trigger] updated@[i]).0@ == k {
                let i = choose|i: int| 0 <= i < updated@.len() && (#[trigger] updated@[i]).0@ == k;
                assert(merged@[i].0@ == k);
            }
        }
        assert forall|i: int| 0 <= i < updated@.len() implies m[(#[trigger] updated@[i]).0@]
            == merged@[i].1 by {
            assert(merged@[i].0@ == updated@[i].0@);
        }
        let ghost old_files = self.compacted_files@;
        self.compacted_files.push(compact_filename);
        assert(self.spec_compacted_files() =~= old(self).spec_compacted_files().push(
            compact_name((old(self).spec_compaction_index() - 1) as nat),
        )) by {
            assert(self.compacted_files@ == old_files.push(compact_filename));
        }
        updated
    }
}

/// The pointer that each key's latest entry gives it, `entries` being taken
/// in order, so that a later entry for a key supersedes an earlier one.
pub open spec fn latest_pointer_map(entries: Seq<(LogPointer, String)>) -> Map<Seq<char>, LogPointer>
    decreases entries.len(),
{
    if entries.len() == 0 {
        Map::empty()
    } else {
        latest_pointer_map(entries.drop_last()).insert(entries.last().1@, entries.last().0)
    }
}

/// Entries whose keys strictly increase in the order of keys.
pub open spec fn sorted_by_key(s: Seq<(String, LogPointer)>) -> bool {
    forall|i: int, j: int| 0 <= i < j < s.len() ==> key_lt((#[trigger] s[i]).0@, (#[trigger] s[j]).0@)
}

/// `s` lists the map `m`: each entry of `s` is an entry of `m`, and each key
/// of `m` has an entry in `s`.
pub open spec fn lists_map(s: Seq<(String, LogPointer)>, m: Map<Seq<char>, LogPointer>) -> bool {
    &&& forall|i: int|
        0 <= i < s.len() ==> m.contains_key((#[trigger] s[i]).0@) && m[s[i].0@] == s[i].1
    &&& forall|k: Seq<char>|
        #[trigger] m.contains_key(k) ==> exists|i: int| 0 <= i < s.len() && (#[trigger] s[i]).0@ == k
}

/// Puts `pointer` under `key` in a list sorted by key, in place of the
/// pointer the key had, if any.
fn insert_latest(
    sorted: &mut Vec<(String, LogPointer)>,
    key: String,
    pointer: LogPointer,
    Ghost(m): Ghost<Map<Seq<char>, LogPointer>>,
)
    requires
        sorted_by_key(old(sorted)@),
        lists_map(old(sorted)@, m),
    ensures
        sorted_by_key(final(sorted)@),
        lists_map(final(sorted)@, m.insert(key@, pointer)),
{
    let ghost s = sorted@;
    let ghost k = key@;
    let mut p: usize = 0;
    loop
        invariant
            sorted@ == s,
            k == key@,
            p <= s.len(),
            forall|j: int| 0 <= j < p ==> key_lt((#[trigger] s[j]).0@, k),
        ensures
            p <= s.len(),
            forall|j: int| 0 <= j < p ==> key_lt((#[trigger] s[j]).0@, k),
            p < s.len() ==> !key_lt(s[p as int].0@, k),
        decreases s.len() - p,
    {
        if p == sorted.len() {
            break;
        }
        if !key_less(&sorted[p].0, &key) {
            break;
        }
        p = p + 1;
    }
    let m2 = Ghost(m.insert(k, pointer));
    if p < sorted.len() && sorted[p].0 == key {
        sorted.set(p, (key, pointer));
        let ghost t = sorted@;
        assert(t == s.update(p as int, t[p as int]));
        assert forall|i: int, j: int| 0 <= i < j < t.len() implies key_lt(
            (#[trigger] t[i]).0@,
            (#[trigger] t[j]).0@,
        ) by {
            assert(s[i].0@ == t[i].0@ && s[j].0@ == t[j].0@) by {
                if i == p {
                    assert(s[p as int].0@ == k);
                }
                if j == p {
                    assert(s[p as int].0@ == k);
                }
            }
        }
        assert forall|i: int| 0 <= i < t.len() implies m2@.contains_key((#[trigger] t[i]).0@)
            && m2@[t[i].0@] == t[i].1 by {
            if i != p {
                assert(s[i] == t[i]);
                assert(s[i].0@ != k) by {
                    if i < p {
                        lemma_key_lt_irreflexive(k);
                    } else {
                        assert(key_lt(s[p as int].0@, s[i].0@));
                        lemma_key_lt_irreflexive(k);
                    }
                }
            }
        }
        assert forall|kk: Seq<char>| #[trigger] m2@.contains_key(kk) implies exists|i: int|
            0 <= i < t.len() && (#[trigger] t[i]).0@ == kk by {
            if kk == k {
                assert(t[p as int].0@ == kk);
            } else {
                let i = choose|i: int| 0 <= i < s.len() && (#[trigger] s[i]).0@ == kk;
                assert(i != p);
                assert(t[i] == s[i]);
            }
        }
    } else {
        proof {
            if p < s.len() {
                lemma_key_lt_total(s[p as int].0@, k);
            }
        }
        sorted.insert(p, (key, pointer));
        let ghost t = sorted@;
        assert(t == s.insert(p as int, (key, pointer)));
        assert forall|i: int| 0 <= i < t.len() implies #[trigger] t[i] == (if i < p {
            s[i]
        } else if i == p {
            (key, pointer)
        } else {
            s[i - 1]
        }) by {}
        assert forall|i: int, j: int| 0 <= i < j < t.len() implies key_lt(
            (#[trigger] t[i]).0@,
            (#[trigger] t[j]).0@,
        ) by {
            if j < p {
            } else if j == p {
                assert(t[i] == s[i]);
            } else if i < p {
                assert(t[j] == s[j - 1]);
                assert(key_lt(s[i].0@, k));
                if j - 1 > p {
                    assert(key_lt(s[p as int].0@, s[j - 1].0@));
                    lemma_key_lt_transitive(k, s[p as int].0@, s[j - 1].0@);
                }
                lemma_key_lt_transitive(s[i].0@, k, s[j - 1].0@);
            } else if i == p {
                assert(t[j] == s[j - 1]);
                if j - 1 > p {
                    assert(key_lt(s[p as int].0@, s[j - 1].0@));
                    lemma_key_lt_transitive(k, s[p as int].0@, s[j - 1].0@);
                }
            } else {
                assert(t[i] == s[i - 1]);
                assert(t[j] == s[j - 1]);
            }
        }
        assert forall|i: int| 0 <= i < t.len() implies m2@.contains_key((#[trigger] t[i]).0@)
            && m2@[t[i].0@] == t[i].1 by {
            if i < p {
                assert(t[i] == s[i]);
                lemma_key_lt_irreflexive(k);
            } else if i > p {
                assert(t[i] == s[i - 1]);
                assert(key_lt(k, s[i - 1].0@)) by {
                    if i - 1 > p {
                        assert(key_lt(s[p as int].0@, s[i - 1].0@));
                        lemma_key_lt_transitive(k, s[p as int].0@, s[i - 1].0@);
                    }
                }
                lemma_key_lt_irreflexive(k);
            }
        }
        assert forall|kk: Seq<char>| #[trigger] m2@.contains_key(kk) implies exists|i: int|
            0 <= i < t.len() && (#[trigger] t[i]).0@ == kk by {
            if kk == k {
                assert(t[p as int].0@ == kk);
            } else {
                let i = choose|i: int| 0 <= i < s.len() && (#[trigger] s[i]).0@ == kk;
                if i < p {
                    assert(t[i] == s[i]);
                } else {
                    assert(t[i + 1] == s[i]);
                }
            }
        }
    }
}

/// Gathers the latest pointer of each key, reading the entries of `older`
/// and then those of `newer`, so that for a key a later entry supersedes an
/// earlier one; lists them sorted by key.
pub fn latest_pointers(older: &Vec<(LogPointer, String)>, newer: &Vec<(LogPointer, String)>) -> (merged:
    Vec<(String, LogPointer)>)
    ensures
        sorted_by_key(merged@),
        lists_map(merged@, latest_pointer_map(older@ + newer@)),
{
    let mut merged: Vec<(String, LogPointer)> = Vec::new();
    assert(older@.take(0) =~= Seq::<(LogPointer, String)>::empty());
    let mut i: usize = 0;
    while i < older.len()
        invariant
            i <= older@.len(),
            sorted_by_key(merged@),
            lists_map(merged@, latest_pointer_map(older@.take(i as int))),
        decreases older@.len() - i,
    {
        assert(older@.take(i + 1 as int).drop_last() =~= older@.take(i as int));
        insert_latest(
            &mut merged,
            older[i].1.clone(),
            older[i].0.duplicate(),
            Ghost(latest_pointer_map(older@.take(i as int))),
        );
        i = i + 1;
    }
    assert(older@.take(older@.len() as int) =~= older@ + newer@.take(0));
    let mut j: usize = 0;
    while j < newer.len()
        invariant
            j <= newer@.len(),
            sorted_by_key(merged@),
            lists_map(merged@, latest_pointer_map(older@ + newer@.take(j as int))),
        decreases newer@.len() - j,
    {
        assert((older@ + newer@.take(j + 1 as int)).drop_last() =~= older@ + newer@.take(j as int));
        assert((older@ + newer@.take(j + 1 as int)).last() == newer@[j as int]);
        insert_latest(
            &mut merged,
            newer[j].1.clone(),
            newer[j].0.duplicate(),
            Ghost(latest_pointer_map(older@ + newer@.take(j as int))),
        );
        j = j + 1;
    }
    assert(newer@.take(newer@.len() as int) =~= newer@);
    merged
}

/// Records written one after another, each taking its size, start at the
/// total size of the records before them: the running sum of the sizes is
/// the length of the records written so far.
pub proof fn law_prefix_sum_is_length_written(sizes: Seq<u64>, documents: Seq<Seq<u8>>)
    requires
        sizes.len() == documents.len(),
        forall|j: int| 0 <= j < sizes.len() ==> #[trigger] sizes[j] == documents[j].len(),
    ensures
        forall|i: int|
            0 <= i <= sizes.len() ==> #[trigger] prefix_sum(sizes, i) == concat_documents(
                documents.take(i),
            ).len(),
    decreases sizes.len(),
{
    if sizes.len() > 0 {
        let n = sizes.len() - 1;
        law_prefix_sum_is_length_written(sizes.take(n), documents.take(n));
        assert forall|i: int| 0 <= i <= sizes.len() implies #[trigger] prefix_sum(sizes, i)
            == concat_documents(documents.take(i)).len() by {
            if i <= n {
                lemma_prefix_sum_prefix(sizes, n, i);
                assert(documents.take(n).take(i) =~= documents.take(i));
                assert(prefix_sum(sizes.take(n), i) == concat_documents(documents.take(n).take(i)).len());
            } else {
                assert(documents.take(i).drop_last() =~= documents.take(n));
                assert(documents.take(n) =~= documents.take(n).take(n));
                assert(prefix_sum(sizes.take(n), n) == concat_documents(documents.take(n).take(n)).len());
                lemma_prefix_sum_prefix(sizes, n, n);
                assert(documents.take(i).last() == documents[n]);
                assert(prefix_sum(sizes, i) == prefix_sum(sizes, n) + sizes[n]);
            }
        }
    }
}

/// The running sum over the first `i` sizes does not depend on the sizes
/// after them.
proof fn lemma_prefix_sum_prefix(sizes: Seq<u64>, n: int, i: int)
    requires
        0 <= i <= n <= sizes.len(),
    ensures
        prefix_sum(sizes.take(n), i) == prefix_sum(sizes, i),
    decreases i,
{
    if i > 0 {
        lemma_prefix_sum_prefix(sizes, n, i - 1);
    }
}

proof fn lemma_prefix_sum_monotone(sizes: Seq<u64>, i: int, j: int)
    requires
        0 <= i <= j,
    ensures
        prefix_sum(sizes, i) <= prefix_sum(sizes, j),
    decreases j - i,
{
    if i < j {
        lemma_prefix_sum_monotone(sizes, i, j - 1);
    }
}

} // verus!
