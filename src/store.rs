//! The store: get, set and remove over the two logs, and recovery.
use vstd::prelude::*;

use crate::codec::{
    decode_error, decode_record_at, encodable, encode_record, json_fields, record_bytes, record_of, Record,
    RecordView,
};
use crate::error::KvsError;
use crate::frame::{
    frame, frame_at, framed, frames, frames_end, lemma_frame_at_appended, lemma_frame_at_extend,
    lemma_frames_append, lemma_frames_end_bounds, lemma_frames_extend, lemma_prefix_of_frame_is_torn,
    read_frame,
};
use crate::index::{
    fold_lww, lemma_fold_push, live, Entry, Index, Slot, Update, Value, ValueView,
};
use crate::recovery::{
    cmd_update, cmd_updates, consistent, decode_frames, encode_error, has_location,
    lemma_consistent_recovers, lemma_decode_push, lemma_torn_tails, lemma_empty_consistent, lemma_insert_consistent,
    lemma_meta_fold_bounded, lemma_recovered_consistent, lemma_recovered_seq,
    lemma_remove_consistent, lemma_set_consistent, max_pointer, max_seq, meta_update, meta_updates,
    no_pointers, offsets_in_data, recover_spec, recovery_error, repair, repairs_encodable, repair_payloads, resume,
    some_frame_fails, some_frame_is_pointer, Recovered,
};
use crate::wal::WalLog;

verus! {

/// What `get` gives for `key` from an index and the command log: the value,
/// nothing, or `None` where the read fails.
pub open spec fn lookup(idx: Map<Seq<char>, Slot>, cmd: Seq<u8>, key: Seq<char>) -> Option<
    Option<Seq<char>>,
> {
    if !idx.contains_key(key) {
        Some(None)
    } else {
        match idx[key].1 {
            ValueView::Content(v) => Some(Some(v)),
            ValueView::Deleted => Some(None),
            ValueView::Location(o) => match frame_at(cmd, o as int) {
                None => None,
                Some(p) => match record_of(p) {
                    Some(RecordView::Content { value, .. }) => Some(Some(value)),
                    Some(RecordView::DeletedKey { .. }) => Some(None),
                    _ => None,
                },
            },
        }
    }
}

/// A key-value store kept in a command log and an index log.
pub struct KvStore {
    wal_cmd: WalLog,
    wal_meta: WalLog,
    latest_seq: u64,
    location_finder: Index,
}

impl KvStore {
    /// The bytes of the command log.
    pub closed spec fn cmd_log(&self) -> Seq<u8> {
        self.wal_cmd@
    }

    /// The bytes of the index log.
    pub closed spec fn meta_log(&self) -> Seq<u8> {
        self.wal_meta@
    }

    /// The in-memory index: each live key's sequence number and location.
    pub closed spec fn entries(&self) -> Map<Seq<char>, Slot> {
        self.location_finder@
    }

    /// The sequence number of the latest mutation.
    pub closed spec fn seq(&self) -> u64 {
        self.latest_seq
    }

    /// The store's parts agree: recovery from its logs would give its index.
    pub closed spec fn wf(&self) -> bool {
        &&& self.location_finder.wf()
        &&& self.wal_cmd@.len() <= u64::MAX
        &&& consistent(self.wal_cmd@, self.wal_meta@, self.location_finder@, self.latest_seq)
    }

    /// What `get` gives for `key`.
    pub open spec fn get_spec(&self, key: Seq<char>) -> Option<Option<Seq<char>>> {
        lookup(self.entries(), self.cmd_log(), key)
    }

    /// Whether `set` of `key` to `value` can be written.
    pub open spec fn can_set(&self, key: Seq<char>, value: Seq<char>) -> bool {
        &&& self.seq() < u64::MAX
        &&& encodable(RecordView::Content { seq: (self.seq() + 1) as u64, key, value })
        &&& encodable(
            RecordView::Pointer { seq: (self.seq() + 1) as u64, key, offset: self.cmd_log().len() as u64 },
        )
    }

    /// The command log.
    pub fn cmd_wal(&self) -> (r: &WalLog)
        ensures
            r@ == self.cmd_log(),
    {
        &self.wal_cmd
    }

    /// The index log.
    pub fn meta_wal(&self) -> (r: &WalLog)
        ensures
            r@ == self.meta_log(),
    {
        &self.wal_meta
    }

    /// Closes the store, giving back the bytes of its command log and of its
    /// index log.
    pub fn into_logs(self) -> (r: (Vec<u8>, Vec<u8>))
        ensures
            r.0@ == self.cmd_log(),
            r.1@ == self.meta_log(),
    {
        (self.wal_cmd.into_bytes(), self.wal_meta.into_bytes())
    }

    /// A store over empty logs.
    pub fn new() -> (r: KvStore)
        ensures
            r.wf(),
            r.entries() == Map::<Seq<char>, Slot>::empty(),
            r.seq() == 0,
            r.cmd_log() == Seq::<u8>::empty(),
            r.meta_log() == Seq::<u8>::empty(),
    {
        let r = KvStore {
            wal_cmd: WalLog::new(Vec::new()),
            wal_meta: WalLog::new(Vec::new()),
            latest_seq: 0,
            location_finder: Index::new(),
        };
        proof {
            lemma_empty_consistent();
        }
        r
    }

    /// The value of `key`: read from the command log where the index holds
    /// an offset. Fails where that read fails, and where a pointer stands in
    /// the command log.
    pub fn get(&self, key: String) -> (r: Result<Option<String>, KvsError>)
        requires
            self.wf(),
        ensures
            r is Ok <==> self.get_spec(key@) is Some,
            r matches Ok(Some(v)) ==> self.get_spec(key@) == Some(Some(v@)),
            r matches Ok(None) ==> self.get_spec(key@) == Some(None::<Seq<char>>),
            r matches Err(e) ==> (e is PartialWritten || e is SerdeError || e is UnknownRecordTag
                || e is FoundPointerFromDataWal),
            r matches Err(e) ==> self.entries().contains_key(key@) && match self.entries()[key@].1 {
                ValueView::Location(o) => {
                    let f = frame_at(self.cmd_log(), o as int);
                    &&& (e is PartialWritten <==> f is None)
                    &&& (e is SerdeError ==> (f matches Some(p) && json_fields(p) is None))
                    &&& (e is UnknownRecordTag ==> (f matches Some(p) && json_fields(p) is Some
                        && record_of(p) is None))
                    &&& (e is FoundPointerFromDataWal <==> (f matches Some(p) && record_of(
                        p,
                    ) matches Some(RecordView::Pointer { .. })))
                },
                _ => false,
            },
    {
        match self.location_finder.lookup(&key) {
            None => Ok(None),
            Some(Value::Content(v)) => Ok(Some(v.clone())),
            Some(Value::Deleted) => Ok(None),
            Some(Value::Location(offset)) => match self.wal_cmd.read(*offset) {
                Ok(Record::Content { value, .. }) => Ok(Some(value)),
                Ok(Record::DeletedKey { .. }) => Ok(None),
                Ok(Record::Pointer { .. }) => Err(KvsError::FoundPointerFromDataWal),
                Err(e) => Err(e),
            },
        }
    }

    /// Sets `key` to `value`: writes the value to the command log, a pointer
    /// to it to the index log, and points the index at it. Nothing is written
    /// where either record cannot be.
    pub fn set(&mut self, key: String, value: String) -> (r: Result<(), KvsError>)
        requires
            old(self).wf(),
        ensures
            final(self).wf(),
            r is Ok <==> old(self).can_set(key@, value@),
            r matches Err(e) ==> (e is SequenceExhausted <==> old(self).seq() == u64::MAX),
            r matches Err(e) ==> (e is SequenceExhausted || e is RecordTooLarge || e is EncodingMismatch
                || e is SerdeError),
            r is Ok ==> {
                &&& final(self).seq() == old(self).seq() + 1
                &&& final(self).entries() == old(self).entries().insert(
                    key@,
                    (final(self).seq(), ValueView::Location(old(self).cmd_log().len() as u64)),
                )
                &&& final(self).cmd_log() == old(self).cmd_log() + frame(
                    record_bytes(RecordView::Content { seq: final(self).seq(), key: key@, value: value@ }),
                )
                &&& final(self).meta_log() == old(self).meta_log() + frame(
                    record_bytes(
                        RecordView::Pointer {
                            seq: final(self).seq(),
                            key: key@,
                            offset: old(self).cmd_log().len() as u64,
                        },
                    ),
                )
            },
            r is Ok ==> final(self).get_spec(key@) == Some(Some(value@)),
            r is Ok ==> forall|k: Seq<char>|
                k != key@ ==> #[trigger] final(self).get_spec(k) == old(self).get_spec(k),
            r is Err ==> final(self).entries() == old(self).entries() && final(self).seq() == old(
                self,
            ).seq() && final(self).cmd_log() == old(self).cmd_log() && final(self).meta_log()
                == old(self).meta_log(),
    {
        if self.latest_seq == u64::MAX {
            return Err(KvsError::SequenceExhausted);
        }
        let ghost (k, v) = (key@, value@);
        let seq = self.latest_seq + 1;
        let offset = self.wal_cmd.len();
        let cmd = Record::Content { seq, key: key.clone(), value };
        let cmd_bytes = match encode_record(&cmd) {
            Ok(b) => b,
            Err(e) => {
                return Err(e);
            },
        };
        let ptr = Record::Pointer { seq, key: key.clone(), offset };
        let ptr_bytes = match encode_record(&ptr) {
            Ok(b) => b,
            Err(e) => {
                return Err(e);
            },
        };
        let ghost old_cmd = self.wal_cmd@;
        let ghost old_idx = self.location_finder@;
        self.wal_cmd.append_payload(&cmd_bytes);
        self.wal_meta.append_payload(&ptr_bytes);
        self.location_finder.put(key, seq, Value::Location(offset));
        self.latest_seq = seq;
        proof {
            lemma_set_consistent(
                old_cmd,
                old(self).wal_meta@,
                old_idx,
                old(self).latest_seq,
                k,
                v,
            );
            lemma_frame_at_appended(old_cmd, cmd_bytes@);
            assert forall|k2: Seq<char>| k2 != k implies #[trigger] self.get_spec(k2)
                == old(self).get_spec(k2) by {
                if old_idx.contains_key(k2) {
                    if let ValueView::Location(o) = old_idx[k2].1 {
                        lemma_frame_at_extend(old_cmd, frame(cmd_bytes@), o as int);
                    }
                }
            }
        }
        Ok(())
    }

    /// Removes `key`: writes a deletion to both logs and drops the key from
    /// the index. Fails with `NotFound`, writing nothing, where the index
    /// does not hold the key.
    pub fn remove(&mut self, key: String) -> (r: Result<(), KvsError>)
        requires
            old(self).wf(),
        ensures
            final(self).wf(),
            r is Ok <==> (old(self).entries().contains_key(key@) && old(self).seq() < u64::MAX
                && encodable(RecordView::DeletedKey { seq: (old(self).seq() + 1) as u64, key: key@ })),
            !old(self).entries().contains_key(key@) ==> r matches Err(KvsError::NotFound),
            r matches Err(e) ==> (e is NotFound <==> !old(self).entries().contains_key(key@)),
            r matches Err(e) ==> (e is SequenceExhausted <==> (old(self).entries().contains_key(key@) && old(self).seq() == u64::MAX)),
            r matches Err(e) ==> (e is NotFound || e is SequenceExhausted || e is RecordTooLarge
                || e is EncodingMismatch || e is SerdeError),
            r is Ok ==> {
                &&& final(self).seq() == old(self).seq() + 1
                &&& final(self).entries() == old(self).entries().remove(key@)
                &&& final(self).cmd_log() == old(self).cmd_log() + frame(
                    record_bytes(RecordView::DeletedKey { seq: final(self).seq(), key: key@ }),
                )
                &&& final(self).meta_log() == old(self).meta_log() + frame(
                    record_bytes(RecordView::DeletedKey { seq: final(self).seq(), key: key@ }),
                )
            },
            r is Ok ==> final(self).get_spec(key@) == Some(None::<Seq<char>>),
            r is Ok ==> forall|k: Seq<char>|
                k != key@ ==> #[trigger] final(self).get_spec(k) == old(self).get_spec(k),
            r is Err ==> final(self).entries() == old(self).entries() && final(self).seq() == old(
                self,
            ).seq() && final(self).cmd_log() == old(self).cmd_log() && final(self).meta_log()
                == old(self).meta_log(),
    {
        if self.location_finder.lookup(&key).is_none() {
            return Err(KvsError::NotFound);
        }
        if self.latest_seq == u64::MAX {
            return Err(KvsError::SequenceExhausted);
        }
        let seq = self.latest_seq + 1;
        let del = Record::DeletedKey { seq, key: key.clone() };
        let del_bytes = match encode_record(&del) {
            Ok(b) => b,
            Err(e) => {
                return Err(e);
            },
        };
        let ghost old_cmd = self.wal_cmd@;
        let ghost old_idx = self.location_finder@;
        self.wal_cmd.append_payload(&del_bytes);
        self.wal_meta.append_payload(&del_bytes);
        self.location_finder.remove(&key);
        self.latest_seq = seq;
        proof {
            lemma_remove_consistent(
                old_cmd,
                old(self).wal_meta@,
                old_idx,
                old(self).latest_seq,
                key@,
            );
            assert forall|k: Seq<char>| k != key@ implies #[trigger] self.get_spec(k)
                == old(self).get_spec(k) by {
                if old_idx.contains_key(k) {
                    if let ValueView::Location(o) = old_idx[k].1 {
                        lemma_frame_at_extend(old_cmd, frame(del_bytes@), o as int);
                    }
                }
            }
        }
        Ok(())
    }

    /// Whether every key that the index holds can be read.
    pub open spec fn readable(&self) -> bool {
        forall|k: Seq<char>| #[trigger] self.entries().contains_key(k) ==> self.get_spec(k) is Some
    }

    /// Rewrites both logs to hold only the latest value of each key: for each
    /// key that `get` finds, the command log gets its value and the index log
    /// a pointer to it, each under the key's sequence number. Superseded
    /// values and deletions are dropped. Returns how many bytes the command
    /// log shrank by. Where a key cannot be read, or a record cannot be
    /// written, nothing changes.
    pub fn compact(&mut self) -> (r: Result<u64, KvsError>)
        requires
            old(self).wf(),
        ensures
            final(self).wf(),
            final(self).seq() == old(self).seq(),
            !old(self).readable() ==> r is Err,
            r is Err ==> !old(self).readable() || exists|k: Seq<char>| #[trigger]
                old(self).entries().contains_key(k) && (old(self).get_spec(k) matches Some(Some(v))
                    && !can_rewrite(old(self).entries()[k].0, k, v)),
            r matches Err(e) ==> (old(self).readable() ==> (e is RecordTooLarge || e is EncodingMismatch || e is SerdeError)),
            r is Ok ==> exists|kept: Seq<Kept>|
                compacted(
                    old(self).entries(),
                    old(self).cmd_log(),
                    kept,
                    final(self).cmd_log(),
                    final(self).meta_log(),
                    final(self).entries(),
                ),
            r is Ok ==> forall|k: Seq<char>| #[trigger] final(self).get_spec(k) == old(self).get_spec(k),
            r is Ok ==> forall|k: Seq<char>| #[trigger] final(self).entries().contains_key(k) ==> old(self).entries().contains_key(k),
            r matches Ok(n) ==> n == if old(self).cmd_log().len() >= final(self).cmd_log().len() {
                old(self).cmd_log().len() - final(self).cmd_log().len()
            } else {
                0
            },
            r is Err ==> final(self).entries() == old(self).entries() && final(self).seq() == old(
                self,
            ).seq() && final(self).cmd_log() == old(self).cmd_log() && final(self).meta_log()
                == old(self).meta_log(),
    {
        let ghost old_idx = self.location_finder@;
        let ghost old_cmd = self.wal_cmd@;
        let ghost entries = self.location_finder.entries@;
        let mut new_cmd = WalLog::new(Vec::new());
        let mut new_meta = WalLog::new(Vec::new());
        let mut new_index = Index::new();
        let ghost mut top: u64 = 0;
        let ghost mut kept: Seq<Kept> = Seq::empty();
        proof {
            assert(kept_contents(kept) =~= Seq::<Seq<u8>>::empty());
            assert(kept_pointers(kept) =~= Seq::<Seq<u8>>::empty());
            lemma_empty_consistent();
            lemma_meta_fold_bounded(decode_frames(frames(self.wal_meta@, 0))->0);
        }
        let mut i: usize = 0;
        while i < self.location_finder.entries.len()
            invariant
                self.wf(),
                *self == *old(self),
                entries == self.location_finder.entries@,
                old_idx == self.location_finder@,
                old_cmd == self.wal_cmd@,
                i <= entries.len(),
                new_index.wf(),
                new_cmd@.len() <= u64::MAX,
                top <= self.latest_seq,
                consistent(new_cmd@, new_meta@, new_index@, top),
                fold_lww(Map::empty(), meta_updates(decode_frames(frames(new_meta@, 0))->0))
                    == new_index@,
                compacted_so_far(old_idx, old_cmd, entries, i as int, new_index@, new_cmd@),
                forall|k: Seq<char>| #[trigger]
                    old_idx.contains_key(k) ==> old_idx[k].0 <= self.latest_seq,
                kept_logs(kept, new_cmd@, new_meta@, new_index@),
                kept_live(old_idx, old_cmd, kept),
            decreases entries.len() - i,
        {
            let key = self.location_finder.entries[i].key.clone();
            let seq = self.location_finder.entries[i].seq;
            let ghost k = key@;
            proof {
                assert(old_idx.contains_key(entries[i as int].key@));
                assert(!new_index@.contains_key(k)) by {
                    if new_index@.contains_key(k) {
                        let j = choose|j: int| 0 <= j < i && #[trigger] entries[j].key@ == k;
                        assert(entries[j].key@ != entries[i as int].key@);
                    }
                }
            }
            proof {
                assert(old(self).entries().contains_key(k));
                assert(old_idx[k].0 == seq);
            }
            match self.get(key.clone()) {
                Err(e) => {
                    return Err(e);
                },
                Ok(None) => {
                    proof {
                        lemma_compacted_skip(old_idx, old_cmd, entries, i as int, new_index@, new_cmd@);
                    }
                },
                Ok(Some(value)) => {
                    let offset = new_cmd.len();
                    let c = Record::Content { seq, key: key.clone(), value };
                    let cb = match encode_record(&c) {
                        Ok(b) => b,
                        Err(err) => {
                            assert(!can_rewrite(seq, k, c@->Content_value));
                            return Err(err);
                        },
                    };
                    let p = Record::Pointer { seq, key: key.clone(), offset };
                    let pb = match encode_record(&p) {
                        Ok(b) => b,
                        Err(err) => {
                            assert(!encodable(p@));
                            assert(!can_rewrite(seq, k, c@->Content_value));
                            return Err(err);
                        },
                    };
                    let ghost prev_cmd = new_cmd@;
                    let ghost prev_meta = new_meta@;
                    let ghost prev_idx = new_index@;
                    proof {
                        lemma_kept_push(
                            kept,
                            prev_cmd,
                            prev_meta,
                            prev_idx,
                            k,
                            seq,
                            c@->Content_value,
                        );
                        lemma_insert_consistent(
                            new_cmd@,
                            new_meta@,
                            new_index@,
                            top,
                            k,
                            c@->Content_value,
                            seq,
                        );
                    }
                    new_cmd.append_payload(&cb);
                    new_meta.append_payload(&pb);
                    new_index.put(key, seq, Value::Location(offset));
                    proof {
                        top = if top >= seq {
                            top
                        } else {
                            seq
                        };
                        lemma_compacted_insert(
                            old_idx,
                            old_cmd,
                            entries,
                            i as int,
                            prev_idx,
                            prev_cmd,
                            cb@,
                            seq,
                            c@->Content_value,
                        );
                        assert forall|a: int, b: int|
                            0 <= a < b < kept.len() + 1 implies #[trigger] kept.push(
                            (k, seq, c@->Content_value),
                        )[a].0 != #[trigger] kept.push((k, seq, c@->Content_value))[b].0 by {
                            if b == kept.len() {
                                assert(prev_idx.contains_key(kept[a].0));
                            }
                        }
                        kept = kept.push((k, seq, c@->Content_value));
                    }
                },
            }
            i = i + 1;
        }
        proof {
            lemma_compacted_all(old_idx, old_cmd, entries, new_index@, new_cmd@);
            assert forall|k: Seq<char>|
                old_idx.contains_key(k) && (#[trigger] lookup(old_idx, old_cmd, k) matches Some(
                    Some(_),
                )) implies exists|i: int| 0 <= i < kept.len() && #[trigger] kept[i].0 == k by {
                assert(new_index@.contains_key(k));
            }
            assert(compacted(old_idx, old_cmd, kept, new_cmd@, new_meta@, new_index@));
        }
        let old_len = self.wal_cmd.len();
        let new_len = new_cmd.len();
        self.wal_cmd = new_cmd;
        self.wal_meta = new_meta;
        self.location_finder = new_index;
        assert(compacted(
            old(self).entries(),
            old(self).cmd_log(),
            kept,
            self.cmd_log(),
            self.meta_log(),
            self.entries(),
        ));
        if old_len >= new_len {
            Ok(old_len - new_len)
        } else {
            Ok(0)
        }
    }

    /// Opens a store over the bytes of its two logs: a fresh store where both
    /// are empty, and otherwise what recovery gives.
    pub fn new_from(cmd: Vec<u8>, meta: Vec<u8>) -> (r: Result<KvStore, KvsError>)
        ensures
            r is Ok <==> recover_spec(cmd@, meta@) is Some,
            r matches Err(e) ==> recovery_error(cmd@, meta@, e),
            r matches Ok(s) ==> s.wf() && recover_spec(cmd@, meta@) == Some(
                Recovered {
                    cmd: s.cmd_log(),
                    meta: s.meta_log(),
                    index: s.entries(),
                    seq: s.seq(),
                },
            ),
    {
        if cmd.len() == 0 && meta.len() == 0 {
            let s = KvStore::new();
            proof {
                let e = Seq::<u8>::empty();
                assert(cmd@ =~= e && meta@ =~= e);
                assert(frames(e, 0) =~= Seq::<(int, Seq<u8>)>::empty());
                assert(decode_frames(frames(e, 0)) =~= Some(Seq::<(int, RecordView)>::empty()));
                let none = Seq::<(int, RecordView)>::empty();
                assert(meta_updates(none) =~= Seq::<Update>::empty());
                assert(cmd_updates(none) =~= Seq::<Update>::empty());
                assert(repair_payloads(none) =~= Seq::<Seq<u8>>::empty());
                assert(framed(Seq::<Seq<u8>>::empty()) =~= e);
                assert(e.take(0) =~= e);
                assert(e + e =~= e);
                assert(live(Map::<Seq<char>, Slot>::empty()) =~= Map::<Seq<char>, Slot>::empty());
            }
            Ok(s)
        } else {
            KvStore::from_wal(cmd, meta)
        }
    }

    /// Recovers a store from the bytes of its two logs. The index log is
    /// replayed first; then the command log from after the record that the
    /// index log's largest pointer refers to, writing to the index log a
    /// record for each command-log record replayed. Both logs are cut back to
    /// their last complete record. Fails where a complete record does not
    /// decode, where a pointer stands in the command log, and where the index
    /// refers to an offset with no complete record in the command log.
    pub fn from_wal(cmd: Vec<u8>, meta: Vec<u8>) -> (r: Result<KvStore, KvsError>)
        ensures
            r is Ok <==> recover_spec(cmd@, meta@) is Some,
            r matches Err(e) ==> recovery_error(cmd@, meta@, e),
            r matches Ok(s) ==> s.wf() && recover_spec(cmd@, meta@) == Some(
                Recovered {
                    cmd: s.cmd_log(),
                    meta: s.meta_log(),
                    index: s.entries(),
                    seq: s.seq(),
                },
            ),
    {
        let ghost cmd0 = cmd@;
        let ghost meta0 = meta@;
        let (mut work, max_ptr, meta_top, meta_end) = match replay_meta(&meta) {
            Ok(x) => x,
            Err(e) => {
                return Err(e);
            },
        };
        let ghost ms = decode_frames(frames(meta0, 0))->0;
        let start = match resume_at(&cmd, max_ptr) {
            Ok(p) => p,
            Err(e) => {
                return Err(e);
            },
        };
        assert(resume(cmd0, ms) == Some(start as int));
        let ghost base = work@;
        let (reps, cmd_top, cmd_end) = match replay_cmd(&cmd, start, &mut work) {
            Ok(x) => x,
            Err(e) => {
                proof {
                    assert(decode_frames(frames(meta0, 0)) == Some(ms));
                    if let Some(cs) = decode_frames(frames(cmd0, start as int)) {
                        assert(!no_pointers(cs));
                    }
                }
                return Err(e);
            },
        };
        let ghost cs = decode_frames(frames(cmd0, start as int))->0;
        let mut cmd_log = WalLog::new(cmd);
        cmd_log.truncate(cmd_end as u64);
        proof {
            lemma_frames_end_bounds(cmd0, start as int);
            lemma_frames_end_bounds(meta0, 0);
            assert(cmd_log@ =~= cmd0.take(frames_end(cmd0, start as int)));
            assert(work@ == fold_lww(fold_lww(Map::empty(), meta_updates(ms)), cmd_updates(cs)));
        }
        let live_index = work.into_live();
        match check_offsets(&live_index, &cmd_log) {
            Ok(()) => {},
            Err(e) => {
                return Err(e);
            },
        }
        let mut meta_log = WalLog::new(meta);
        meta_log.truncate(meta_end as u64);
        assert(meta_log@ =~= meta0.take(frames_end(meta0, 0)));
        match write_repairs(&mut meta_log, &reps) {
            Ok(()) => {},
            Err(e) => {
                proof {
                    let i = choose|i: int| 0 <= i < reps@.len() && encode_error(e, #[trigger] reps@[i]@);
                    assert(reps@[i]@ == repair(cs[i].0, cs[i].1));
                    assert(decode_frames(frames(meta0, 0)) == Some(ms));
                    assert(offsets_in_data(live_index@, cmd_log@));
                    assert(encode_error(e, repair(cs[i].0, cs[i].1)));
                }
                return Err(e);
            },
        }
        let seq = if meta_top >= cmd_top {
            meta_top
        } else {
            cmd_top
        };
        proof {
            assert(repairs_encodable(cs)) by {
                assert forall|i: int| 0 <= i < cs.len() implies encodable(
                    #[trigger] repair(cs[i].0, cs[i].1),
                ) by {
                    assert(reps@[i]@ == repair(cs[i].0, cs[i].1));
                }
            }
            assert(Seq::new(reps@.len(), |i: int| record_bytes(reps@[i]@)) =~= repair_payloads(cs));
            assert(decode_frames(frames(meta0, 0)) == Some(ms));
            assert(recover_spec(cmd0, meta0) == Some(
                Recovered { cmd: cmd_log@, meta: meta_log@, index: live_index@, seq },
            ));
            lemma_recovered_consistent(cmd0, meta0);
        }
        Ok(
            KvStore {
                wal_cmd: cmd_log,
                wal_meta: meta_log,
                latest_seq: seq,
                location_finder: live_index,
            },
        )
    }
}

/// A key that compaction keeps: the key, its sequence number, its value.
pub type Kept = (Seq<char>, u64, Seq<char>);

/// The value records of the kept keys, in order.
pub open spec fn kept_contents(kept: Seq<Kept>) -> Seq<Seq<u8>> {
    Seq::new(
        kept.len(),
        |i: int| record_bytes(RecordView::Content { seq: kept[i].1, key: kept[i].0, value: kept[i].2 }),
    )
}

/// The offset of the `i`-th value record in the command log of the kept keys.
pub open spec fn kept_offset(kept: Seq<Kept>, i: int) -> u64 {
    framed(kept_contents(kept).take(i)).len() as u64
}

/// The pointer records of the kept keys, each naming its value's offset.
pub open spec fn kept_pointers(kept: Seq<Kept>) -> Seq<Seq<u8>> {
    Seq::new(
        kept.len(),
        |i: int|
            record_bytes(
                RecordView::Pointer { seq: kept[i].1, key: kept[i].0, offset: kept_offset(kept, i) },
            ),
    )
}

/// The logs and index built from the kept keys: the command log holds one
/// value record per kept key and nothing else, the index log one pointer
/// record per kept key naming that value's offset, and the index maps each
/// kept key, and no other, to that offset.
pub open spec fn kept_logs(
    kept: Seq<Kept>,
    cmd: Seq<u8>,
    meta: Seq<u8>,
    idx: Map<Seq<char>, Slot>,
) -> bool {
    &&& cmd == framed(kept_contents(kept))
    &&& meta == framed(kept_pointers(kept))
    &&& forall|k: Seq<char>| #[trigger]
        idx.contains_key(k) ==> exists|i: int| 0 <= i < kept.len() && #[trigger] kept[i].0 == k
    &&& forall|i: int|
        0 <= i < kept.len() ==> idx.contains_key(#[trigger] kept[i].0) && idx[kept[i].0] == (
            kept[i].1,
            ValueView::Location(kept_offset(kept, i)),
        )
}

/// Each kept key is in the old index under its sequence number, `get` found
/// its value there, and no key is kept twice.
pub open spec fn kept_live(old_idx: Map<Seq<char>, Slot>, old_cmd: Seq<u8>, kept: Seq<Kept>) -> bool {
    &&& forall|a: int, b: int|
        0 <= a < b < kept.len() ==> #[trigger] kept[a].0 != #[trigger] kept[b].0
    &&& forall|i: int|
        0 <= i < kept.len() ==> old_idx.contains_key(#[trigger] kept[i].0) && old_idx[kept[i].0].0
            == kept[i].1 && lookup(old_idx, old_cmd, kept[i].0) == Some(Some(kept[i].2))
}

/// What compaction leaves: the logs and index of the kept keys, which are
/// exactly the keys of the old index that `get` found a value for.
pub open spec fn compacted(
    old_idx: Map<Seq<char>, Slot>,
    old_cmd: Seq<u8>,
    kept: Seq<Kept>,
    cmd: Seq<u8>,
    meta: Seq<u8>,
    idx: Map<Seq<char>, Slot>,
) -> bool {
    &&& kept_live(old_idx, old_cmd, kept)
    &&& kept_logs(kept, cmd, meta, idx)
    &&& forall|k: Seq<char>|
        old_idx.contains_key(k) && (#[trigger] lookup(old_idx, old_cmd, k) matches Some(Some(_)))
            ==> exists|i: int| 0 <= i < kept.len() && #[trigger] kept[i].0 == k
}

/// A key's value and a pointer to it, at any offset, can be written.
pub open spec fn can_rewrite(s: u64, k: Seq<char>, v: Seq<char>) -> bool {
    &&& encodable(RecordView::Content { seq: s, key: k, value: v })
    &&& forall|o: u64| #[trigger] encodable(RecordView::Pointer { seq: s, key: k, offset: o })
}

/// Keeping one more key appends its value and its pointer to the logs.
proof fn lemma_kept_push(
    kept: Seq<Kept>,
    cmd: Seq<u8>,
    meta: Seq<u8>,
    idx: Map<Seq<char>, Slot>,
    k: Seq<char>,
    s: u64,
    v: Seq<char>,
)
    requires
        kept_logs(kept, cmd, meta, idx),
        !idx.contains_key(k),
        cmd.len() <= u64::MAX,
    ensures
        kept_logs(
            kept.push((k, s, v)),
            cmd + frame(record_bytes(RecordView::Content { seq: s, key: k, value: v })),
            meta + frame(
                record_bytes(RecordView::Pointer { seq: s, key: k, offset: cmd.len() as u64 }),
            ),
            idx.insert(k, (s, ValueView::Location(cmd.len() as u64))),
        ),
{
    let kept2 = kept.push((k, s, v));
    let n = kept.len() as int;
    let cs = kept_contents(kept);
    let cs2 = kept_contents(kept2);
    assert(cs2.drop_last() =~= cs);
    assert forall|i: int| 0 <= i <= n implies kept_offset(kept2, i) == kept_offset(kept, i) by {
        assert(cs2.take(i) =~= cs.take(i));
    }
    assert(cs2.take(n) =~= cs);
    assert(kept_offset(kept2, n) == cmd.len() as u64);
    let ps = kept_pointers(kept);
    let ps2 = kept_pointers(kept2);
    assert(ps2.drop_last() =~= ps);
    let idx2 = idx.insert(k, (s, ValueView::Location(cmd.len() as u64)));
    assert forall|k2: Seq<char>| #[trigger] idx2.contains_key(k2) implies exists|i: int|
        0 <= i < kept2.len() && #[trigger] kept2[i].0 == k2 by {
        if k2 == k {
            assert(kept2[n].0 == k2);
        } else {
            let i = choose|i: int| 0 <= i < kept.len() && #[trigger] kept[i].0 == k2;
            assert(kept2[i].0 == k2);
        }
    }
    assert forall|i: int| 0 <= i < kept2.len() implies idx2.contains_key(#[trigger] kept2[i].0)
        && idx2[kept2[i].0] == (kept2[i].1, ValueView::Location(kept_offset(kept2, i))) by {
        if i < n {
            assert(kept2[i] == kept[i]);
            assert(idx.contains_key(kept[i].0));
        }
    }
}

/// Compaction of the first `i` entries of an index: each of their keys is in
/// the new index and `get` finds the same there, or is left out where `get`
/// found nothing; and the new index holds no other key.
pub open spec fn compacted_so_far(
    old_idx: Map<Seq<char>, Slot>,
    old_cmd: Seq<u8>,
    entries: Seq<Entry>,
    i: int,
    idx: Map<Seq<char>, Slot>,
    cmd: Seq<u8>,
) -> bool {
    &&& forall|j: int|
        0 <= j < i ==> (#[trigger] idx.contains_key(entries[j].key@) && lookup(
            idx,
            cmd,
            entries[j].key@,
        ) == lookup(old_idx, old_cmd, entries[j].key@)) || (!idx.contains_key(entries[j].key@)
            && lookup(old_idx, old_cmd, entries[j].key@) == Some(None::<Seq<char>>))
    &&& forall|k: Seq<char>| #[trigger]
        idx.contains_key(k) ==> exists|j: int| 0 <= j < i && #[trigger] entries[j].key@ == k
    &&& forall|j: int| 0 <= j < i ==> #[trigger] lookup(old_idx, old_cmd, entries[j].key@) is Some
}

proof fn lemma_compacted_skip(
    old_idx: Map<Seq<char>, Slot>,
    old_cmd: Seq<u8>,
    entries: Seq<Entry>,
    i: int,
    idx: Map<Seq<char>, Slot>,
    cmd: Seq<u8>,
)
    requires
        0 <= i < entries.len(),
        compacted_so_far(old_idx, old_cmd, entries, i, idx, cmd),
        !idx.contains_key(entries[i].key@),
        lookup(old_idx, old_cmd, entries[i].key@) == Some(None::<Seq<char>>),
    ensures
        compacted_so_far(old_idx, old_cmd, entries, i + 1, idx, cmd),
{
    assert forall|k: Seq<char>| #[trigger] idx.contains_key(k) implies exists|j: int|
        0 <= j < i + 1 && #[trigger] entries[j].key@ == k by {
        let j = choose|j: int| 0 <= j < i && #[trigger] entries[j].key@ == k;
    }
}

proof fn lemma_compacted_insert(
    old_idx: Map<Seq<char>, Slot>,
    old_cmd: Seq<u8>,
    entries: Seq<Entry>,
    i: int,
    idx: Map<Seq<char>, Slot>,
    cmd: Seq<u8>,
    cb: Seq<u8>,
    s: u64,
    value: Seq<char>,
)
    requires
        0 <= i < entries.len(),
        compacted_so_far(old_idx, old_cmd, entries, i, idx, cmd),
        offsets_in_data(idx, cmd),
        !idx.contains_key(entries[i].key@),
        forall|j: int| 0 <= j < i ==> #[trigger] entries[j].key@ != entries[i].key@,
        cmd.len() <= u64::MAX,
        cb.len() <= u32::MAX,
        record_of(cb) == Some(RecordView::Content { seq: s, key: entries[i].key@, value }),
        lookup(old_idx, old_cmd, entries[i].key@) == Some(Some(value)),
    ensures
        compacted_so_far(
            old_idx,
            old_cmd,
            entries,
            i + 1,
            idx.insert(entries[i].key@, (s, ValueView::Location(cmd.len() as u64))),
            cmd + frame(cb),
        ),
{
    let k = entries[i].key@;
    let idx2 = idx.insert(k, (s, ValueView::Location(cmd.len() as u64)));
    let cmd2 = cmd + frame(cb);
    lemma_frame_at_appended(cmd, cb);
    assert(lookup(idx2, cmd2, k) == Some(Some(value)));
    assert forall|j: int| 0 <= j < i + 1 implies (#[trigger] idx2.contains_key(entries[j].key@)
        && lookup(idx2, cmd2, entries[j].key@) == lookup(old_idx, old_cmd, entries[j].key@)) || (
    !idx2.contains_key(entries[j].key@) && lookup(old_idx, old_cmd, entries[j].key@) == Some(
        None::<Seq<char>>,
    )) by {
        if j < i {
            let kj = entries[j].key@;
            assert(kj != k);
            lemma_lookup_after_append(idx, cmd, cb, k, (s, ValueView::Location(cmd.len() as u64)), kj);
        }
    }
    assert forall|k2: Seq<char>| #[trigger] idx2.contains_key(k2) implies exists|j: int|
        0 <= j < i + 1 && #[trigger] entries[j].key@ == k2 by {
        if k2 != k {
            let j = choose|j: int| 0 <= j < i && #[trigger] entries[j].key@ == k2;
        } else {
            assert(entries[i].key@ == k2);
        }
    }
}

/// A frame appended to the command log, and a slot set for another key, leave
/// what `get` finds for `kj` as it was.
proof fn lemma_lookup_after_append(
    idx: Map<Seq<char>, Slot>,
    cmd: Seq<u8>,
    cb: Seq<u8>,
    k: Seq<char>,
    slot: Slot,
    kj: Seq<char>,
)
    requires
        kj != k,
        offsets_in_data(idx, cmd),
    ensures
        lookup(idx.insert(k, slot), cmd + frame(cb), kj) == lookup(idx, cmd, kj),
        idx.insert(k, slot).contains_key(kj) == idx.contains_key(kj),
{
    if idx.contains_key(kj) {
        assert(idx.insert(k, slot)[kj] == idx[kj]);
        if let ValueView::Location(q) = idx[kj].1 {
            lemma_frame_at_extend(cmd, frame(cb), q as int);
        }
    }
}

/// Once every entry is compacted, `get` finds the same for every key.
proof fn lemma_compacted_all(
    old_idx: Map<Seq<char>, Slot>,
    old_cmd: Seq<u8>,
    entries: Seq<Entry>,
    idx: Map<Seq<char>, Slot>,
    cmd: Seq<u8>,
)
    requires
        compacted_so_far(old_idx, old_cmd, entries, entries.len() as int, idx, cmd),
        forall|k: Seq<char>| #[trigger]
            old_idx.contains_key(k) ==> exists|j: int|
                0 <= j < entries.len() && #[trigger] entries[j].key@ == k,
        forall|j: int| 0 <= j < entries.len() ==> #[trigger] old_idx.contains_key(entries[j].key@),
    ensures
        forall|k: Seq<char>| #[trigger] lookup(idx, cmd, k) == lookup(old_idx, old_cmd, k),
        forall|k: Seq<char>| #[trigger] idx.contains_key(k) ==> old_idx.contains_key(k),
        forall|k: Seq<char>| #[trigger] old_idx.contains_key(k) ==> lookup(old_idx, old_cmd, k) is Some,
{
    assert forall|k: Seq<char>| #[trigger] lookup(idx, cmd, k) == lookup(old_idx, old_cmd, k) by {
        if old_idx.contains_key(k) {
            let j = choose|j: int| 0 <= j < entries.len() && #[trigger] entries[j].key@ == k;
        } else if idx.contains_key(k) {
            let j = choose|j: int| 0 <= j < entries.len() && #[trigger] entries[j].key@ == k;
        }
    }
    assert forall|k: Seq<char>| #[trigger] idx.contains_key(k) implies old_idx.contains_key(k) by {
        let j = choose|j: int| 0 <= j < entries.len() && #[trigger] entries[j].key@ == k;
    }
    assert forall|k: Seq<char>| #[trigger] old_idx.contains_key(k) implies lookup(old_idx, old_cmd, k) is Some by {
        let j = choose|j: int| 0 <= j < entries.len() && #[trigger] entries[j].key@ == k;
    }
}

/// Reopening a store gives back what it held: recovery from its two logs
/// yields its index and its command log, so that `get` answers every key as
/// it did before.
pub proof fn lemma_reopen_round_trip(s: &KvStore)
    requires
        s.wf(),
    ensures
        recover_spec(s.cmd_log(), s.meta_log()) is Some,
        ({
            let r = recover_spec(s.cmd_log(), s.meta_log())->0;
            &&& r.index == s.entries()
            &&& r.cmd == s.cmd_log()
            &&& r.seq <= s.seq()
            &&& forall|k: Seq<char>| #[trigger] lookup(r.index, r.cmd, k) == s.get_spec(k)
        }),
{
    lemma_consistent_recovers(s.wal_cmd@, s.wal_meta@, s.location_finder@, s.latest_seq);
}

/// Recovering twice gives the same as recovering once: from the logs that
/// recovery leaves, recovery yields the same index, the same sequence number
/// and the same command log.
pub proof fn lemma_recovery_idempotent(cmd: Seq<u8>, meta: Seq<u8>)
    requires
        cmd.len() <= u64::MAX,
        recover_spec(cmd, meta) is Some,
    ensures
        ({
            let r1 = recover_spec(cmd, meta)->0;
            &&& recover_spec(r1.cmd, r1.meta) matches Some(r2)
            &&& r2.index == r1.index
            &&& r2.seq == r1.seq
            &&& r2.cmd == r1.cmd
        }),
{
    let r1 = recover_spec(cmd, meta)->0;
    lemma_recovered_consistent(cmd, meta);
    lemma_recovered_seq(cmd, meta);
    lemma_consistent_recovers(r1.cmd, r1.meta, r1.index, r1.seq);
}

/// A torn record at the end of either log, as a crash in the middle of an
/// append leaves it, changes nothing that recovery yields: the state comes
/// from the complete records, and the torn bytes are cut off.
pub proof fn lemma_torn_tail_ignored(s: &KvStore, tc: Seq<u8>, tm: Seq<u8>)
    requires
        s.wf(),
        frame_at(s.cmd_log() + tc, s.cmd_log().len() as int) is None,
        frame_at(s.meta_log() + tm, s.meta_log().len() as int) is None,
    ensures
        recover_spec(s.cmd_log() + tc, s.meta_log() + tm) == recover_spec(s.cmd_log(), s.meta_log()),
        recover_spec(s.cmd_log(), s.meta_log()) is Some,
{
    lemma_consistent_recovers(s.wal_cmd@, s.wal_meta@, s.location_finder@, s.latest_seq);
    lemma_torn_tails(s.wal_cmd@, s.wal_meta@, tc, tm);
}

/// A command log of one complete value record, and an index log that is
/// empty (a crash came before its pointer was written) or holds the pointer
/// to it, each followed by a torn record, recover without error to exactly
/// that value: the torn records are cut off and change nothing. A torn
/// record is any strict prefix of a frame.
pub proof fn lemma_one_record_torn_tails(
    k1: Seq<char>,
    v1: Seq<char>,
    with_pointer: bool,
    q1: Seq<u8>,
    n1: int,
    q2: Seq<u8>,
    n2: int,
)
    requires
        encodable(RecordView::Content { seq: 1, key: k1, value: v1 }),
        encodable(RecordView::Pointer { seq: 1, key: k1, offset: 0 }),
        q1.len() < 4294967296,
        q2.len() < 4294967296,
        0 <= n1 < frame(q1).len(),
        0 <= n2 < frame(q2).len(),
    ensures
        ({
            let c = RecordView::Content { seq: 1, key: k1, value: v1 };
            let p = RecordView::Pointer { seq: 1, key: k1, offset: 0 };
            let cmd = frame(record_bytes(c));
            let meta = if with_pointer {
                frame(record_bytes(p))
            } else {
                Seq::empty()
            };
            &&& recover_spec(cmd + frame(q1).take(n1), meta + frame(q2).take(n2)) matches Some(r)
            &&& r.cmd == cmd
            &&& r.seq == 1
            &&& r.index == map![k1 => (1u64, ValueView::Location(0))]
            &&& forall|k: Seq<char>| #[trigger]
                lookup(r.index, r.cmd, k) == if k == k1 {
                    Some(Some(v1))
                } else {
                    Some(None::<Seq<char>>)
                }
        }),
{
    let c = RecordView::Content { seq: 1, key: k1, value: v1 };
    let p = RecordView::Pointer { seq: 1, key: k1, offset: 0 };
    let e = Seq::<u8>::empty();
    let cmd = frame(record_bytes(c));
    let meta = if with_pointer {
        frame(record_bytes(p))
    } else {
        e
    };
    assert(frame_at(e, 0) is None);
    assert(e + cmd =~= cmd);
    lemma_frames_append(e, record_bytes(c), 0);
    assert(frames(e, 0) =~= Seq::<(int, Seq<u8>)>::empty());
    let fc = frames(cmd, 0);
    assert(fc =~= seq![(0int, record_bytes(c))]);
    let up = (k1, 1u64, ValueView::Location(0));
    let m1 = map![k1 => (1u64, ValueView::Location(0))];
    let none = Seq::<(int, RecordView)>::empty();
    assert(decode_frames(fc) =~= Some(seq![(0int, c)]));
    if with_pointer {
        assert(e + meta =~= meta);
        lemma_frames_append(e, record_bytes(p), 0);
        assert(frames(meta, 0) =~= seq![(0int, record_bytes(p))]);
        let ms = seq![(0int, p)];
        assert(decode_frames(frames(meta, 0)) =~= Some(ms));
        assert(ms.drop_last() =~= none);
        assert(max_seq(ms.drop_last()) == 0);
        assert(max_pointer(ms.drop_last()) is None);
        assert(max_pointer(ms) == Some(0u64));
        assert(max_seq(ms) == 1);
        assert(resume(cmd, ms) == Some(cmd.len() as int));
        assert(frames(cmd, cmd.len() as int) =~= Seq::<(int, Seq<u8>)>::empty());
        assert(decode_frames(frames(cmd, cmd.len() as int)) =~= Some(none));
        assert(meta_updates(ms) =~= seq![up]);
        assert(cmd_updates(none) =~= Seq::<Update>::empty());
        assert(repair_payloads(none) =~= Seq::<Seq<u8>>::empty());
        assert(framed(Seq::<Seq<u8>>::empty()) =~= e);
        assert(meta.take(meta.len() as int) + e =~= meta);
        assert(seq![up].drop_last() =~= Seq::<Update>::empty());
        assert(fold_lww(Map::empty(), seq![up].drop_last()) == Map::<Seq<char>, Slot>::empty());
        assert(fold_lww(Map::empty(), seq![up]) =~= m1);
    } else {
        assert(decode_frames(frames(e, 0)) =~= Some(none));
        assert(resume(cmd, none) == Some(0int));
        let cs = seq![(0int, c)];
        assert(cs.drop_last() =~= none);
        assert(max_seq(cs.drop_last()) == 0);
        assert(max_seq(cs) == 1);
        assert(meta_updates(none) =~= Seq::<Update>::empty());
        assert(cmd_updates(cs) =~= seq![up]);
        assert(repair(0, c) == p);
        assert(seq![up].drop_last() =~= Seq::<Update>::empty());
        assert(fold_lww(Map::empty(), seq![up].drop_last()) == Map::<Seq<char>, Slot>::empty());
        assert(fold_lww(Map::empty(), seq![up]) =~= m1);
    }
    assert(live(m1) =~= m1);
    assert(cmd.take(cmd.len() as int) =~= cmd);
    lemma_frame_at_appended(e, record_bytes(c));
    assert(recover_spec(cmd, meta) is Some);
    lemma_prefix_of_frame_is_torn(cmd, q1, n1);
    lemma_prefix_of_frame_is_torn(meta, q2, n2);
    lemma_torn_tails(cmd, meta, frame(q1).take(n1), frame(q2).take(n2));
}

/// Replays the index log: the index it gives, its largest pointer, its
/// largest sequence number, and where its last complete record ends.
fn replay_meta(meta: &Vec<u8>) -> (r: Result<(Index, Option<u64>, u64, usize), KvsError>)
    ensures
        r is Ok <==> decode_frames(frames(meta@, 0)) is Some,
        r matches Err(e) ==> some_frame_fails(frames(meta@, 0), e),
        r matches Ok((work, max_ptr, top, end)) ==> {
            let ms = decode_frames(frames(meta@, 0))->0;
            &&& work.wf()
            &&& work@ == fold_lww(Map::empty(), meta_updates(ms))
            &&& max_ptr == max_pointer(ms)
            &&& top == max_seq(ms)
            &&& end == frames_end(meta@, 0)
        },
{
    let ghost meta0 = meta@;
    let mut work = Index::new();
    let mut max_ptr: Option<u64> = None;
    let mut top: u64 = 0;
    let mut pos: usize = 0;
    let ghost mut done: Seq<(int, Seq<u8>)> = Seq::empty();
    proof {
        assert(decode_frames(done) =~= Some(Seq::<(int, RecordView)>::empty()));
        assert(meta_updates(Seq::<(int, RecordView)>::empty()) =~= Seq::<Update>::empty());
        assert(done + frames(meta0, 0) =~= frames(meta0, 0));
    }
    loop
        invariant
            meta@ == meta0,
            work.wf(),
            pos <= meta@.len(),
            frames(meta0, 0) == done + frames(meta0, pos as int),
            frames_end(meta0, 0) == frames_end(meta0, pos as int),
            decode_frames(done) is Some,
            work@ == fold_lww(Map::empty(), meta_updates(decode_frames(done)->0)),
            max_ptr == max_pointer(decode_frames(done)->0),
            top == max_seq(decode_frames(done)->0),
        ensures
            frame_at(meta0, pos as int) is None,
            frames(meta0, 0) == done + frames(meta0, pos as int),
            frames_end(meta0, 0) == frames_end(meta0, pos as int),
            decode_frames(done) is Some,
            work.wf(),
            work@ == fold_lww(Map::empty(), meta_updates(decode_frames(done)->0)),
            max_ptr == max_pointer(decode_frames(done)->0),
            top == max_seq(decode_frames(done)->0),
        decreases meta@.len() - pos,
    {
        let (s, e) = match read_frame(meta, pos) {
            None => break,
            Some(b) => b,
        };
        let ghost x = (pos as int, meta0.subrange(s as int, e as int));
        let ghost ms = decode_frames(done)->0;
        proof {
            assert(frames(meta0, pos as int) == seq![x] + frames(meta0, e as int));
            assert(frames(meta0, 0) =~= done.push(x) + frames(meta0, e as int));
        }
        let rec = match decode_record_at(meta, s, e) {
            Ok(rec) => rec,
            Err(err) => {
                proof {
                    assert(frames(meta0, 0)[done.len() as int] == x);
                    assert(record_of(frames(meta0, 0)[done.len() as int].1) is None);
                    assert(decode_error(err, frames(meta0, 0)[done.len() as int].1));
                }
                return Err(err);
            },
        };
        proof {
            lemma_decode_push(done, x, rec@);
            let ms2 = ms.push((x.0, rec@));
            assert(ms2.drop_last() =~= ms);
            assert(meta_updates(ms2) =~= meta_updates(ms).push(meta_update(rec@)));
            lemma_fold_push(Map::empty(), meta_updates(ms), meta_update(rec@));
            done = done.push(x);
        }
        match rec {
            Record::Content { seq, key, value } => {
                work.put_newer(key, seq, Value::Content(value));
                top = if top >= seq {
                    top
                } else {
                    seq
                };
            },
            Record::DeletedKey { seq, key } => {
                work.put_newer(key, seq, Value::Deleted);
                top = if top >= seq {
                    top
                } else {
                    seq
                };
            },
            Record::Pointer { seq, key, offset } => {
                work.put_newer(key, seq, Value::Location(offset));
                top = if top >= seq {
                    top
                } else {
                    seq
                };
                max_ptr = match max_ptr {
                    Some(p) if p >= offset => Some(p),
                    _ => Some(offset),
                };
            },
        }
        pos = e;
    }
    proof {
        assert(frames(meta0, pos as int) =~= Seq::<(int, Seq<u8>)>::empty());
        assert(done + frames(meta0, pos as int) =~= done);
    }
    Ok((work, max_ptr, top, pos))
}

/// Where replay of the command log resumes: after the record at the largest
/// pointer, or at the start where there is none. Fails where no complete
/// record stands at that pointer.
fn resume_at(cmd: &Vec<u8>, max_ptr: Option<u64>) -> (r: Result<usize, KvsError>)
    ensures
        cmd@.len() <= u64::MAX,
        r is Ok <==> (max_ptr matches Some(p) ==> frame_at(cmd@, p as int) is Some),
        r matches Ok(start) ==> match max_ptr {
            None => start == 0,
            Some(p) => start == p + 4 + frame_at(cmd@, p as int)->0.len(),
        },
        r matches Err(e) ==> max_ptr matches Some(p) && e == KvsError::IndexAheadOfData(p),
{
    let len = cmd.len() as u64;
    match max_ptr {
        None => Ok(0),
        Some(p) => {
            if p > len {
                return Err(KvsError::IndexAheadOfData(p));
            }
            match read_frame(cmd, p as usize) {
                None => Err(KvsError::IndexAheadOfData(p)),
                Some((_, e)) => Ok(e),
            }
        },
    }
}

/// Replays the command log from `start` into `work`: the index-log records
/// that stand for the records replayed, their largest sequence number, and
/// where the last complete record ends. Fails where a record does not decode
/// or is a pointer.
fn replay_cmd(cmd: &Vec<u8>, start: usize, work: &mut Index) -> (r: Result<(Vec<Record>, u64, usize), KvsError>)
    requires
        old(work).wf(),
        start <= cmd@.len(),
    ensures
        final(work).wf(),
        r is Ok <==> (decode_frames(frames(cmd@, start as int)) matches Some(cs) && no_pointers(cs)),
        r matches Err(e) ==> some_frame_fails(frames(cmd@, start as int), e) || (e is FoundPointerFromDataWal && some_frame_is_pointer(frames(cmd@, start as int))),
        r matches Ok((reps, top, end)) ==> {
            let cs = decode_frames(frames(cmd@, start as int))->0;
            &&& final(work)@ == fold_lww(old(work)@, cmd_updates(cs))
            &&& reps@.len() == cs.len()
            &&& forall|i: int| 0 <= i < reps@.len() ==> #[trigger] reps@[i]@ == repair(cs[i].0, cs[i].1)
            &&& top == max_seq(cs)
            &&& end == frames_end(cmd@, start as int)
        },
{
    let ghost cmd0 = cmd@;
    let ghost base = work@;
    let mut reps: Vec<Record> = Vec::new();
    let mut top: u64 = 0;
    let mut pos = start;
    let ghost mut done: Seq<(int, Seq<u8>)> = Seq::empty();
    proof {
        assert(decode_frames(done) =~= Some(Seq::<(int, RecordView)>::empty()));
        assert(cmd_updates(Seq::<(int, RecordView)>::empty()) =~= Seq::<Update>::empty());
        assert(done + frames(cmd0, start as int) =~= frames(cmd0, start as int));
    }
    loop
        invariant
            cmd@ == cmd0,
            work.wf(),
            start <= pos <= cmd@.len(),
            frames(cmd0, start as int) == done + frames(cmd0, pos as int),
            frames_end(cmd0, start as int) == frames_end(cmd0, pos as int),
            decode_frames(done) is Some,
            work@ == fold_lww(base, cmd_updates(decode_frames(done)->0)),
            top == max_seq(decode_frames(done)->0),
            reps@.len() == done.len(),
            forall|i: int|
                0 <= i < reps@.len() ==> #[trigger] reps@[i]@ == repair(
                    decode_frames(done)->0[i].0,
                    decode_frames(done)->0[i].1,
                ),
            forall|i: int| 0 <= i < done.len() ==> !(#[trigger] decode_frames(done)->0[i].1 is Pointer),
        ensures
            frame_at(cmd0, pos as int) is None,
            frames(cmd0, start as int) == done + frames(cmd0, pos as int),
            frames_end(cmd0, start as int) == frames_end(cmd0, pos as int),
            decode_frames(done) is Some,
            work.wf(),
            work@ == fold_lww(base, cmd_updates(decode_frames(done)->0)),
            top == max_seq(decode_frames(done)->0),
            reps@.len() == done.len(),
            forall|i: int|
                0 <= i < reps@.len() ==> #[trigger] reps@[i]@ == repair(
                    decode_frames(done)->0[i].0,
                    decode_frames(done)->0[i].1,
                ),
            forall|i: int| 0 <= i < done.len() ==> !(#[trigger] decode_frames(done)->0[i].1 is Pointer),
        decreases cmd@.len() - pos,
    {
        let (s, e) = match read_frame(cmd, pos) {
            None => break,
            Some(b) => b,
        };
        let ghost x = (pos as int, cmd0.subrange(s as int, e as int));
        let ghost cs = decode_frames(done)->0;
        proof {
            assert(frames(cmd0, pos as int) == seq![x] + frames(cmd0, e as int));
            assert(frames(cmd0, start as int) =~= done.push(x) + frames(cmd0, e as int));
        }
        let rec = match decode_record_at(cmd, s, e) {
            Ok(rec) => rec,
            Err(err) => {
                proof {
                    assert(frames(cmd0, start as int)[done.len() as int] == x);
                    assert(record_of(frames(cmd0, start as int)[done.len() as int].1) is None);
                    assert(decode_error(err, frames(cmd0, start as int)[done.len() as int].1));
                }
                return Err(err);
            },
        };
        let offset = pos as u64;
        proof {
            lemma_decode_push(done, x, rec@);
            let cs2 = cs.push((x.0, rec@));
            assert(cs2.drop_last() =~= cs);
            assert(cmd_updates(cs2) =~= cmd_updates(cs).push(cmd_update(x.0, rec@)));
            lemma_fold_push(base, cmd_updates(cs), cmd_update(x.0, rec@));
        }
        match rec {
            Record::Content { seq, key, value } => {
                reps.push(Record::Pointer { seq, key: key.clone(), offset });
                work.put_newer(key, seq, Value::Location(offset));
                top = if top >= seq {
                    top
                } else {
                    seq
                };
            },
            Record::DeletedKey { seq, key } => {
                reps.push(Record::DeletedKey { seq, key: key.clone() });
                work.put_newer(key, seq, Value::Deleted);
                top = if top >= seq {
                    top
                } else {
                    seq
                };
            },
            Record::Pointer { .. } => {
                proof {
                    assert(frames(cmd0, start as int)[done.len() as int] == x);
                    assert(record_of(frames(cmd0, start as int)[done.len() as int].1) matches Some(
                        RecordView::Pointer { .. },
                    ));
                    if let Some(all) = decode_frames(frames(cmd0, start as int)) {
                        assert(all[done.len() as int].1 is Pointer);
                    }
                }
                return Err(KvsError::FoundPointerFromDataWal);
            },
        }
        proof {
            let cs2 = decode_frames(done.push(x))->0;
            assert forall|i: int| 0 <= i < done.len() + 1 implies !(#[trigger] cs2[i].1 is Pointer) by {
                if i < done.len() {
                    assert(cs2[i] == cs[i]);
                }
            }
            assert forall|i: int| 0 <= i < reps@.len() implies #[trigger] reps@[i]@ == repair(cs2[i].0, cs2[i].1) by {
                if i < done.len() {
                    assert(cs2[i] == cs[i]);
                }
            }
            done = done.push(x);
        }
        pos = e;
    }
    proof {
        assert(frames(cmd0, pos as int) =~= Seq::<(int, Seq<u8>)>::empty());
        assert(done + frames(cmd0, pos as int) =~= done);
    }
    Ok((reps, top, pos))
}

/// Checks that each offset the index holds has a complete record in the log.
fn check_offsets(idx: &Index, cmd: &WalLog) -> (r: Result<(), KvsError>)
    requires
        idx.wf(),
    ensures
        r is Ok <==> offsets_in_data(idx@, cmd@),
        r matches Err(e) ==> e matches KvsError::IndexAheadOfData(p) && has_location(idx@, p)
            && frame_at(cmd@, p as int) is None,
{
    let mut i: usize = 0;
    let n = cmd.bytes().len();
    while i < idx.entries.len()
        invariant
            idx.wf(),
            n == cmd@.len(),
            forall|j: int|
                0 <= j < i ==> (#[trigger] idx.entries@[j].value@ matches ValueView::Location(o)
                    ==> frame_at(cmd@, o as int) is Some),
        decreases idx.entries@.len() - i,
    {
        if let Value::Location(o) = &idx.entries[i].value {
            let ok = *o <= n as u64 && read_frame(cmd.bytes(), *o as usize).is_some();
            if !ok {
                proof {
                    let k = idx.entries@[i as int].key@;
                    assert(idx.map@.contains_key(k));
                    assert(idx@[k].1 == ValueView::Location(*o));
                    assert(frame_at(cmd@, *o as int) is None);
                }
                return Err(KvsError::IndexAheadOfData(*o));
            }
        }
        i = i + 1;
    }
    assert forall|k: Seq<char>| #[trigger] idx@.contains_key(k) implies (idx@[k].1 matches ValueView::Location(
        o,
    ) ==> frame_at(cmd@, o as int) is Some) by {
        let j = choose|j: int| 0 <= j < idx.entries@.len() && #[trigger] idx.entries@[j].key@ == k;
        assert(idx.map@.contains_key(idx.entries@[j].key@));
    }
    Ok(())
}

/// Appends the records to the log. Fails, part-way, at the first that
/// cannot be encoded.
fn write_repairs(log: &mut WalLog, reps: &Vec<Record>) -> (r: Result<(), KvsError>)
    ensures
        r is Ok <==> forall|i: int| 0 <= i < reps@.len() ==> encodable(#[trigger] reps@[i]@),
        r matches Err(e) ==> exists|i: int| 0 <= i < reps@.len() && encode_error(e, #[trigger] reps@[i]@),
        r is Ok ==> final(log)@ == old(log)@ + framed(
            Seq::new(reps@.len(), |i: int| record_bytes(reps@[i]@)),
        ),
{
    let ghost ps = Seq::new(reps@.len(), |i: int| record_bytes(reps@[i]@));
    let ghost m0 = log@;
    proof {
        assert(ps.take(0) =~= Seq::<Seq<u8>>::empty());
        assert(m0 + framed(ps.take(0)) =~= m0);
    }
    let mut j: usize = 0;
    while j < reps.len()
        invariant
            j <= reps@.len(),
            ps.len() == reps@.len(),
            ps == Seq::new(reps@.len(), |i: int| record_bytes(reps@[i]@)),
            forall|i: int| 0 <= i < j ==> encodable(#[trigger] reps@[i]@),
            log@ == m0 + framed(ps.take(j as int)),
        decreases reps@.len() - j,
    {
        let b = match encode_record(&reps[j]) {
            Ok(b) => b,
            Err(err) => {
                assert(encode_error(err, reps@[j as int]@));
                return Err(err);
            },
        };
        assert(b@ == ps[j as int]);
        log.append_payload(&b);
        proof {
            assert(ps.take(j + 1).drop_last() =~= ps.take(j as int));
            assert(m0 + framed(ps.take(j as int)) + frame(b@) =~= m0 + framed(ps.take(j + 1)));
        }
        j = j + 1;
    }
    proof {
        assert(ps.take(j as int) =~= ps);
    }
    Ok(())
}

} // verus!
