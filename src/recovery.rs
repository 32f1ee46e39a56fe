//! What recovery computes from the bytes of the two logs, and the facts about
//! it that the store relies on.
use vstd::prelude::*;

use crate::codec::{decode_error, encodable, record_bytes, record_of, RecordView};
use crate::error::KvsError;
use crate::frame::{
    frame, frame_at, framed, frames, frames_end, lemma_frame_at_appended, lemma_frame_at_extend,
    lemma_frames_append, lemma_frames_end_bounds, lemma_frames_extend, lemma_frames_framed, lemma_frames_in_bounds,
    lemma_frames_skip, lemma_frames_take, lemma_frame_at_take,
};
use crate::index::{
    dominated, fold_lww, lemma_fold_absorbed, lemma_fold_bounded, lemma_fold_concat,
    lemma_fold_dominates, lemma_fold_push, live, lww,
    seqs_bounded, Slot, Update, ValueView,
};

verus! {

/// The records of a run of frames, each with its offset; `None` where a
/// payload is no record.
pub open spec fn decode_frames(fs: Seq<(int, Seq<u8>)>) -> Option<Seq<(int, RecordView)>> {
    if forall|i: int| 0 <= i < fs.len() ==> #[trigger] record_of(fs[i].1) is Some {
        Some(Seq::new(fs.len(), |i: int| (fs[i].0, record_of(fs[i].1)->0)))
    } else {
        None
    }
}

/// What an index-log record says of its key.
pub open spec fn meta_update(r: RecordView) -> Update {
    match r {
        RecordView::Content { seq, key, value } => (key, seq, ValueView::Content(value)),
        RecordView::DeletedKey { seq, key } => (key, seq, ValueView::Deleted),
        RecordView::Pointer { seq, key, offset } => (key, seq, ValueView::Location(offset)),
    }
}

/// What a command-log record at offset `o` says of its key.
pub open spec fn cmd_update(o: int, r: RecordView) -> Update {
    match r {
        RecordView::DeletedKey { seq, key } => (key, seq, ValueView::Deleted),
        _ => (r.key(), r.seq(), ValueView::Location(o as u64)),
    }
}

/// The index-log record that stands for a command-log record at offset `o`.
pub open spec fn repair(o: int, r: RecordView) -> RecordView {
    match r {
        RecordView::DeletedKey { seq, key } => RecordView::DeletedKey { seq, key },
        _ => RecordView::Pointer { seq: r.seq(), key: r.key(), offset: o as u64 },
    }
}

/// What the index-log records say, in order.
pub open spec fn meta_updates(ms: Seq<(int, RecordView)>) -> Seq<Update> {
    Seq::new(ms.len(), |i: int| meta_update(ms[i].1))
}

/// What the command-log records say, in order.
pub open spec fn cmd_updates(cs: Seq<(int, RecordView)>) -> Seq<Update> {
    Seq::new(cs.len(), |i: int| cmd_update(cs[i].0, cs[i].1))
}

/// The payloads of the index-log records that stand for command-log records.
pub open spec fn repair_payloads(cs: Seq<(int, RecordView)>) -> Seq<Seq<u8>> {
    Seq::new(cs.len(), |i: int| record_bytes(repair(cs[i].0, cs[i].1)))
}

/// No pointer stands among command-log records.
pub open spec fn no_pointers(cs: Seq<(int, RecordView)>) -> bool {
    forall|i: int| 0 <= i < cs.len() ==> !(#[trigger] cs[i].1 is Pointer)
}

/// Each command-log record's index-log counterpart can be written.
pub open spec fn repairs_encodable(cs: Seq<(int, RecordView)>) -> bool {
    forall|i: int| 0 <= i < cs.len() ==> encodable(#[trigger] repair(cs[i].0, cs[i].1))
}

/// The largest offset that a pointer among the records refers to.
pub open spec fn max_pointer(rs: Seq<(int, RecordView)>) -> Option<u64>
    decreases rs.len(),
{
    if rs.len() == 0 {
        None
    } else {
        let prev = max_pointer(rs.drop_last());
        match rs.last().1 {
            RecordView::Pointer { offset, .. } => match prev {
                Some(p) if p >= offset => Some(p),
                _ => Some(offset),
            },
            _ => prev,
        }
    }
}

/// The largest sequence number among the records, or 0.
pub open spec fn max_seq(rs: Seq<(int, RecordView)>) -> u64
    decreases rs.len(),
{
    if rs.len() == 0 {
        0
    } else {
        let prev = max_seq(rs.drop_last());
        if prev >= rs.last().1.seq() {
            prev
        } else {
            rs.last().1.seq()
        }
    }
}

/// Where the replay of the command log starts: after the record that the
/// largest pointer refers to, or at the start where there is no pointer;
/// `None` where no complete record stands at that offset.
pub open spec fn resume(cmd: Seq<u8>, ms: Seq<(int, RecordView)>) -> Option<int> {
    match max_pointer(ms) {
        None => Some(0),
        Some(r) => match frame_at(cmd, r as int) {
            None => None,
            Some(p) => Some(r + 4 + p.len()),
        },
    }
}

/// Some key of the index is at offset `p` of the command log.
pub open spec fn has_location(idx: Map<Seq<char>, Slot>, p: u64) -> bool {
    exists|k: Seq<char>| #[trigger] idx.contains_key(k) && idx[k].1 == ValueView::Location(p)
}

/// Each offset that the index holds has a complete record in the command log.
pub open spec fn offsets_in_data(idx: Map<Seq<char>, Slot>, cmd: Seq<u8>) -> bool {
    forall|k: Seq<char>| #[trigger]
        idx.contains_key(k) ==> (idx[k].1 matches ValueView::Location(o) ==> frame_at(
            cmd,
            o as int,
        ) is Some)
}

/// What recovery yields: the logs as they are left, the index and the
/// sequence number.
pub struct Recovered {
    pub cmd: Seq<u8>,
    pub meta: Seq<u8>,
    pub index: Map<Seq<char>, Slot>,
    pub seq: u64,
}

/// Recovery from the bytes of the command log and of the index log; `None`
/// where it fails. The index log is replayed, then the command log from
/// where the index log's largest pointer leaves off. Each log is cut back to
/// its last complete frame, and the index log gets a record for each
/// command-log record replayed.
pub open spec fn recover_spec(cmd: Seq<u8>, meta: Seq<u8>) -> Option<Recovered> {
    match decode_frames(frames(meta, 0)) {
        None => None,
        Some(ms) => match resume(cmd, ms) {
            None => None,
            Some(start) => match decode_frames(frames(cmd, start)) {
                None => None,
                Some(cs) => {
                    let w = fold_lww(fold_lww(Map::empty(), meta_updates(ms)), cmd_updates(cs));
                    let cmd2 = cmd.take(frames_end(cmd, start));
                    if no_pointers(cs) && repairs_encodable(cs) && offsets_in_data(live(w), cmd2) {
                        Some(
                            Recovered {
                                cmd: cmd2,
                                meta: meta.take(frames_end(meta, 0)) + framed(repair_payloads(cs)),
                                index: live(w),
                                seq: if max_seq(ms) >= max_seq(cs) {
                                    max_seq(ms)
                                } else {
                                    max_seq(cs)
                                },
                            },
                        )
                    } else {
                        None
                    }
                },
            },
        },
    }
}

/// The logs, index and sequence number of a store agree: the index log reads
/// to its end, the command log reads to its end from where replay resumes,
/// what replay of the command log would add is already in the index log, and
/// the index and sequence number are what the index log gives.
pub open spec fn consistent(
    cmd: Seq<u8>,
    meta: Seq<u8>,
    idx: Map<Seq<char>, Slot>,
    seq: u64,
) -> bool {
    &&& frames_end(meta, 0) == meta.len()
    &&& decode_frames(frames(meta, 0)) matches Some(ms)
    &&& resume(cmd, ms) matches Some(start)
    &&& 0 <= start <= cmd.len()
    &&& frames_end(cmd, start) == cmd.len()
    &&& decode_frames(frames(cmd, start)) matches Some(cs)
    &&& no_pointers(cs)
    &&& repairs_encodable(cs)
    &&& forall|j: int|
        0 <= j < cs.len() ==> dominated(
            fold_lww(Map::empty(), meta_updates(ms)),
            #[trigger] cmd_updates(cs)[j],
        )
    &&& idx == live(fold_lww(Map::empty(), meta_updates(ms)))
    &&& offsets_in_data(idx, cmd)
    &&& max_seq(ms) <= seq
    &&& max_seq(cs) <= seq
}

/// The offset a pointer refers to, and 0 for other records.
pub open spec fn pointer_offset(r: RecordView) -> u64 {
    match r {
        RecordView::Pointer { offset, .. } => offset,
        _ => 0,
    }
}

/// Decoding one more frame whose payload is a record adds that record.
pub proof fn lemma_decode_push(fs: Seq<(int, Seq<u8>)>, x: (int, Seq<u8>), r: RecordView)
    requires
        decode_frames(fs) is Some,
        record_of(x.1) == Some(r),
    ensures
        decode_frames(fs.push(x)) == Some(decode_frames(fs)->0.push((x.0, r))),
{
    let g = fs.push(x);
    assert forall|i: int| 0 <= i < g.len() implies #[trigger] record_of(g[i].1) is Some by {
        if i < fs.len() {
            assert(g[i] == fs[i]);
        }
    }
    assert(decode_frames(g)->0 =~= decode_frames(fs)->0.push((x.0, r)));
}

/// The largest sequence number bounds each record's.
pub proof fn lemma_max_seq_bounds(rs: Seq<(int, RecordView)>)
    ensures
        forall|i: int| 0 <= i < rs.len() ==> (#[trigger] rs[i]).1.seq() <= max_seq(rs),
    decreases rs.len(),
{
    if rs.len() > 0 {
        let init = rs.drop_last();
        lemma_max_seq_bounds(init);
        assert forall|i: int| 0 <= i < rs.len() implies (#[trigger] rs[i]).1.seq() <= max_seq(rs) by {
            if i < init.len() {
                assert(init[i] == rs[i]);
            }
        }
    }
}

/// A bound on each record's sequence number bounds the largest.
pub proof fn lemma_max_seq_at_most(rs: Seq<(int, RecordView)>, b: u64)
    requires
        forall|i: int| 0 <= i < rs.len() ==> (#[trigger] rs[i]).1.seq() <= b,
    ensures
        max_seq(rs) <= b,
    decreases rs.len(),
{
    if rs.len() > 0 {
        let init = rs.drop_last();
        assert forall|i: int| 0 <= i < init.len() implies (#[trigger] init[i]).1.seq() <= b by {
            assert(init[i] == rs[i]);
        }
        lemma_max_seq_at_most(init, b);
        assert(rs[rs.len() - 1].1.seq() <= b);
    }
}

/// The largest sequence number of two runs of records together.
pub proof fn lemma_max_seq_concat(a: Seq<(int, RecordView)>, b: Seq<(int, RecordView)>)
    ensures
        max_seq(a + b) == if max_seq(a) >= max_seq(b) {
            max_seq(a)
        } else {
            max_seq(b)
        },
    decreases b.len(),
{
    if b.len() == 0 {
        assert(a + b =~= a);
    } else {
        assert((a + b).drop_last() =~= a + b.drop_last());
        lemma_max_seq_concat(a, b.drop_last());
    }
}

/// The largest sequence number depends on the records' sequence numbers alone.
pub proof fn lemma_max_seq_same(a: Seq<(int, RecordView)>, b: Seq<(int, RecordView)>)
    requires
        a.len() == b.len(),
        forall|i: int| 0 <= i < a.len() ==> (#[trigger] a[i]).1.seq() == b[i].1.seq(),
    ensures
        max_seq(a) == max_seq(b),
    decreases a.len(),
{
    if a.len() > 0 {
        let (ia, ib) = (a.drop_last(), b.drop_last());
        assert forall|i: int| 0 <= i < ia.len() implies (#[trigger] ia[i]).1.seq() == ib[i].1.seq() by {
            assert(ia[i] == a[i] && ib[i] == b[i]);
        }
        lemma_max_seq_same(ia, ib);
        assert(a[a.len() - 1].1.seq() == b[b.len() - 1].1.seq());
    }
}

/// The largest pointer bounds every pointer and is one of them.
pub proof fn lemma_max_pointer(rs: Seq<(int, RecordView)>)
    ensures
        max_pointer(rs) is None ==> forall|i: int|
            0 <= i < rs.len() ==> !((#[trigger] rs[i]).1 is Pointer),
        max_pointer(rs) matches Some(p) ==> {
            &&& forall|i: int|
                0 <= i < rs.len() && (#[trigger] rs[i]).1 is Pointer ==> pointer_offset(rs[i].1) <= p
            &&& exists|i: int|
                0 <= i < rs.len() && (#[trigger] rs[i]).1 is Pointer && pointer_offset(rs[i].1) == p
        },
    decreases rs.len(),
{
    if rs.len() > 0 {
        let init = rs.drop_last();
        lemma_max_pointer(init);
        let n = rs.len() - 1;
        assert forall|i: int| 0 <= i < init.len() implies #[trigger] rs[i] == init[i] by {}
        if let Some(p) = max_pointer(rs) {
            if max_pointer(init) == Some(p) {
                let i = choose|i: int|
                    0 <= i < init.len() && (#[trigger] init[i]).1 is Pointer && pointer_offset(
                        init[i].1,
                    ) == p;
                assert(rs[i] == init[i]);
            } else {
                assert(rs[n].1 is Pointer && pointer_offset(rs[n].1) == p);
            }
        }
    }
}

/// `e` is the error of encoding record `r`.
pub open spec fn encode_error(e: KvsError, r: RecordView) -> bool {
    &&& !encodable(r)
    &&& (e is RecordTooLarge || e is EncodingMismatch || e is SerdeError)
}

/// Some frame of `fs` has a payload whose decoding fails with `e`.
pub open spec fn some_frame_fails(fs: Seq<(int, Seq<u8>)>, e: KvsError) -> bool {
    exists|i: int| 0 <= i < fs.len() && decode_error(e, #[trigger] fs[i].1)
}

/// Some frame of `fs` holds a pointer.
pub open spec fn some_frame_is_pointer(fs: Seq<(int, Seq<u8>)>) -> bool {
    exists|i: int|
        0 <= i < fs.len() && (#[trigger] record_of(fs[i].1)) matches Some(RecordView::Pointer { .. })
}

/// Recovery from `cmd` and `meta` can end in `e`: a payload of the index log,
/// or of the command log from where replay resumes, that does not decode; a
/// pointer in the command log; a pointer or index offset with no complete
/// record in the command log; a repair record that cannot be encoded.
pub open spec fn recovery_error(cmd: Seq<u8>, meta: Seq<u8>, e: KvsError) -> bool {
    let (ms, start, fs, cs) = recovery_parts(cmd, meta);
    let meta_ok = decode_frames(frames(meta, 0)) is Some;
    let resumed = meta_ok && resume(cmd, ms) is Some;
    let replayed = resumed && decode_frames(fs) is Some && no_pointers(cs);
    let w = fold_lww(fold_lww(Map::empty(), meta_updates(ms)), cmd_updates(cs));
    let cmd2 = cmd.take(frames_end(cmd, start));
    match e {
        KvsError::SerdeError(_) => some_frame_fails(frames(meta, 0), e) || (resumed
            && some_frame_fails(fs, e)) || (replayed && offsets_in_data(live(w), cmd2) && exists|
            i: int,
        | 0 <= i < cs.len() && encode_error(e, #[trigger] repair(cs[i].0, cs[i].1))),
        KvsError::UnknownRecordTag(_) => some_frame_fails(frames(meta, 0), e) || (resumed
            && some_frame_fails(fs, e)),
        KvsError::FoundPointerFromDataWal => resumed && some_frame_is_pointer(fs),
        KvsError::IndexAheadOfData(p) => (meta_ok && max_pointer(ms) == Some(p) && frame_at(
            cmd,
            p as int,
        ) is None) || (replayed && has_location(live(w), p) && frame_at(cmd2, p as int) is None),
        KvsError::RecordTooLarge(_) | KvsError::EncodingMismatch => replayed && offsets_in_data(
            live(w),
            cmd2,
        ) && exists|i: int| 0 <= i < cs.len() && encode_error(e, #[trigger] repair(cs[i].0, cs[i].1)),
        _ => false,
    }
}

/// The logs end cleanly: the index log decodes and reads to its end, and the
/// command log reads to its end from where replay resumes.
pub open spec fn ends_cleanly(cmd: Seq<u8>, meta: Seq<u8>) -> bool {
    &&& frames_end(meta, 0) == meta.len()
    &&& decode_frames(frames(meta, 0)) matches Some(ms)
    &&& resume(cmd, ms) matches Some(start)
    &&& 0 <= start <= cmd.len()
    &&& frames_end(cmd, start) == cmd.len()
}

/// Torn records after logs that end cleanly change nothing that recovery
/// yields: replay stops before them and they are cut off.
pub proof fn lemma_torn_tails(cmd: Seq<u8>, meta: Seq<u8>, tc: Seq<u8>, tm: Seq<u8>)
    requires
        ends_cleanly(cmd, meta),
        frame_at(cmd + tc, cmd.len() as int) is None,
        frame_at(meta + tm, meta.len() as int) is None,
    ensures
        recover_spec(cmd + tc, meta + tm) == recover_spec(cmd, meta),
{
    let (c2, m2) = (cmd + tc, meta + tm);
    lemma_frames_extend(meta, tm, 0);
    assert(frames(m2, meta.len() as int) =~= Seq::<(int, Seq<u8>)>::empty());
    assert(frames(m2, 0) =~= frames(meta, 0));
    assert(m2.take(frames_end(m2, 0)) =~= meta.take(frames_end(meta, 0)));
    let ms = decode_frames(frames(meta, 0))->0;
    if let Some(p) = max_pointer(ms) {
        lemma_frame_at_extend(cmd, tc, p as int);
    }
    let start = resume(cmd, ms)->0;
    assert(resume(c2, ms) == Some(start));
    lemma_frames_extend(cmd, tc, start);
    assert(frames(c2, cmd.len() as int) =~= Seq::<(int, Seq<u8>)>::empty());
    assert(frames(c2, start) =~= frames(cmd, start));
    assert(c2.take(frames_end(c2, start)) =~= cmd.take(frames_end(cmd, start)));
}

/// Where the logs agree with an index and a sequence number, recovery from
/// the logs gives that index back, with the largest sequence number of the
/// index log, and leaves the command log as it is.
pub proof fn lemma_consistent_recovers(cmd: Seq<u8>, meta: Seq<u8>, idx: Map<Seq<char>, Slot>, seq: u64)
    requires
        consistent(cmd, meta, idx, seq),
    ensures
        recover_spec(cmd, meta) matches Some(r) && r.cmd == cmd && r.index == idx && r.seq <= seq
            && r.seq == max_seq(decode_frames(frames(meta, 0))->0),
{
    let ms = decode_frames(frames(meta, 0))->0;
    let start = resume(cmd, ms)->0;
    let cs = decode_frames(frames(cmd, start))->0;
    let m1 = fold_lww(Map::empty(), meta_updates(ms));
    lemma_fold_absorbed(m1, cmd_updates(cs));
    assert(cmd.take(cmd.len() as int) =~= cmd);
    // What replay of the command log would add is in the index log already,
    // so its sequence numbers are no larger.
    lemma_meta_fold_bounded(ms);
    assert forall|j: int| 0 <= j < cs.len() implies (#[trigger] cs[j]).1.seq() <= max_seq(ms) by {
        assert(dominated(m1, cmd_updates(cs)[j]));
    }
    lemma_max_seq_at_most(cs, max_seq(ms));
}

/// The index replayed from the index log holds no sequence number above the
/// largest of its records.
pub proof fn lemma_meta_fold_bounded(ms: Seq<(int, RecordView)>)
    ensures
        forall|k: Seq<char>| #[trigger]
            fold_lww(Map::empty(), meta_updates(ms)).contains_key(k) ==> fold_lww(
                Map::empty(),
                meta_updates(ms),
            )[k].0 <= max_seq(ms),
{
    lemma_max_seq_bounds(ms);
    let us = meta_updates(ms);
    assert forall|j: int| 0 <= j < us.len() implies #[trigger] us[j].1 <= max_seq(ms) by {
        assert(ms[j].1.seq() <= max_seq(ms));
    }
    assert(seqs_bounded(Map::empty(), us, max_seq(ms) as int));
    lemma_fold_bounded(Map::empty(), us, max_seq(ms) as int);
}

/// The index log after one more record: its records, and what it replays to.
proof fn lemma_meta_push(meta: Seq<u8>, r: RecordView)
    requires
        frames_end(meta, 0) == meta.len(),
        decode_frames(frames(meta, 0)) is Some,
        encodable(r),
    ensures
        ({
            let meta2 = meta + frame(record_bytes(r));
            let ms = decode_frames(frames(meta, 0))->0;
            let ms2 = ms.push((meta.len() as int, r));
            &&& frames_end(meta2, 0) == meta2.len()
            &&& decode_frames(frames(meta2, 0)) == Some(ms2)
            &&& ms2.drop_last() == ms
            &&& fold_lww(Map::empty(), meta_updates(ms2)) == lww(
                fold_lww(Map::empty(), meta_updates(ms)),
                meta_update(r),
            )
            &&& max_seq(ms2) == if max_seq(ms) >= r.seq() {
                max_seq(ms)
            } else {
                r.seq()
            }
        }),
{
    let ms = decode_frames(frames(meta, 0))->0;
    let ms2 = ms.push((meta.len() as int, r));
    lemma_frames_append(meta, record_bytes(r), 0);
    lemma_decode_push(frames(meta, 0), (meta.len() as int, record_bytes(r)), r);
    assert(ms2.drop_last() =~= ms);
    assert(meta_updates(ms2) =~= meta_updates(ms).push(meta_update(r)));
    lemma_fold_push(Map::empty(), meta_updates(ms), meta_update(r));
}

/// Setting a key, as the store writes it, keeps the logs in agreement with
/// the index that the store then holds.
pub proof fn lemma_set_consistent(
    cmd: Seq<u8>,
    meta: Seq<u8>,
    idx: Map<Seq<char>, Slot>,
    seq: u64,
    key: Seq<char>,
    value: Seq<char>,
)
    requires
        consistent(cmd, meta, idx, seq),
        seq < u64::MAX,
        cmd.len() <= u64::MAX,
        encodable(RecordView::Content { seq: (seq + 1) as u64, key, value }),
        encodable(RecordView::Pointer { seq: (seq + 1) as u64, key, offset: cmd.len() as u64 }),
    ensures
        consistent(
            cmd + frame(record_bytes(RecordView::Content { seq: (seq + 1) as u64, key, value })),
            meta + frame(
                record_bytes(
                    RecordView::Pointer { seq: (seq + 1) as u64, key, offset: cmd.len() as u64 },
                ),
            ),
            idx.insert(key, ((seq + 1) as u64, ValueView::Location(cmd.len() as u64))),
            (seq + 1) as u64,
        ),
{
    let s = (seq + 1) as u64;
    let o = cmd.len() as u64;
    let c = RecordView::Content { seq: s, key, value };
    let p = RecordView::Pointer { seq: s, key, offset: o };
    let cmd2 = cmd + frame(record_bytes(c));
    let meta2 = meta + frame(record_bytes(p));
    let idx2 = idx.insert(key, (s, ValueView::Location(o)));
    let ms = decode_frames(frames(meta, 0))->0;
    let ms2 = ms.push((meta.len() as int, p));
    let m1 = fold_lww(Map::empty(), meta_updates(ms));
    lemma_meta_push(meta, p);
    lemma_meta_fold_bounded(ms);
    // The new pointer is the largest: every earlier one points into `cmd`.
    assert(max_pointer(ms2) == Some(o));
    lemma_frame_at_appended(cmd, record_bytes(c));
    let end = cmd2.len() as int;
    assert(resume(cmd2, ms2) == Some(end));
    assert(frame_at(cmd2, end) is None);
    assert(frames(cmd2, end) =~= Seq::<(int, Seq<u8>)>::empty());
    assert(decode_frames(frames(cmd2, end)) == Some(Seq::<(int, RecordView)>::empty()));
    assert(cmd_updates(Seq::<(int, RecordView)>::empty()) =~= Seq::<Update>::empty());
    assert(live(lww(m1, meta_update(p))) =~= idx2);
    assert forall|k: Seq<char>| #[trigger] idx2.contains_key(k) implies (idx2[k].1 matches ValueView::Location(
        q,
    ) ==> frame_at(cmd2, q as int) is Some) by {
        if k != key {
            if let ValueView::Location(q) = idx[k].1 {
                lemma_frame_at_extend(cmd, frame(record_bytes(c)), q as int);
            }
        }
    }
}

/// Removing a key, as the store writes it, keeps the logs in agreement with
/// the index that the store then holds.
pub proof fn lemma_remove_consistent(
    cmd: Seq<u8>,
    meta: Seq<u8>,
    idx: Map<Seq<char>, Slot>,
    seq: u64,
    key: Seq<char>,
)
    requires
        consistent(cmd, meta, idx, seq),
        seq < u64::MAX,
        idx.contains_key(key),
        encodable(RecordView::DeletedKey { seq: (seq + 1) as u64, key }),
    ensures
        consistent(
            cmd + frame(record_bytes(RecordView::DeletedKey { seq: (seq + 1) as u64, key })),
            meta + frame(record_bytes(RecordView::DeletedKey { seq: (seq + 1) as u64, key })),
            idx.remove(key),
            (seq + 1) as u64,
        ),
{
    let s = (seq + 1) as u64;
    let d = RecordView::DeletedKey { seq: s, key };
    let cmd2 = cmd + frame(record_bytes(d));
    let meta2 = meta + frame(record_bytes(d));
    let idx2 = idx.remove(key);
    let ms = decode_frames(frames(meta, 0))->0;
    let ms2 = ms.push((meta.len() as int, d));
    let start = resume(cmd, ms)->0;
    let cs = decode_frames(frames(cmd, start))->0;
    let cs2 = cs.push((cmd.len() as int, d));
    let m1 = fold_lww(Map::empty(), meta_updates(ms));
    let m2 = lww(m1, meta_update(d));
    lemma_meta_push(meta, d);
    lemma_meta_fold_bounded(ms);
    assert(max_pointer(ms2) == max_pointer(ms));
    if let Some(r) = max_pointer(ms) {
        lemma_frame_at_extend(cmd, frame(record_bytes(d)), r as int);
    }
    assert(resume(cmd2, ms2) == Some(start));
    lemma_frames_append(cmd, record_bytes(d), start);
    lemma_decode_push(frames(cmd, start), (cmd.len() as int, record_bytes(d)), d);
    assert(decode_frames(frames(cmd2, start)) == Some(cs2));
    assert(cs2.drop_last() =~= cs);
    assert(cmd_updates(cs2) =~= cmd_updates(cs).push(meta_update(d)));
    assert forall|j: int| 0 <= j < cs2.len() implies dominated(m2, #[trigger] cmd_updates(cs2)[j]) by {
        if j < cs.len() {
            assert(cmd_updates(cs2)[j] == cmd_updates(cs)[j]);
            assert(dominated(m1, cmd_updates(cs)[j]));
        }
    }
    assert forall|i: int| 0 <= i < cs2.len() implies !(#[trigger] cs2[i].1 is Pointer) by {
        if i < cs.len() {
            assert(cs2[i] == cs[i]);
        }
    }
    assert forall|i: int| 0 <= i < cs2.len() implies encodable(
        #[trigger] repair(cs2[i].0, cs2[i].1),
    ) by {
        if i < cs.len() {
            assert(cs2[i] == cs[i]);
        }
    }
    assert(live(m2) =~= idx2);
    assert forall|k: Seq<char>| #[trigger] idx2.contains_key(k) implies (idx2[k].1 matches ValueView::Location(
        q,
    ) ==> frame_at(cmd2, q as int) is Some) by {
        if let ValueView::Location(q) = idx[k].1 {
            lemma_frame_at_extend(cmd, frame(record_bytes(d)), q as int);
        }
    }
    assert(max_seq(cs2) == s);
}

/// Empty logs agree with an empty index.
pub proof fn lemma_empty_consistent()
    ensures
        consistent(Seq::empty(), Seq::empty(), Map::empty(), 0),
        fold_lww(Map::empty(), meta_updates(decode_frames(frames(Seq::<u8>::empty(), 0))->0))
            == Map::<Seq<char>, Slot>::empty(),
{
    let e = Seq::<u8>::empty();
    assert(frames(e, 0) =~= Seq::<(int, Seq<u8>)>::empty());
    assert(decode_frames(frames(e, 0)) =~= Some(Seq::<(int, RecordView)>::empty()));
    assert(meta_updates(Seq::<(int, RecordView)>::empty()) =~= Seq::<Update>::empty());
    assert(live(Map::<Seq<char>, Slot>::empty()) =~= Map::<Seq<char>, Slot>::empty());
}

/// Writing a value and its pointer for a key that the index lacks, where the
/// index log holds no deletion, keeps the logs in agreement with the index
/// that then maps the key to the new value, whatever its sequence number.
pub proof fn lemma_insert_consistent(
    cmd: Seq<u8>,
    meta: Seq<u8>,
    idx: Map<Seq<char>, Slot>,
    seq: u64,
    key: Seq<char>,
    value: Seq<char>,
    s: u64,
)
    requires
        consistent(cmd, meta, idx, seq),
        fold_lww(Map::empty(), meta_updates(decode_frames(frames(meta, 0))->0)) == idx,
        !idx.contains_key(key),
        cmd.len() <= u64::MAX,
        encodable(RecordView::Content { seq: s, key, value }),
        encodable(RecordView::Pointer { seq: s, key, offset: cmd.len() as u64 }),
    ensures
        ({
            let cmd2 = cmd + frame(record_bytes(RecordView::Content { seq: s, key, value }));
            let meta2 = meta + frame(
                record_bytes(RecordView::Pointer { seq: s, key, offset: cmd.len() as u64 }),
            );
            let idx2 = idx.insert(key, (s, ValueView::Location(cmd.len() as u64)));
            let top = if seq >= s {
                seq
            } else {
                s
            };
            &&& consistent(cmd2, meta2, idx2, top)
            &&& fold_lww(Map::empty(), meta_updates(decode_frames(frames(meta2, 0))->0)) == idx2
        }),
{
    let o = cmd.len() as u64;
    let c = RecordView::Content { seq: s, key, value };
    let p = RecordView::Pointer { seq: s, key, offset: o };
    let cmd2 = cmd + frame(record_bytes(c));
    let idx2 = idx.insert(key, (s, ValueView::Location(o)));
    let ms = decode_frames(frames(meta, 0))->0;
    let ms2 = ms.push((meta.len() as int, p));
    let m1 = fold_lww(Map::empty(), meta_updates(ms));
    lemma_meta_push(meta, p);
    assert(max_pointer(ms2) == Some(o));
    lemma_frame_at_appended(cmd, record_bytes(c));
    let end = cmd2.len() as int;
    assert(resume(cmd2, ms2) == Some(end));
    assert(frame_at(cmd2, end) is None);
    assert(frames(cmd2, end) =~= Seq::<(int, Seq<u8>)>::empty());
    assert(decode_frames(frames(cmd2, end)) == Some(Seq::<(int, RecordView)>::empty()));
    assert(cmd_updates(Seq::<(int, RecordView)>::empty()) =~= Seq::<Update>::empty());
    assert(lww(m1, meta_update(p)) == idx2);
    assert(live(idx2) =~= idx2) by {
        assert(live(idx) == idx);
    }
    assert forall|k: Seq<char>| #[trigger] idx2.contains_key(k) implies (idx2[k].1 matches ValueView::Location(
        q,
    ) ==> frame_at(cmd2, q as int) is Some) by {
        if k != key {
            if let ValueView::Location(q) = idx[k].1 {
                lemma_frame_at_extend(cmd, frame(record_bytes(c)), q as int);
            }
        }
    }
}

/// The parts that recovery reads: the index-log records, where replay of the
/// command log starts, the command-log frames and records from there.
pub open spec fn recovery_parts(cmd: Seq<u8>, meta: Seq<u8>) -> (
    Seq<(int, RecordView)>,
    int,
    Seq<(int, Seq<u8>)>,
    Seq<(int, RecordView)>,
) {
    let ms = decode_frames(frames(meta, 0))->0;
    let start = resume(cmd, ms)->0;
    let fs = frames(cmd, start);
    (ms, start, fs, decode_frames(fs)->0)
}

/// The index log that recovery leaves reads as the old records followed by
/// the repairs, and replays to what recovery computed.
proof fn lemma_recovered_meta(cmd: Seq<u8>, meta: Seq<u8>)
    requires
        recover_spec(cmd, meta) is Some,
    ensures
        ({
            let r = recover_spec(cmd, meta)->0;
            let (ms, start, fs, cs) = recovery_parts(cmd, meta);
            &&& frames_end(r.meta, 0) == r.meta.len()
            &&& decode_frames(frames(r.meta, 0)) matches Some(ms2)
            &&& ms2.len() == ms.len() + cs.len()
            &&& forall|i: int| 0 <= i < ms.len() ==> #[trigger] ms2[i] == ms[i]
            &&& forall|i: int|
                0 <= i < cs.len() ==> #[trigger] ms2[ms.len() + i].1 == repair(cs[i].0, cs[i].1)
            &&& meta_updates(ms2) == meta_updates(ms) + cmd_updates(cs)
            &&& max_seq(ms2) == r.seq
        }),
{
    let r = recover_spec(cmd, meta)->0;
    let (ms, start, fs, cs) = recovery_parts(cmd, meta);
    let m0 = meta.take(frames_end(meta, 0));
    let ps = repair_payloads(cs);
    lemma_frames_end_bounds(meta, 0);
    lemma_frames_take(meta, 0);
    assert forall|i: int| 0 <= i < ps.len() implies (#[trigger] ps[i]).len() < 4294967296 by {
        assert(encodable(repair(cs[i].0, cs[i].1)));
    }
    lemma_frames_framed(m0, ps, 0);
    let f = frames(meta, 0);
    let g = frames(r.meta, 0);
    assert forall|i: int| 0 <= i < g.len() implies #[trigger] record_of(g[i].1) is Some by {
        if i < f.len() {
            assert(g[i] == f[i]);
            assert(record_of(f[i].1) is Some);
        } else {
            let k = i - f.len();
            assert(g[f.len() + k].1 == ps[k]);
            assert(encodable(repair(cs[k].0, cs[k].1)));
        }
    }
    let ms2 = decode_frames(g)->0;
    assert forall|i: int| 0 <= i < ms.len() implies #[trigger] ms2[i] == ms[i] by {
        assert(g[i] == f[i]);
    }
    assert forall|i: int| 0 <= i < cs.len() implies #[trigger] ms2[ms.len() + i].1 == repair(
        cs[i].0,
        cs[i].1,
    ) by {
        assert(g[f.len() + i].1 == ps[i]);
        assert(encodable(repair(cs[i].0, cs[i].1)));
    }
    assert forall|i: int| 0 <= i < cs.len() implies meta_update(
        #[trigger] repair(cs[i].0, cs[i].1),
    ) == cmd_update(cs[i].0, cs[i].1) by {
        assert(!(cs[i].1 is Pointer));
    }
    assert(meta_updates(ms2) =~= meta_updates(ms) + cmd_updates(cs)) by {
        assert forall|i: int| 0 <= i < ms2.len() implies #[trigger] meta_updates(ms2)[i] == (
        meta_updates(ms) + cmd_updates(cs))[i] by {
            if i >= ms.len() {
                let k = i - ms.len();
                assert(ms2[ms.len() + k].1 == repair(cs[k].0, cs[k].1));
            }
        }
    }
    let xs = ms2.subrange(ms.len() as int, ms2.len() as int);
    assert(ms2 =~= ms + xs);
    lemma_max_seq_concat(ms, xs);
    assert forall|i: int| 0 <= i < xs.len() implies (#[trigger] xs[i]).1.seq() == cs[i].1.seq() by {
        assert(xs[i] == ms2[ms.len() + i]);
    }
    lemma_max_seq_same(xs, cs);
}

/// The index log that recovery leaves has the recovered sequence number as
/// its largest.
pub proof fn lemma_recovered_seq(cmd: Seq<u8>, meta: Seq<u8>)
    requires
        recover_spec(cmd, meta) is Some,
    ensures
        max_seq(decode_frames(frames(recover_spec(cmd, meta)->0.meta, 0))->0) == recover_spec(
            cmd,
            meta,
        )->0.seq,
{
    lemma_recovered_meta(cmd, meta);
}

/// Replay of the command log that recovery leaves resumes at one of the
/// frames that recovery replayed, or after the last of them.
proof fn lemma_recovered_resume(cmd: Seq<u8>, meta: Seq<u8>) -> (k0: int)
    requires
        recover_spec(cmd, meta) is Some,
        cmd.len() <= u64::MAX,
    ensures
        ({
            let r = recover_spec(cmd, meta)->0;
            let (ms, start, fs, cs) = recovery_parts(cmd, meta);
            let ms2 = decode_frames(frames(r.meta, 0))->0;
            &&& 0 <= k0 <= fs.len()
            &&& resume(r.cmd, ms2) matches Some(start2)
            &&& 0 <= start2 <= r.cmd.len()
            &&& frames(r.cmd, start2) == fs.skip(k0)
            &&& frames_end(r.cmd, start2) == r.cmd.len()
        }),
{
    let r = recover_spec(cmd, meta)->0;
    let (ms, start, fs, cs) = recovery_parts(cmd, meta);
    lemma_recovered_meta(cmd, meta);
    let ms2 = decode_frames(frames(r.meta, 0))->0;
    let e = frames_end(cmd, start);
    lemma_frames_end_bounds(cmd, start);
    assert(r.cmd.len() == e);
    lemma_max_pointer(ms);
    lemma_max_pointer(ms2);
    assert forall|i: int| 0 <= i < fs.len() implies start <= (#[trigger] fs[i]).0 && fs[i].0 + 4
        + fs[i].1.len() <= e by {
        lemma_frames_in_bounds(cmd, start, i);
    }
    if let Some(p2) = max_pointer(ms2) {
        let i2 = choose|i: int|
            0 <= i < ms2.len() && (#[trigger] ms2[i]).1 is Pointer && pointer_offset(ms2[i].1)
                == p2;
        if i2 >= ms.len() {
            // The largest pointer is a repair: resume after the record it repairs.
            let j = i2 - ms.len();
            assert(ms2[ms.len() + j].1 == repair(cs[j].0, cs[j].1));
            assert(cs[j].0 == fs[j].0);
            lemma_frames_skip(cmd, start, j);
            lemma_frame_at_take(cmd, e, fs[j].0);
            let start2 = fs[j].0 + 4 + fs[j].1.len();
            assert(resume(r.cmd, ms2) == Some(start2));
            lemma_frames_in_bounds(cmd, start, j);
            if j + 1 < fs.len() {
                lemma_frames_skip(cmd, start, j + 1);
            } else {
                assert(frames(cmd, start2) =~= fs.skip(j + 1));
            }
            lemma_frames_take(cmd, start2);
            return j + 1;
        } else {
            // The largest pointer is an old one: no record replayed was content.
            assert(ms2[i2] == ms[i2]);
            assert(max_pointer(ms) == Some(p2)) by {
                let p = max_pointer(ms)->0;
                let i1 = choose|i: int|
                    0 <= i < ms.len() && (#[trigger] ms[i]).1 is Pointer && pointer_offset(ms[i].1)
                        == p;
                assert(ms2[i1] == ms[i1]);
            }
        }
    } else {
        assert(max_pointer(ms) is None) by {
            if let Some(p) = max_pointer(ms) {
                let i1 = choose|i: int|
                    0 <= i < ms.len() && (#[trigger] ms[i]).1 is Pointer && pointer_offset(ms[i].1)
                        == p;
                assert(ms2[i1] == ms[i1]);
            }
        }
    }
    // Replay resumes where it did.
    assert(max_pointer(ms2) == max_pointer(ms));
    if let Some(rp) = max_pointer(ms) {
        lemma_frame_at_take(cmd, e, rp as int);
    }
    assert(resume(r.cmd, ms2) == Some(start));
    lemma_frames_take(cmd, start);
    assert(fs.skip(0) =~= fs);
    0
}

/// What recovery yields is consistent: its logs agree with its index and
/// sequence number.
pub proof fn lemma_recovered_consistent(cmd: Seq<u8>, meta: Seq<u8>)
    requires
        recover_spec(cmd, meta) is Some,
        cmd.len() <= u64::MAX,
    ensures
        ({
            let r = recover_spec(cmd, meta)->0;
            consistent(r.cmd, r.meta, r.index, r.seq)
        }),
{
    let r = recover_spec(cmd, meta)->0;
    let (ms, start, fs, cs) = recovery_parts(cmd, meta);
    lemma_recovered_meta(cmd, meta);
    let k0 = lemma_recovered_resume(cmd, meta);
    let ms2 = decode_frames(frames(r.meta, 0))->0;
    let start2 = resume(r.cmd, ms2)->0;
    let fs2 = frames(r.cmd, start2);
    assert forall|i: int| 0 <= i < fs2.len() implies #[trigger] record_of(fs2[i].1) is Some by {
        assert(fs2[i] == fs[k0 + i]);
        assert(record_of(fs[k0 + i].1) is Some);
    }
    let cs2 = decode_frames(fs2)->0;
    assert(cs2 =~= cs.skip(k0));
    let mu = meta_updates(ms);
    let cu = cmd_updates(cs);
    lemma_fold_concat(Map::empty(), mu, cu);
    assert forall|j: int| 0 <= j < cs2.len() implies dominated(
        fold_lww(Map::empty(), meta_updates(ms2)),
        #[trigger] cmd_updates(cs2)[j],
    ) by {
        lemma_fold_dominates(Map::empty(), mu + cu, mu.len() + k0 + j);
        assert((mu + cu)[mu.len() + k0 + j] == cu[k0 + j]);
    }
    assert forall|i: int| 0 <= i < cs2.len() implies !(#[trigger] cs2[i].1 is Pointer) by {
        assert(cs2[i] == cs[k0 + i]);
    }
    assert forall|i: int| 0 <= i < cs2.len() implies encodable(
        #[trigger] repair(cs2[i].0, cs2[i].1),
    ) by {
        assert(cs2[i] == cs[k0 + i]);
    }
    lemma_max_seq_bounds(cs);
    assert forall|i: int| 0 <= i < cs2.len() implies (#[trigger] cs2[i]).1.seq() <= r.seq by {
        assert(cs2[i] == cs[k0 + i]);
    }
    lemma_max_seq_at_most(cs2, r.seq);
}

} // verus!
