//! Records and their payload bytes. A record is written as the JSON of five
//! fields, a tag naming its kind, its sequence number, its key, its text and
//! its offset, with the fields that a kind does not use left empty or zero.
use vstd::prelude::*;
use vstd::slice::slice_subrange;

use crate::error::KvsError;

verus! {

/// What a log holds: a value, a deletion, or a pointer to a value held at an
/// offset of the command log.
#[derive(Debug)]
pub enum Record {
    Content { seq: u64, key: String, value: String },
    DeletedKey { seq: u64, key: String },
    Pointer { seq: u64, key: String, offset: u64 },
}

/// A record as a mathematical value.
pub enum RecordView {
    Content { seq: u64, key: Seq<char>, value: Seq<char> },
    DeletedKey { seq: u64, key: Seq<char> },
    Pointer { seq: u64, key: Seq<char>, offset: u64 },
}

impl RecordView {
    /// The record's sequence number.
    pub open spec fn seq(self) -> u64 {
        match self {
            RecordView::Content { seq, .. } => seq,
            RecordView::DeletedKey { seq, .. } => seq,
            RecordView::Pointer { seq, .. } => seq,
        }
    }

    /// The key the record is about.
    pub open spec fn key(self) -> Seq<char> {
        match self {
            RecordView::Content { key, .. } => key,
            RecordView::DeletedKey { key, .. } => key,
            RecordView::Pointer { key, .. } => key,
        }
    }
}

impl View for Record {
    type V = RecordView;

    open spec fn view(&self) -> RecordView {
        match self {
            Record::Content { seq, key, value } => RecordView::Content {
                seq: *seq,
                key: key@,
                value: value@,
            },
            Record::DeletedKey { seq, key } => RecordView::DeletedKey { seq: *seq, key: key@ },
            Record::Pointer { seq, key, offset } => RecordView::Pointer {
                seq: *seq,
                key: key@,
                offset: *offset,
            },
        }
    }
}

/// The JSON text that serde_json writes for the five fields of a record.
pub uninterp spec fn json_text(tag: u8, seq: u64, key: Seq<char>, text: Seq<char>, pos: u64) -> Seq<
    u8,
>;

/// The five fields that serde_json reads from bytes, where it reads any.
pub uninterp spec fn json_fields(b: Seq<u8>) -> Option<(u8, u64, Seq<char>, Seq<char>, u64)>;

/// Relies on serde_json::to_vec on a tuple of integers and strings: the bytes
/// depend on the values alone, and it does not fail, since its documented
/// failures are a `Serialize` impl that decides to fail and a map with
/// non-string keys, neither of which a tuple of integers and strings has.
#[verifier::external_body]
fn json_encode(tag: u8, seq: u64, key: &String, text: &String, pos: u64) -> (r: Result<
    Vec<u8>,
    serde_json::Error,
>)
    ensures
        r is Ok,
        r is Ok ==> r->Ok_0@ == json_text(tag, seq, key@, text@, pos),
{
    serde_json::to_vec(&(tag, seq, key, text, pos))
}

/// Relies on serde_json::from_slice into a tuple of integers and strings: the
/// outcome depends on the bytes alone.
#[verifier::external_body]
fn json_decode(b: &[u8]) -> (r: Result<(u8, u64, String, String, u64), serde_json::Error>)
    ensures
        r is Ok <==> json_fields(b@) is Some,
        r matches Ok(t) ==> json_fields(b@) == Some((t.0, t.1, t.2@, t.3@, t.4)),
{
    serde_json::from_slice(b)
}

/// The tag of a value record.
pub const TAG_CONTENT: u8 = 0;

/// The tag of a deletion record.
pub const TAG_DELETED: u8 = 1;

/// The tag of a pointer record.
pub const TAG_POINTER: u8 = 2;

/// The five fields a record is written as.
pub open spec fn fields_of(r: RecordView) -> (u8, u64, Seq<char>, Seq<char>, u64) {
    match r {
        RecordView::Content { seq, key, value } => (TAG_CONTENT, seq, key, value, 0),
        RecordView::DeletedKey { seq, key } => (TAG_DELETED, seq, key, Seq::empty(), 0),
        RecordView::Pointer { seq, key, offset } => (TAG_POINTER, seq, key, Seq::empty(), offset),
    }
}

/// The record that five fields stand for, where the tag names a kind.
pub open spec fn record_of_fields(t: (u8, u64, Seq<char>, Seq<char>, u64)) -> Option<RecordView> {
    if t.0 == TAG_CONTENT {
        Some(RecordView::Content { seq: t.1, key: t.2, value: t.3 })
    } else if t.0 == TAG_DELETED {
        Some(RecordView::DeletedKey { seq: t.1, key: t.2 })
    } else if t.0 == TAG_POINTER {
        Some(RecordView::Pointer { seq: t.1, key: t.2, offset: t.4 })
    } else {
        None
    }
}

/// The payload bytes a record is written as.
pub open spec fn record_bytes(r: RecordView) -> Seq<u8> {
    let t = fields_of(r);
    json_text(t.0, t.1, t.2, t.3, t.4)
}

/// The record that payload bytes decode to, where they decode to one.
pub open spec fn record_of(b: Seq<u8>) -> Option<RecordView> {
    match json_fields(b) {
        None => None,
        Some(t) => record_of_fields(t),
    }
}

/// `e` is the error of decoding payload `p`.
pub open spec fn decode_error(e: KvsError, p: Seq<u8>) -> bool {
    match e {
        KvsError::SerdeError(_) => json_fields(p) is None,
        KvsError::UnknownRecordTag(t) => json_fields(p) matches Some(f) && f.0 == t && record_of(
            p,
        ) is None,
        _ => false,
    }
}

/// A record can be written: its payload reads back as the record, and its
/// length fits in a length prefix.
pub open spec fn encodable(r: RecordView) -> bool {
    &&& record_of(record_bytes(r)) == Some(r)
    &&& record_bytes(r).len() <= u32::MAX
}

/// Encodes a record as payload bytes, and checks that they decode to the
/// record again, so that nothing is written that would read back otherwise.
pub fn encode_record(r: &Record) -> (res: Result<Vec<u8>, KvsError>)
    ensures
        res is Ok <==> encodable(r@),
        res is Ok ==> res->Ok_0@ == record_bytes(r@),
        res is Err ==> match res->Err_0 {
            KvsError::RecordTooLarge(n) => n == record_bytes(r@).len() && n > u32::MAX,
            KvsError::SerdeError(_) => json_fields(record_bytes(r@)) is None,
            KvsError::EncodingMismatch => record_bytes(r@).len() <= u32::MAX && json_fields(
                record_bytes(r@),
            ) is Some,
            _ => false,
        },
{
    let empty = String::new();
    let encoded = match r {
        Record::Content { seq, key, value } => json_encode(TAG_CONTENT, *seq, key, value, 0),
        Record::DeletedKey { seq, key } => json_encode(TAG_DELETED, *seq, key, &empty, 0),
        Record::Pointer { seq, key, offset } => json_encode(TAG_POINTER, *seq, key, &empty, *offset),
    };
    let bytes = match encoded {
        Ok(b) => b,
        Err(_) => {
            return Err(KvsError::EncodingMismatch);
        },
    };
    assert(bytes@ == record_bytes(r@));
    let n = bytes.len();
    if n > 4294967295 {
        return Err(KvsError::RecordTooLarge(n));
    }
    match decode_record(bytes.as_slice()) {
        Ok(back) => {
            if same_record(&back, r) {
                Ok(bytes)
            } else {
                Err(KvsError::EncodingMismatch)
            }
        },
        Err(KvsError::SerdeError(e)) => Err(KvsError::SerdeError(e)),
        Err(_) => Err(KvsError::EncodingMismatch),
    }
}

/// Whether two records are equal.
pub fn same_record(a: &Record, b: &Record) -> (r: bool)
    ensures
        r == (a@ == b@),
{
    match (a, b) {
        (
            Record::Content { seq: s1, key: k1, value: v1 },
            Record::Content { seq: s2, key: k2, value: v2 },
        ) => *s1 == *s2 && *k1 == *k2 && *v1 == *v2,
        (Record::DeletedKey { seq: s1, key: k1 }, Record::DeletedKey { seq: s2, key: k2 }) => *s1
            == *s2 && *k1 == *k2,
        (
            Record::Pointer { seq: s1, key: k1, offset: o1 },
            Record::Pointer { seq: s2, key: k2, offset: o2 },
        ) => *s1 == *s2 && *k1 == *k2 && *o1 == *o2,
        _ => false,
    }
}

/// Decodes payload bytes into a record.
pub fn decode_record(b: &[u8]) -> (res: Result<Record, KvsError>)
    ensures
        res is Ok <==> record_of(b@) is Some,
        res is Ok ==> record_of(b@) == Some(res->Ok_0@),
        res is Err ==> match res->Err_0 {
            KvsError::SerdeError(_) => json_fields(b@) is None,
            KvsError::UnknownRecordTag(t) => json_fields(b@) matches Some(f) && f.0 == t,
            _ => false,
        },
{
    match json_decode(b) {
        Err(e) => Err(KvsError::SerdeError(e)),
        Ok((tag, seq, key, text, pos)) => {
            if tag == TAG_CONTENT {
                Ok(Record::Content { seq, key, value: text })
            } else if tag == TAG_DELETED {
                Ok(Record::DeletedKey { seq, key })
            } else if tag == TAG_POINTER {
                Ok(Record::Pointer { seq, key, offset: pos })
            } else {
                Err(KvsError::UnknownRecordTag(tag))
            }
        },
    }
}

/// Decodes the payload that lies between `s` and `e` in `b`.
pub fn decode_record_at(b: &Vec<u8>, s: usize, e: usize) -> (res: Result<Record, KvsError>)
    requires
        s <= e <= b@.len(),
    ensures
        res is Ok <==> record_of(b@.subrange(s as int, e as int)) is Some,
        res is Ok ==> record_of(b@.subrange(s as int, e as int)) == Some(res->Ok_0@),
        res is Err ==> match res->Err_0 {
            KvsError::SerdeError(_) => json_fields(b@.subrange(s as int, e as int)) is None,
            KvsError::UnknownRecordTag(t) => json_fields(b@.subrange(s as int, e as int)) matches Some(
                f,
            ) && f.0 == t,
            _ => false,
        },
{
    let payload = slice_subrange(b.as_slice(), s, e);
    decode_record(payload)
}

} // verus!
