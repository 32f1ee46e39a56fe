//! The append-only log: framed records over a byte image of the log's file.
use vstd::prelude::*;

use crate::codec::{
    decode_error, decode_record_at, encodable, encode_record, json_fields, record_bytes, record_of, Record,
};
use crate::error::KvsError;
use crate::frame::{frame, frame_at, frames, read_frame};

verus! {

/// An append-only log of records, held as the bytes of its file.
pub struct WalLog {
    stor: Vec<u8>,
}

impl View for WalLog {
    type V = Seq<u8>;

    closed spec fn view(&self) -> Seq<u8> {
        self.stor@
    }
}

impl WalLog {
    /// A log over the given bytes, as read from its file.
    pub fn new(stor: Vec<u8>) -> (r: Self)
        ensures
            r@ == stor@,
    {
        WalLog { stor }
    }

    /// The length of the log in bytes, which is where the next record goes.
    pub fn len(&self) -> (r: u64)
        ensures
            r == self@.len(),
    {
        self.stor.len() as u64
    }

    /// The bytes of the log.
    pub fn bytes(&self) -> (r: &Vec<u8>)
        ensures
            r@ == self@,
    {
        &self.stor
    }

    /// The bytes of the log, giving the log up.
    pub fn into_bytes(self) -> (r: Vec<u8>)
        ensures
            r@ == self@,
    {
        self.stor
    }

    /// Appends the frame of a payload, and returns the offset where it begins.
    pub(crate) fn append_payload(&mut self, p: &Vec<u8>) -> (r: u64)
        requires
            p@.len() <= u32::MAX,
        ensures
            r == old(self)@.len(),
            final(self)@ == old(self)@ + frame(p@),
            final(self)@.len() <= u64::MAX,
    {
        let offset = self.stor.len() as u64;
        let n = p.len();
        let ghost start = self.stor@;
        self.stor.push((n / 16777216) as u8);
        self.stor.push(((n / 65536) % 256) as u8);
        self.stor.push(((n / 256) % 256) as u8);
        self.stor.push((n % 256) as u8);
        let ghost prefixed = self.stor@;
        assert(prefixed =~= start + crate::frame::be32_bytes(p@.len()));
        let mut i: usize = 0;
        while i < n
            invariant
                n == p@.len(),
                i <= n,
                self.stor@ == prefixed + p@.take(i as int),
            decreases n - i,
        {
            self.stor.push(p[i]);
            i = i + 1;
            assert(p@.take(i as int) =~= p@.take(i - 1).push(p@[i - 1]));
        }
        assert(p@.take(n as int) =~= p@);
        assert(self.stor@ =~= start + frame(p@));
        // The new length is a usize, so every offset in the log fits in a u64.
        let end = self.stor.len();
        assert(end as u64 == self.stor@.len());
        offset
    }

    /// Appends a record, and returns the offset where it begins. Nothing is
    /// written where the record cannot be encoded.
    pub fn append(&mut self, cmd: &Record) -> (r: Result<u64, KvsError>)
        ensures
            r is Ok <==> encodable(cmd@),
            r matches Ok(o) ==> o == old(self)@.len() && final(self)@ == old(self)@ + frame(
                record_bytes(cmd@),
            ),
            r is Err ==> final(self)@ == old(self)@,
    {
        let p = encode_record(cmd)?;
        Ok(self.append_payload(&p))
    }

    /// Reads the record at `offset`.
    pub fn read(&self, offset: u64) -> (r: Result<Record, KvsError>)
        ensures
            r is Ok <==> (frame_at(self@, offset as int) matches Some(p) && record_of(p) is Some),
            r matches Ok(rec) ==> record_of(frame_at(self@, offset as int)->0) == Some(rec@),
            r is Err ==> match r->Err_0 {
                KvsError::PartialWritten(_, _) => frame_at(self@, offset as int) is None,
                KvsError::SerdeError(_) => frame_at(self@, offset as int) matches Some(p) && json_fields(p) is None,
                KvsError::UnknownRecordTag(t) => frame_at(self@, offset as int) matches Some(p) && json_fields(p) matches Some(f) && f.0 == t && record_of(p) is None,
                _ => false,
            },
    {
        let len = self.stor.len();
        if offset > len as u64 {
            return Err(KvsError::PartialWritten(4, 0));
        }
        let pos = offset as usize;
        match read_frame(&self.stor, pos) {
            None => {
                let avail = len - pos;
                if avail < 4 {
                    Err(KvsError::PartialWritten(4, avail))
                } else {
                    Err(KvsError::PartialWritten(4, avail - 4))
                }
            },
            Some((s, e)) => decode_record_at(&self.stor, s, e),
        }
    }

    /// Cuts the log back to its first `len` bytes.
    pub fn truncate(&mut self, len: u64)
        ensures
            final(self)@ == if len < old(self)@.len() {
                old(self)@.take(len as int)
            } else {
                old(self)@
            },
    {
        if len < self.stor.len() as u64 {
            self.stor.truncate(len as usize);
            assert(self.stor@ =~= old(self)@.take(len as int));
        }
    }

    /// Reads the log from its start, record by record.
    pub fn iter(&self) -> (r: WalIterator<'_>)
        ensures
            r.log() == self@,
            r.pos() == 0,
    {
        WalIterator { log: self, pos: 0 }
    }
}

/// Reads a log forward from its start. It stops at the end of the log, or at
/// a last record that a crash left incomplete.
pub struct WalIterator<'a> {
    log: &'a WalLog,
    pos: usize,
}

impl<'a> WalIterator<'a> {
    /// The bytes of the log being read.
    pub closed spec fn log(&self) -> Seq<u8> {
        self.log@
    }

    /// The offset of the next record.
    pub closed spec fn pos(&self) -> int {
        self.pos as int
    }

    /// The next record with its offset; `None` where no complete frame is
    /// left. A frame whose payload is no record gives its error, and the
    /// iterator goes on after it.
    pub fn next(&mut self) -> (r: Option<Result<(u64, Record), KvsError>>)
        ensures
            final(self).log() == old(self).log(),
            match r {
                None => {
                    &&& frames(old(self).log(), old(self).pos()) == Seq::<(int, Seq<u8>)>::empty()
                    &&& final(self).pos() == old(self).pos()
                },
                Some(x) => {
                    &&& frame_at(old(self).log(), old(self).pos()) matches Some(p)
                    &&& final(self).pos() == old(self).pos() + 4 + p.len()
                    &&& match x {
                        Ok((o, rec)) => o == old(self).pos() && record_of(p) == Some(rec@),
                        Err(e) => record_of(p) is None && decode_error(e, p),
                    }
                },
            },
    {
        match read_frame(&self.log.stor, self.pos) {
            None => None,
            Some((s, e)) => {
                let offset = self.pos as u64;
                self.pos = e;
                match decode_record_at(&self.log.stor, s, e) {
                    Ok(rec) => Some(Ok((offset, rec))),
                    Err(err) => Some(Err(err)),
                }
            },
        }
    }
}

} // verus!
