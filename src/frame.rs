//! Record framing: a four-byte big-endian length followed by that many
//! payload bytes. A log is a run of such frames, possibly ending in a frame
//! that a crash left incomplete.
use vstd::prelude::*;

verus! {

/// The number held, big-endian, in the four bytes of `b` at `pos`.
pub open spec fn be32(b: Seq<u8>, pos: int) -> nat {
    (b[pos] as nat) * 16777216 + (b[pos + 1] as nat) * 65536 + (b[pos + 2] as nat) * 256 + (
    b[pos + 3] as nat)
}

/// The four big-endian bytes of `n`, for `n < 2^32`.
pub open spec fn be32_bytes(n: nat) -> Seq<u8> {
    seq![
        (n / 16777216) as u8,
        ((n / 65536) % 256) as u8,
        ((n / 256) % 256) as u8,
        (n % 256) as u8,
    ]
}

/// The frame of a payload: its length prefix, then the payload.
pub open spec fn frame(p: Seq<u8>) -> Seq<u8> {
    be32_bytes(p.len()) + p
}

/// The payload of the complete frame that starts at `pos`, if one does.
pub open spec fn frame_at(b: Seq<u8>, pos: int) -> Option<Seq<u8>> {
    if 0 <= pos && pos + 4 <= b.len() && pos + 4 + be32(b, pos) <= b.len() {
        Some(b.subrange(pos + 4, pos + 4 + be32(b, pos)))
    } else {
        None
    }
}

/// The frames read forward from `pos`, each with its offset, up to the end of
/// `b` or to the first frame that is incomplete.
pub open spec fn frames(b: Seq<u8>, pos: int) -> Seq<(int, Seq<u8>)>
    decreases b.len() - pos,
{
    match frame_at(b, pos) {
        None => Seq::empty(),
        Some(p) => seq![(pos, p)] + frames(b, pos + 4 + p.len()),
    }
}

/// Where reading frames forward from `pos` stops: the end of the last
/// complete frame, or `pos` itself.
pub open spec fn frames_end(b: Seq<u8>, pos: int) -> int
    decreases b.len() - pos,
{
    match frame_at(b, pos) {
        None => pos,
        Some(p) => frames_end(b, pos + 4 + p.len()),
    }
}

/// The frames of a sequence of payloads, one after another.
pub open spec fn framed(ps: Seq<Seq<u8>>) -> Seq<u8>
    decreases ps.len(),
{
    if ps.len() == 0 {
        Seq::empty()
    } else {
        framed(ps.drop_last()) + frame(ps.last())
    }
}

/// The four bytes of a number below 2^32 read back as that number.
pub proof fn lemma_be32_round_trip(n: nat)
    requires
        n < 4294967296,
    ensures
        be32(be32_bytes(n), 0) == n,
{
    let b = be32_bytes(n);
    assert(b[0] as nat == n / 16777216);
    assert(b[1] as nat == (n / 65536) % 256);
    assert(b[2] as nat == (n / 256) % 256);
    assert(b[3] as nat == n % 256);
    assert((n / 16777216) * 16777216 + ((n / 65536) % 256) * 65536 + ((n / 256) % 256) * 256 + n
        % 256 == n) by (nonlinear_arith)
        requires
            n < 4294967296,
    ;
}

/// Bytes added after a complete frame leave that frame as it was.
pub proof fn lemma_frame_at_extend(b: Seq<u8>, t: Seq<u8>, pos: int)
    requires
        frame_at(b, pos) is Some,
    ensures
        frame_at(b + t, pos) == frame_at(b, pos),
{
    let c = b + t;
    assert(be32(c, pos) == be32(b, pos));
    assert(c.subrange(pos + 4, pos + 4 + be32(b, pos)) =~= b.subrange(pos + 4, pos + 4 + be32(b, pos)));
}

/// A frame appended at the end of `b` is read back at that offset.
pub proof fn lemma_frame_at_appended(b: Seq<u8>, p: Seq<u8>)
    requires
        p.len() < 4294967296,
    ensures
        frame_at(b + frame(p), b.len() as int) == Some(p),
{
    let c = b + frame(p);
    let n = b.len() as int;
    lemma_be32_round_trip(p.len());
    assert(be32(c, n) == be32(be32_bytes(p.len()), 0));
    assert(c.subrange(n + 4, n + 4 + p.len()) =~= p);
}

/// Reading forward from `pos` stops before the end of the bytes, or at it.
pub proof fn lemma_frames_end_bounds(b: Seq<u8>, pos: int)
    requires
        0 <= pos <= b.len(),
    ensures
        pos <= frames_end(b, pos) <= b.len(),
        frames(b, pos).len() == 0 <==> frames_end(b, pos) == pos,
        frame_at(b, frames_end(b, pos)) is None,
    decreases b.len() - pos,
{
    if let Some(p) = frame_at(b, pos) {
        lemma_frames_end_bounds(b, pos + 4 + p.len());
    }
}

/// Where the frames from `pos` end exactly at the end of `b`, bytes added
/// after `b` leave them as they were, up to the first frame of what was added.
pub proof fn lemma_frames_extend(b: Seq<u8>, t: Seq<u8>, pos: int)
    requires
        0 <= pos <= b.len(),
        frames_end(b, pos) == b.len(),
    ensures
        frames(b + t, pos) == frames(b, pos) + frames(b + t, b.len() as int),
        frames_end(b + t, pos) == frames_end(b + t, b.len() as int),
    decreases b.len() - pos,
{
    match frame_at(b, pos) {
        None => {
            assert(frames(b, pos) =~= Seq::<(int, Seq<u8>)>::empty());
            assert(frames(b, pos) + frames(b + t, b.len() as int) =~= frames(b + t, b.len() as int));
        },
        Some(p) => {
            lemma_frame_at_extend(b, t, pos);
            let next = pos + 4 + p.len();
            lemma_frames_extend(b, t, next);
            assert(frames(b + t, pos) =~= frames(b, pos) + frames(b + t, b.len() as int));
        },
    }
}

/// A frame appended to a log that ends cleanly is read as its last frame.
pub proof fn lemma_frames_append(b: Seq<u8>, p: Seq<u8>, pos: int)
    requires
        0 <= pos <= b.len(),
        frames_end(b, pos) == b.len(),
        p.len() < 4294967296,
    ensures
        frames(b + frame(p), pos) == frames(b, pos).push((b.len() as int, p)),
        frames_end(b + frame(p), pos) == b.len() + 4 + p.len(),
{
    let c = b + frame(p);
    let n = b.len() as int;
    let end = n + 4 + p.len();
    lemma_frames_extend(b, frame(p), pos);
    lemma_frame_at_appended(b, p);
    assert(c.len() == end);
    assert(frame_at(c, end) is None);
    assert(frames(c, end) =~= Seq::<(int, Seq<u8>)>::empty());
    assert(frames_end(c, end) == end);
    assert(frames(c, n) == seq![(n, p)] + frames(c, end));
    assert(frames(c, n) =~= seq![(n, p)]);
    assert(frames_end(c, n) == frames_end(c, end));
    assert(frames(b, pos) + seq![(n, p)] =~= frames(b, pos).push((n, p)));
}

/// Reading forward from the offset of a frame gives the frames from there on.
pub proof fn lemma_frames_skip(b: Seq<u8>, pos: int, j: int)
    requires
        0 <= j < frames(b, pos).len(),
    ensures
        frames(b, frames(b, pos)[j].0) == frames(b, pos).skip(j),
        frames_end(b, frames(b, pos)[j].0) == frames_end(b, pos),
        frame_at(b, frames(b, pos)[j].0) == Some(frames(b, pos)[j].1),
    decreases j,
{
    let p = frame_at(b, pos)->0;
    let next = pos + 4 + p.len();
    assert(frames(b, pos) == seq![(pos, p)] + frames(b, next));
    if j == 0 {
        assert(frames(b, pos).skip(0) =~= frames(b, pos));
    } else {
        assert(frames(b, pos)[j] == frames(b, next)[j - 1]);
        lemma_frames_skip(b, next, j - 1);
        assert(frames(b, next).skip(j - 1) =~= frames(b, pos).skip(j));
    }
}

/// Each frame read forward from `pos` lies within `b`, after `pos`, and in order.
pub proof fn lemma_frames_in_bounds(b: Seq<u8>, pos: int, j: int)
    requires
        0 <= pos,
        0 <= j < frames(b, pos).len(),
    ensures
        pos <= frames(b, pos)[j].0,
        frames(b, pos)[j].0 + 4 + frames(b, pos)[j].1.len() <= frames_end(b, pos),
        j + 1 < frames(b, pos).len() ==> frames(b, pos)[j + 1].0 == frames(b, pos)[j].0 + 4
            + frames(b, pos)[j].1.len(),
        j + 1 == frames(b, pos).len() ==> frames_end(b, pos) == frames(b, pos)[j].0 + 4 + frames(
            b,
            pos,
        )[j].1.len(),
    decreases j,
{
    let p = frame_at(b, pos)->0;
    let next = pos + 4 + p.len();
    assert(frames(b, pos) == seq![(pos, p)] + frames(b, next));
    lemma_frames_end_bounds(b, next);
    if j == 0 {
        if frames(b, next).len() > 0 {
            assert(frames(b, pos)[1] == frames(b, next)[0]);
        } else {
            assert(frame_at(b, next) is None);
        }
    } else {
        lemma_frames_in_bounds(b, next, j - 1);
        if j + 1 < frames(b, pos).len() {
            assert(frames(b, pos)[j + 1] == frames(b, next)[j]);
        }
    }
}

/// Cutting bytes after a complete frame leaves that frame as it was.
pub proof fn lemma_frame_at_take(b: Seq<u8>, e: int, pos: int)
    requires
        frame_at(b, pos) matches Some(p) && pos + 4 + p.len() <= e <= b.len(),
    ensures
        frame_at(b.take(e), pos) == frame_at(b, pos),
{
    let c = b.take(e);
    assert(be32(c, pos) == be32(b, pos));
    assert(c.subrange(pos + 4, pos + 4 + be32(b, pos)) =~= b.subrange(pos + 4, pos + 4 + be32(b, pos)));
}

/// Cutting the bytes back to where reading frames from `pos` stops leaves
/// those frames as they were.
pub proof fn lemma_frames_take(b: Seq<u8>, pos: int)
    requires
        0 <= pos <= b.len(),
    ensures
        frames(b.take(frames_end(b, pos)), pos) == frames(b, pos),
        frames_end(b.take(frames_end(b, pos)), pos) == frames_end(b, pos),
    decreases b.len() - pos,
{
    let e = frames_end(b, pos);
    lemma_frames_end_bounds(b, pos);
    match frame_at(b, pos) {
        None => {
            assert(frame_at(b.take(e), pos) is None);
        },
        Some(p) => {
            let next = pos + 4 + p.len();
            lemma_frames_end_bounds(b, next);
            lemma_frame_at_take(b, e, pos);
            lemma_frames_take(b, next);
        },
    }
}

/// The frames of a run of payloads appended to a log that ends cleanly are
/// read back as its last frames.
pub proof fn lemma_frames_framed(b: Seq<u8>, ps: Seq<Seq<u8>>, pos: int)
    requires
        0 <= pos <= b.len(),
        frames_end(b, pos) == b.len(),
        forall|i: int| 0 <= i < ps.len() ==> (#[trigger] ps[i]).len() < 4294967296,
    ensures
        frames(b + framed(ps), pos).len() == frames(b, pos).len() + ps.len(),
        forall|i: int|
            0 <= i < frames(b, pos).len() ==> #[trigger] frames(b + framed(ps), pos)[i] == frames(
                b,
                pos,
            )[i],
        forall|i: int|
            0 <= i < ps.len() ==> #[trigger] frames(b + framed(ps), pos)[frames(b, pos).len()
                + i].1 == ps[i],
        frames_end(b + framed(ps), pos) == (b + framed(ps)).len(),
    decreases ps.len(),
{
    if ps.len() == 0 {
        assert(b + framed(ps) =~= b);
    } else {
        let init = ps.drop_last();
        let c = b + framed(init);
        assert forall|i: int| 0 <= i < init.len() implies (#[trigger] init[i]).len() < 4294967296 by {
            assert(init[i] == ps[i]);
        }
        lemma_frames_framed(b, init, pos);
        lemma_frames_append(c, ps.last(), pos);
        assert(c + frame(ps.last()) =~= b + framed(ps));
        let n = frames(b, pos).len();
        assert forall|i: int| 0 <= i < ps.len() implies #[trigger] frames(b + framed(ps), pos)[n
            + i].1 == ps[i] by {
            if i < init.len() {
                assert(frames(c, pos)[n + i].1 == init[i]);
            }
        }
    }
}

/// A strict prefix of a frame, written after `b`, holds no complete frame:
/// it is a torn record.
pub proof fn lemma_prefix_of_frame_is_torn(b: Seq<u8>, q: Seq<u8>, n: int)
    requires
        q.len() < 4294967296,
        0 <= n < frame(q).len(),
    ensures
        frame_at(b + frame(q).take(n), b.len() as int) is None,
{
    let c = b + frame(q).take(n);
    if n >= 4 {
        lemma_be32_round_trip(q.len());
        assert(be32(c, b.len() as int) == be32(be32_bytes(q.len()), 0));
    }
}

/// Reads the frame at `pos`: the bounds of its payload, where a complete
/// frame starts there.
pub fn read_frame(b: &Vec<u8>, pos: usize) -> (r: Option<(usize, usize)>)
    ensures
        match r {
            None => frame_at(b@, pos as int) is None,
            Some((s, e)) => {
                &&& s == pos + 4
                &&& s <= e <= b@.len()
                &&& frame_at(b@, pos as int) == Some(b@.subrange(s as int, e as int))
            },
        },
{
    let len = b.len();
    if pos > len || len - pos < 4 {
        return None;
    }
    let n: u64 = (b[pos] as u64) * 16777216 + (b[pos + 1] as u64) * 65536 + (b[pos + 2] as u64)
        * 256 + (b[pos + 3] as u64);
    assert(n == be32(b@, pos as int));
    if n > (len - pos - 4) as u64 {
        return None;
    }
    let s = pos + 4;
    let e = s + n as usize;
    Some((s, e))
}

} // verus!
