//! The stream reassembler: turns an arbitrarily chunked byte stream into a
//! sequence of byte-exact frames, keeping incomplete trailing data for the
//! next chunk and abandoning stalled frames after a timeout.

use vstd::prelude::*;

use crate::record::{declared_len, spec_decode, DecodeError, PayloadType, TLog, START_MARKER};

verus! {

/// Timeout applied when the caller does not override it, in milliseconds.
pub const DEFAULT_TIMEOUT_MS: u64 = 5000;

/// Position of the first occurrence of byte `x` in `b`, if any.
pub open spec fn find_byte(b: Seq<u8>, x: u8) -> Option<nat>
    decreases b.len(),
{
    if b.len() == 0 {
        None
    } else if b[0] == x {
        Some(0 as nat)
    } else {
        match find_byte(b.drop_first(), x) {
            Some(i) => Some((i + 1) as nat),
            None => None,
        }
    }
}

/// Position of the first start-marker byte in `b`, if any.
pub open spec fn find_marker(b: Seq<u8>) -> Option<nat> {
    find_byte(b, START_MARKER)
}

/// `find_byte` returns the position of the first occurrence: an occurrence
/// with none before it, or nothing when no byte matches.
pub proof fn lemma_find_byte(b: Seq<u8>, x: u8)
    ensures
        match find_byte(b, x) {
            Some(p) => p < b.len() && b[p as int] == x && (forall|j: int|
                0 <= j < p ==> b[j] != x),
            None => forall|j: int| 0 <= j < b.len() ==> b[j] != x,
        },
    decreases b.len(),
{
    if b.len() == 0 {
    } else if b[0] == x {
    } else {
        lemma_find_byte(b.drop_first(), x);
        match find_byte(b.drop_first(), x) {
            Some(i) => {
                assert(forall|j: int| 0 <= j < i + 1 ==> b[j] != x) by {
                    assert(forall|j: int|
                        1 <= j < i + 1 ==> b[j] == b.drop_first()[j - 1] && b[j] != x);
                }
            },
            None => {
                assert(forall|j: int| 1 <= j < b.len() ==> b[j] == b.drop_first()[j - 1]);
            },
        }
    }
}

/// An occurrence of `x` at `p` with none before it is what `find_byte`
/// returns.
pub proof fn lemma_find_byte_at(b: Seq<u8>, x: u8, p: int)
    requires
        0 <= p < b.len(),
        b[p] == x,
        forall|j: int| 0 <= j < p ==> b[j] != x,
    ensures
        find_byte(b, x) == Some(p as nat),
{
    lemma_find_byte(b, x);
    match find_byte(b, x) {
        Some(q) => {
            if (q as int) < p {
                assert(b[q as int] != x);
            } else if (q as int) > p {
                assert(b[p] != x);
            }
        },
        None => {
            assert(b[p] != x);
        },
    }
}

/// The first occurrence in a sequence stays the first occurrence after
/// appending.
pub proof fn lemma_find_byte_prefix(a: Seq<u8>, b: Seq<u8>, x: u8, p: nat)
    requires
        find_byte(a, x) == Some(p),
    ensures
        find_byte(a + b, x) == Some(p),
{
    lemma_find_byte(a, x);
    assert(forall|j: int| 0 <= j < p ==> (a + b)[j] == a[j]);
    lemma_find_byte_at(a + b, x, p as int);
}

/// `lemma_find_byte` specialised to the start marker.
pub proof fn lemma_find_marker(b: Seq<u8>)
    ensures
        match find_marker(b) {
            Some(p) => p < b.len() && b[p as int] == START_MARKER && (forall|j: int|
                0 <= j < p ==> b[j] != START_MARKER),
            None => forall|j: int| 0 <= j < b.len() ==> b[j] != START_MARKER,
        },
{
    lemma_find_byte(b, START_MARKER);
}

/// `lemma_find_byte_at` specialised to the start marker.
pub proof fn lemma_find_marker_at(b: Seq<u8>, p: int)
    requires
        0 <= p < b.len(),
        b[p] == START_MARKER,
        forall|j: int| 0 <= j < p ==> b[j] != START_MARKER,
    ensures
        find_marker(b) == Some(p as nat),
{
    lemma_find_byte_at(b, START_MARKER, p);
}

/// `lemma_find_byte_prefix` specialised to the start marker.
pub proof fn lemma_find_marker_prefix(a: Seq<u8>, b: Seq<u8>, p: nat)
    requires
        find_marker(a) == Some(p),
    ensures
        find_marker(a + b) == Some(p),
{
    lemma_find_byte_prefix(a, b, START_MARKER, p);
}

/// Payload length declared by the frame header that starts at position `p`.
pub open spec fn declared_len_at(b: Seq<u8>, p: int) -> int
    recommends
        0 <= p,
        p + 3 <= b.len(),
{
    b[p + 1] as int * 256 + b[p + 2] as int
}

/// Repeatedly scan the buffer for a marker and carve out every complete
/// frame. The result is the carved frames in order, the leftover buffer, and
/// whether scanning stopped on a complete header whose payload has not fully
/// arrived (a stalled frame).
pub open spec fn extract(b: Seq<u8>) -> (Seq<Seq<u8>>, Seq<u8>, bool)
    decreases b.len(),
{
    match find_marker(b) {
        None => (Seq::<Seq<u8>>::empty(), b, false),
        Some(p) => {
            if b.len() < p + 5 {
                (Seq::<Seq<u8>>::empty(), b, false)
            } else if b.len() < p + 5 + declared_len_at(b, p as int) {
                (Seq::<Seq<u8>>::empty(), b, true)
            } else {
                let e = p + 5 + declared_len_at(b, p as int);
                let frame = b.subrange(p as int, e);
                let rest = extract(b.subrange(e, b.len() as int));
                (seq![frame] + rest.0, rest.1, rest.2)
            }
        },
    }
}

/// The complete frames carved out of `b`, in arrival order.
pub open spec fn extracted_frames(b: Seq<u8>) -> Seq<Seq<u8>> {
    extract(b).0
}

/// What remains in the buffer after every complete frame is carved out.
pub open spec fn leftover(b: Seq<u8>) -> Seq<u8> {
    extract(b).1
}

/// True when scanning `b` stops on a complete header whose declared payload
/// has not fully arrived.
pub open spec fn stalled(b: Seq<u8>) -> bool {
    extract(b).2
}

/// When nothing is carved out of `b`, the whole buffer is left over.
pub proof fn lemma_extract_terminal(b: Seq<u8>)
    ensures
        extracted_frames(b).len() == 0 ==> leftover(b) == b,
{
}

/// The resync deadline after scanning `b`: refreshed to `now` by a stalled
/// frame, cleared when a frame completed, untouched otherwise.
pub open spec fn deadline_after(b: Seq<u8>, deadline0: Option<u64>, now: u64) -> Option<u64> {
    if stalled(b) {
        Some(now)
    } else if extracted_frames(b).len() > 0 {
        None
    } else {
        deadline0
    }
}

/// How one emitted decode result relates to the frame it came from: exactly
/// what `spec_decode` says of those bytes.
pub open spec fn decode_matches(r: Result<TLog, DecodeError>, frame: Seq<u8>) -> bool {
    match r {
        Ok(t) => spec_decode(frame) == Ok::<(PayloadType, Seq<char>), DecodeError>(
            (t.payload_type, t.payload@),
        ),
        Err(e) => spec_decode(frame) == Err::<(PayloadType, Seq<char>), DecodeError>(e),
    }
}

/// True when the resync deadline `deadline` has expired at time `now`.
pub open spec fn timeout_fires(deadline: Option<u64>, now: u64, timeout_ms: u64) -> bool {
    deadline matches Some(d) && now - d > timeout_ms
}

/// The buffer after a timeout check: when the deadline expired, everything
/// up to and including the first marker is dropped.
pub open spec fn buf_after_timeout(
    b: Seq<u8>,
    deadline: Option<u64>,
    now: u64,
    timeout_ms: u64,
) -> Seq<u8> {
    if timeout_fires(deadline, now, timeout_ms) {
        match find_marker(b) {
            Some(p) => b.subrange(p as int + 1, b.len() as int),
            None => b,
        }
    } else {
        b
    }
}

/// The deadline after a timeout check: cleared when the buffer was forcibly
/// advanced, untouched otherwise.
pub open spec fn deadline_after_timeout(
    b: Seq<u8>,
    deadline: Option<u64>,
    now: u64,
    timeout_ms: u64,
) -> Option<u64> {
    if timeout_fires(deadline, now, timeout_ms) {
        match find_marker(b) {
            Some(p) => None,
            None => deadline,
        }
    } else {
        deadline
    }
}

/// Stateful accumulator for one transport session: the reassembly buffer,
/// the resync deadline, and the configured timeout.
pub struct Reassembler {
    pub buf: Vec<u8>,
    pub deadline: Option<u64>,
    pub timeout_ms: u64,
}

pub(crate) fn find_byte_exec(buf: &Vec<u8>, x: u8) -> (r: Option<usize>)
    ensures
        match r {
            Some(p) => p < buf@.len() && find_byte(buf@, x) == Some(p as nat),
            None => find_byte(buf@, x) is None,
        },
{
    let mut i: usize = 0;
    while i < buf.len()
        invariant
            i <= buf@.len(),
            forall|j: int| 0 <= j < i ==> buf@[j] != x,
        decreases buf@.len() - i,
    {
        if buf[i] == x {
            proof {
                lemma_find_byte_at(buf@, x, i as int);
            }
            return Some(i);
        }
        i = i + 1;
    }
    proof {
        lemma_find_byte(buf@, x);
    }
    None
}

impl Reassembler {
    /// A deadline is only ever running while a marker sits in the buffer.
    pub open spec fn wf(self) -> bool {
        self.deadline is Some ==> find_marker(self.buf@) is Some
    }

    /// An empty reassembler with the given resync timeout.
    pub fn new(timeout_ms: u64) -> (r: Reassembler)
        ensures
            r.buf@ == Seq::<u8>::empty(),
            r.deadline is None,
            r.timeout_ms == timeout_ms,
            r.wf(),
    {
        Reassembler { buf: Vec::new(), deadline: None, timeout_ms }
    }

    /// Append a chunk to the buffer and carve out every complete frame,
    /// emitting each frame's decode result in arrival order. The leftover
    /// bytes stay buffered; a stalled frame refreshes the resync deadline to
    /// `now`, a completed frame clears it.
    pub fn feed(&mut self, chunk: &[u8], now: u64) -> (out: Vec<Result<TLog, DecodeError>>)
        requires
            old(self).wf(),
        ensures
            final(self).wf(),
            final(self).timeout_ms == old(self).timeout_ms,
            final(self).buf@ == leftover(old(self).buf@ + chunk@),
            final(self).deadline == deadline_after(
                old(self).buf@ + chunk@,
                old(self).deadline,
                now,
            ),
            out@.len() == extracted_frames(old(self).buf@ + chunk@).len(),
            forall|i: int|
                0 <= i < out@.len() ==> decode_matches(
                    out@[i],
                    extracted_frames(old(self).buf@ + chunk@)[i],
                ),
    {
        let ghost b0: Seq<u8> = self.buf@ + chunk@;
        let ghost d0: Option<u64> = self.deadline;
        let ghost t0: u64 = self.timeout_ms;
        let ghost f0: Seq<Seq<u8>> = extracted_frames(b0);
        proof {
            if self.deadline is Some {
                match find_marker(self.buf@) {
                    Some(p) => {
                        lemma_find_marker_prefix(self.buf@, chunk@, p);
                    },
                    None => {
                        assert(false);
                    },
                }
            }
        }
        let ghost pre: Seq<u8> = self.buf@;
        proof {
            assert(pre + chunk@.subrange(0, 0) =~= pre);
        }
        let mut k: usize = 0;
        while k < chunk.len()
            invariant
                k <= chunk@.len(),
                self.buf@ == pre + chunk@.subrange(0, k as int),
                self.deadline == d0,
                self.timeout_ms == t0,
            decreases chunk@.len() - k,
        {
            proof {
                assert((pre + chunk@.subrange(0, k as int)).push(chunk@[k as int]) =~= pre
                    + chunk@.subrange(0, k as int + 1));
            }
            self.buf.push(chunk[k]);
            k = k + 1;
        }
        proof {
            assert(chunk@.subrange(0, chunk@.len() as int) =~= chunk@);
            assert(self.buf@ == b0);
            assert(f0.skip(0) =~= f0);
        }
        let mut out: Vec<Result<TLog, DecodeError>> = Vec::new();
        let mut done: bool = false;
        while !done
            invariant
                self.timeout_ms == t0,
                self.deadline is Some ==> find_marker(self.buf@) is Some,
                out@.len() <= f0.len(),
                extracted_frames(self.buf@) == f0.skip(out@.len() as int),
                leftover(self.buf@) == leftover(b0),
                stalled(self.buf@) == stalled(b0),
                deadline_after(b0, d0, now) == deadline_after(self.buf@, self.deadline, now),
                forall|i: int| 0 <= i < out@.len() ==> decode_matches(out@[i], f0[i]),
                done ==> extracted_frames(self.buf@).len() == 0,
                done ==> (stalled(self.buf@) ==> self.deadline == Some(now)),
            decreases self.buf@.len(), (if done {
                0int
            } else {
                1int
            }),
        {
            let ghost b_iter: Seq<u8> = self.buf@;
            match find_byte_exec(&self.buf, START_MARKER) {
                None => {
                    done = true;
                },
                Some(pos) => {
                    if self.buf.len() - pos < 5 {
                        done = true;
                    } else {
                        self.deadline = Some(now);
                        let plen: usize = (self.buf[pos + 1] as usize) * 256 + (self.buf[pos
                            + 2] as usize);
                        proof {
                            assert(plen as int == declared_len_at(b_iter, pos as int));
                        }
                        if self.buf.len() - pos - 5 < plen {
                            done = true;
                        } else {
                            let end: usize = pos + 5 + plen;
                            let ghost e: int = end as int;
                            let tail = self.buf.split_off(end);
                            let frame = self.buf.split_off(pos);
                            self.buf = tail;
                            self.deadline = None;
                            proof {
                                assert(frame@ =~= b_iter.subrange(pos as int, e));
                                assert(self.buf@ =~= b_iter.subrange(e, b_iter.len() as int));
                                let k0 = out@.len() as int;
                                assert(f0.skip(k0)[0] == f0[k0]);
                                assert(extracted_frames(b_iter) == seq![frame@]
                                    + extracted_frames(self.buf@));
                                assert(f0[k0] == frame@);
                                assert(extracted_frames(self.buf@) =~= f0.skip(k0 + 1)) by {
                                    assert(forall|i: int|
                                        0 <= i < extracted_frames(self.buf@).len()
                                            ==> extracted_frames(self.buf@)[i] == f0.skip(k0)[i
                                            + 1] && f0.skip(k0)[i + 1] == #[trigger] f0.skip(
                                            k0 + 1,
                                        )[i]);
                                }
                            }
                            let r = TLog::from_be_bytes(frame);
                            out.push(r);
                        }
                    }
                },
            }
        }
        proof {
            lemma_extract_terminal(self.buf@);
            assert(f0.skip(out@.len() as int).len() == 0);
            assert(out@.len() == f0.len());
        }
        out
    }

    /// When the resync deadline has expired at `now`, drop buffered bytes up
    /// to and including the first marker and clear the deadline; otherwise
    /// leave the state untouched.
    pub fn check_timeout(&mut self, now: u64)
        requires
            old(self).wf(),
        ensures
            final(self).wf(),
            final(self).timeout_ms == old(self).timeout_ms,
            final(self).buf@ == buf_after_timeout(
                old(self).buf@,
                old(self).deadline,
                now,
                old(self).timeout_ms,
            ),
            final(self).deadline == deadline_after_timeout(
                old(self).buf@,
                old(self).deadline,
                now,
                old(self).timeout_ms,
            ),
    {
        let expired: bool = match self.deadline {
            Some(d) => now > d && now - d > self.timeout_ms,
            None => false,
        };
        proof {
            assert(expired == timeout_fires(old(self).deadline, now, old(self).timeout_ms));
        }
        if expired {
            let n: usize = self.buf.len();
            match find_byte_exec(&self.buf, START_MARKER) {
                Some(pos) => {
                    proof {
                        assert(pos < n);
                    }
                    let tail = self.buf.split_off(pos + 1);
                    self.buf = tail;
                    self.deadline = None;
                },
                None => {
                },
            }
        }
    }
}

/// Scanning `a + b` carves the same frames as scanning `a` and then
/// scanning its leftover with `b` appended: buffering is insensitive to
/// where the stream is split into chunks.
pub proof fn lemma_extract_append(a: Seq<u8>, b: Seq<u8>)
    ensures
        extracted_frames(a + b) == extracted_frames(a) + extracted_frames(leftover(a) + b),
        leftover(a + b) == leftover(leftover(a) + b),
        stalled(a + b) == stalled(leftover(a) + b),
    decreases a.len(),
{
    match find_marker(a) {
        None => {
            assert(leftover(a) == a);
            assert(extracted_frames(a) + extracted_frames(a + b) =~= extracted_frames(a + b));
        },
        Some(p) => {
            if a.len() < p + 5 {
                assert(leftover(a) == a);
                assert(extracted_frames(a) + extracted_frames(a + b) =~= extracted_frames(a + b));
            } else if a.len() < p + 5 + declared_len_at(a, p as int) {
                assert(leftover(a) == a);
                assert(extracted_frames(a) + extracted_frames(a + b) =~= extracted_frames(a + b));
            } else {
                let e = p + 5 + declared_len_at(a, p as int);
                let a2 = a.subrange(e as int, a.len() as int);
                let fr = a.subrange(p as int, e as int);
                lemma_find_marker_prefix(a, b, p);
                assert(declared_len_at(a + b, p as int) == declared_len_at(a, p as int));
                assert((a + b).subrange(p as int, e as int) =~= fr);
                assert((a + b).subrange(e as int, (a + b).len() as int) =~= a2 + b);
                assert(extracted_frames(a + b) == seq![fr] + extracted_frames(a2 + b));
                assert(leftover(a + b) == leftover(a2 + b));
                assert(stalled(a + b) == stalled(a2 + b));
                assert(extracted_frames(a) == seq![fr] + extracted_frames(a2));
                assert(leftover(a) == leftover(a2));
                assert(stalled(a) == stalled(a2));
                lemma_extract_append(a2, b);
                assert(extracted_frames(a + b) =~= extracted_frames(a) + extracted_frames(
                    leftover(a) + b,
                ));
            }
        },
    }
}

/// Chunk-size independence: a buffer fed `c1 + c2` in one call yields the
/// same frames, the same leftover, and the same stall flag as a buffer fed
/// `c1` and then `c2` in separate calls.
pub proof fn lemma_chunk_split(buf: Seq<u8>, c1: Seq<u8>, c2: Seq<u8>)
    ensures
        extracted_frames(buf + (c1 + c2)) == extracted_frames(buf + c1) + extracted_frames(
            leftover(buf + c1) + c2,
        ),
        leftover(buf + (c1 + c2)) == leftover(leftover(buf + c1) + c2),
        stalled(buf + (c1 + c2)) == stalled(leftover(buf + c1) + c2),
{
    assert(buf + (c1 + c2) =~= (buf + c1) + c2);
    lemma_extract_append(buf + c1, c2);
}

/// True when `f` is one byte-exact frame: it starts with the marker and its
/// length matches the declared payload length exactly.
pub open spec fn complete_frame(f: Seq<u8>) -> bool {
    f.len() >= 5 && f[0] == START_MARKER && f.len() == 5 + declared_len(f)
}

/// Garbage-prefix tolerance: non-marker noise before one complete frame is
/// dropped silently, and exactly that frame is carved out.
pub proof fn lemma_garbage_prefix(noise: Seq<u8>, f: Seq<u8>)
    requires
        forall|j: int| 0 <= j < noise.len() ==> noise[j] != START_MARKER,
        complete_frame(f),
    ensures
        extracted_frames(noise + f) == seq![f],
        leftover(noise + f) == Seq::<u8>::empty(),
        !stalled(noise + f),
{
    let b = noise + f;
    let p = noise.len() as int;
    lemma_find_marker_at(b, p);
    assert(declared_len_at(b, p) == declared_len(f));
    let e = p + 5 + declared_len(f);
    assert(e == b.len());
    assert(b.subrange(p, e) =~= f);
    assert(b.subrange(e, b.len() as int) =~= Seq::<u8>::empty());
    assert(find_marker(Seq::<u8>::empty()) is None);
    assert(extract(Seq::<u8>::empty()) == (Seq::<Seq<u8>>::empty(), Seq::<u8>::empty(), false));
    assert(extract(b).0 == seq![b.subrange(p, e)] + extract(b.subrange(e, b.len() as int)).0);
    assert(extracted_frames(b) =~= seq![f]);
}

/// A stream made of complete frames, concatenated in order, is carved back
/// into exactly those frames: none is lost, reordered, or left behind.
pub proof fn lemma_stream_of_frames(frames: Seq<Seq<u8>>)
    requires
        forall|i: int| 0 <= i < frames.len() ==> complete_frame(#[trigger] frames[i]),
    ensures
        extracted_frames(frames.flatten()) == frames,
        leftover(frames.flatten()) == Seq::<u8>::empty(),
        !stalled(frames.flatten()),
    decreases frames.len(),
{
    if frames.len() == 0 {
        assert(extracted_frames(Seq::<u8>::empty()) =~= Seq::<Seq<u8>>::empty());
    } else {
        let f0 = frames.first();
        let rest = frames.drop_first();
        assert(frames.flatten() == f0 + rest.flatten());
        assert(Seq::<u8>::empty() + f0 =~= f0);
        lemma_garbage_prefix(Seq::<u8>::empty(), f0);
        lemma_extract_append(f0, rest.flatten());
        assert(Seq::<u8>::empty() + rest.flatten() =~= rest.flatten());
        assert(forall|i: int| 0 <= i < rest.len() ==> complete_frame(#[trigger] rest[i])) by {
            assert(forall|i: int| 0 <= i < rest.len() ==> rest[i] == frames[i + 1]);
        }
        lemma_stream_of_frames(rest);
        assert(frames =~= seq![f0] + rest);
        assert(extracted_frames(frames.flatten()) =~= frames);
    }
}

/// Truncated-frame recovery: the timeout drop removes the stalled frame's
/// marker, so when no other marker byte remained in the buffer, the next
/// complete frame to arrive is carved out on its own.
pub proof fn lemma_timeout_unblocks(b: Seq<u8>, p: nat, f: Seq<u8>)
    requires
        find_marker(b) == Some(p),
        forall|j: int| p < j < b.len() ==> b[j] != START_MARKER,
        complete_frame(f),
    ensures
        extracted_frames(b.subrange(p as int + 1, b.len() as int) + f) == seq![f],
        leftover(b.subrange(p as int + 1, b.len() as int) + f) == Seq::<u8>::empty(),
{
    lemma_find_marker(b);
    let rest = b.subrange(p as int + 1, b.len() as int);
    assert(forall|j: int| 0 <= j < rest.len() ==> rest[j] == b[p + 1 + j]);
    lemma_garbage_prefix(rest, f);
}

} // verus!
