//! Splitting a chunked byte stream into delimiter-terminated lines, for the
//! raw (unframed) logging mode: each emitted line ends with the configured
//! split byte, and bytes after the last delimiter stay buffered.

use vstd::prelude::*;

use crate::reassembly::{find_byte, find_byte_exec, lemma_find_byte};

verus! {

/// Carve every delimiter-terminated line out of `b`: the lines in order,
/// each including its trailing split byte, and the leftover bytes.
pub open spec fn split_lines(b: Seq<u8>, sp: u8) -> (Seq<Seq<u8>>, Seq<u8>)
    decreases b.len(),
    via split_lines_decreases
{
    match find_byte(b, sp) {
        None => (Seq::<Seq<u8>>::empty(), b),
        Some(p) => {
            let line = b.subrange(0, p as int + 1);
            let rest = split_lines(b.subrange(p as int + 1, b.len() as int), sp);
            (seq![line] + rest.0, rest.1)
        },
    }
}

#[via_fn]
proof fn split_lines_decreases(b: Seq<u8>, sp: u8) {
    lemma_find_byte(b, sp);
}

/// The delimiter-terminated lines carved out of `b`, in order.
pub open spec fn split_lines_out(b: Seq<u8>, sp: u8) -> Seq<Seq<u8>> {
    split_lines(b, sp).0
}

/// What remains of `b` after every delimiter-terminated line is carved out.
pub open spec fn split_leftover(b: Seq<u8>, sp: u8) -> Seq<u8> {
    split_lines(b, sp).1
}

/// Stateful line accumulator for one transport session.
pub struct LineSplitter {
    pub buf: Vec<u8>,
    pub split: u8,
}

impl LineSplitter {
    /// An empty splitter for the given split byte.
    pub fn new(split: u8) -> (r: LineSplitter)
        ensures
            r.buf@ == Seq::<u8>::empty(),
            r.split == split,
    {
        LineSplitter { buf: Vec::new(), split }
    }

    /// Append a chunk and carve out every line it completes, in order; the
    /// bytes after the last split byte stay buffered for the next chunk.
    pub fn feed(&mut self, chunk: &[u8]) -> (out: Vec<Vec<u8>>)
        ensures
            final(self).split == old(self).split,
            final(self).buf@ == split_leftover(old(self).buf@ + chunk@, old(self).split),
            out@.len() == split_lines_out(old(self).buf@ + chunk@, old(self).split).len(),
            forall|i: int|
                0 <= i < out@.len() ==> out@[i]@ == split_lines_out(
                    old(self).buf@ + chunk@,
                    old(self).split,
                )[i],
    {
        let ghost b0: Seq<u8> = self.buf@ + chunk@;
        let ghost sp: u8 = self.split;
        let ghost l0: Seq<Seq<u8>> = split_lines_out(b0, sp);
        let ghost pre: Seq<u8> = self.buf@;
        proof {
            assert(pre + chunk@.subrange(0, 0) =~= pre);
        }
        let mut k: usize = 0;
        while k < chunk.len()
            invariant
                k <= chunk@.len(),
                self.buf@ == pre + chunk@.subrange(0, k as int),
                self.split == sp,
            decreases chunk@.len() - k,
        {
            proof {
                assert((pre + chunk@.subrange(0, k as int)).push(chunk@[k as int]) =~= pre
                    + chunk@.subrange(0, k as int + 1));
            }
            self.buf.push(chunk[k]);
            k = k + 1;
        }
        proof {
            assert(chunk@.subrange(0, chunk@.len() as int) =~= chunk@);
            assert(self.buf@ == b0);
            assert(l0.skip(0) =~= l0);
        }
        let mut out: Vec<Vec<u8>> = Vec::new();
        let mut done: bool = false;
        while !done
            invariant
                self.split == sp,
                out@.len() <= l0.len(),
                split_lines_out(self.buf@, sp) == l0.skip(out@.len() as int),
                split_leftover(self.buf@, sp) == split_leftover(b0, sp),
                forall|i: int| 0 <= i < out@.len() ==> out@[i]@ == l0[i],
                done ==> split_lines_out(self.buf@, sp).len() == 0,
            decreases self.buf@.len(), (if done {
                0int
            } else {
                1int
            }),
        {
            let ghost b_iter: Seq<u8> = self.buf@;
            let n: usize = self.buf.len();
            match find_byte_exec(&self.buf, self.split) {
                None => {
                    done = true;
                },
                Some(pos) => {
                    proof {
                        assert(pos < n);
                    }
                    let tail = self.buf.split_off(pos + 1);
                    let line = self.buf.split_off(0);
                    self.buf = tail;
                    proof {
                        assert(line@ =~= b_iter.subrange(0, pos as int + 1));
                        assert(self.buf@ =~= b_iter.subrange(pos as int + 1, b_iter.len() as int));
                        let k0 = out@.len() as int;
                        assert(split_lines(b_iter, sp).0 == seq![line@] + split_lines(
                            self.buf@,
                            sp,
                        ).0);
                        assert(l0.skip(k0)[0] == l0[k0]);
                        assert(l0[k0] == line@);
                        assert(split_lines_out(self.buf@, sp) =~= l0.skip(k0 + 1)) by {
                            assert(forall|i: int|
                                0 <= i < split_lines_out(self.buf@, sp).len()
                                    ==> split_lines_out(self.buf@, sp)[i] == l0.skip(k0)[i + 1]
                                    && l0.skip(k0)[i + 1] == #[trigger] l0.skip(k0 + 1)[i]);
                        }
                    }
                    out.push(line);
                },
            }
        }
        proof {
            if split_lines_out(self.buf@, sp).len() == 0 {
                assert(split_leftover(self.buf@, sp) == self.buf@);
            }
            assert(l0.skip(out@.len() as int).len() == 0);
            assert(out@.len() == l0.len());
        }
        out
    }
}

/// A split byte inside `b` always yields at least one line, and bytes after
/// the last split byte are never emitted: they wait in the buffer.
pub proof fn lemma_split_lines_complete(b: Seq<u8>, sp: u8)
    ensures
        find_byte(b, sp) is Some ==> split_lines_out(b, sp).len() >= 1,
        forall|j: int|
            0 <= j < split_leftover(b, sp).len() ==> #[trigger] split_leftover(b, sp)[j] != sp,
    decreases b.len(),
{
    lemma_find_byte(b, sp);
    match find_byte(b, sp) {
        None => {
        },
        Some(p) => {
            lemma_split_lines_complete(b.subrange(p as int + 1, b.len() as int), sp);
            assert(split_leftover(b, sp) == split_leftover(
                b.subrange(p as int + 1, b.len() as int),
                sp,
            ));
        },
    }
}

} // verus!
