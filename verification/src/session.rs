//! Per-read-cycle decision logic of an ingestion session.
//!
//! The surrounding application owns the transport: it reads bytes, sleeps,
//! and reports closure or failure. Each read cycle is handed to
//! [`Session::on_read`] as one event; the session drives the reassembler,
//! runs the staleness check, and says whether the loop must terminate.
//! Decode errors never terminate a session: they are reported in the cycle's
//! results and the stream continues.

use vstd::prelude::*;

use crate::reassembly::{
    buf_after_timeout, deadline_after, deadline_after_timeout, decode_matches, extracted_frames,
    leftover, Reassembler,
};
use crate::record::{DecodeError, TLog};

verus! {

/// One read cycle's input from the byte source.
#[derive(Debug)]
pub enum ReadEvent {
    /// The source delivered these bytes (possibly none).
    Data(Vec<u8>),
    /// A transient condition: no bytes this cycle, try again.
    Idle,
    /// The source closed permanently.
    Closed,
    /// The source failed with an unrecoverable transport error.
    Failed,
}

/// Why an ingestion session terminated.
#[derive(Debug, PartialEq, Eq, Structural, Clone, Copy)]
pub enum SessionEnd {
    /// The byte source closed.
    Closed,
    /// The byte source reported an unrecoverable error.
    TransportError,
}

/// What one read cycle produced: the decode results of every frame that
/// completed this cycle, in arrival order, and the terminal outcome, if any.
pub struct CycleOutput {
    pub results: Vec<Result<TLog, DecodeError>>,
    pub end: Option<SessionEnd>,
}

/// One ingestion session over one open transport.
pub struct Session {
    pub reasm: Reassembler,
}

impl Session {
    /// A fresh session whose reassembler uses the given resync timeout.
    pub fn new(timeout_ms: u64) -> (s: Session)
        ensures
            s.reasm.wf(),
            s.reasm.buf@ == Seq::<u8>::empty(),
            s.reasm.deadline is None,
            s.reasm.timeout_ms == timeout_ms,
    {
        Session { reasm: Reassembler::new(timeout_ms) }
    }

    /// Handle one read cycle at time `now`. Delivered bytes are fed to the
    /// reassembler and every completed frame's decode result is returned;
    /// the staleness check runs on every non-terminal cycle, idle ones
    /// included. Only a closed or failed source ends the session; decode
    /// errors never do.
    pub fn on_read(&mut self, event: ReadEvent, now: u64) -> (out: CycleOutput)
        requires
            old(self).reasm.wf(),
        ensures
            final(self).reasm.wf(),
            final(self).reasm.timeout_ms == old(self).reasm.timeout_ms,
            match event {
                ReadEvent::Data(bytes) => {
                    let b0 = old(self).reasm.buf@ + bytes@;
                    let d1 = deadline_after(b0, old(self).reasm.deadline, now);
                    let t = old(self).reasm.timeout_ms;
                    &&& out.end is None
                    &&& out.results@.len() == extracted_frames(b0).len()
                    &&& (forall|i: int|
                        0 <= i < out.results@.len() ==> decode_matches(
                            out.results@[i],
                            extracted_frames(b0)[i],
                        ))
                    &&& final(self).reasm.buf@ == buf_after_timeout(leftover(b0), d1, now, t)
                    &&& final(self).reasm.deadline == deadline_after_timeout(
                        leftover(b0),
                        d1,
                        now,
                        t,
                    )
                },
                ReadEvent::Idle => {
                    let s0 = old(self).reasm;
                    &&& out.end is None
                    &&& out.results@.len() == 0
                    &&& final(self).reasm.buf@ == buf_after_timeout(
                        s0.buf@,
                        s0.deadline,
                        now,
                        s0.timeout_ms,
                    )
                    &&& final(self).reasm.deadline == deadline_after_timeout(
                        s0.buf@,
                        s0.deadline,
                        now,
                        s0.timeout_ms,
                    )
                },
                ReadEvent::Closed => {
                    &&& out.end == Some(SessionEnd::Closed)
                    &&& out.results@.len() == 0
                    &&& *final(self) == *old(self)
                },
                ReadEvent::Failed => {
                    &&& out.end == Some(SessionEnd::TransportError)
                    &&& out.results@.len() == 0
                    &&& *final(self) == *old(self)
                },
            },
    {
        match event {
            ReadEvent::Data(bytes) => {
                let results = self.reasm.feed(bytes.as_slice(), now);
                self.reasm.check_timeout(now);
                CycleOutput { results, end: None }
            },
            ReadEvent::Idle => {
                self.reasm.check_timeout(now);
                CycleOutput { results: Vec::new(), end: None }
            },
            ReadEvent::Closed => CycleOutput {
                results: Vec::new(),
                end: Some(SessionEnd::Closed),
            },
            ReadEvent::Failed => CycleOutput {
                results: Vec::new(),
                end: Some(SessionEnd::TransportError),
            },
        }
    }
}

} // verus!
