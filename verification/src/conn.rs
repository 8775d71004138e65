//! Connection state: one client's read and write buffers, readiness bits,
//! EOF and failure flags, and the rules that govern them.
//!
//! The connection performs no I/O itself. The caller reports readiness
//! (`handle_event`), performs one non-blocking receive or send, and hands the
//! outcome back (`handle_read`, `handle_write`); the connection updates its
//! buffers and flags accordingly. `closable` says when the connection may be
//! retired without losing queued outbound data, and `interest` computes the
//! subscription to re-arm with.

use vstd::prelude::*;
use crate::framer::nl;

verus! {

/// The result of one non-blocking receive, as plain values.
pub enum ReadOutcome {
    /// Some bytes arrived; a short read is normal, not an error.
    Data(Vec<u8>),
    /// Zero bytes: the peer half-closed. Queued writes must still drain.
    Eof,
    /// Nothing ready; a no-op awaiting the next readiness notification.
    WouldBlock,
    /// Any other I/O error: fatal for this connection only.
    Failed,
}

/// The result of one non-blocking send of the write buffer.
pub enum WriteOutcome {
    /// The first `n` bytes of the write buffer were sent; a partial write is
    /// normal, not an error.
    Wrote(usize),
    /// Nothing could be sent; a no-op awaiting the next notification.
    WouldBlock,
    /// Any other I/O error: fatal for this connection only.
    Failed,
}

/// The interest set a connection re-arms with.
pub struct Interest {
    pub read: bool,
    pub write: bool,
}

/// One client connection's state.
pub struct Connection {
    /// Bytes read from the socket but not yet resolved into a complete line.
    pub read_buf: Vec<u8>,
    /// Bytes queued for the socket but not yet flushed.
    pub write_buf: Vec<u8>,
    /// The peer half-closed: no more bytes will arrive.
    pub read_eof: bool,
    /// A read or write failed; the connection is to be dropped.
    pub failed: bool,
    /// A readable notification arrived and the read was not yet performed.
    pub want_read: bool,
    /// A writable notification arrived and the write was not yet performed.
    pub want_write: bool,
}

/// How one receive outcome advances a connection: data is appended to the
/// read buffer, zero bytes marks EOF, would-block changes nothing, any other
/// error marks the connection failed; the pending readable bit is cleared in
/// every case and nothing else moves.
pub open spec fn read_step(c0: Connection, c1: Connection, outcome: ReadOutcome) -> bool {
    &&& !c1.want_read
    &&& c1.want_write == c0.want_write
    &&& c1.write_buf == c0.write_buf
    &&& match outcome {
        ReadOutcome::Data(d) => c1.read_buf@ == c0.read_buf@ + d@ && c1.read_eof == c0.read_eof
            && c1.failed == c0.failed,
        ReadOutcome::Eof => c1.read_buf == c0.read_buf && c1.read_eof && c1.failed == c0.failed,
        ReadOutcome::WouldBlock => c1.read_buf == c0.read_buf && c1.read_eof == c0.read_eof
            && c1.failed == c0.failed,
        ReadOutcome::Failed => c1.read_buf == c0.read_buf && c1.read_eof == c0.read_eof
            && c1.failed,
    }
}

/// How one send outcome advances a connection: a write of `n` bytes keeps
/// exactly the unsent tail, would-block changes nothing, any other error
/// marks the connection failed; the pending writable bit is cleared in every
/// case and nothing else moves.
pub open spec fn write_step(c0: Connection, c1: Connection, outcome: WriteOutcome) -> bool {
    &&& !c1.want_write
    &&& c1.want_read == c0.want_read
    &&& c1.read_buf == c0.read_buf
    &&& c1.read_eof == c0.read_eof
    &&& match outcome {
        WriteOutcome::Wrote(n) => c1.write_buf@ == c0.write_buf@.skip(n as int) && c1.failed
            == c0.failed,
        WriteOutcome::WouldBlock => c1.write_buf == c0.write_buf && c1.failed == c0.failed,
        WriteOutcome::Failed => c1.write_buf == c0.write_buf && c1.failed,
    }
}

impl Connection {
    /// A connection may be retired exactly when it failed, or when the peer
    /// half-closed and no outbound data remains queued: buffered writes are
    /// never dropped.
    pub open spec fn closable(self) -> bool {
        self.failed || (self.read_eof && self.write_buf@.len() == 0)
    }

    /// A fresh connection: empty buffers, no flags, no pending readiness.
    pub fn new() -> (c: Connection)
        ensures
            c.read_buf@ == Seq::<u8>::empty(),
            c.write_buf@ == Seq::<u8>::empty(),
            !c.read_eof,
            !c.failed,
            !c.want_read,
            !c.want_write,
    {
        Connection {
            read_buf: Vec::new(),
            write_buf: Vec::new(),
            read_eof: false,
            failed: false,
            want_read: false,
            want_write: false,
        }
    }

    /// Merges newly reported readiness into the pending bits. No I/O happens
    /// here: notifications coalesce until the next processing pass.
    pub fn handle_event(&mut self, readable: bool, writable: bool)
        ensures
            final(self).want_read == (old(self).want_read || readable),
            final(self).want_write == (old(self).want_write || writable),
            final(self).read_buf == old(self).read_buf,
            final(self).write_buf == old(self).write_buf,
            final(self).read_eof == old(self).read_eof,
            final(self).failed == old(self).failed,
    {
        if readable {
            self.want_read = true;
        }
        if writable {
            self.want_write = true;
        }
    }

    /// Records the outcome of one non-blocking receive. Data is appended to
    /// the read buffer; zero bytes marks EOF; would-block is a no-op; any
    /// other error marks the connection failed. The pending readable bit is
    /// cleared in every case.
    pub fn handle_read(&mut self, outcome: ReadOutcome)
        ensures
            read_step(*old(self), *final(self), outcome),
    {
        self.want_read = false;
        match outcome {
            ReadOutcome::Data(d) => {
                self.read_buf.extend_from_slice(d.as_slice());
                proof {
                    assert(self.read_buf@ =~= old(self).read_buf@ + d@);
                }
            },
            ReadOutcome::Eof => {
                self.read_eof = true;
            },
            ReadOutcome::WouldBlock => {},
            ReadOutcome::Failed => {
                self.failed = true;
            },
        }
    }

    /// Records the outcome of one non-blocking send of the write buffer: the
    /// unsent tail is retained byte for byte, so a partial write resumes
    /// exactly where it stopped. Would-block is a no-op; any other error
    /// marks the connection failed. The pending writable bit is cleared in
    /// every case.
    pub fn handle_write(&mut self, outcome: WriteOutcome)
        requires
            match outcome {
                WriteOutcome::Wrote(n) => n <= old(self).write_buf@.len(),
                _ => true,
            },
        ensures
            write_step(*old(self), *final(self), outcome),
    {
        self.want_write = false;
        match outcome {
            WriteOutcome::Wrote(n) => {
                let tail = self.write_buf.split_off(n);
                self.write_buf = tail;
            },
            WriteOutcome::WouldBlock => {},
            WriteOutcome::Failed => {
                self.failed = true;
            },
        }
    }

    /// Appends a line plus its newline terminator to the write buffer. The
    /// reactor calls this when delivering a broadcast or a reply; a
    /// connection never enqueues its own output.
    pub fn enqueue(&mut self, line: &[u8])
        ensures
            final(self).write_buf@ == old(self).write_buf@ + line@ + seq![nl()],
            final(self).read_buf == old(self).read_buf,
            final(self).read_eof == old(self).read_eof,
            final(self).failed == old(self).failed,
            final(self).want_read == old(self).want_read,
            final(self).want_write == old(self).want_write,
    {
        self.write_buf.extend_from_slice(line);
        self.write_buf.push(10u8);
        proof {
            assert(self.write_buf@ =~= old(self).write_buf@ + line@ + seq![nl()]);
        }
    }

    /// Whether the connection may be retired now; see `closable`.
    pub fn should_close(&self) -> (r: bool)
        ensures
            r == self.closable(),
    {
        self.failed || (self.read_eof && self.write_buf.is_empty())
    }

    /// The interest set to re-arm with: readable unless EOF was seen, and
    /// writable exactly when unsent bytes remain queued.
    pub fn interest(&self) -> (r: Interest)
        ensures
            r.read == !self.read_eof,
            r.write == (self.write_buf@.len() > 0),
    {
        Interest { read: !self.read_eof, write: !self.write_buf.is_empty() }
    }
}

/// Partial write recovery: the flushed prefix and the retained suffix
/// reassemble the original buffer exactly, so retrying the suffix on the next
/// writable notification duplicates and loses nothing.
pub proof fn lemma_partial_write_recovery(buf: Seq<u8>, n: int)
    requires
        0 <= n <= buf.len(),
    ensures
        buf.take(n) + buf.skip(n) =~= buf,
{
}

} // verus!
