//! The reactor core: the service that owns the connection table, routes
//! readiness and I/O outcomes to entries, and runs the per-tick fixed point
//! that fans every parsed line out to every live connection.
//!
//! The service performs no I/O. A driver loop outside the library blocks on
//! the multiplexer, reports readiness through `ready`, performs the single
//! non-blocking read and write per notified connection and hands the
//! outcomes to `apply_read` and `apply_write`, accepts through
//! `take_accept_ready` / `note_accepted`, and then calls `process`, which
//! drains every buffer to a fixed point and says which sockets to register,
//! retire, and re-arm.

use vstd::prelude::*;
use vstd::pervasive::unreached;
use crate::conn::{Connection, ReadOutcome, WriteOutcome, read_step, write_step};
use crate::framer::{
    has_nl, lines_of, nl, remainder_of, split_buffer, wire_bytes, wire_of,
};
use crate::table::{Entry, ListenerState, Table};

verus! {

/// A request to re-arm one token's subscription with the multiplexer after a
/// tick. Every surviving entry appears exactly once: a dropped re-arm would
/// starve its socket permanently under one-shot notification.
pub struct ArmRequest {
    pub token: usize,
    pub read: bool,
    pub write: bool,
}

/// What one tick decided: which tokens were admitted for freshly accepted
/// connections (register their sockets), which were retired (drop their
/// sockets), and how every surviving token re-arms.
pub struct TickOutcome {
    pub new_tokens: Vec<usize>,
    pub closed: Vec<usize>,
    pub arm: Vec<ArmRequest>,
}

/// The chat service: the connection table plus the count of accepted
/// connections not yet admitted to a slot.
pub struct MiChat {
    pub table: Table,
    pub pending_new: usize,
}

/// The lines an entry contributes to a tick: the complete lines of a
/// connection's read buffer; the listener and vacant slots contribute none.
pub open spec fn entry_lines(e: Option<Entry>) -> Seq<Seq<u8>> {
    match e {
        Some(Entry::Conn(c)) => lines_of(c.read_buf@),
        _ => Seq::empty(),
    }
}

/// All lines a tick resolves, in token order: the concatenation of every
/// entry's complete lines.
pub open spec fn tick_lines(t: Seq<Option<Entry>>) -> Seq<Seq<u8>>
    decreases t.len(),
{
    if t.len() == 0 {
        Seq::empty()
    } else {
        tick_lines(t.drop_last()) + entry_lines(t.last())
    }
}

/// The broadcast payload of a tick: every resolved line, newline-terminated,
/// in order. This is what every live connection's write buffer receives.
pub open spec fn tick_payload(t: Seq<Option<Entry>>) -> Seq<u8> {
    wire_of(tick_lines(t))
}

/// A connection with nothing buffered and nothing pending.
pub open spec fn conn_blank(c: Connection) -> bool {
    &&& c.read_buf@ == Seq::<u8>::empty()
    &&& c.write_buf@ == Seq::<u8>::empty()
    &&& !c.read_eof
    &&& !c.failed
    &&& !c.want_read
    &&& !c.want_write
}

/// A connection admitted during the tick: empty read buffer, the tick's
/// whole payload queued for it (a newcomer hears the tick's broadcasts), no
/// flags set.
pub open spec fn conn_fresh(c: Connection, p: Seq<u8>) -> bool {
    &&& c.read_buf@ == Seq::<u8>::empty()
    &&& c.write_buf@ == p
    &&& !c.read_eof
    &&& !c.failed
    &&& !c.want_read
    &&& !c.want_write
}

/// How a tick with payload `p` advances a connection that survives it: the
/// read buffer keeps exactly the unterminated remainder, the write buffer
/// grows by the payload, and the flags and pending bits stay.
pub open spec fn conn_stepped(c0: Connection, c1: Connection, p: Seq<u8>) -> bool {
    &&& c1.read_buf@ == remainder_of(c0.read_buf@)
    &&& c1.write_buf@ == c0.write_buf@ + p
    &&& c1.read_eof == c0.read_eof
    &&& c1.failed == c0.failed
    &&& c1.want_read == c0.want_read
    &&& c1.want_write == c0.want_write
}

/// Whether a tick with payload `p` retires a connection: it failed, or the
/// peer half-closed with nothing left to send it — including nothing this
/// very tick would have queued. A connection with queued data is never
/// retired unless it failed.
pub open spec fn conn_removed(c0: Connection, p: Seq<u8>) -> bool {
    c0.failed || (c0.read_eof && c0.write_buf@.len() == 0 && p.len() == 0)
}

/// The re-arm request for one entry: the listener is always readable; a
/// connection reads unless EOF was seen and writes exactly when data is
/// queued.
pub open spec fn arm_of(e: Entry, i: int) -> ArmRequest {
    match e {
        Entry::Listener(_) => ArmRequest { token: i as usize, read: true, write: false },
        Entry::Conn(c) => ArmRequest {
            token: i as usize,
            read: !c.read_eof,
            write: c.write_buf@.len() > 0,
        },
    }
}

/// The re-arm requests of a table: one per occupied slot, in token order.
pub open spec fn arm_seq(t: Seq<Option<Entry>>) -> Seq<ArmRequest>
    decreases t.len(),
{
    if t.len() == 0 {
        Seq::empty()
    } else {
        arm_seq(t.drop_last()) + match t.last() {
            Some(e) => seq![arm_of(e, t.len() - 1)],
            None => Seq::empty(),
        }
    }
}

/// The tokens a tick retires, in token order: exactly the connections that
/// `conn_removed` names.
pub open spec fn closed_seq(t: Seq<Option<Entry>>, p: Seq<u8>) -> Seq<usize>
    decreases t.len(),
{
    if t.len() == 0 {
        Seq::empty()
    } else {
        closed_seq(t.drop_last(), p) + match t.last() {
            Some(Entry::Conn(c)) => if conn_removed(c, p) {
                seq![(t.len() - 1) as usize]
            } else {
                Seq::empty()
            },
            _ => Seq::empty(),
        }
    }
}

/// How the framing pass advances a connection: the read buffer keeps exactly
/// the unterminated remainder and everything else stays.
pub open spec fn conn_framed(c0: Connection, c1: Connection) -> bool {
    &&& c1.read_buf@ == remainder_of(c0.read_buf@)
    &&& c1.write_buf == c0.write_buf
    &&& c1.read_eof == c0.read_eof
    &&& c1.failed == c0.failed
    &&& c1.want_read == c0.want_read
    &&& c1.want_write == c0.want_write
}

/// The tokens of the connections a removal sweep retires from a table, in
/// token order: exactly those that are closable now.
pub open spec fn swept_seq(t: Seq<Option<Entry>>) -> Seq<usize>
    decreases t.len(),
{
    if t.len() == 0 {
        Seq::empty()
    } else {
        swept_seq(t.drop_last()) + match t.last() {
            Some(Entry::Conn(c)) => if c.closable() {
                seq![(t.len() - 1) as usize]
            } else {
                Seq::empty()
            },
            _ => Seq::empty(),
        }
    }
}

/// Entries with nothing buffered contribute no lines: admitting blank
/// connections into vacant or fresh slots leaves the tick's lines unchanged.
pub proof fn lemma_tick_lines_blank_extension(t0: Seq<Option<Entry>>, t1: Seq<Option<Entry>>)
    requires
        t1.len() >= t0.len(),
        forall|i: int| 0 <= i < t0.len() && t0[i] is Some ==> t1[i] == t0[i],
        forall|i: int|
            0 <= i < t0.len() && t0[i] is None ==> t1[i] is None || (t1[i] matches Some(
                Entry::Conn(c),
            ) && conn_blank(c)),
        forall|i: int|
            t0.len() <= i < t1.len() ==> ((#[trigger] t1[i]) matches Some(Entry::Conn(c)) && conn_blank(c)),
    ensures
        tick_lines(t1) == tick_lines(t0),
    decreases t1.len(),
{
    crate::framer::lemma_framing_empty();
    if t1.len() > t0.len() {
        assert(entry_lines(t1.last()) =~~= Seq::<Seq<u8>>::empty());
        lemma_tick_lines_blank_extension(t0, t1.drop_last());
        assert(tick_lines(t1) =~~= tick_lines(t1.drop_last()) + entry_lines(t1.last()));
        assert(tick_lines(t1) =~~= tick_lines(t0));
    } else if t0.len() == 0 {
    } else {
        let k = t0.len() - 1;
        lemma_tick_lines_blank_extension(t0.drop_last(), t1.drop_last());
        assert(entry_lines(t1.last()) =~~= entry_lines(t0.last())) by {
            if t0[k] is Some {
                assert(t1[k] == t0[k]);
            } else {
                assert(entry_lines(t0[k]) =~~= Seq::<Seq<u8>>::empty());
                assert(entry_lines(t1[k]) =~~= Seq::<Seq<u8>>::empty());
            }
        }
        assert(tick_lines(t1) =~~= tick_lines(t0));
    }
}

/// A sweep over the table a tick produced retires exactly the connections
/// `conn_removed` names in the starting table: a stepped connection is
/// closable now exactly when its start state failed, or saw EOF with nothing
/// queued and nothing arriving this tick; a newcomer never is.
pub proof fn lemma_swept_matches_closed(
    t0: Seq<Option<Entry>>,
    tc: Seq<Option<Entry>>,
    p: Seq<u8>,
)
    requires
        tc.len() >= t0.len(),
        forall|i: int|
            0 <= i < t0.len() ==> match #[trigger] t0[i] {
                Some(Entry::Listener(_)) => tc[i] == t0[i],
                Some(Entry::Conn(c0)) => tc[i] matches Some(Entry::Conn(c1)) && conn_stepped(
                    c0,
                    c1,
                    p,
                ),
                None => tc[i] is None || (tc[i] matches Some(Entry::Conn(c)) && conn_fresh(c, p)),
            },
        forall|i: int|
            t0.len() <= i < tc.len() ==> ((#[trigger] tc[i]) matches Some(Entry::Conn(c)) && conn_fresh(c, p)),
    ensures
        swept_seq(tc) == closed_seq(t0, p),
    decreases tc.len(),
{
    if tc.len() > t0.len() {
        lemma_swept_matches_closed(t0, tc.drop_last(), p);
        assert(swept_seq(tc) =~= closed_seq(t0, p));
    } else if t0.len() == 0 {
        assert(swept_seq(tc) =~= closed_seq(t0, p));
    } else {
        let k = t0.len() - 1;
        lemma_swept_matches_closed(t0.drop_last(), tc.drop_last(), p);
        match t0[k] {
            Some(Entry::Conn(c0)) => {
                match tc[k] {
                    Some(Entry::Conn(c1)) => {
                        assert(conn_stepped(c0, c1, p));
                        assert(c1.closable() == conn_removed(c0, p));
                    },
                    _ => {
                        assert(false);
                    },
                }
            },
            _ => {},
        }
        assert(swept_seq(tc) =~= closed_seq(t0, p));
    }
}

/// After a tick nothing is left to drain: a table whose read buffers hold no
/// newline yields no lines, so an immediately repeated pass would broadcast
/// nothing — the fixed point is reached in one structured pass.
pub proof fn lemma_quiescent_no_lines(t: Seq<Option<Entry>>)
    requires
        forall|i: int|
            0 <= i < t.len() ==> ((#[trigger] t[i]) matches Some(Entry::Conn(c)) ==> !has_nl(
                c.read_buf@,
            )),
    ensures
        tick_lines(t).len() == 0,
    decreases t.len(),
{
    if t.len() > 0 {
        lemma_quiescent_no_lines(t.drop_last());
        match t.last() {
            Some(Entry::Conn(c)) => {
                assert(t[t.len() - 1] matches Some(Entry::Conn(cc)) && cc == c);
                crate::framer::lemma_lines_nonempty_iff_nl(c.read_buf@);
            },
            _ => {},
        }
    }
}

/// No line a tick resolves holds a newline: each came from between two
/// delimiters of some connection's read buffer.
pub proof fn lemma_tick_lines_no_nl(t: Seq<Option<Entry>>)
    ensures
        forall|k: int| 0 <= k < tick_lines(t).len() ==> !has_nl(#[trigger] tick_lines(t)[k]),
    decreases t.len(),
{
    if t.len() > 0 {
        lemma_tick_lines_no_nl(t.drop_last());
        match t.last() {
            Some(Entry::Conn(c)) => {
                crate::framer::lemma_lines_have_no_nl(c.read_buf@);
            },
            _ => {},
        }
        assert forall|k: int| 0 <= k < tick_lines(t).len() implies !has_nl(
            #[trigger] tick_lines(t)[k],
        ) by {
            let front = tick_lines(t.drop_last());
            if k < front.len() {
                assert(tick_lines(t)[k] == front[k]);
            } else {
                assert(tick_lines(t)[k] == entry_lines(t.last())[k - front.len()]);
            }
        }
    }
}

/// Broadcast fan-out round trip: the payload a tick appends to every live
/// connection's write buffer frames back, on the receiving side, into
/// exactly the lines the tick resolved — each line once, in order, nothing
/// retained.
pub proof fn lemma_payload_round_trip(t: Seq<Option<Entry>>)
    ensures
        lines_of(tick_payload(t)) == tick_lines(t),
        remainder_of(tick_payload(t)) == Seq::<u8>::empty(),
{
    lemma_tick_lines_no_nl(t);
    crate::framer::lemma_wire_round_trip(tick_lines(t));
}

/// Closability protects queued data: a tick never retires a connection that
/// still has outbound bytes queued — or that would receive some this very
/// tick — not even after EOF, unless the connection itself failed.
pub proof fn lemma_closability(c: Connection, p: Seq<u8>)
    requires
        conn_removed(c, p),
        !c.failed,
    ensures
        c.write_buf@.len() == 0,
        p.len() == 0,
{
}

/// One framed line with the token it came from, ready to be routed to an
/// application model. In the key/value variant an empty line is a read and
/// a non-empty line a write; the token directs the reply.
pub struct CommandMsg {
    pub from: usize,
    pub line: Vec<u8>,
}

/// What one key/value tick decided: the framed commands in emission order,
/// and the same admission, retirement and re-arm reports as a broadcast
/// tick.
pub struct KvTickOutcome {
    pub commands: Vec<CommandMsg>,
    pub new_tokens: Vec<usize>,
    pub closed: Vec<usize>,
    pub arm: Vec<ArmRequest>,
}

/// The commands an entry contributes to a tick: its complete lines, each
/// paired with its token.
pub open spec fn entry_commands(e: Option<Entry>, i: int) -> Seq<(usize, Seq<u8>)> {
    match e {
        Some(Entry::Conn(c)) => lines_of(c.read_buf@).map_values(|l: Seq<u8>| (i as usize, l)),
        _ => Seq::empty(),
    }
}

/// All commands a tick resolves, in token order then line order — the
/// emission order the reactor guarantees within a tick.
pub open spec fn tick_commands(t: Seq<Option<Entry>>) -> Seq<(usize, Seq<u8>)>
    decreases t.len(),
{
    if t.len() == 0 {
        Seq::empty()
    } else {
        tick_commands(t.drop_last()) + entry_commands(t.last(), t.len() - 1)
    }
}

/// The mathematical content of a command batch.
pub open spec fn msgs_view(v: Seq<CommandMsg>) -> Seq<(usize, Seq<u8>)> {
    v.map_values(|m: CommandMsg| (m.from, m.line@))
}

/// Entries with nothing buffered contribute no commands either: admitting
/// blank connections leaves the tick's commands unchanged.
pub proof fn lemma_tick_commands_blank_extension(t0: Seq<Option<Entry>>, t1: Seq<Option<Entry>>)
    requires
        t1.len() >= t0.len(),
        forall|i: int| 0 <= i < t0.len() && t0[i] is Some ==> t1[i] == t0[i],
        forall|i: int|
            0 <= i < t0.len() && t0[i] is None ==> t1[i] is None || (t1[i] matches Some(
                Entry::Conn(c),
            ) && conn_blank(c)),
        forall|i: int|
            t0.len() <= i < t1.len() ==> ((#[trigger] t1[i]) matches Some(Entry::Conn(c))
                && conn_blank(c)),
    ensures
        tick_commands(t1) == tick_commands(t0),
    decreases t1.len(),
{
    crate::framer::lemma_framing_empty();
    if t1.len() > t0.len() {
        assert(entry_commands(t1.last(), t1.len() - 1) =~= Seq::<(usize, Seq<u8>)>::empty());
        lemma_tick_commands_blank_extension(t0, t1.drop_last());
        assert(tick_commands(t1) =~= tick_commands(t0));
    } else if t0.len() == 0 {
    } else {
        let k = t0.len() - 1;
        lemma_tick_commands_blank_extension(t0.drop_last(), t1.drop_last());
        assert(entry_commands(t1.last(), k) =~= entry_commands(t0.last(), k)) by {
            if t0[k] is Some {
                assert(t1[k] == t0[k]);
            } else {
                assert(entry_commands(t0[k], k) =~= Seq::<(usize, Seq<u8>)>::empty());
                assert(entry_commands(t1[k], k) =~= Seq::<(usize, Seq<u8>)>::empty());
            }
        }
        assert(tick_commands(t1) =~= tick_commands(t0));
    }
}

/// No socket is starved: every occupied token appears among a table's
/// re-arm requests, with the interest its entry computes. Under one-shot
/// notification a missing re-arm would silence that socket forever.
pub proof fn lemma_arm_covers_all(t: Seq<Option<Entry>>, i: int, e: Entry)
    requires
        0 <= i < t.len(),
        t[i] == Some(e),
    ensures
        exists|j: int| 0 <= j < arm_seq(t).len() && arm_seq(t)[j] == arm_of(e, i),
    decreases t.len(),
{
    if i == t.len() - 1 {
        assert(arm_seq(t)[arm_seq(t).len() - 1] == arm_of(e, i));
    } else {
        lemma_arm_covers_all(t.drop_last(), i, e);
        let j = choose|j: int|
            0 <= j < arm_seq(t.drop_last()).len() && arm_seq(t.drop_last())[j] == arm_of(e, i);
        assert(arm_seq(t)[j] == arm_of(e, i));
    }
}

/// Re-registration is idempotent in the buffer state: a surviving
/// connection re-arms with write interest exactly when outbound data is
/// queued, and with read-only interest whenever its write buffer is empty.
pub proof fn lemma_rearm_interest(c: Connection, i: int)
    requires
        !c.closable(),
    ensures
        arm_of(Entry::Conn(c), i).write == (c.write_buf@.len() > 0),
        c.write_buf@.len() == 0 ==> arm_of(Entry::Conn(c), i).read && !arm_of(
            Entry::Conn(c),
            i,
        ).write,
{
}

/// Two tables agree everywhere but possibly at one token.
pub open spec fn same_except(t0: Seq<Option<Entry>>, t1: Seq<Option<Entry>>, tok: int) -> bool {
    &&& t1.len() == t0.len()
    &&& forall|i: int| 0 <= i < t0.len() && i != tok ==> t1[i] == t0[i]
}

impl MiChat {
    pub open spec fn wf(self) -> bool {
        self.table.wf()
    }

    /// A service with no entries and nothing pending.
    pub fn new() -> (s: MiChat)
        ensures
            s.wf(),
            s.table@ == Seq::<Option<Entry>>::empty(),
            s.pending_new == 0,
    {
        MiChat { table: Table::new(), pending_new: 0 }
    }

    /// Admits the listening socket's entry and returns its token; the caller
    /// registers the socket under that token. Done once at startup.
    pub fn listen(&mut self) -> (tok: usize)
        requires
            old(self).wf(),
        ensures
            final(self).wf(),
            final(self).pending_new == old(self).pending_new,
            tok <= old(self).table@.len(),
            tok < old(self).table@.len() ==> old(self).table@[tok as int] is None && final(self).table@ == old(self).table@.update(
                tok as int,
                Some(Entry::Listener(ListenerState { accept_ready: false })),
            ),
            tok == old(self).table@.len() ==> final(self).table@ == old(self).table@.push(
                Some(Entry::Listener(ListenerState { accept_ready: false })),
            ),
            final(self).table@[tok as int] == Some(
                Entry::Listener(ListenerState { accept_ready: false }),
            ),
    {
        self.table.insert(Entry::Listener(ListenerState { accept_ready: false }))
    }

    /// Routes one readiness notification to the entry a token names: bits
    /// merge into the entry's pending state and nothing else moves. No I/O
    /// happens here; notifications coalesce until the next processing pass.
    /// A stale token is a caller invariant violation, ruled out here.
    pub fn ready(&mut self, token: usize, readable: bool, writable: bool)
        requires
            old(self).wf(),
            token < old(self).table@.len(),
            old(self).table@[token as int] is Some,
        ensures
            final(self).wf(),
            final(self).pending_new == old(self).pending_new,
            same_except(old(self).table@, final(self).table@, token as int),
            old(self).table@[token as int] matches Some(Entry::Conn(c0)) ==> final(self).table@[token as int] matches Some(Entry::Conn(c1)) && c1.want_read == (c0.want_read
                || readable) && c1.want_write == (c0.want_write || writable) && c1.read_buf
                == c0.read_buf && c1.write_buf == c0.write_buf && c1.read_eof == c0.read_eof
                && c1.failed == c0.failed,
            old(self).table@[token as int] matches Some(Entry::Listener(l0)) ==> final(self).table@[token as int] == Some(
                Entry::Listener(ListenerState { accept_ready: l0.accept_ready || readable }),
            ),
    {
        let slot = &mut self.table.slots[token];
        match slot {
            Some(Entry::Conn(c)) => {
                c.handle_event(readable, writable);
            },
            Some(Entry::Listener(l)) => {
                if readable {
                    l.accept_ready = true;
                }
            },
            None => {},
        }
        proof {
            crate::table::lemma_wf_entries_updated(old(self).table, self.table);
        }
    }

    /// Whether the token's connection has an unserviced readable
    /// notification: the driver should attempt one non-blocking read.
    pub fn wants_read(&self, token: usize) -> (r: bool)
        requires
            token < self.table@.len(),
            self.table@[token as int] matches Some(Entry::Conn(_)),
        ensures
            self.table@[token as int] matches Some(Entry::Conn(c)) ==> r == c.want_read,
    {
        match self.table.get(token) {
            Some(Entry::Conn(c)) => c.want_read,
            _ => false,
        }
    }

    /// Whether the token's connection has an unserviced writable
    /// notification: the driver should attempt one non-blocking send.
    pub fn wants_write(&self, token: usize) -> (r: bool)
        requires
            token < self.table@.len(),
            self.table@[token as int] matches Some(Entry::Conn(_)),
        ensures
            self.table@[token as int] matches Some(Entry::Conn(c)) ==> r == c.want_write,
    {
        match self.table.get(token) {
            Some(Entry::Conn(c)) => c.want_write,
            _ => false,
        }
    }

    /// A copy of the token's queued outbound bytes: what the driver offers
    /// to one non-blocking send.
    pub fn write_data(&self, token: usize) -> (r: Vec<u8>)
        requires
            token < self.table@.len(),
            self.table@[token as int] matches Some(Entry::Conn(_)),
        ensures
            self.table@[token as int] matches Some(Entry::Conn(c)) ==> r@ == c.write_buf@,
    {
        match self.table.get(token) {
            Some(Entry::Conn(c)) => {
                let r = c.write_buf.clone();
                proof {
                    assert(r@ =~= c.write_buf@);
                }
                r
            },
            _ => unreached(),
        }
    }

    /// Records the outcome of the driver's one non-blocking read for this
    /// token; see `read_step` for exactly how the connection advances.
    pub fn apply_read(&mut self, token: usize, outcome: ReadOutcome)
        requires
            old(self).wf(),
            token < old(self).table@.len(),
            old(self).table@[token as int] matches Some(Entry::Conn(_)),
        ensures
            final(self).wf(),
            final(self).pending_new == old(self).pending_new,
            same_except(old(self).table@, final(self).table@, token as int),
            old(self).table@[token as int] matches Some(Entry::Conn(c0)) ==> final(self).table@[token as int] matches Some(Entry::Conn(c1)) && read_step(c0, c1, outcome),
    {
        let slot = &mut self.table.slots[token];
        match slot {
            Some(Entry::Conn(c)) => {
                c.handle_read(outcome);
            },
            _ => {},
        }
        proof {
            crate::table::lemma_wf_entries_updated(old(self).table, self.table);
        }
    }

    /// Records the outcome of the driver's one non-blocking send for this
    /// token; see `write_step`. A reported count never exceeds what
    /// `write_data` handed out.
    pub fn apply_write(&mut self, token: usize, outcome: WriteOutcome)
        requires
            old(self).wf(),
            token < old(self).table@.len(),
            old(self).table@[token as int] matches Some(Entry::Conn(c0)) && match outcome {
                WriteOutcome::Wrote(n) => n <= c0.write_buf@.len(),
                _ => true,
            },
        ensures
            final(self).wf(),
            final(self).pending_new == old(self).pending_new,
            same_except(old(self).table@, final(self).table@, token as int),
            old(self).table@[token as int] matches Some(Entry::Conn(c0)) ==> final(self).table@[token as int] matches Some(Entry::Conn(c1)) && write_step(c0, c1, outcome),
    {
        let slot = &mut self.table.slots[token];
        match slot {
            Some(Entry::Conn(c)) => {
                c.handle_write(outcome);
            },
            _ => {},
        }
        proof {
            crate::table::lemma_wf_entries_updated(old(self).table, self.table);
        }
    }

    /// Takes the listener's pending readable bit, clearing it: when true,
    /// the driver attempts one non-blocking accept. The listener always
    /// re-arms afterwards — a missed re-arm would stop new clients forever.
    pub fn take_accept_ready(&mut self, token: usize) -> (r: bool)
        requires
            old(self).wf(),
            token < old(self).table@.len(),
            old(self).table@[token as int] matches Some(Entry::Listener(_)),
        ensures
            final(self).wf(),
            final(self).pending_new == old(self).pending_new,
            same_except(old(self).table@, final(self).table@, token as int),
            old(self).table@[token as int] matches Some(Entry::Listener(l0)) ==> r
                == l0.accept_ready && final(self).table@[token as int] == Some(
                Entry::Listener(ListenerState { accept_ready: false }),
            ),
    {
        let slot = &mut self.table.slots[token];
        let mut r = false;
        match slot {
            Some(Entry::Listener(l)) => {
                r = l.accept_ready;
                l.accept_ready = false;
            },
            _ => {},
        }
        proof {
            crate::table::lemma_wf_entries_updated(old(self).table, self.table);
        }
        r
    }

    /// Records one successfully accepted connection. It is admitted to the
    /// table on the next `process` call, which reports its token so the
    /// driver can register the socket.
    pub fn note_accepted(&mut self)
        requires
            old(self).pending_new < usize::MAX,
        ensures
            final(self).table == old(self).table,
            final(self).pending_new == old(self).pending_new + 1,
    {
        self.pending_new = self.pending_new + 1;
    }

    /// Admits every accepted-but-unadmitted connection to the table, blank,
    /// returning their tokens in admission order.
    fn admit_pending(&mut self) -> (new_tokens: Vec<usize>)
        requires
            old(self).wf(),
        ensures
            final(self).wf(),
            final(self).pending_new == 0,
            final(self).table@.len() >= old(self).table@.len(),
            forall|i: int|
                0 <= i < old(self).table@.len() && old(self).table@[i] is Some ==> final(self).table@[i] == old(self).table@[i],
            forall|i: int|
                0 <= i < old(self).table@.len() && old(self).table@[i] is None ==> final(self).table@[i] is None || ((#[trigger] final(self).table@[i]) matches Some(
                    Entry::Conn(c),
                ) && conn_blank(c) && new_tokens@.contains(i as usize)),
            forall|i: int|
                old(self).table@.len() <= i < final(self).table@.len() ==> ((#[trigger] final(self).table@[i]) matches Some(Entry::Conn(c)) && conn_blank(c) && new_tokens@.contains(
                    i as usize,
                )),
            new_tokens@.len() == old(self).pending_new,
            new_tokens@.no_duplicates(),
            forall|k: int|
                0 <= k < new_tokens@.len() ==> (#[trigger] new_tokens@[k]) < final(self).table@.len() && (new_tokens@[k] >= old(self).table@.len() || old(self).table@[new_tokens@[k] as int] is None) && (final(self).table@[new_tokens@[k] as int] matches Some(Entry::Conn(c)) && conn_blank(c)),
    {
        let ghost t0 = self.table@;
        let ghost p0 = self.pending_new;
        let mut new_tokens: Vec<usize> = Vec::new();
        while self.pending_new > 0
            invariant
                self.wf(),
                self.table@.len() >= t0.len(),
                forall|i: int|
                    0 <= i < t0.len() && t0[i] is Some ==> self.table@[i] == t0[i],
                forall|i: int|
                    0 <= i < t0.len() && t0[i] is None ==> self.table@[i] is None || ((
                    #[trigger] self.table@[i]) matches Some(Entry::Conn(c)) && conn_blank(c)
                        && new_tokens@.contains(i as usize)),
                forall|i: int|
                    t0.len() <= i < self.table@.len() ==> ((#[trigger] self.table@[i]) matches Some(
                        Entry::Conn(c),
                    ) && conn_blank(c) && new_tokens@.contains(i as usize)),
                new_tokens@.len() + self.pending_new == p0,
                new_tokens@.no_duplicates(),
                forall|k: int|
                    0 <= k < new_tokens@.len() ==> (#[trigger] new_tokens@[k])
                        < self.table@.len() && (new_tokens@[k] >= t0.len() || t0[new_tokens@[k] as int] is None)
                        && (self.table@[new_tokens@[k] as int] matches Some(Entry::Conn(c))
                        && conn_blank(c)),
            decreases self.pending_new,
        {
            let ghost pre = self.table@;
            let ghost toks_pre = new_tokens@;
            let tok = self.table.insert(Entry::Conn(Connection::new()));
            new_tokens.push(tok);
            self.pending_new = self.pending_new - 1;
            proof {
                assert(new_tokens@ == toks_pre.push(tok));
                assert forall|k: int| 0 <= k < toks_pre.len() implies toks_pre[k] != tok by {
                    assert(pre[toks_pre[k] as int] is Some);
                }
                assert(new_tokens@.no_duplicates());
                assert forall|k: int|
                    0 <= k < new_tokens@.len() implies (#[trigger] new_tokens@[k])
                    < self.table@.len() && (new_tokens@[k] >= t0.len() || t0[new_tokens@[k] as int] is None)
                    && (self.table@[new_tokens@[k] as int] matches Some(Entry::Conn(c))
                    && conn_blank(c)) by {
                    if k < toks_pre.len() {
                        assert(new_tokens@[k] == toks_pre[k]);
                        assert(toks_pre[k] != tok);
                    } else {
                        assert(new_tokens@[k] == tok);
                    }
                }
                assert forall|i: int|
                    0 <= i < t0.len() && t0[i] is None implies self.table@[i] is None || ((
                #[trigger] self.table@[i]) matches Some(Entry::Conn(c)) && conn_blank(c)
                    && new_tokens@.contains(i as usize)) by {
                    if pre[i] is None {
                        if i == tok {
                            assert(new_tokens@[new_tokens@.len() - 1] == tok);
                            assert(new_tokens@.contains(i as usize));
                        }
                    } else {
                        assert(toks_pre.contains(i as usize) || !(pre[i] matches Some(
                            Entry::Conn(c),
                        ) && conn_blank(c)));
                        if toks_pre.contains(i as usize) {
                            let j = choose|j: int|
                                0 <= j < toks_pre.len() && toks_pre[j] == i as usize;
                            assert(new_tokens@[j] == i as usize);
                            assert(new_tokens@.contains(i as usize));
                        }
                    }
                }
                assert forall|i: int|
                    t0.len() <= i < self.table@.len() implies ((#[trigger] self.table@[i]) matches
                    Some(Entry::Conn(c)) && conn_blank(c) && new_tokens@.contains(i as usize)) by {
                    if i < pre.len() {
                        if i == tok {
                            assert(new_tokens@[new_tokens@.len() - 1] == tok);
                            assert(new_tokens@.contains(i as usize));
                        } else {
                            assert(toks_pre.contains(i as usize));
                            let j = choose|j: int|
                                0 <= j < toks_pre.len() && toks_pre[j] == i as usize;
                            assert(new_tokens@[j] == i as usize);
                            assert(new_tokens@.contains(i as usize));
                        }
                    } else {
                        assert(i == tok);
                        assert(new_tokens@[new_tokens@.len() - 1] == tok);
                        assert(new_tokens@.contains(i as usize));
                    }
                }
            }
        }
        new_tokens
    }

    /// Frames every connection's read buffer, leaving each the unterminated
    /// remainder, and returns all resolved lines in token order.
    fn collect_lines(&mut self) -> (all_lines: Vec<Vec<u8>>)
        requires
            old(self).wf(),
        ensures
            final(self).wf(),
            final(self).pending_new == old(self).pending_new,
            final(self).table@.len() == old(self).table@.len(),
            all_lines.deep_view() == tick_lines(old(self).table@),
            forall|i: int|
                0 <= i < old(self).table@.len() ==> match #[trigger] old(self).table@[i] {
                    Some(Entry::Conn(c0)) => final(self).table@[i] matches Some(Entry::Conn(c1))
                        && conn_framed(c0, c1),
                    _ => final(self).table@[i] == old(self).table@[i],
                },
    {
        let ghost t0 = self.table@;
        let ghost p0 = self.pending_new;
        let mut all_lines: Vec<Vec<u8>> = Vec::new();
        let n = self.table.len();
        let mut i: usize = 0;
        proof {
            assert(t0.take(0) =~= Seq::<Option<Entry>>::empty());
            assert(all_lines.deep_view() =~~= tick_lines(t0.take(0)));
        }
        while i < n
            invariant
                self.wf(),
                self.pending_new == p0,
                n == t0.len(),
                self.table@.len() == t0.len(),
                i <= n,
                forall|j: int|
                    0 <= j < i ==> match #[trigger] t0[j] {
                        Some(Entry::Conn(c0)) => self.table@[j] matches Some(Entry::Conn(c1))
                            && conn_framed(c0, c1),
                        _ => self.table@[j] == t0[j],
                    },
                forall|j: int| i <= j < n ==> self.table@[j] == t0[j],
                all_lines.deep_view() == tick_lines(t0.take(i as int)),
            decreases n - i,
        {
            let ghost pre = self.table;
            let ghost lines_pre = all_lines.deep_view();
            let slot = &mut self.table.slots[i];
            match slot {
                Some(Entry::Conn(c)) => {
                    let (mut lines, rem) = split_buffer(c.read_buf.as_slice());
                    c.read_buf = rem;
                    all_lines.append(&mut lines);
                },
                _ => {},
            }
            proof {
                crate::table::lemma_wf_entries_updated(pre, self.table);
                assert(t0.take(i + 1).drop_last() =~= t0.take(i as int));
                assert(t0.take(i + 1).last() == t0[i as int]);
                assert(all_lines.deep_view() =~~= lines_pre + entry_lines(t0[i as int]));
                assert(all_lines.deep_view() =~~= tick_lines(t0.take(i + 1)));
            }
            i += 1;
        }
        proof {
            assert(t0.take(n as int) =~= t0);
        }
        all_lines
    }

    /// Appends the tick's payload to every connection's write buffer: the
    /// broadcast fan-out, every live connection included.
    fn broadcast_all(&mut self, payload: &[u8])
        requires
            old(self).wf(),
        ensures
            final(self).wf(),
            final(self).pending_new == old(self).pending_new,
            final(self).table@.len() == old(self).table@.len(),
            forall|i: int|
                0 <= i < old(self).table@.len() ==> match #[trigger] old(self).table@[i] {
                    Some(Entry::Conn(c0)) => final(self).table@[i] matches Some(Entry::Conn(c1))
                        && c1.write_buf@ == c0.write_buf@ + payload@ && c1.read_buf == c0.read_buf
                        && c1.read_eof == c0.read_eof && c1.failed == c0.failed && c1.want_read
                        == c0.want_read && c1.want_write == c0.want_write,
                    _ => final(self).table@[i] == old(self).table@[i],
                },
    {
        let ghost t0 = self.table@;
        let ghost p0 = self.pending_new;
        let n = self.table.len();
        let mut i: usize = 0;
        while i < n
            invariant
                self.wf(),
                self.pending_new == p0,
                n == t0.len(),
                self.table@.len() == t0.len(),
                i <= n,
                forall|j: int|
                    0 <= j < i ==> match #[trigger] t0[j] {
                        Some(Entry::Conn(c0)) => self.table@[j] matches Some(Entry::Conn(c1))
                            && c1.write_buf@ == c0.write_buf@ + payload@ && c1.read_buf
                            == c0.read_buf && c1.read_eof == c0.read_eof && c1.failed == c0.failed
                            && c1.want_read == c0.want_read && c1.want_write == c0.want_write,
                        _ => self.table@[j] == t0[j],
                    },
                forall|j: int| i <= j < n ==> self.table@[j] == t0[j],
            decreases n - i,
        {
            let ghost pre = self.table;
            let slot = &mut self.table.slots[i];
            match slot {
                Some(Entry::Conn(c)) => {
                    let ghost wb0 = c.write_buf@;
                    c.write_buf.extend_from_slice(payload);
                    proof {
                        assert(c.write_buf@ =~= wb0 + payload@);
                    }
                },
                _ => {},
            }
            proof {
                crate::table::lemma_wf_entries_updated(pre, self.table);
            }
            i += 1;
        }
    }

    /// Frames every connection's read buffer into token-attributed commands
    /// in emission order, leaving each buffer the unterminated remainder.
    fn collect_commands(&mut self) -> (commands: Vec<CommandMsg>)
        requires
            old(self).wf(),
        ensures
            final(self).wf(),
            final(self).pending_new == old(self).pending_new,
            final(self).table@.len() == old(self).table@.len(),
            msgs_view(commands@) == tick_commands(old(self).table@),
            forall|i: int|
                0 <= i < old(self).table@.len() ==> match #[trigger] old(self).table@[i] {
                    Some(Entry::Conn(c0)) => final(self).table@[i] matches Some(Entry::Conn(c1))
                        && conn_framed(c0, c1),
                    _ => final(self).table@[i] == old(self).table@[i],
                },
    {
        let ghost t0 = self.table@;
        let ghost p0 = self.pending_new;
        let mut commands: Vec<CommandMsg> = Vec::new();
        let n = self.table.len();
        let mut i: usize = 0;
        proof {
            assert(t0.take(0) =~= Seq::<Option<Entry>>::empty());
            assert(msgs_view(commands@) =~~= tick_commands(t0.take(0)));
        }
        while i < n
            invariant
                self.wf(),
                self.pending_new == p0,
                n == t0.len(),
                self.table@.len() == t0.len(),
                i <= n,
                forall|j: int|
                    0 <= j < i ==> match #[trigger] t0[j] {
                        Some(Entry::Conn(c0)) => self.table@[j] matches Some(Entry::Conn(c1))
                            && conn_framed(c0, c1),
                        _ => self.table@[j] == t0[j],
                    },
                forall|j: int| i <= j < n ==> self.table@[j] == t0[j],
                msgs_view(commands@) == tick_commands(t0.take(i as int)),
            decreases n - i,
        {
            let ghost pre = self.table;
            let ghost cmds_pre = commands@;
            let mut taken: Option<Vec<Vec<u8>>> = None;
            let slot = &mut self.table.slots[i];
            match slot {
                Some(Entry::Conn(c)) => {
                    let (lines, rem) = split_buffer(c.read_buf.as_slice());
                    c.read_buf = rem;
                    taken = Some(lines);
                },
                _ => {},
            }
            proof {
                crate::table::lemma_wf_entries_updated(pre, self.table);
            }
            match taken {
                Some(lines) => {
                    let ghost lines0 = lines.deep_view();
                    let ghost attach = |l: Seq<u8>| (i as usize, l);
                    proof {
                        assert(entry_commands(t0[i as int], i as int) =~~= lines0.map_values(
                            attach,
                        ));
                    }
                    let mut k: usize = 0;
                    proof {
                        assert(lines0.take(0).map_values(attach) =~~= Seq::<(
                            usize,
                            Seq<u8>,
                        )>::empty());
                        assert(msgs_view(commands@) =~~= tick_commands(t0.take(i as int))
                            + lines0.take(0).map_values(attach));
                    }
                    while k < lines.len()
                        invariant
                            k <= lines@.len(),
                            lines.deep_view() == lines0,
                            lines0.len() == lines@.len(),
                            forall|q: int|
                                0 <= q < lines@.len() ==> (#[trigger] lines@[q])@ == lines0[q],
                            attach == (|l: Seq<u8>| (i as usize, l)),
                            msgs_view(commands@) == tick_commands(t0.take(i as int))
                                + lines0.take(k as int).map_values(attach),
                        decreases lines@.len() - k,
                    {
                        let ghost before = commands@;
                        let line = lines[k].clone();
                        proof {
                            assert(line@ =~= lines@[k as int]@);
                        }
                        commands.push(CommandMsg { from: i, line });
                        proof {
                            assert(msgs_view(commands@) =~~= msgs_view(before).push(
                                (i as usize, lines0[k as int]),
                            ));
                            assert(lines0.take(k + 1).map_values(attach) =~~= lines0.take(
                                k as int,
                            ).map_values(attach).push(attach(lines0[k as int])));
                            assert(msgs_view(commands@) =~~= tick_commands(t0.take(i as int))
                                + lines0.take(k + 1).map_values(attach));
                        }
                        k += 1;
                    }
                    proof {
                        assert(lines0.take(lines0.len() as int) =~~= lines0);
                        assert(msgs_view(commands@) =~~= tick_commands(t0.take(i as int))
                            + entry_commands(t0[i as int], i as int));
                    }
                },
                None => {
                    proof {
                        assert(entry_commands(t0[i as int], i as int) =~~= Seq::<(
                            usize,
                            Seq<u8>,
                        )>::empty());
                        assert(msgs_view(commands@) =~~= tick_commands(t0.take(i as int))
                            + entry_commands(t0[i as int], i as int));
                    }
                },
            }
            proof {
                assert(t0.take(i + 1).drop_last() =~= t0.take(i as int));
                assert(t0.take(i + 1).last() == t0[i as int]);
                assert(msgs_view(commands@) =~~= tick_commands(t0.take(i + 1)));
            }
            i += 1;
        }
        proof {
            assert(t0.take(n as int) =~= t0);
        }
        commands
    }

    /// Retires every closable connection, freeing its token, and returns the
    /// retired tokens in token order. A connection with queued outbound data
    /// is never removed here unless it failed.
    fn sweep_closed(&mut self) -> (closed: Vec<usize>)
        requires
            old(self).wf(),
        ensures
            final(self).wf(),
            final(self).pending_new == old(self).pending_new,
            final(self).table@.len() == old(self).table@.len(),
            closed@ == swept_seq(old(self).table@),
            forall|i: int|
                0 <= i < old(self).table@.len() ==> match #[trigger] old(self).table@[i] {
                    Some(Entry::Conn(c0)) => if c0.closable() {
                        final(self).table@[i] is None
                    } else {
                        final(self).table@[i] == old(self).table@[i]
                    },
                    _ => final(self).table@[i] == old(self).table@[i],
                },
    {
        let ghost t0 = self.table@;
        let ghost p0 = self.pending_new;
        let mut closed: Vec<usize> = Vec::new();
        let n = self.table.len();
        let mut i: usize = 0;
        proof {
            assert(t0.take(0) =~= Seq::<Option<Entry>>::empty());
            assert(closed@ =~= swept_seq(t0.take(0)));
        }
        while i < n
            invariant
                self.wf(),
                self.pending_new == p0,
                n == t0.len(),
                self.table@.len() == t0.len(),
                i <= n,
                closed@ == swept_seq(t0.take(i as int)),
                forall|j: int|
                    0 <= j < i ==> match #[trigger] t0[j] {
                        Some(Entry::Conn(c0)) => if c0.closable() {
                            self.table@[j] is None
                        } else {
                            self.table@[j] == t0[j]
                        },
                        _ => self.table@[j] == t0[j],
                    },
                forall|j: int| i <= j < n ==> self.table@[j] == t0[j],
            decreases n - i,
        {
            let close_it = match self.table.get(i) {
                Some(Entry::Conn(c)) => c.should_close(),
                _ => false,
            };
            if close_it {
                let _entry = self.table.remove(i);
                closed.push(i);
            }
            proof {
                assert(t0.take(i + 1).drop_last() =~= t0.take(i as int));
                assert(t0.take(i + 1).last() == t0[i as int]);
                assert(closed@ =~= swept_seq(t0.take(i + 1)));
            }
            i += 1;
        }
        proof {
            assert(t0.take(n as int) =~= t0);
        }
        closed
    }

    /// Computes the re-arm request of every occupied slot, in token order.
    /// Every surviving entry is listed: a missed re-arm would starve its
    /// socket permanently.
    fn arm_all(&self) -> (arm: Vec<ArmRequest>)
        ensures
            arm@ == arm_seq(self.table@),
    {
        let ghost t = self.table@;
        let mut arm: Vec<ArmRequest> = Vec::new();
        let n = self.table.len();
        let mut i: usize = 0;
        proof {
            assert(t.take(0) =~= Seq::<Option<Entry>>::empty());
            assert(arm@ =~= arm_seq(t.take(0)));
        }
        while i < n
            invariant
                t == self.table@,
                n == t.len(),
                i <= n,
                arm@ == arm_seq(t.take(i as int)),
            decreases n - i,
        {
            match self.table.get(i) {
                Some(Entry::Listener(_)) => {
                    arm.push(ArmRequest { token: i, read: true, write: false });
                },
                Some(Entry::Conn(c)) => {
                    let want = c.interest();
                    arm.push(ArmRequest { token: i, read: want.read, write: want.write });
                },
                None => {},
            }
            proof {
                assert(t.take(i + 1).drop_last() =~= t.take(i as int));
                assert(t.take(i + 1).last() == t[i as int]);
                assert(arm@ =~= arm_seq(t.take(i + 1)));
            }
            i += 1;
        }
        proof {
            assert(t.take(n as int) =~= t);
        }
        arm
    }

    /// One tick's fixed-point drain, in two explicit passes: collect, then
    /// apply. Accepted connections are admitted first; every complete line
    /// in every read buffer is resolved, in token order; the lines'
    /// newline-terminated concatenation — the tick's payload — is appended
    /// to every live connection's write buffer, newcomers included, each
    /// line exactly once; closable connections are retired, their tokens
    /// freed; and every surviving entry's re-arm request is reported.
    /// Afterwards no read buffer holds a newline, so the drain is quiescent:
    /// a repeated pass would resolve nothing.
    pub fn process(&mut self) -> (out: TickOutcome)
        requires
            old(self).wf(),
        ensures
            final(self).wf(),
            final(self).pending_new == 0,
            final(self).table@.len() >= old(self).table@.len(),
            forall|i: int|
                0 <= i < old(self).table@.len() ==> match #[trigger] old(self).table@[i] {
                    Some(Entry::Listener(_)) => final(self).table@[i] == old(self).table@[i],
                    Some(Entry::Conn(c0)) => if conn_removed(
                        c0,
                        tick_payload(old(self).table@),
                    ) {
                        final(self).table@[i] is None
                    } else {
                        final(self).table@[i] matches Some(Entry::Conn(c1)) && conn_stepped(
                            c0,
                            c1,
                            tick_payload(old(self).table@),
                        )
                    },
                    None => final(self).table@[i] is None || (final(self).table@[i] matches Some(
                        Entry::Conn(c),
                    ) && conn_fresh(c, tick_payload(old(self).table@)) && out.new_tokens@.contains(
                        i as usize,
                    )),
                },
            forall|i: int|
                old(self).table@.len() <= i < final(self).table@.len() ==> ((#[trigger] final(self).table@[i]) matches Some(Entry::Conn(c)) && conn_fresh(
                    c,
                    tick_payload(old(self).table@),
                ) && out.new_tokens@.contains(i as usize)),
            out.new_tokens@.len() == old(self).pending_new,
            out.new_tokens@.no_duplicates(),
            forall|k: int|
                0 <= k < out.new_tokens@.len() ==> (#[trigger] out.new_tokens@[k]) < final(self).table@.len() && (out.new_tokens@[k] >= old(self).table@.len() || old(self).table@[out.new_tokens@[k] as int] is None) && (final(self).table@[out.new_tokens@[k] as int] matches Some(Entry::Conn(c)) && conn_fresh(
                    c,
                    tick_payload(old(self).table@),
                )),
            out.closed@ == closed_seq(old(self).table@, tick_payload(old(self).table@)),
            out.arm@ == arm_seq(final(self).table@),
            forall|i: int|
                0 <= i < final(self).table@.len() ==> ((#[trigger] final(self).table@[i]) matches
                    Some(Entry::Conn(c)) ==> !has_nl(c.read_buf@)),
    {
        let ghost t0 = self.table@;
        let new_tokens = self.admit_pending();
        let ghost ta = self.table@;
        let all_lines = self.collect_lines();
        let ghost tb = self.table@;
        proof {
            lemma_tick_lines_blank_extension(t0, ta);
            assert(all_lines.deep_view() == tick_lines(t0));
        }
        let payload = wire_bytes(&all_lines);
        let ghost p = payload@;
        proof {
            assert(p == tick_payload(t0));
        }
        self.broadcast_all(payload.as_slice());
        let ghost tc = self.table@;
        proof {
            crate::framer::lemma_framing_empty();
            assert forall|i: int|
                0 <= i < t0.len() implies match #[trigger] t0[i] {
                Some(Entry::Listener(_)) => tc[i] == t0[i],
                Some(Entry::Conn(c0)) => tc[i] matches Some(Entry::Conn(c1)) && conn_stepped(
                    c0,
                    c1,
                    p,
                ),
                None => tc[i] is None || (tc[i] matches Some(Entry::Conn(c)) && conn_fresh(c, p)),
            } by {
                match t0[i] {
                    Some(Entry::Listener(_)) => {
                        assert(ta[i] == t0[i]);
                        assert(tb[i] == ta[i]);
                        assert(tc[i] == tb[i]);
                    },
                    Some(Entry::Conn(c0)) => {
                        assert(ta[i] == t0[i]);
                        match tb[i] {
                            Some(Entry::Conn(c1)) => {
                                assert(conn_framed(c0, c1));
                                match tc[i] {
                                    Some(Entry::Conn(c2)) => {
                                        assert(c2.write_buf@ == c1.write_buf@ + p);
                                        assert(conn_stepped(c0, c2, p));
                                    },
                                    _ => {
                                        assert(false);
                                    },
                                }
                            },
                            _ => {
                                assert(false);
                            },
                        }
                    },
                    None => {
                        if ta[i] is None {
                            assert(tb[i] is None);
                            assert(tc[i] is None);
                        } else {
                            match ta[i] {
                                Some(Entry::Conn(cb)) => {
                                    assert(conn_blank(cb));
                                    match tb[i] {
                                        Some(Entry::Conn(c1)) => {
                                            assert(conn_framed(cb, c1));
                                            assert(c1.read_buf@ == remainder_of(cb.read_buf@));
                                            assert(c1.read_buf@ =~= Seq::<u8>::empty());
                                            match tc[i] {
                                                Some(Entry::Conn(c2)) => {
                                                    assert(c2.write_buf@ == c1.write_buf@ + p);
                                                    assert(c2.write_buf@ =~= p);
                                                    assert(conn_fresh(c2, p));
                                                },
                                                _ => {
                                                    assert(false);
                                                },
                                            }
                                        },
                                        _ => {
                                            assert(false);
                                        },
                                    }
                                },
                                _ => {
                                    assert(false);
                                },
                            }
                        }
                    },
                }
            }
            assert forall|i: int|
                t0.len() <= i < tc.len() implies ((#[trigger] tc[i]) matches Some(Entry::Conn(c))
                && conn_fresh(c, p)) by {
                match ta[i] {
                    Some(Entry::Conn(cb)) => {
                        assert(conn_blank(cb));
                        match tb[i] {
                            Some(Entry::Conn(c1)) => {
                                assert(conn_framed(cb, c1));
                                assert(c1.read_buf@ =~= Seq::<u8>::empty());
                                match tc[i] {
                                    Some(Entry::Conn(c2)) => {
                                        assert(c2.write_buf@ == c1.write_buf@ + p);
                                        assert(c2.write_buf@ =~= p);
                                        assert(conn_fresh(c2, p));
                                    },
                                    _ => {
                                        assert(false);
                                    },
                                }
                            },
                            _ => {
                                assert(false);
                            },
                        }
                    },
                    _ => {
                        assert(false);
                    },
                }
            }
            lemma_swept_matches_closed(t0, tc, p);
        }
        let closed = self.sweep_closed();
        let arm = self.arm_all();
        let ghost td = self.table@;
        proof {
            assert forall|i: int|
                0 <= i < t0.len() implies match #[trigger] t0[i] {
                Some(Entry::Listener(_)) => td[i] == t0[i],
                Some(Entry::Conn(c0)) => if conn_removed(c0, p) {
                    td[i] is None
                } else {
                    td[i] matches Some(Entry::Conn(c1)) && conn_stepped(c0, c1, p)
                },
                None => td[i] is None || (td[i] matches Some(Entry::Conn(c)) && conn_fresh(c, p)
                    && new_tokens@.contains(i as usize)),
            } by {
                match t0[i] {
                    Some(Entry::Listener(_)) => {
                        assert(tc[i] == t0[i]);
                        assert(td[i] == tc[i]);
                    },
                    Some(Entry::Conn(c0)) => {
                        match tc[i] {
                            Some(Entry::Conn(c2)) => {
                                assert(conn_stepped(c0, c2, p));
                                assert(c2.closable() == conn_removed(c0, p));
                                if c2.closable() {
                                    assert(td[i] is None);
                                } else {
                                    assert(td[i] == tc[i]);
                                }
                            },
                            _ => {
                                assert(false);
                            },
                        }
                    },
                    None => {
                        if ta[i] is None {
                            assert(tc[i] is None);
                            assert(td[i] is None);
                        } else {
                            match tc[i] {
                                Some(Entry::Conn(c2)) => {
                                    assert(conn_fresh(c2, p));
                                    assert(!c2.closable());
                                    assert(td[i] == tc[i]);
                                    assert(ta[i] is Some);
                                    assert(new_tokens@.contains(i as usize));
                                },
                                _ => {
                                    assert(false);
                                },
                            }
                        }
                    },
                }
            }
            assert forall|i: int|
                t0.len() <= i < td.len() implies ((#[trigger] td[i]) matches Some(Entry::Conn(c))
                && conn_fresh(c, p) && new_tokens@.contains(i as usize)) by {
                match tc[i] {
                    Some(Entry::Conn(c2)) => {
                        assert(conn_fresh(c2, p));
                        assert(!c2.closable());
                        assert(td[i] == tc[i]);
                        assert(ta[i] is Some);
                        assert(new_tokens@.contains(i as usize));
                    },
                    _ => {
                        assert(false);
                    },
                }
            }
            assert forall|i: int|
                0 <= i < td.len() implies ((#[trigger] td[i]) matches Some(Entry::Conn(c))
                ==> !has_nl(c.read_buf@)) by {
                match td[i] {
                    Some(Entry::Conn(c)) => {
                        assert(td[i] == tc[i]);
                        if i < t0.len() {
                            match t0[i] {
                                Some(Entry::Conn(c0)) => {
                                    assert(c.read_buf@ == remainder_of(c0.read_buf@));
                                    crate::framer::lemma_remainder_no_nl(c0.read_buf@);
                                },
                                _ => {
                                    assert(c.read_buf@ =~= Seq::<u8>::empty());
                                },
                            }
                        } else {
                            assert(c.read_buf@ =~= Seq::<u8>::empty());
                        }
                        assert(!has_nl(c.read_buf@));
                    },
                    _ => {},
                }
            }
        }
        TickOutcome { new_tokens, closed, arm }
    }

    /// One tick of the key/value variant: instead of fanning lines out,
    /// every framed line leaves the tick as a command carrying its source
    /// token, in emission order, for the application model — inline or on a
    /// worker. Admission, retirement and re-arming work as in a broadcast
    /// tick; write buffers change only through directed replies, delivered
    /// later via `deliver_reply`.
    pub fn process_commands(&mut self) -> (out: KvTickOutcome)
        requires
            old(self).wf(),
        ensures
            final(self).wf(),
            final(self).pending_new == 0,
            final(self).table@.len() >= old(self).table@.len(),
            msgs_view(out.commands@) == tick_commands(old(self).table@),
            forall|i: int|
                0 <= i < old(self).table@.len() ==> match #[trigger] old(self).table@[i] {
                    Some(Entry::Listener(_)) => final(self).table@[i] == old(self).table@[i],
                    Some(Entry::Conn(c0)) => if c0.closable() {
                        final(self).table@[i] is None
                    } else {
                        final(self).table@[i] matches Some(Entry::Conn(c1)) && conn_framed(c0, c1)
                    },
                    None => final(self).table@[i] is None || (final(self).table@[i] matches Some(
                        Entry::Conn(c),
                    ) && conn_blank(c) && out.new_tokens@.contains(i as usize)),
                },
            forall|i: int|
                old(self).table@.len() <= i < final(self).table@.len() ==> ((#[trigger] final(self).table@[i]) matches Some(Entry::Conn(c)) && conn_blank(c)
                    && out.new_tokens@.contains(i as usize)),
            out.new_tokens@.len() == old(self).pending_new,
            out.new_tokens@.no_duplicates(),
            forall|k: int|
                0 <= k < out.new_tokens@.len() ==> (#[trigger] out.new_tokens@[k]) < final(self).table@.len() && (out.new_tokens@[k] >= old(self).table@.len() || old(self).table@[out.new_tokens@[k] as int] is None) && (final(self).table@[out.new_tokens@[k] as int] matches Some(Entry::Conn(c)) && conn_blank(c)),
            out.closed@ == closed_seq(old(self).table@, Seq::<u8>::empty()),
            out.arm@ == arm_seq(final(self).table@),
            forall|i: int|
                0 <= i < final(self).table@.len() ==> ((#[trigger] final(self).table@[i]) matches
                    Some(Entry::Conn(c)) ==> !has_nl(c.read_buf@)),
    {
        let ghost t0 = self.table@;
        let new_tokens = self.admit_pending();
        let ghost ta = self.table@;
        let commands = self.collect_commands();
        let ghost tb = self.table@;
        proof {
            lemma_tick_commands_blank_extension(t0, ta);
            assert(msgs_view(commands@) == tick_commands(t0));
            crate::framer::lemma_framing_empty();
            assert forall|i: int|
                0 <= i < t0.len() implies match #[trigger] t0[i] {
                Some(Entry::Listener(_)) => tb[i] == t0[i],
                Some(Entry::Conn(c0)) => tb[i] matches Some(Entry::Conn(c1)) && conn_stepped(
                    c0,
                    c1,
                    Seq::<u8>::empty(),
                ),
                None => tb[i] is None || (tb[i] matches Some(Entry::Conn(c)) && conn_fresh(
                    c,
                    Seq::<u8>::empty(),
                )),
            } by {
                match t0[i] {
                    Some(Entry::Listener(_)) => {
                        assert(ta[i] == t0[i]);
                        assert(tb[i] == ta[i]);
                    },
                    Some(Entry::Conn(c0)) => {
                        assert(ta[i] == t0[i]);
                        match tb[i] {
                            Some(Entry::Conn(c1)) => {
                                assert(conn_framed(c0, c1));
                                assert(c1.write_buf@ =~= c0.write_buf@ + Seq::<u8>::empty());
                                assert(conn_stepped(c0, c1, Seq::<u8>::empty()));
                            },
                            _ => {
                                assert(false);
                            },
                        }
                    },
                    None => {
                        if ta[i] is None {
                            assert(tb[i] is None);
                        } else {
                            match ta[i] {
                                Some(Entry::Conn(cb)) => {
                                    assert(conn_blank(cb));
                                    match tb[i] {
                                        Some(Entry::Conn(c1)) => {
                                            assert(conn_framed(cb, c1));
                                            assert(c1.read_buf@ =~= Seq::<u8>::empty());
                                            assert(c1.write_buf@ =~= Seq::<u8>::empty());
                                            assert(conn_fresh(c1, Seq::<u8>::empty()));
                                        },
                                        _ => {
                                            assert(false);
                                        },
                                    }
                                },
                                _ => {
                                    assert(false);
                                },
                            }
                        }
                    },
                }
            }
            assert forall|i: int|
                t0.len() <= i < tb.len() implies ((#[trigger] tb[i]) matches Some(Entry::Conn(c))
                && conn_fresh(c, Seq::<u8>::empty())) by {
                match ta[i] {
                    Some(Entry::Conn(cb)) => {
                        assert(conn_blank(cb));
                        match tb[i] {
                            Some(Entry::Conn(c1)) => {
                                assert(conn_framed(cb, c1));
                                assert(c1.read_buf@ =~= Seq::<u8>::empty());
                                assert(c1.write_buf@ =~= Seq::<u8>::empty());
                                assert(conn_fresh(c1, Seq::<u8>::empty()));
                            },
                            _ => {
                                assert(false);
                            },
                        }
                    },
                    _ => {
                        assert(false);
                    },
                }
            }
            lemma_swept_matches_closed(t0, tb, Seq::<u8>::empty());
        }
        let closed = self.sweep_closed();
        let arm = self.arm_all();
        let ghost td = self.table@;
        proof {
            assert forall|i: int|
                0 <= i < t0.len() implies match #[trigger] t0[i] {
                Some(Entry::Listener(_)) => td[i] == t0[i],
                Some(Entry::Conn(c0)) => if c0.closable() {
                    td[i] is None
                } else {
                    td[i] matches Some(Entry::Conn(c1)) && conn_framed(c0, c1)
                },
                None => td[i] is None || (td[i] matches Some(Entry::Conn(c)) && conn_blank(c)
                    && new_tokens@.contains(i as usize)),
            } by {
                match t0[i] {
                    Some(Entry::Listener(_)) => {
                        assert(tb[i] == t0[i]);
                        assert(td[i] == tb[i]);
                    },
                    Some(Entry::Conn(c0)) => {
                        match tb[i] {
                            Some(Entry::Conn(c1)) => {
                                assert(conn_framed(c0, c1));
                                assert(c1.closable() == c0.closable());
                                if c1.closable() {
                                    assert(td[i] is None);
                                } else {
                                    assert(td[i] == tb[i]);
                                }
                            },
                            _ => {
                                assert(false);
                            },
                        }
                    },
                    None => {
                        if ta[i] is None {
                            assert(tb[i] is None);
                            assert(td[i] is None);
                        } else {
                            match tb[i] {
                                Some(Entry::Conn(c1)) => {
                                    assert(conn_fresh(c1, Seq::<u8>::empty()));
                                    assert(!c1.closable());
                                    assert(td[i] == tb[i]);
                                    assert(conn_blank(c1));
                                    assert(ta[i] is Some);
                                    assert(new_tokens@.contains(i as usize));
                                },
                                _ => {
                                    assert(false);
                                },
                            }
                        }
                    },
                }
            }
            assert forall|i: int|
                t0.len() <= i < td.len() implies ((#[trigger] td[i]) matches Some(Entry::Conn(c))
                && conn_blank(c) && new_tokens@.contains(i as usize)) by {
                match tb[i] {
                    Some(Entry::Conn(c1)) => {
                        assert(conn_fresh(c1, Seq::<u8>::empty()));
                        assert(!c1.closable());
                        assert(td[i] == tb[i]);
                        assert(conn_blank(c1));
                        assert(ta[i] is Some);
                        assert(new_tokens@.contains(i as usize));
                    },
                    _ => {
                        assert(false);
                    },
                }
            }
            assert forall|i: int|
                0 <= i < td.len() implies ((#[trigger] td[i]) matches Some(Entry::Conn(c))
                ==> !has_nl(c.read_buf@)) by {
                match td[i] {
                    Some(Entry::Conn(c)) => {
                        assert(td[i] == tb[i]);
                        if i < t0.len() {
                            match t0[i] {
                                Some(Entry::Conn(c0)) => {
                                    assert(c.read_buf@ == remainder_of(c0.read_buf@));
                                    crate::framer::lemma_remainder_no_nl(c0.read_buf@);
                                },
                                _ => {
                                    assert(c.read_buf@ =~= Seq::<u8>::empty());
                                },
                            }
                        } else {
                            assert(c.read_buf@ =~= Seq::<u8>::empty());
                        }
                        assert(!has_nl(c.read_buf@));
                    },
                    _ => {},
                }
            }
        }
        KvTickOutcome { commands, new_tokens, closed, arm }
    }

    /// Queues a directed reply line on exactly the requesting token's
    /// connection: no other entry moves. This is the delivery path of the
    /// key/value variant, where a reply must never fan out.
    pub fn deliver_reply(&mut self, token: usize, line: &[u8])
        requires
            old(self).wf(),
            token < old(self).table@.len(),
            old(self).table@[token as int] matches Some(Entry::Conn(_)),
        ensures
            final(self).wf(),
            final(self).pending_new == old(self).pending_new,
            same_except(old(self).table@, final(self).table@, token as int),
            old(self).table@[token as int] matches Some(Entry::Conn(c0)) ==> final(self).table@[token as int] matches Some(Entry::Conn(c1)) && c1.write_buf@ == c0.write_buf@
                + line@ + seq![nl()] && c1.read_buf == c0.read_buf && c1.read_eof == c0.read_eof
                && c1.failed == c0.failed && c1.want_read == c0.want_read && c1.want_write
                == c0.want_write,
    {
        let slot = &mut self.table.slots[token];
        match slot {
            Some(Entry::Conn(c)) => {
                c.enqueue(line);
            },
            _ => {},
        }
        proof {
            crate::table::lemma_wf_entries_updated(old(self).table, self.table);
        }
    }
}

} // verus!
