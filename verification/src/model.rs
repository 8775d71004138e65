//! The key/value application model and its back-pressured reply path.
//!
//! In this variant an empty line asks for the current value and a non-empty
//! line stores one; a reply goes to exactly the requesting token, never to
//! anyone else. When the model runs on a worker decoupled from the reactor,
//! the reply travels back over a bounded channel: a full channel keeps the
//! reply pending and the send is retried — back-pressure delays delivery but
//! never drops it.

use vstd::prelude::*;
use vstd::slice::slice_to_vec;

verus! {

/// A command routed to the model, parsed from one framed line.
pub enum ModelCommand {
    /// Store the line as the current value.
    SetValue(Vec<u8>),
    /// Reply with the current value to the requesting token.
    Get(usize),
}

/// A directed reply: the value to deliver and the one token it belongs to.
#[derive(Clone)]
pub struct Reply {
    pub token: usize,
    pub line: Vec<u8>,
}

/// What a line means: an empty line reads the current value, any other line
/// stores itself as the new value.
pub fn parse_command(line: &[u8], from: usize) -> (cmd: ModelCommand)
    ensures
        line@.len() == 0 ==> cmd == ModelCommand::Get(from),
        line@.len() > 0 ==> (cmd matches ModelCommand::SetValue(v) && v@ == line@),
{
    if line.len() == 0 {
        ModelCommand::Get(from)
    } else {
        ModelCommand::SetValue(slice_to_vec(line))
    }
}

/// What `decode_lossy` returns for the given bytes: the result depends on
/// the bytes alone.
pub uninterp spec fn lossy_text(b: Seq<u8>) -> Seq<char>;

/// Relies on String::from_utf8_lossy: decodes bytes as UTF-8, replacing
/// invalid sequences with the replacement character, so decoding never
/// fails; empty input decodes to the empty string.
#[verifier::external_body]
fn decode_lossy(b: &[u8]) -> (s: String)
    ensures
        s@ == lossy_text(b@),
        b@.len() == 0 ==> s@.len() == 0,
{
    String::from_utf8_lossy(b).into_owned()
}

/// The model itself: a single mutable value.
pub struct Model {
    pub value: Vec<u8>,
}

impl Model {
    /// A model holding the empty value.
    pub fn new() -> (m: Model)
        ensures
            m.value@ == Seq::<u8>::empty(),
    {
        Model { value: Vec::new() }
    }

    /// Applies one command. A set stores the line and answers nothing; a get
    /// leaves the value untouched and produces a reply carrying the current
    /// value, directed to exactly the requesting token — it never affects
    /// any other requester's state or reply.
    pub fn apply(&mut self, cmd: ModelCommand) -> (r: Option<Reply>)
        ensures
            match cmd {
                ModelCommand::SetValue(v) => final(self).value@ == v@ && r is None,
                ModelCommand::Get(tok) => final(self).value == old(self).value && (r matches Some(
                    rep,
                ) && rep.token == tok && rep.line@ == old(self).value@),
            },
    {
        match cmd {
            ModelCommand::SetValue(v) => {
                self.value = v;
                None
            },
            ModelCommand::Get(tok) => {
                let line = self.value.clone();
                proof {
                    assert(line@ =~= self.value@);
                }
                Some(Reply { token: tok, line })
            },
        }
    }

    /// The current value as text, decoded leniently; see `decode_lossy`.
    pub fn value_text(&self) -> (s: String)
        ensures
            s@ == lossy_text(self.value@),
    {
        decode_lossy(self.value.as_slice())
    }
}

/// What one send attempt leaves pending: acceptance clears the slot, a full
/// channel keeps the reply for the next attempt.
pub open spec fn gate_step(pending: Option<Reply>, accepted: bool) -> Option<Reply> {
    if accepted {
        None
    } else {
        pending
    }
}

/// What a run of send attempts leaves pending.
pub open spec fn gate_after(pending: Option<Reply>, outcomes: Seq<bool>) -> Option<Reply>
    decreases outcomes.len(),
{
    if outcomes.len() == 0 {
        pending
    } else {
        gate_after(gate_step(pending, outcomes[0]), outcomes.skip(1))
    }
}

/// The replies a run of send attempts delivers, in order.
pub open spec fn gate_delivered(pending: Option<Reply>, outcomes: Seq<bool>) -> Seq<Reply>
    decreases outcomes.len(),
{
    if outcomes.len() == 0 {
        Seq::empty()
    } else {
        (if outcomes[0] {
            match pending {
                Some(r) => seq![r],
                None => Seq::empty(),
            }
        } else {
            Seq::empty()
        }) + gate_delivered(gate_step(pending, outcomes[0]), outcomes.skip(1))
    }
}

/// The reply slot between the model's worker and the reactor: at most one
/// reply in flight, held until the bounded channel accepts it.
pub struct ReplyGate {
    pub pending: Option<Reply>,
}

impl ReplyGate {
    /// An empty slot.
    pub fn new() -> (g: ReplyGate)
        ensures
            g.pending is None,
    {
        ReplyGate { pending: None }
    }

    /// Accepts a reply for delivery; only one may be in flight at a time.
    pub fn submit(&mut self, r: Reply)
        requires
            old(self).pending is None,
        ensures
            final(self).pending == Some(r),
    {
        self.pending = Some(r);
    }

    /// Whether a send attempt is due.
    pub fn has_pending(&self) -> (b: bool)
        ensures
            b == (self.pending is Some),
    {
        match &self.pending {
            Some(_) => true,
            None => false,
        }
    }

    /// The reply to offer the channel, if one is pending.
    pub fn pending_reply(&self) -> (r: &Option<Reply>)
        ensures
            *r == self.pending,
    {
        &self.pending
    }

    /// Records the outcome of one bounded-channel send attempt: acceptance
    /// clears the slot; a full channel keeps the reply pending, to be
    /// retried after a backoff — deliberate back-pressure, not a failure.
    pub fn on_send_attempt(&mut self, accepted: bool)
        ensures
            final(self).pending == gate_step(old(self).pending, accepted),
    {
        if accepted {
            self.pending = None;
        }
    }
}

/// The retry delay that follows one more full-channel send attempt:
/// doubling from one millisecond up to a fixed cap. Back-pressure backs off
/// but never gives up.
pub open spec fn backoff_spec(cur_ms: u64) -> u64 {
    if cur_ms == 0 {
        1u64
    } else if cur_ms >= 32 {
        64u64
    } else {
        (2 * cur_ms) as u64
    }
}

/// Computes the next retry delay; see `backoff_spec`. The driver sleeps
/// this long after a full-channel send attempt before retrying.
pub fn next_backoff_ms(cur_ms: u64) -> (next_ms: u64)
    ensures
        next_ms == backoff_spec(cur_ms),
{
    if cur_ms == 0 {
        1
    } else if cur_ms >= 32 {
        64
    } else {
        2 * cur_ms
    }
}

/// From an empty slot a run of send attempts delivers nothing and leaves
/// nothing pending.
pub proof fn lemma_gate_idle(outcomes: Seq<bool>)
    ensures
        gate_delivered(None, outcomes) == Seq::<Reply>::empty(),
        gate_after(None, outcomes) is None,
    decreases outcomes.len(),
{
    if outcomes.len() > 0 {
        lemma_gate_idle(outcomes.skip(1));
        assert(gate_delivered(None, outcomes) =~= Seq::<Reply>::empty());
    }
}

/// Back-pressure never drops a reply: over any run of send attempts, a
/// pending reply is delivered exactly once — unchanged — as soon as some
/// attempt is accepted, and is still pending, unchanged, if none was. A
/// saturated channel only delays delivery.
pub proof fn lemma_backpressure_delivery(r: Reply, outcomes: Seq<bool>)
    ensures
        outcomes.contains(true) ==> gate_delivered(Some(r), outcomes) == seq![r] && gate_after(
            Some(r),
            outcomes,
        ) is None,
        !outcomes.contains(true) ==> gate_delivered(Some(r), outcomes) == Seq::<Reply>::empty()
            && gate_after(Some(r), outcomes) == Some(r),
    decreases outcomes.len(),
{
    if outcomes.len() == 0 {
        assert(!outcomes.contains(true));
        assert(gate_delivered(Some(r), outcomes) =~= Seq::<Reply>::empty());
    } else {
        assert(outcomes.contains(true) <==> (outcomes[0] || outcomes.skip(1).contains(true))) by {
            if outcomes.contains(true) {
                let i = choose|i: int| 0 <= i < outcomes.len() && outcomes[i] == true;
                if i > 0 {
                    assert(outcomes.skip(1)[i - 1] == true);
                    assert(outcomes.skip(1).contains(true));
                }
            }
            if outcomes[0] {
                assert(outcomes.contains(true));
            }
            if outcomes.skip(1).contains(true) {
                let i = choose|i: int|
                    0 <= i < outcomes.skip(1).len() && outcomes.skip(1)[i] == true;
                assert(outcomes[i + 1] == true);
                assert(outcomes.contains(true));
            }
        }
        if outcomes[0] {
            lemma_gate_idle(outcomes.skip(1));
            assert(gate_delivered(Some(r), outcomes) =~= seq![r]);
        } else {
            lemma_backpressure_delivery(r, outcomes.skip(1));
            if outcomes.skip(1).contains(true) {
                assert(gate_delivered(Some(r), outcomes) =~= seq![r]);
            } else {
                assert(gate_delivered(Some(r), outcomes) =~= Seq::<Reply>::empty());
            }
        }
    }
}

} // verus!
