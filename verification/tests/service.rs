use michat::conn::{ReadOutcome, WriteOutcome};
use michat::reactor::{ArmRequest, MiChat, TickOutcome};

fn arm_for(out: &TickOutcome, token: usize) -> &ArmRequest {
    for req in out.arm.iter() {
        if req.token == token {
            return req;
        }
    }
    panic!("token {} was not re-armed", token);
}

fn three_clients() -> (MiChat, usize, usize, usize, usize) {
    let mut svc = MiChat::new();
    let ltok = svc.listen();
    svc.note_accepted();
    svc.note_accepted();
    svc.note_accepted();
    let out = svc.process();
    assert_eq!(out.new_tokens.len(), 3);
    let (a, b, c) = (out.new_tokens[0], out.new_tokens[1], out.new_tokens[2]);
    (svc, ltok, a, b, c)
}

#[test]
fn broadcast_reaches_everyone_exactly_once() {
    let (mut svc, _ltok, a, b, c) = three_clients();
    svc.ready(a, true, false);
    assert!(svc.wants_read(a));
    svc.apply_read(a, ReadOutcome::Data(b"hi\n".to_vec()));
    assert!(!svc.wants_read(a));
    let out = svc.process();
    assert!(out.closed.is_empty());
    // Every client, the sender included, receives the line exactly once.
    for tok in [a, b, c] {
        assert_eq!(svc.write_data(tok), b"hi\n".to_vec());
    }
}

#[test]
fn rearm_read_only_with_empty_buffer_write_when_queued() {
    let (mut svc, ltok, a, b, _c) = three_clients();
    svc.ready(a, true, false);
    svc.apply_read(a, ReadOutcome::Data(b"hi\n".to_vec()));
    let out = svc.process();
    // The listener always re-arms read-only.
    let l = arm_for(&out, ltok);
    assert!(l.read && !l.write);
    // Everyone holds the broadcast, so write interest is set everywhere.
    let req = arm_for(&out, b);
    assert!(req.read && req.write);
    // Drain one client: its next re-arm is read-only again.
    svc.ready(b, false, true);
    assert!(svc.wants_write(b));
    svc.apply_write(b, WriteOutcome::Wrote(3));
    let out = svc.process();
    let req = arm_for(&out, b);
    assert!(req.read && !req.write);
}

#[test]
fn chunked_input_frames_across_reads() {
    let (mut svc, _ltok, a, b, _c) = three_clients();
    svc.apply_read(a, ReadOutcome::Data(b"he".to_vec()));
    let out = svc.process();
    assert!(out.closed.is_empty());
    assert!(svc.write_data(b).is_empty());
    svc.apply_read(a, ReadOutcome::Data(b"llo\nwor".to_vec()));
    svc.process();
    assert_eq!(svc.write_data(b), b"hello\n".to_vec());
    svc.apply_read(a, ReadOutcome::Data(b"ld\n".to_vec()));
    svc.process();
    assert_eq!(svc.write_data(b), b"hello\nworld\n".to_vec());
}

#[test]
fn burst_of_lines_resolves_in_one_tick() {
    let (mut svc, _ltok, a, b, c) = three_clients();
    svc.apply_read(a, ReadOutcome::Data(b"one\ntwo\nthree\n".to_vec()));
    let out = svc.process();
    assert!(out.closed.is_empty());
    for tok in [a, b, c] {
        assert_eq!(svc.write_data(tok), b"one\ntwo\nthree\n".to_vec());
    }
    // The drain reached its fixed point: an immediate further tick moves
    // nothing and closes nothing.
    let out = svc.process();
    assert!(out.closed.is_empty());
    assert!(out.new_tokens.is_empty());
    for tok in [a, b, c] {
        assert_eq!(svc.write_data(tok), b"one\ntwo\nthree\n".to_vec());
    }
}

#[test]
fn eof_with_queued_data_is_not_removed() {
    let (mut svc, _ltok, a, b, _c) = three_clients();
    svc.apply_read(a, ReadOutcome::Data(b"hi\n".to_vec()));
    svc.process();
    // Peer B half-closes while the broadcast still sits in its buffer.
    svc.apply_read(b, ReadOutcome::Eof);
    let out = svc.process();
    assert!(out.closed.is_empty());
    let req = arm_for(&out, b);
    assert!(!req.read && req.write);
    // Once drained, the connection is retired.
    svc.apply_write(b, WriteOutcome::Wrote(3));
    let out = svc.process();
    assert_eq!(out.closed, vec![b]);
    for req in out.arm.iter() {
        assert_ne!(req.token, b);
    }
}

#[test]
fn eof_with_empty_buffer_closes_at_once() {
    let (mut svc, _ltok, a, _b, _c) = three_clients();
    svc.apply_read(a, ReadOutcome::Eof);
    let out = svc.process();
    assert_eq!(out.closed, vec![a]);
}

#[test]
fn failed_connection_is_dropped_even_with_queued_data() {
    let (mut svc, _ltok, a, b, _c) = three_clients();
    svc.apply_read(a, ReadOutcome::Data(b"hi\n".to_vec()));
    svc.process();
    assert_eq!(svc.write_data(b), b"hi\n".to_vec());
    svc.apply_write(b, WriteOutcome::Failed);
    let out = svc.process();
    assert_eq!(out.closed, vec![b]);
}

#[test]
fn partial_write_resumes_byte_for_byte() {
    let (mut svc, _ltok, a, b, _c) = three_clients();
    svc.apply_read(a, ReadOutcome::Data(b"hello\n".to_vec()));
    svc.process();
    svc.ready(b, false, true);
    svc.apply_write(b, WriteOutcome::Wrote(2));
    assert_eq!(svc.write_data(b), b"llo\n".to_vec());
    svc.ready(b, false, true);
    svc.apply_write(b, WriteOutcome::WouldBlock);
    assert_eq!(svc.write_data(b), b"llo\n".to_vec());
    svc.apply_write(b, WriteOutcome::Wrote(4));
    assert!(svc.write_data(b).is_empty());
}

#[test]
fn freed_token_is_reused_for_the_next_client() {
    let (mut svc, _ltok, a, b, _c) = three_clients();
    svc.apply_read(b, ReadOutcome::Eof);
    let out = svc.process();
    assert_eq!(out.closed, vec![b]);
    svc.note_accepted();
    let out = svc.process();
    assert_eq!(out.new_tokens, vec![b]);
    // The newcomer is live again: broadcasts reach it.
    svc.apply_read(a, ReadOutcome::Data(b"yo\n".to_vec()));
    svc.process();
    assert_eq!(svc.write_data(b), b"yo\n".to_vec());
}

#[test]
fn newcomer_admitted_in_the_same_tick_hears_the_broadcast() {
    let (mut svc, _ltok, a, _b, _c) = three_clients();
    svc.note_accepted();
    svc.apply_read(a, ReadOutcome::Data(b"welcome\n".to_vec()));
    let out = svc.process();
    assert_eq!(out.new_tokens.len(), 1);
    let d = out.new_tokens[0];
    assert_eq!(svc.write_data(d), b"welcome\n".to_vec());
}

#[test]
fn listener_accept_bit_is_taken_once() {
    let mut svc = MiChat::new();
    let ltok = svc.listen();
    assert!(!svc.take_accept_ready(ltok));
    svc.ready(ltok, true, false);
    assert!(svc.take_accept_ready(ltok));
    assert!(!svc.take_accept_ready(ltok));
}

#[test]
fn directed_reply_touches_only_the_requester() {
    let (mut svc, _ltok, a, b, c) = three_clients();
    svc.deliver_reply(b, b"value");
    assert!(svc.write_data(a).is_empty());
    assert_eq!(svc.write_data(b), b"value\n".to_vec());
    assert!(svc.write_data(c).is_empty());
}
