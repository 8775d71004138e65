use michat::conn::ReadOutcome;
use michat::model::{next_backoff_ms, parse_command, Model, ModelCommand, Reply, ReplyGate};
use michat::reactor::MiChat;

/// Routes one tick's commands through the model inline and delivers any
/// replies to their requesting tokens.
fn drive(svc: &mut MiChat, m: &mut Model, commands: Vec<michat::reactor::CommandMsg>) {
    for msg in commands {
        let cmd = parse_command(&msg.line, msg.from);
        if let Some(rep) = m.apply(cmd) {
            svc.deliver_reply(rep.token, &rep.line);
        }
    }
}

#[test]
fn empty_line_reads_nonempty_line_stores() {
    assert!(matches!(parse_command(b"", 5), ModelCommand::Get(5)));
    match parse_command(b"hello", 5) {
        ModelCommand::SetValue(v) => assert_eq!(v, b"hello".to_vec()),
        _ => panic!("a non-empty line must store"),
    }
}

#[test]
fn set_stores_and_get_replies_to_requester_only() {
    let mut m = Model::new();
    let r = m.apply(ModelCommand::SetValue(b"v1".to_vec()));
    assert!(r.is_none());
    assert_eq!(m.value, b"v1".to_vec());
    let r = m.apply(ModelCommand::Get(7)).expect("a get must reply");
    assert_eq!(r.token, 7);
    assert_eq!(r.line, b"v1".to_vec());
    // The get changed nothing: another requester sees the same value.
    let r = m.apply(ModelCommand::Get(9)).expect("a get must reply");
    assert_eq!(r.token, 9);
    assert_eq!(r.line, b"v1".to_vec());
    assert_eq!(m.value, b"v1".to_vec());
}

#[test]
fn value_text_decodes_utf8() {
    let mut m = Model::new();
    m.apply(ModelCommand::SetValue(b"hello".to_vec()));
    assert_eq!(m.value_text(), "hello");
}

#[test]
fn value_text_never_fails_on_invalid_bytes() {
    let mut m = Model::new();
    m.apply(ModelCommand::SetValue(vec![0xff, 0xfe]));
    assert_eq!(m.value_text(), "\u{FFFD}\u{FFFD}");
}

#[test]
fn kv_set_then_get_replies_to_requester_only() {
    let mut svc = MiChat::new();
    let _ltok = svc.listen();
    svc.note_accepted();
    svc.note_accepted();
    let out = svc.process_commands();
    assert_eq!(out.new_tokens.len(), 2);
    let (a, b) = (out.new_tokens[0], out.new_tokens[1]);
    let mut m = Model::new();
    // A stores a value: a command, no reply, no fan-out.
    svc.apply_read(a, ReadOutcome::Data(b"v1\n".to_vec()));
    let out = svc.process_commands();
    assert_eq!(out.commands.len(), 1);
    assert_eq!(out.commands[0].from, a);
    assert_eq!(out.commands[0].line, b"v1".to_vec());
    drive(&mut svc, &mut m, out.commands);
    assert!(svc.write_data(a).is_empty());
    assert!(svc.write_data(b).is_empty());
    // B asks with an empty line: the reply reaches B and only B.
    svc.apply_read(b, ReadOutcome::Data(b"\n".to_vec()));
    let out = svc.process_commands();
    drive(&mut svc, &mut m, out.commands);
    assert!(svc.write_data(a).is_empty());
    assert_eq!(svc.write_data(b), b"v1\n".to_vec());
}

#[test]
fn kv_commands_apply_in_emission_order() {
    let mut svc = MiChat::new();
    let _ltok = svc.listen();
    svc.note_accepted();
    let out = svc.process_commands();
    let a = out.new_tokens[0];
    let mut m = Model::new();
    // One read carries a set followed by a get: the get sees the new value.
    svc.apply_read(a, ReadOutcome::Data(b"x\n\n".to_vec()));
    let out = svc.process_commands();
    assert_eq!(out.commands.len(), 2);
    assert_eq!(out.commands[0].line, b"x".to_vec());
    assert_eq!(out.commands[1].line, b"".to_vec());
    drive(&mut svc, &mut m, out.commands);
    assert_eq!(svc.write_data(a), b"x\n".to_vec());
}

#[test]
fn backoff_doubles_to_a_cap() {
    assert_eq!(next_backoff_ms(0), 1);
    assert_eq!(next_backoff_ms(1), 2);
    assert_eq!(next_backoff_ms(2), 4);
    assert_eq!(next_backoff_ms(16), 32);
    assert_eq!(next_backoff_ms(32), 64);
    assert_eq!(next_backoff_ms(64), 64);
    assert_eq!(next_backoff_ms(1000), 64);
}

#[test]
fn saturated_channel_keeps_the_reply_until_delivered() {
    let mut gate = ReplyGate::new();
    assert!(!gate.has_pending());
    gate.submit(Reply { token: 3, line: b"v1".to_vec() });
    // Two send attempts find the channel full: the reply stays pending,
    // unchanged — back-pressure, not loss.
    gate.on_send_attempt(false);
    assert!(gate.has_pending());
    gate.on_send_attempt(false);
    assert!(gate.has_pending());
    match gate.pending_reply() {
        Some(r) => {
            assert_eq!(r.token, 3);
            assert_eq!(r.line, b"v1".to_vec());
        },
        None => panic!("the reply must still be pending"),
    }
    // Capacity frees up: the reply goes out and the slot empties.
    gate.on_send_attempt(true);
    assert!(!gate.has_pending());
    // A later attempt delivers nothing twice.
    gate.on_send_attempt(true);
    assert!(!gate.has_pending());
}
