use michat::conn::{Connection, ReadOutcome, WriteOutcome};
use michat::table::{Entry, ListenerState, Table};

#[test]
fn fresh_connection_is_idle() {
    let c = Connection::new();
    assert!(c.read_buf.is_empty());
    assert!(c.write_buf.is_empty());
    assert!(!c.read_eof);
    assert!(!c.failed);
    assert!(!c.want_read);
    assert!(!c.want_write);
}

#[test]
fn handle_event_merges_bits() {
    let mut c = Connection::new();
    c.handle_event(true, false);
    assert!(c.want_read);
    assert!(!c.want_write);
    c.handle_event(false, true);
    assert!(c.want_read);
    assert!(c.want_write);
    c.handle_event(false, false);
    assert!(c.want_read);
    assert!(c.want_write);
}

#[test]
fn read_data_appends_and_clears_bit() {
    let mut c = Connection::new();
    c.handle_event(true, false);
    c.handle_read(ReadOutcome::Data(b"he".to_vec()));
    assert!(!c.want_read);
    c.handle_read(ReadOutcome::Data(b"llo".to_vec()));
    assert_eq!(c.read_buf, b"hello".to_vec());
}

#[test]
fn read_eof_is_not_failure() {
    let mut c = Connection::new();
    c.handle_read(ReadOutcome::Eof);
    assert!(c.read_eof);
    assert!(!c.failed);
}

#[test]
fn read_would_block_is_noop() {
    let mut c = Connection::new();
    c.handle_event(true, false);
    c.handle_read(ReadOutcome::WouldBlock);
    assert!(!c.want_read);
    assert!(c.read_buf.is_empty());
    assert!(!c.read_eof);
    assert!(!c.failed);
}

#[test]
fn read_error_marks_failed() {
    let mut c = Connection::new();
    c.handle_read(ReadOutcome::Failed);
    assert!(c.failed);
}

#[test]
fn partial_write_keeps_exact_suffix() {
    let mut c = Connection::new();
    c.enqueue(b"hello");
    assert_eq!(c.write_buf, b"hello\n".to_vec());
    c.handle_write(WriteOutcome::Wrote(2));
    assert_eq!(c.write_buf, b"llo\n".to_vec());
    c.handle_write(WriteOutcome::Wrote(0));
    assert_eq!(c.write_buf, b"llo\n".to_vec());
    c.handle_write(WriteOutcome::Wrote(4));
    assert!(c.write_buf.is_empty());
}

#[test]
fn write_would_block_is_noop() {
    let mut c = Connection::new();
    c.enqueue(b"x");
    c.handle_write(WriteOutcome::WouldBlock);
    assert_eq!(c.write_buf, b"x\n".to_vec());
    assert!(!c.failed);
}

#[test]
fn write_error_marks_failed_and_keeps_buffer() {
    let mut c = Connection::new();
    c.enqueue(b"x");
    c.handle_write(WriteOutcome::Failed);
    assert!(c.failed);
    assert_eq!(c.write_buf, b"x\n".to_vec());
}

#[test]
fn closable_waits_for_drain() {
    let mut c = Connection::new();
    assert!(!c.should_close());
    c.enqueue(b"data");
    c.handle_read(ReadOutcome::Eof);
    // EOF with queued writes: not closable yet.
    assert!(!c.should_close());
    c.handle_write(WriteOutcome::Wrote(5));
    assert!(c.should_close());
}

#[test]
fn failed_connection_is_closable_with_queued_data() {
    let mut c = Connection::new();
    c.enqueue(b"data");
    c.handle_write(WriteOutcome::Failed);
    assert!(c.should_close());
}

#[test]
fn interest_read_only_when_buffer_empty() {
    let c = Connection::new();
    let want = c.interest();
    assert!(want.read);
    assert!(!want.write);
}

#[test]
fn interest_includes_write_when_buffer_nonempty() {
    let mut c = Connection::new();
    c.enqueue(b"hi");
    let want = c.interest();
    assert!(want.read);
    assert!(want.write);
}

#[test]
fn interest_drops_read_after_eof() {
    let mut c = Connection::new();
    c.enqueue(b"hi");
    c.handle_read(ReadOutcome::Eof);
    let want = c.interest();
    assert!(!want.read);
    assert!(want.write);
}

#[test]
fn table_insert_remove_reuses_token() {
    let mut t = Table::new();
    let a = t.insert(Entry::Listener(ListenerState { accept_ready: false }));
    let b = t.insert(Entry::Conn(Connection::new()));
    assert_eq!(a, 0);
    assert_eq!(b, 1);
    assert_eq!(t.len(), 2);
    match t.remove(b) {
        Entry::Conn(_) => {},
        _ => panic!("expected a connection entry"),
    }
    assert!(t.get(b).is_none());
    // The freed slot is reused; the table does not grow.
    let c = t.insert(Entry::Conn(Connection::new()));
    assert_eq!(c, b);
    assert_eq!(t.len(), 2);
}

#[test]
fn table_get_reads_slot() {
    let mut t = Table::new();
    let a = t.insert(Entry::Listener(ListenerState { accept_ready: true }));
    match t.get(a) {
        Some(Entry::Listener(l)) => assert!(l.accept_ready),
        _ => panic!("expected the listener entry"),
    }
}
