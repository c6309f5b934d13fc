use sozu_master::channel::Channel;

#[test]
fn frames_round_trip_through_the_buffers() {
    let mut sender = Channel::new(1024);
    assert!(sender.write_message(&b"{\"id\":\"r1\"}".to_vec()));
    assert!(sender.write_message(&b"{\"id\":\"r2\"}".to_vec()));
    let wire = sender.drain_send();
    assert!(sender.drain_send().is_empty());

    let mut receiver = Channel::new(1024);
    receiver.receive(&wire);
    assert_eq!(receiver.read_message().unwrap(), b"{\"id\":\"r1\"}".to_vec());
    assert_eq!(receiver.read_message().unwrap(), b"{\"id\":\"r2\"}".to_vec());
    assert!(receiver.read_message().is_none());
}

#[test]
fn an_incomplete_frame_stays_buffered() {
    let mut receiver = Channel::new(1024);
    receiver.receive(&b"{\"id\":\"r1\"".to_vec());
    assert!(receiver.read_message().is_none());
    receiver.receive(&b"}\n\0".to_vec());
    assert_eq!(receiver.read_message().unwrap(), b"{\"id\":\"r1\"}".to_vec());
}

#[test]
fn a_lone_newline_is_not_a_terminator() {
    let mut receiver = Channel::new(1024);
    receiver.receive(&b"a\nb\n\0rest".to_vec());
    assert_eq!(receiver.read_message().unwrap(), b"a\nb".to_vec());
    assert!(receiver.read_message().is_none());
}

#[test]
fn back_pressure_refuses_an_overfull_write() {
    let mut sender = Channel::new(8);
    assert!(sender.write_message(&b"123456".to_vec()));
    assert!(!sender.write_message(&b"x".to_vec()));
    // the refused frame left the buffer untouched
    assert_eq!(sender.drain_send(), b"123456\n\0".to_vec());
}

#[test]
fn blocking_mode_is_a_plain_switch() {
    let mut ch = Channel::new(16);
    assert!(!ch.blocking);
    ch.set_blocking(true);
    assert!(ch.blocking);
    ch.set_blocking(false);
    assert!(!ch.blocking);
}
