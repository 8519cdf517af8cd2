use chat_relay::server::{ChatServer, ReadOutcome};
use chat_relay::BUFFER_SIZE;

fn server_with(ids: &[i32]) -> ChatServer {
    let mut s = ChatServer::new();
    for &id in ids {
        s.add_client(id);
    }
    s
}

fn sorted(mut v: Vec<i32>) -> Vec<i32> {
    v.sort();
    v
}

#[test]
fn one_line_fans_out_to_all_others() {
    let mut s = server_with(&[1, 2, 3]);
    let d = s
        .handle_read_event(1, ReadOutcome::Data(b"hi\n".to_vec()))
        .expect("a completed line must be delivered");
    assert_eq!(d.message, b"hi\n".to_vec());
    assert_eq!(sorted(d.recipients), vec![2, 3]);
}

#[test]
fn sender_never_receives_its_own_line() {
    let mut s = server_with(&[1, 2, 3]);
    let d = s
        .handle_read_event(2, ReadOutcome::Data(b"yo\n".to_vec()))
        .expect("a completed line must be delivered");
    assert!(!d.recipients.contains(&2));
    assert_eq!(sorted(d.recipients), vec![1, 3]);
}

#[test]
fn lone_sender_has_no_recipients() {
    let mut s = server_with(&[7]);
    let d = s
        .handle_read_event(7, ReadOutcome::Data(b"alone\n".to_vec()))
        .expect("a completed line must be delivered");
    assert_eq!(d.message, b"alone\n".to_vec());
    assert!(d.recipients.is_empty());
}

#[test]
fn partial_then_completion_broadcasts_once() {
    let mut s = server_with(&[1, 2]);
    assert!(s
        .handle_read_event(1, ReadOutcome::Data(b"hel".to_vec()))
        .is_none());
    let d = s
        .handle_read_event(1, ReadOutcome::Data(b"lo\n".to_vec()))
        .expect("the joined line must be delivered");
    assert_eq!(d.message, b"hello\n".to_vec());
    assert_eq!(d.recipients, vec![2]);
}

#[test]
fn oversized_line_never_broadcast() {
    let mut s = server_with(&[1, 2]);
    let oversized = vec![b'z'; BUFFER_SIZE];
    assert!(s.handle_read_event(1, ReadOutcome::Data(oversized)).is_none());
    // The buffer was reset: the dropped bytes are not glued onto later input.
    assert_eq!(s.read_capacity(1), BUFFER_SIZE);
    let d = s
        .handle_read_event(1, ReadOutcome::Data(b"ok\n".to_vec()))
        .expect("the fresh line must be delivered");
    assert_eq!(d.message, b"ok\n".to_vec());
}

#[test]
fn two_lines_in_one_read_delivered_in_order() {
    let mut s = server_with(&[1, 2, 3]);
    let d = s
        .handle_read_event(1, ReadOutcome::Data(b"x\ny\n".to_vec()))
        .expect("both lines must be delivered");
    assert_eq!(d.message, b"x\ny\n".to_vec());
    assert_eq!(sorted(d.recipients), vec![2, 3]);
}

#[test]
fn broadcast_lists_peers_regardless_of_their_transport_state() {
    // A peer whose transport has already failed is still owed one write
    // attempt: the fan-out set is decided before any write, and the failing
    // peer is only removed by its own read path, never by the broadcast.
    let mut s = server_with(&[1, 2, 3]);
    let d = s
        .handle_read_event(1, ReadOutcome::Data(b"hi\n".to_vec()))
        .expect("a completed line must be delivered");
    assert_eq!(sorted(d.recipients.clone()), vec![2, 3]);
    assert!(s.contains_client(2));
    assert!(s.contains_client(3));
    // The dead peer leaves when its own read fails.
    assert!(s.handle_read_event(2, ReadOutcome::Failed).is_none());
    assert!(!s.contains_client(2));
    assert!(s.contains_client(3));
}

#[test]
fn closed_read_removes_the_connection() {
    let mut s = server_with(&[1, 2]);
    assert!(s.handle_read_event(1, ReadOutcome::Closed).is_none());
    assert!(!s.contains_client(1));
    assert!(s.contains_client(2));
    assert_eq!(s.client_count(), 1);
}

#[test]
fn failed_read_removes_the_connection() {
    let mut s = server_with(&[1, 2]);
    assert!(s.handle_read_event(2, ReadOutcome::Failed).is_none());
    assert!(!s.contains_client(2));
    assert_eq!(s.client_count(), 1);
}

#[test]
fn would_block_changes_nothing() {
    let mut s = server_with(&[1, 2]);
    assert!(s
        .handle_read_event(1, ReadOutcome::Data(b"par".to_vec()))
        .is_none());
    assert!(s.handle_read_event(1, ReadOutcome::Blocked).is_none());
    assert_eq!(s.client_count(), 2);
    assert_eq!(s.read_capacity(1), BUFFER_SIZE - 3);
}

#[test]
fn removing_twice_is_a_no_op() {
    let mut s = server_with(&[1, 2]);
    s.remove_client(2);
    assert!(!s.contains_client(2));
    assert_eq!(s.client_count(), 1);
    // A second removal — say, from a stale event in the same batch — changes
    // nothing and is not an error.
    s.remove_client(2);
    assert!(!s.contains_client(2));
    assert_eq!(s.client_count(), 1);
    assert!(s.contains_client(1));
}

#[test]
fn event_for_unknown_id_is_ignored() {
    let mut s = server_with(&[1, 2]);
    assert!(s
        .handle_read_event(9, ReadOutcome::Data(b"hi\n".to_vec()))
        .is_none());
    assert!(s.handle_read_event(9, ReadOutcome::Closed).is_none());
    assert_eq!(s.client_count(), 2);
}

#[test]
fn read_capacity_tracks_pending_bytes() {
    let mut s = server_with(&[1]);
    assert_eq!(s.read_capacity(1), BUFFER_SIZE);
    assert!(s
        .handle_read_event(1, ReadOutcome::Data(b"abc".to_vec()))
        .is_none());
    assert_eq!(s.read_capacity(1), BUFFER_SIZE - 3);
    assert_eq!(s.read_capacity(9), 0);
}

#[test]
fn pending_bytes_from_different_connections_stay_apart() {
    let mut s = server_with(&[1, 2]);
    assert!(s
        .handle_read_event(1, ReadOutcome::Data(b"one".to_vec()))
        .is_none());
    assert!(s
        .handle_read_event(2, ReadOutcome::Data(b"two".to_vec()))
        .is_none());
    let d1 = s
        .handle_read_event(1, ReadOutcome::Data(b"!\n".to_vec()))
        .expect("line of the first connection");
    assert_eq!(d1.message, b"one!\n".to_vec());
    let d2 = s
        .handle_read_event(2, ReadOutcome::Data(b"?\n".to_vec()))
        .expect("line of the second connection");
    assert_eq!(d2.message, b"two?\n".to_vec());
}

#[test]
fn reused_id_starts_with_an_empty_buffer() {
    let mut s = server_with(&[1, 2]);
    assert!(s
        .handle_read_event(1, ReadOutcome::Data(b"stale".to_vec()))
        .is_none());
    s.remove_client(1);
    // The platform may hand the same id to a new connection.
    s.add_client(1);
    assert_eq!(s.read_capacity(1), BUFFER_SIZE);
    let d = s
        .handle_read_event(1, ReadOutcome::Data(b"new\n".to_vec()))
        .expect("only the new connection's bytes are framed");
    assert_eq!(d.message, b"new\n".to_vec());
}
