use wayne::buffer::{InitBuffer, ReadBuffer, StreamError};
use wayne::control::parse_control;

fn record(level: i32, kind: i32, payload: &[i32]) -> Vec<u8> {
    let len = 16 + 4 * payload.len();
    let mut bytes = Vec::new();
    bytes.extend_from_slice(&(len as u64).to_le_bytes());
    bytes.extend_from_slice(&level.to_le_bytes());
    bytes.extend_from_slice(&kind.to_le_bytes());
    for fd in payload {
        bytes.extend_from_slice(&fd.to_le_bytes());
    }
    while bytes.len() % 8 != 0 {
        bytes.push(0);
    }
    bytes
}

#[test]
fn rights_records_give_their_fds_in_order() {
    let mut ctrl = record(1, 1, &[42, 43]);
    ctrl.extend(record(1, 1, &[44]));
    let (fds, status) = parse_control(&ctrl);
    assert_eq!(fds, vec![42, 43, 44]);
    assert!(status.is_ok());
}

#[test]
fn other_records_are_skipped() {
    let mut ctrl = record(6, 9, &[1]);
    ctrl.extend(record(1, 1, &[5]));
    let (fds, status) = parse_control(&ctrl);
    assert_eq!(fds, vec![5]);
    assert!(status.is_ok());
}

#[test]
fn credentials_are_invalid() {
    let mut ctrl = record(1, 1, &[7]);
    ctrl.extend(record(1, 2, &[1, 2, 3]));
    let (fds, status) = parse_control(&ctrl);
    assert_eq!(fds, vec![7]);
    assert!(status.is_err());
}

#[test]
fn zeroed_tail_ends_the_walk() {
    let mut ctrl = record(1, 1, &[8]);
    ctrl.extend_from_slice(&[0u8; 24]);
    let (fds, status) = parse_control(&ctrl);
    assert_eq!(fds, vec![8]);
    assert!(status.is_ok());
}

#[test]
fn fd_passing() {
    let mut buffer = ReadBuffer::new(vec![0u8; 64], vec![0u8; 64]);
    let message = [1u8, 0, 0, 0, 0, 0, 8, 0];
    let ctrl = record(1, 1, &[20, 21]);
    assert_eq!(buffer.complete_receive(&message, &ctrl, false), Ok(true));
    assert_eq!(buffer.fd_count(), 2);
    let m = buffer.parse_message().unwrap();
    assert_eq!(m.object_id, 1);
    assert!(buffer.parse_message().is_none());
    assert_eq!(buffer.parse_fd(), Some(20));
    assert_eq!(buffer.parse_fd(), Some(21));
    assert_eq!(buffer.parse_fd(), None);
}

#[test]
fn truncated_control_is_an_error() {
    let mut buffer = ReadBuffer::new(vec![0u8; 64], vec![0u8; 64]);
    let ctrl = record(1, 1, &[20]);
    assert_eq!(
        buffer.complete_receive(&[], &ctrl, true),
        Err(StreamError::TruncatedControl)
    );
    assert_eq!(buffer.fd_count(), 0);
}

#[test]
fn credentials_fail_the_receive() {
    let mut buffer = ReadBuffer::new(vec![0u8; 64], vec![0u8; 64]);
    let mut ctrl = record(1, 1, &[30]);
    ctrl.extend(record(1, 2, &[0, 0, 0]));
    assert_eq!(
        buffer.complete_receive(&[], &ctrl, false),
        Err(StreamError::InvalidControl)
    );
    assert_eq!(buffer.parse_fd(), Some(30));
}

#[test]
fn empty_receive_reports_no_data() {
    let mut buffer = ReadBuffer::new(vec![0u8; 8], vec![0u8; 8]);
    assert_eq!(buffer.complete_receive(&[], &[], false), Ok(false));
    assert_eq!(buffer.ctrl_len(), 8);
}

#[test]
fn init_buffer_write_and_consume() {
    let mut buffer = InitBuffer::new(vec![0u8; 6]);
    assert_eq!(buffer.write(&[1, 2, 3, 4]), 4);
    assert_eq!(buffer.write(&[5, 6, 7]), 2);
    assert_eq!(buffer.get_init(), &[1, 2, 3, 4, 5, 6]);
    buffer.consume(2);
    assert_eq!(buffer.get_init(), &[3, 4, 5, 6]);
    assert_eq!(buffer.uninit_len(), 2);
    buffer.consume(10);
    assert!(buffer.get_init().is_empty());
}

#[test]
fn rights_after_credentials_are_kept() {
    let mut ctrl = record(1, 2, &[0, 0, 0]);
    ctrl.extend(record(1, 1, &[11, 12]));
    let (fds, status) = parse_control(&ctrl);
    assert_eq!(fds, vec![11, 12]);
    assert!(status.is_err());
}
