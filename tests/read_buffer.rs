use wayne::buffer::ReadBuffer;
use wayne::framer::Message;

struct Expected {
    object_id: u32,
    opcode: u16,
    body: &'static [u8],
}

fn encode_message(bytes: &mut Vec<u8>, message: &Expected) {
    let mut message_len = (8 + message.body.len()) as u16;
    let second_word = (message.opcode as u32) | ((message_len as u32) << 16);
    bytes.extend_from_slice(&message.object_id.to_ne_bytes());
    bytes.extend_from_slice(&second_word.to_ne_bytes());
    bytes.extend_from_slice(message.body);
    let padded_len = (message_len + 3) & !3;
    while message_len < padded_len {
        bytes.push(0);
        message_len += 1;
    }
}

fn check(message: &Message, expected: &Expected) {
    assert_eq!(message.object_id, expected.object_id);
    assert_eq!(message.opcode, expected.opcode);
    assert_eq!(message.body.as_slice(), expected.body);
}

const MESSAGE: Expected = Expected {
    object_id: 42,
    opcode: 69,
    body: &[1, 2, 3, 4, 5],
};

fn buffer_with(bytes: &[u8]) -> ReadBuffer {
    let mut buffer = ReadBuffer::new(vec![0u8; bytes.len()], Vec::new());
    assert_eq!(buffer.write(bytes), bytes.len());
    buffer
}

#[test]
fn parse_single_message() {
    let mut bytes = Vec::new();
    encode_message(&mut bytes, &MESSAGE);

    let mut buffer = buffer_with(&bytes);

    let message = buffer.parse_message().unwrap();
    check(&message, &MESSAGE);

    assert!(buffer.parse_message().is_none());
}

#[test]
fn parse_multi_message() {
    const COUNT: usize = 3;
    let mut bytes = Vec::new();
    for _ in 0..COUNT {
        encode_message(&mut bytes, &MESSAGE);
    }

    let mut buffer = buffer_with(&bytes);

    for _ in 0..COUNT {
        let message = buffer.parse_message().unwrap();
        check(&message, &MESSAGE);
    }

    assert!(buffer.parse_message().is_none());
}

#[test]
fn parse_partial() {
    let mut bytes = Vec::new();
    encode_message(&mut bytes, &MESSAGE);

    let mut buffer = ReadBuffer::new(vec![0u8; bytes.len()], Vec::new());
    assert_eq!(buffer.write(&bytes[..7]), 7);

    assert!(buffer.parse_message().is_none());

    assert_eq!(buffer.write(&bytes[7..]), bytes.len() - 7);
    let message = buffer.parse_message().unwrap();
    check(&message, &MESSAGE);

    assert!(buffer.parse_message().is_none());
}

#[test]
fn write_stops_at_capacity() {
    let mut buffer = ReadBuffer::new(vec![0u8; 10], Vec::new());
    assert_eq!(buffer.write(&[7u8; 16]), 10);
    assert_eq!(buffer.free_space(), 0);
    assert_eq!(buffer.pending_bytes(), &[7u8; 10]);
}

#[test]
fn consumed_space_is_reclaimed_on_write() {
    let mut bytes = Vec::new();
    encode_message(&mut bytes, &MESSAGE);
    let mut buffer = ReadBuffer::new(vec![0u8; 20], Vec::new());
    assert_eq!(buffer.write(&bytes), 16);
    assert!(buffer.parse_message().is_some());
    assert_eq!(buffer.free_space(), 20);
    assert_eq!(buffer.write(&bytes), 16);
    check(&buffer.parse_message().unwrap(), &MESSAGE);
}
