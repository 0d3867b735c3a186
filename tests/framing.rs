use wayne::framer::MessageParser;
use wayne::wire::padded_len;

fn frame(object_id: u32, opcode: u16, size: u16, body: &[u8]) -> Vec<u8> {
    let mut bytes = Vec::new();
    bytes.extend_from_slice(&object_id.to_ne_bytes());
    bytes.extend_from_slice(&opcode.to_ne_bytes());
    bytes.extend_from_slice(&size.to_ne_bytes());
    bytes.extend_from_slice(body);
    bytes
}

#[test]
fn parse_small_chunks() {
    const OBJECT_ID: u32 = 10;
    const OPCODE: u16 = 12;
    const BODY: &[u8] = &[3, 4, 5, 6];
    let bytes = frame(OBJECT_ID, OPCODE, 12, BODY);

    let mut message_count = 0;
    let mut parser = MessageParser::new();
    for chunk in bytes.chunks(4) {
        let mut stream = parser.parse(chunk);
        while let Some(message) = stream.next(&mut parser) {
            message_count += 1;
            assert_eq!(&message.object_id, &OBJECT_ID);
            assert_eq!(&message.opcode, &OPCODE);
            assert_eq!(message.body.as_slice(), BODY);
        }
    }

    assert_eq!(message_count, 1);
}

#[test]
fn parse_large_chunks() {
    const OBJECT_ID: u32 = 10;
    const OPCODE: u16 = 12;
    const BODY: &[u8] = &[3, 4, 5, 6];
    let one = frame(OBJECT_ID, OPCODE, 12, BODY);
    let mut many = Vec::new();
    for _ in 0..6 {
        many.extend_from_slice(&one);
    }

    let mut message_count = 0;
    let mut parser = MessageParser::new();
    for chunk in many.chunks(30) {
        let mut stream = parser.parse(chunk);
        while let Some(message) = stream.next(&mut parser) {
            message_count += 1;
            assert_eq!(&message.object_id, &OBJECT_ID);
            assert_eq!(&message.opcode, &OPCODE);
            assert_eq!(message.body.as_slice(), BODY);
        }
    }

    assert_eq!(message_count, 6);
}

#[test]
fn drip_fed_message_completes_at_last_byte() {
    let bytes = frame(420, 69, 16, &[1, 2, 3, 4, 5, 6, 7, 8]);
    assert_eq!(bytes.len(), 16);
    let mut parser = MessageParser::new();
    for (i, byte) in bytes.iter().enumerate() {
        let mut stream = parser.parse(&[*byte]);
        if i < 15 {
            assert!(stream.next(&mut parser).is_none());
        } else {
            let message = stream.next(&mut parser).unwrap();
            assert_eq!(message.object_id, 420);
            assert_eq!(message.opcode, 69);
            assert_eq!(message.body, vec![1, 2, 3, 4, 5, 6, 7, 8]);
            assert!(stream.next(&mut parser).is_none());
        }
    }
}

#[test]
fn two_messages_in_one_chunk() {
    let mut bytes = frame(420, 69, 16, &[1, 2, 3, 4, 5, 6, 7, 8]);
    bytes.extend(frame(420, 69, 16, &[1, 2, 3, 4, 5, 6, 7, 8]));
    let mut buffer = wayne::buffer::ReadBuffer::new(vec![0u8; 64], Vec::new());
    assert_eq!(buffer.write(&bytes), 32);
    for _ in 0..2 {
        let message = buffer.parse_message().unwrap();
        assert_eq!(message.object_id, 420);
        assert_eq!(message.opcode, 69);
        assert_eq!(message.body, vec![1, 2, 3, 4, 5, 6, 7, 8]);
    }
    assert!(buffer.parse_message().is_none());
}

#[test]
fn small_size_field_is_a_bare_header() {
    for size in 0u16..8 {
        let mut bytes = frame(5, 1, size, &[]);
        bytes.extend(frame(6, 2, 8, &[]));
        let mut parser = MessageParser::new();
        let mut stream = parser.parse(&bytes);
        let first = stream.next(&mut parser).unwrap();
        assert_eq!(first.object_id, 5);
        assert!(first.body.is_empty());
        let second = stream.next(&mut parser).unwrap();
        assert_eq!(second.object_id, 6);
        assert!(stream.next(&mut parser).is_none());
    }
}

#[test]
fn padding_is_consumed() {
    let mut bytes = frame(1, 0, 13, &[1, 2, 3, 4, 5]);
    bytes.extend_from_slice(&[0, 0, 0]);
    bytes.extend(frame(2, 0, 8, &[]));
    let mut parser = MessageParser::new();
    let mut stream = parser.parse(&bytes);
    assert_eq!(stream.next(&mut parser).unwrap().body, vec![1, 2, 3, 4, 5]);
    assert_eq!(stream.next(&mut parser).unwrap().object_id, 2);
    assert!(stream.next(&mut parser).is_none());
}

#[test]
fn arbitrary_chunks_give_the_same_messages() {
    let mut bytes = Vec::new();
    for i in 0..5u32 {
        let body: Vec<u8> = (0..i as u8 * 3).collect();
        bytes.extend(frame(i, i as u16, 8 + body.len() as u16, &body));
        let pad = padded_len(8 + body.len()) - (8 + body.len());
        bytes.extend(std::iter::repeat(0u8).take(pad));
    }
    for chunk_size in 1..bytes.len() {
        let mut parser = MessageParser::new();
        let mut ids = Vec::new();
        for chunk in bytes.chunks(chunk_size) {
            let mut stream = parser.parse(chunk);
            while let Some(m) = stream.next(&mut parser) {
                assert_eq!(m.body.len(), m.object_id as usize * 3);
                ids.push(m.object_id);
            }
        }
        assert_eq!(ids, vec![0, 1, 2, 3, 4]);
    }
}

#[test]
fn parse_alone_leaves_the_parser_unchanged() {
    let bytes = frame(1, 2, 8, &[]);
    let mut parser = MessageParser::new();
    let _ignored = parser.parse(&bytes[..4]);
    let mut stream = parser.parse(&bytes);
    let m = stream.next(&mut parser).unwrap();
    assert_eq!(m.object_id, 1);
    assert!(stream.next(&mut parser).is_none());
}
