use wayne::buffer::ReadBuffer;
use wayne::parse::IterBuf;
use wayne::protocol::{
    parse_entry_value, Arg, ArgType, Description, Entry, Enum, Interface, Protocol, Request,
};
use wayne::request::{decode_request, ArgKind, ArgValue, DecodeError};
use wayne::xml::XmlTag;

fn arg(name: &str, ty: ArgType, enum_kind: Option<&str>, allow_null: bool) -> Arg {
    Arg {
        name: name.as_bytes().to_vec(),
        ty,
        interface: None,
        enum_kind: enum_kind.map(|e| e.as_bytes().to_vec()),
        allow_null,
        summary: Vec::new(),
    }
}

fn interface() -> Interface {
    Interface {
        name: b"wl_test".to_vec(),
        version: 1,
        description: None,
        requests: vec![
            Request {
                name: b"set".to_vec(),
                description: None,
                args: vec![arg("mode", ArgType::Uint, Some("foo"), false)],
            },
            Request {
                name: b"title".to_vec(),
                description: None,
                args: vec![
                    arg("title", ArgType::String, None, true),
                    arg("fd", ArgType::Fd, None, false),
                ],
            },
        ],
        events: Vec::new(),
        enums: vec![Enum {
            name: b"foo".to_vec(),
            description: None,
            entries: vec![
                Entry { name: b"a".to_vec(), value: 0, summary: Vec::new() },
                Entry { name: b"b".to_vec(), value: 1, summary: Vec::new() },
            ],
        }],
    }
}

fn protocol_of(iface: Interface) -> Protocol {
    Protocol { name: b"test".to_vec(), interfaces: vec![iface] }
}

#[test]
fn enum_argument_decodes_to_its_entry() {
    let p = protocol_of(interface());
    let sig = p.request_signature(0, 0).unwrap();
    let mut fds = IterBuf::new(Vec::new());
    match decode_request(&sig, &[0x00, 0x00, 0x00, 0x00], &mut fds) {
        Ok(values) => assert!(matches!(values[0], ArgValue::Enum(0))),
        Err(_) => panic!("enum did not decode"),
    }
    assert_eq!(
        decode_request(&sig, &[0x02, 0x00, 0x00, 0x00], &mut fds).err(),
        Some(DecodeError::Failed)
    );
}

#[test]
fn opcode_out_of_range_has_no_decoder() {
    let p = protocol_of(interface());
    assert!(p.request_signature(0, 2).is_none());
    assert!(p.request_signature(0, 1).is_some());
    assert!(p.request_signature(1, 0).is_none());
}

#[test]
fn missing_enum_has_no_decoder() {
    let mut iface = interface();
    iface.enums.clear();
    assert!(protocol_of(iface).request_signature(0, 0).is_none());
}

#[test]
fn string_and_fd_request() {
    let p = protocol_of(interface());
    let sig = p.request_signature(0, 1).unwrap();
    let body = [3, 0, 0, 0, b'h', b'i', 0, 0];
    let mut fds = IterBuf::new(Vec::new());
    assert_eq!(decode_request(&sig, &body, &mut fds).err(), Some(DecodeError::NeedFds));
    fds.push(9);
    fds.push(10);
    match decode_request(&sig, &body, &mut fds) {
        Ok(values) => {
            match &values[0] {
                ArgValue::Str(Some(s)) => assert_eq!(s, b"hi\0"),
                _ => panic!("wrong string"),
            }
            assert!(matches!(values[1], ArgValue::Fd(9)));
        }
        Err(_) => panic!("request did not decode"),
    }
    assert_eq!(fds.len(), 1);
    let null = [0, 0, 0, 0];
    let mut fds = IterBuf::new(vec![4]);
    match decode_request(&sig, &null, &mut fds) {
        Ok(values) => assert!(matches!(values[0], ArgValue::Str(None))),
        Err(_) => panic!("null string did not decode"),
    }
}

#[test]
fn trailing_bytes_fail() {
    let sig = vec![ArgKind::Uint];
    let mut fds = IterBuf::new(Vec::new());
    assert_eq!(
        decode_request(&sig, &[1, 0, 0, 0, 0, 0, 0, 0], &mut fds).err(),
        Some(DecodeError::Failed)
    );
    assert_eq!(decode_request(&sig, &[1, 0, 0], &mut fds).err(), Some(DecodeError::Failed));
}

#[test]
fn every_kind_decodes() {
    let sig = vec![
        ArgKind::Int,
        ArgKind::Fixed,
        ArgKind::Object { nullable: true },
        ArgKind::NewId,
        ArgKind::DynNewId,
        ArgKind::Array { nullable: false },
    ];
    let mut body = Vec::new();
    body.extend_from_slice(&(-5i32).to_le_bytes());
    body.extend_from_slice(&256i32.to_le_bytes());
    body.extend_from_slice(&0u32.to_le_bytes());
    body.extend_from_slice(&7u32.to_le_bytes());
    body.extend_from_slice(&[4, 0, 0, 0, b'w', b'l', b'_', 0]);
    body.extend_from_slice(&3u32.to_le_bytes());
    body.extend_from_slice(&12u32.to_le_bytes());
    body.extend_from_slice(&[0, 0, 0, 0]);
    let mut fds = IterBuf::new(Vec::new());
    let values = match decode_request(&sig, &body, &mut fds) {
        Ok(v) => v,
        Err(_) => panic!("request did not decode"),
    };
    assert!(matches!(values[0], ArgValue::Int(-5)));
    assert!(matches!(values[1], ArgValue::Fixed(256)));
    assert!(matches!(values[2], ArgValue::Object(None)));
    assert!(matches!(values[3], ArgValue::NewId(7)));
    match &values[4] {
        ArgValue::DynNewId(name, 3, 12) => assert_eq!(name, b"wl_\0"),
        _ => panic!("wrong new id"),
    }
    match &values[5] {
        ArgValue::Array(Some(a)) => assert!(a.is_empty()),
        _ => panic!("wrong array"),
    }
}

#[test]
fn framed_request_decodes() {
    let mut frame = Vec::new();
    frame.extend_from_slice(&3u32.to_le_bytes());
    frame.extend_from_slice(&0u16.to_le_bytes());
    frame.extend_from_slice(&12u16.to_le_bytes());
    frame.extend_from_slice(&1u32.to_le_bytes());
    let mut buffer = ReadBuffer::new(vec![0u8; 32], Vec::new());
    buffer.write(&frame);
    let message = buffer.parse_message().unwrap();
    let sig = protocol_of(interface()).request_signature(0, message.opcode).unwrap();
    let mut fds = IterBuf::new(Vec::new());
    match decode_request(&sig, &message.body, &mut fds) {
        Ok(values) => assert!(matches!(values[0], ArgValue::Enum(1))),
        Err(_) => panic!("request did not decode"),
    }
}

#[test]
fn entry_values() {
    assert_eq!(parse_entry_value(b"0"), Some(0));
    assert_eq!(parse_entry_value(b"42"), Some(42));
    assert_eq!(parse_entry_value(b"0x10"), Some(16));
    assert_eq!(parse_entry_value(b"0xFFffFFff"), Some(u32::MAX));
    assert_eq!(parse_entry_value(b"4294967296"), None);
    assert_eq!(parse_entry_value(b""), None);
    assert_eq!(parse_entry_value(b"0x"), None);
    assert_eq!(parse_entry_value(b"12a"), None);
    assert_eq!(parse_entry_value(b"ff"), None);
}

#[test]
fn arg_types_by_name() {
    assert_eq!(ArgType::from_name(b"new_id"), Some(ArgType::NewId));
    assert_eq!(ArgType::from_name(b"fd"), Some(ArgType::Fd));
    assert_eq!(ArgType::from_name(b"float"), None);
}

#[test]
fn doc_text_prefers_text() {
    let d = Description { summary: b"short".to_vec(), text: None };
    assert_eq!(d.doc_text(), b"short");
    let d = Description { summary: b"short".to_vec(), text: Some(b"long".to_vec()) };
    assert_eq!(d.doc_text(), b"long");
}

#[test]
fn xml_tags() {
    let mut root = XmlTag::new(b"interface".to_vec());
    root.push_attr(b"name".to_vec(), b"wl_display".to_vec());
    root.push_text(b"text");
    let mut req = XmlTag::new(b"request".to_vec());
    req.push_attr(b"name".to_vec(), b"sync".to_vec());
    root.insert_inner(req);
    root.insert_inner(XmlTag::new(b"request".to_vec()));
    root.insert_inner(XmlTag::new(b"event".to_vec()));
    assert_eq!(root.name(), b"interface");
    assert_eq!(root.inner_text(), b"text");
    assert_eq!(root.get_attr(b"name"), Some(&b"wl_display"[..]));
    assert_eq!(root.get_attr(b"version"), None);
    let requests = root.inner_tags(b"request").unwrap();
    assert_eq!(requests.len(), 2);
    assert_eq!(requests[0].get_attr(b"name"), Some(&b"sync"[..]));
    assert_eq!(root.inner_tags(b"event").unwrap().len(), 1);
    assert!(root.inner_tags(b"enum").is_none());
}

#[test]
fn doc_lines_split_at_newlines() {
    let d = Description {
        summary: Vec::new(),
        text: Some(b"  first line\r\n\tsecond  \n\nlast\n".to_vec()),
    };
    assert_eq!(
        d.doc_lines(),
        vec![b"  first line".to_vec(), b"\tsecond  ".to_vec(), Vec::new(), b"last".to_vec()]
    );
    assert_eq!(
        d.lines(),
        vec![b"first line".to_vec(), b"second".to_vec(), Vec::new(), b"last".to_vec()]
    );
    let d = Description { summary: b"one".to_vec(), text: None };
    assert_eq!(d.lines(), vec![b"one".to_vec()]);
    let d = Description { summary: Vec::new(), text: None };
    assert!(d.lines().is_empty());
}

#[test]
fn enum_of_another_interface() {
    let mut surface = interface();
    surface.requests[0].args[0].enum_kind = Some(b"wl_output.transform".to_vec());
    surface.enums.clear();
    let output = Interface {
        name: b"wl_output".to_vec(),
        version: 4,
        description: None,
        requests: Vec::new(),
        events: Vec::new(),
        enums: vec![Enum {
            name: b"transform".to_vec(),
            description: None,
            entries: vec![
                Entry { name: b"normal".to_vec(), value: 0, summary: Vec::new() },
                Entry { name: b"r90".to_vec(), value: 1, summary: Vec::new() },
            ],
        }],
    };
    let p = Protocol { name: b"wayland".to_vec(), interfaces: vec![surface, output] };
    let sig = p.request_signature(0, 0).unwrap();
    let mut fds = IterBuf::new(Vec::new());
    match decode_request(&sig, &[1, 0, 0, 0], &mut fds) {
        Ok(values) => assert!(matches!(values[0], ArgValue::Enum(1))),
        Err(_) => panic!("enum did not decode"),
    }
    let mut broken = p;
    broken.interfaces[0].requests[0].args[0].enum_kind = Some(b"wl_nothing.transform".to_vec());
    assert!(broken.request_signature(0, 0).is_none());
}

#[test]
fn lines_trim_unicode_white_space() {
    let mut text = Vec::new();
    text.extend_from_slice("\u{a0}x\u{3000}\n\u{2003} y \u{85}".as_bytes());
    let d = Description { summary: Vec::new(), text: Some(text) };
    assert_eq!(d.lines(), vec![b"x".to_vec(), b"y".to_vec()]);
}
