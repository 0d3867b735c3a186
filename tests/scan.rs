use wayne::protocol::{ArgType, Entry, Interface, Protocol};
use wayne::scan::BuildError;
use wayne::xml::XmlTag;

fn tag(name: &str, attrs: &[(&str, &str)]) -> XmlTag {
    let mut t = XmlTag::new(name.as_bytes().to_vec());
    for (k, v) in attrs {
        t.push_attr(k.as_bytes().to_vec(), v.as_bytes().to_vec());
    }
    t
}

fn sample_interface() -> XmlTag {
    let mut iface = tag("interface", &[("name", "wl_surface"), ("version", "6")]);
    let mut desc = tag("description", &[("summary", "an onscreen surface")]);
    desc.push_text(b"A surface is a rectangular area.");
    iface.insert_inner(desc);
    let mut attach = tag("request", &[("name", "attach")]);
    attach.insert_inner(tag(
        "arg",
        &[("name", "buffer"), ("type", "object"), ("interface", "wl_buffer"), ("allow-null", "true")],
    ));
    attach.insert_inner(tag("arg", &[("name", "x"), ("type", "int")]));
    iface.insert_inner(attach);
    iface.insert_inner(tag("request", &[("name", "destroy")]));
    let mut enter = tag("event", &[("name", "enter")]);
    enter.insert_inner(tag("arg", &[("name", "output"), ("type", "object")]));
    iface.insert_inner(enter);
    let mut error = tag("enum", &[("name", "error")]);
    error.insert_inner(tag("entry", &[("name", "invalid_scale"), ("value", "0")]));
    error.insert_inner(tag("entry", &[("name", "invalid_transform"), ("value", "0x1")]));
    iface.insert_inner(error);
    iface
}

#[test]
fn interface_builds_from_tags() {
    let iface = Interface::build(&sample_interface()).unwrap();
    assert_eq!(iface.name, b"wl_surface".to_vec());
    assert_eq!(iface.version, 6);
    let desc = iface.description.as_ref().unwrap();
    assert_eq!(desc.doc_text(), b"A surface is a rectangular area.");
    assert_eq!(desc.summary, b"an onscreen surface".to_vec());
    assert_eq!(iface.requests.len(), 2);
    assert_eq!(iface.requests[0].args.len(), 2);
    assert_eq!(iface.requests[0].args[0].ty, ArgType::Object);
    assert!(iface.requests[0].args[0].allow_null);
    assert_eq!(iface.requests[0].args[0].interface, Some(b"wl_buffer".to_vec()));
    assert!(!iface.requests[0].args[1].allow_null);
    assert_eq!(iface.events.len(), 1);
    assert_eq!(iface.enums[0].entries[1].value, 1);
}

#[test]
fn entry_needs_a_number() {
    assert_eq!(
        Entry::build(&tag("entry", &[("name", "a"), ("value", "x1")])).err(),
        Some(BuildError::BadAttribute)
    );
    let e = Entry::build(&tag("entry", &[("name", "a"), ("value", "0x20"), ("summary", "s")]))
        .unwrap();
    assert_eq!(e.value, 32);
    assert_eq!(e.summary, b"s".to_vec());
}

#[test]
fn bad_argument_type_fails_the_interface() {
    let mut iface = sample_interface();
    let mut bad = tag("request", &[("name", "bad")]);
    bad.insert_inner(tag("arg", &[("name", "v"), ("type", "float")]));
    iface.insert_inner(bad);
    assert!(Interface::build(&iface).is_err());
}

#[test]
fn interface_needs_a_version() {
    assert!(Interface::build(&tag("interface", &[("name", "wl_x")])).is_err());
}

#[test]
fn protocol_builds_its_interfaces() {
    let mut p = tag("protocol", &[("name", "wayland")]);
    p.insert_inner(sample_interface());
    p.insert_inner(tag("interface", &[("name", "wl_buffer"), ("version", "1")]));
    let protocol = Protocol::build(&p).unwrap();
    assert_eq!(protocol.name, b"wayland".to_vec());
    assert_eq!(protocol.interfaces.len(), 2);
    assert_eq!(protocol.interfaces[1].name, b"wl_buffer".to_vec());
    assert!(protocol.request_signature(0, 0).is_some());
}
