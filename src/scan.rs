//! Building protocol descriptions from the tag tree of a protocol XML file.
use vstd::prelude::*;

use crate::framer::copy_range;
use crate::protocol::{
    arg_type_of, entry_value, parse_entry_value, Arg, ArgType, Description, Entry, Enum, Event,
    Interface, Protocol, Request,
};
use crate::xml::{attr_of, XmlTag};

verus! {

/// What a description lacks.
#[derive(Debug, Clone, Copy, PartialEq, Eq, Structural)]
pub enum BuildError {
    /// A required attribute is missing or has a value that is not allowed.
    BadAttribute,
}

/// `name`
pub open spec fn k_name() -> Seq<u8> {
    seq![110u8, 97u8, 109u8, 101u8]
}

/// `value`
pub open spec fn k_value() -> Seq<u8> {
    seq![118u8, 97u8, 108u8, 117u8, 101u8]
}

/// `summary`
pub open spec fn k_summary() -> Seq<u8> {
    seq![115u8, 117u8, 109u8, 109u8, 97u8, 114u8, 121u8]
}

/// `type`
pub open spec fn k_type() -> Seq<u8> {
    seq![116u8, 121u8, 112u8, 101u8]
}

/// `interface`
pub open spec fn k_interface() -> Seq<u8> {
    seq![105u8, 110u8, 116u8, 101u8, 114u8, 102u8, 97u8, 99u8, 101u8]
}

/// `enum`
pub open spec fn k_enum() -> Seq<u8> {
    seq![101u8, 110u8, 117u8, 109u8]
}

/// `allow-null`
pub open spec fn k_allow_null() -> Seq<u8> {
    seq![97u8, 108u8, 108u8, 111u8, 119u8, 45u8, 110u8, 117u8, 108u8, 108u8]
}

/// `true`
pub open spec fn k_true() -> Seq<u8> {
    seq![116u8, 114u8, 117u8, 101u8]
}

/// `version`
pub open spec fn k_version() -> Seq<u8> {
    seq![118u8, 101u8, 114u8, 115u8, 105u8, 111u8, 110u8]
}

/// `description`
pub open spec fn k_description() -> Seq<u8> {
    seq![100u8, 101u8, 115u8, 99u8, 114u8, 105u8, 112u8, 116u8, 105u8, 111u8, 110u8]
}

/// `entry`
pub open spec fn k_entry() -> Seq<u8> {
    seq![101u8, 110u8, 116u8, 114u8, 121u8]
}

/// `arg`
pub open spec fn k_arg() -> Seq<u8> {
    seq![97u8, 114u8, 103u8]
}

/// `request`
pub open spec fn k_request() -> Seq<u8> {
    seq![114u8, 101u8, 113u8, 117u8, 101u8, 115u8, 116u8]
}

/// `event`
pub open spec fn k_event() -> Seq<u8> {
    seq![101u8, 118u8, 101u8, 110u8, 116u8]
}

/// The value of the attribute `key` of `t`.
pub open spec fn attr(t: XmlTag, key: Seq<u8>) -> Option<Seq<u8>> {
    attr_of(t.attrs(), key)
}

/// The value of the attribute `key` of `t`, or nothing written where it is missing.
pub open spec fn attr_or_empty(t: XmlTag, key: Seq<u8>) -> Seq<u8> {
    match attr(t, key) {
        Some(v) => v,
        None => seq![],
    }
}

/// The inner tags of `t` named `name`.
pub open spec fn children(t: XmlTag, name: Seq<u8>) -> Seq<XmlTag> {
    match t.tags_named(name) {
        Some(ts) => ts,
        None => seq![],
    }
}

/// Looks up an attribute and copies its value.
fn owned_attr(t: &XmlTag, key: &[u8]) -> (r: Option<Vec<u8>>)
    ensures
        match attr(*t, key@) {
            Some(v) => r is Some && r.unwrap()@ == v,
            None => r is None,
        },
{
    match t.get_attr(key) {
        Some(v) => {
            let c = copy_range(v, 0, v.len());
            assert(v@.subrange(0, v@.len() as int) =~= v@);
            Some(c)
        },
        None => None,
    }
}

/// Looks up an attribute and copies its value; nothing where it is missing.
fn attr_or_default(t: &XmlTag, key: &[u8]) -> (r: Vec<u8>)
    ensures
        r@ == attr_or_empty(*t, key@),
{
    match owned_attr(t, key) {
        Some(v) => v,
        None => Vec::new(),
    }
}

/// The inner tags of `t` named `name`.
fn children_of<'a>(t: &'a XmlTag, name: &[u8]) -> (r: &'a [XmlTag])
    ensures
        r@ == children(*t, name@),
{
    match t.inner_tags(name) {
        Some(ts) => ts,
        None => {
            let e: &[XmlTag] = &[];
            assert(e@ =~= Seq::<XmlTag>::empty());
            e
        },
    }
}

/// The entry that an `entry` tag describes: its name, value and summary; none where the
/// name or value is missing or the value is not a number.
pub open spec fn entry_of(t: XmlTag) -> Option<(Seq<u8>, u32, Seq<u8>)> {
    match (attr(t, k_name()), attr(t, k_value())) {
        (Some(n), Some(v)) => match entry_value(v) {
            Some(x) => Some((n, x, attr_or_empty(t, k_summary()))),
            None => None,
        },
        _ => None,
    }
}

/// The parts of an entry.
pub open spec fn entry_parts(e: Entry) -> (Seq<u8>, u32, Seq<u8>) {
    (e.name@, e.value, e.summary@)
}

impl Entry {
    /// Builds the entry that an `entry` tag describes.
    pub fn build(tag: &XmlTag) -> (r: Result<Entry, BuildError>)
        ensures
            match entry_of(*tag) {
                Some(m) => r is Ok && entry_parts(r.unwrap()) == m,
                None => r is Err,
            },
    {
        let name_key: [u8; 4] = [110, 97, 109, 101];
        let value_key: [u8; 5] = [118, 97, 108, 117, 101];
        let summary_key: [u8; 7] = [115, 117, 109, 109, 97, 114, 121];
        assert(name_key@ =~= k_name());
        assert(value_key@ =~= k_value());
        assert(summary_key@ =~= k_summary());
        let name = match owned_attr(tag, name_key.as_slice()) {
            Some(n) => n,
            None => return Err(BuildError::BadAttribute),
        };
        let value = match tag.get_attr(value_key.as_slice()) {
            Some(v) => match parse_entry_value(v) {
                Some(x) => x,
                None => return Err(BuildError::BadAttribute),
            },
            None => return Err(BuildError::BadAttribute),
        };
        let summary = attr_or_default(tag, summary_key.as_slice());
        Ok(Entry { name, value, summary })
    }
}

/// The argument that an `arg` tag describes; none where the name or type is missing or
/// the type is not one of the protocol's.
pub open spec fn arg_of(t: XmlTag) -> Option<
    (Seq<u8>, ArgType, Option<Seq<u8>>, Option<Seq<u8>>, bool, Seq<u8>),
> {
    match (attr(t, k_name()), attr(t, k_type())) {
        (Some(n), Some(ty)) => match arg_type_of(ty) {
            Some(at) => Some(
                (
                    n,
                    at,
                    attr(t, k_interface()),
                    attr(t, k_enum()),
                    attr(t, k_allow_null()) == Some(k_true()),
                    attr_or_empty(t, k_summary()),
                ),
            ),
            None => None,
        },
        _ => None,
    }
}

/// The view of an optional byte string.
pub open spec fn opt_view(o: Option<Vec<u8>>) -> Option<Seq<u8>> {
    match o {
        Some(v) => Some(v@),
        None => None,
    }
}

/// The parts of an argument.
pub open spec fn arg_parts(a: Arg) -> (
    Seq<u8>,
    ArgType,
    Option<Seq<u8>>,
    Option<Seq<u8>>,
    bool,
    Seq<u8>,
) {
    (a.name@, a.ty, opt_view(a.interface), opt_view(a.enum_kind), a.allow_null, a.summary@)
}

impl Arg {
    /// Builds the argument that an `arg` tag describes.
    pub fn build(tag: &XmlTag) -> (r: Result<Arg, BuildError>)
        ensures
            match arg_of(*tag) {
                Some(m) => r is Ok && arg_parts(r.unwrap()) == m,
                None => r is Err,
            },
    {
        let name_key: [u8; 4] = [110, 97, 109, 101];
        let type_key: [u8; 4] = [116, 121, 112, 101];
        let interface_key: [u8; 9] = [105, 110, 116, 101, 114, 102, 97, 99, 101];
        let enum_key: [u8; 4] = [101, 110, 117, 109];
        let null_key: [u8; 10] = [97, 108, 108, 111, 119, 45, 110, 117, 108, 108];
        let true_text: [u8; 4] = [116, 114, 117, 101];
        let summary_key: [u8; 7] = [115, 117, 109, 109, 97, 114, 121];
        assert(name_key@ =~= k_name());
        assert(type_key@ =~= k_type());
        assert(interface_key@ =~= k_interface());
        assert(enum_key@ =~= k_enum());
        assert(null_key@ =~= k_allow_null());
        assert(true_text@ =~= k_true());
        assert(summary_key@ =~= k_summary());
        let name = match owned_attr(tag, name_key.as_slice()) {
            Some(n) => n,
            None => return Err(BuildError::BadAttribute),
        };
        let ty = match tag.get_attr(type_key.as_slice()) {
            Some(t) => match ArgType::from_name(t) {
                Some(ty) => ty,
                None => return Err(BuildError::BadAttribute),
            },
            None => return Err(BuildError::BadAttribute),
        };
        let interface = owned_attr(tag, interface_key.as_slice());
        let enum_kind = owned_attr(tag, enum_key.as_slice());
        let allow_null = match tag.get_attr(null_key.as_slice()) {
            Some(v) => crate::protocol::bytes_eq(v, true_text.as_slice()),
            None => false,
        };
        let summary = attr_or_default(tag, summary_key.as_slice());
        Ok(Arg { name, ty, interface, enum_kind, allow_null, summary })
    }
}

/// The description that a `description` tag gives: its summary, and its text where it
/// has any.
pub open spec fn description_of(t: XmlTag) -> (Seq<u8>, Option<Seq<u8>>) {
    (attr_or_empty(t, k_summary()), if t.text().len() == 0 {
        None
    } else {
        Some(t.text())
    })
}

/// The parts of a description.
pub open spec fn description_parts(d: Description) -> (Seq<u8>, Option<Seq<u8>>) {
    (d.summary@, opt_view(d.text))
}

/// The description of the first `description` tag inside `t`, if it has one.
pub open spec fn inner_description(t: XmlTag) -> Option<(Seq<u8>, Option<Seq<u8>>)> {
    let ds = children(t, k_description());
    if ds.len() == 0 {
        None
    } else {
        Some(description_of(ds[0]))
    }
}

impl Description {
    /// Builds the description that a `description` tag gives.
    pub fn build(tag: &XmlTag) -> (r: Description)
        ensures
            description_parts(r) == description_of(*tag),
    {
        let summary_key: [u8; 7] = [115, 117, 109, 109, 97, 114, 121];
        assert(summary_key@ =~= k_summary());
        let summary = attr_or_default(tag, summary_key.as_slice());
        let text = tag.inner_text();
        let text = if text.len() == 0 {
            None
        } else {
            let t = copy_range(text, 0, text.len());
            assert(text@.subrange(0, text@.len() as int) =~= text@);
            Some(t)
        };
        Description { summary, text }
    }
}

/// Builds the description of the first `description` tag inside `tag`.
fn build_inner_description(tag: &XmlTag) -> (r: Option<Description>)
    ensures
        match inner_description(*tag) {
            Some(d) => r is Some && description_parts(r.unwrap()) == d,
            None => r is None,
        },
{
    let key: [u8; 11] = [100, 101, 115, 99, 114, 105, 112, 116, 105, 111, 110];
    assert(key@ =~= k_description());
    let ds = children_of(tag, key.as_slice());
    if ds.len() == 0 {
        None
    } else {
        Some(Description::build(&ds[0]))
    }
}

/// Every tag of `ts` describes an entry.
pub open spec fn all_entries(ts: Seq<XmlTag>) -> bool {
    forall|i: int| 0 <= i < ts.len() ==> (#[trigger] entry_of(ts[i])) is Some
}

/// Every tag of `ts` describes an argument.
pub open spec fn all_args(ts: Seq<XmlTag>) -> bool {
    forall|i: int| 0 <= i < ts.len() ==> (#[trigger] arg_of(ts[i])) is Some
}

/// Builds the entries of the `entry` tags `ts`, in order.
fn build_entries(ts: &[XmlTag]) -> (r: Result<Vec<Entry>, BuildError>)
    ensures
        all_entries(ts@) <==> r is Ok,
        r matches Ok(es) ==> es@.len() == ts@.len() && forall|i: int|
            0 <= i < ts@.len() ==> entry_of(ts@[i]) == Some(entry_parts(#[trigger] es@[i])),
{
    let mut out: Vec<Entry> = Vec::new();
    let mut i: usize = 0;
    while i < ts.len()
        invariant
            i <= ts@.len(),
            out@.len() == i,
            forall|j: int| 0 <= j < i ==> entry_of(ts@[j]) == Some(entry_parts(#[trigger] out@[j])),
        decreases ts@.len() - i,
    {
        match Entry::build(&ts[i]) {
            Ok(e) => out.push(e),
            Err(e) => {
                assert(entry_of(ts@[i as int]) is None);
                return Err(e);
            },
        }
        i = i + 1;
    }
    assert forall|j: int| 0 <= j < ts@.len() implies (#[trigger] entry_of(ts@[j])) is Some by {
        assert(entry_of(ts@[j]) == Some(entry_parts(out@[j])));
    }
    Ok(out)
}

/// Builds the arguments of the `arg` tags `ts`, in order.
fn build_args(ts: &[XmlTag]) -> (r: Result<Vec<Arg>, BuildError>)
    ensures
        all_args(ts@) <==> r is Ok,
        r matches Ok(xs) ==> xs@.len() == ts@.len() && forall|i: int|
            0 <= i < ts@.len() ==> arg_of(ts@[i]) == Some(arg_parts(#[trigger] xs@[i])),
{
    let mut out: Vec<Arg> = Vec::new();
    let mut i: usize = 0;
    while i < ts.len()
        invariant
            i <= ts@.len(),
            out@.len() == i,
            forall|j: int| 0 <= j < i ==> arg_of(ts@[j]) == Some(arg_parts(#[trigger] out@[j])),
        decreases ts@.len() - i,
    {
        match Arg::build(&ts[i]) {
            Ok(a) => out.push(a),
            Err(e) => {
                assert(arg_of(ts@[i as int]) is None);
                return Err(e);
            },
        }
        i = i + 1;
    }
    assert forall|j: int| 0 <= j < ts@.len() implies (#[trigger] arg_of(ts@[j])) is Some by {
        assert(arg_of(ts@[j]) == Some(arg_parts(out@[j])));
    }
    Ok(out)
}

impl Enum {
    /// Builds the enum that an `enum` tag describes: its name, its description, and its
    /// entries in order; an error where the name is missing or an entry is malformed.
    pub fn build(tag: &XmlTag) -> (r: Result<Enum, BuildError>)
        ensures
            r is Ok <==> enum_ok(*tag),
            r matches Ok(e) ==> enum_matches(e, *tag),
    {
        let name_key: [u8; 4] = [110, 97, 109, 101];
        let entry_key: [u8; 5] = [101, 110, 116, 114, 121];
        assert(name_key@ =~= k_name());
        assert(entry_key@ =~= k_entry());
        let name = match owned_attr(tag, name_key.as_slice()) {
            Some(n) => n,
            None => return Err(BuildError::BadAttribute),
        };
        let description = build_inner_description(tag);
        let entries = build_entries(children_of(tag, entry_key.as_slice()))?;
        Ok(Enum { name, description, entries })
    }
}

/// Whether a `request` or `event` tag describes a message: it has a name, and each of
/// its `arg` tags describes an argument.
pub open spec fn message_ok(t: XmlTag) -> bool {
    attr(t, k_name()) is Some && all_args(children(t, k_arg()))
}

/// The description field matches the first `description` tag inside `t`.
pub open spec fn description_matches(d: Option<Description>, t: XmlTag) -> bool {
    match inner_description(t) {
        Some(m) => d is Some && description_parts(d.unwrap()) == m,
        None => d is None,
    }
}

/// A message with name `n`, description `d` and arguments `args` is the one that the
/// tag `t` describes.
pub open spec fn message_matches(n: Seq<u8>, d: Option<Description>, args: Seq<Arg>, t: XmlTag) -> bool {
    &&& n == attr(t, k_name()).unwrap()
    &&& description_matches(d, t)
    &&& args.len() == children(t, k_arg()).len()
    &&& forall|i: int|
        0 <= i < args.len() ==> arg_of(children(t, k_arg())[i]) == Some(
            arg_parts(#[trigger] args[i]),
        )
}

/// Builds the name, description and arguments of a `request` or `event` tag.
fn build_message(tag: &XmlTag) -> (r: Result<(Vec<u8>, Option<Description>, Vec<Arg>), BuildError>)
    ensures
        r is Ok <==> message_ok(*tag),
        r matches Ok(m) ==> message_matches(m.0@, m.1, m.2@, *tag),
{
    let name_key: [u8; 4] = [110, 97, 109, 101];
    let arg_key: [u8; 3] = [97, 114, 103];
    assert(name_key@ =~= k_name());
    assert(arg_key@ =~= k_arg());
    let name = match owned_attr(tag, name_key.as_slice()) {
        Some(n) => n,
        None => return Err(BuildError::BadAttribute),
    };
    let description = build_inner_description(tag);
    let args = build_args(children_of(tag, arg_key.as_slice()))?;
    Ok((name, description, args))
}

impl Request {
    /// Builds the request that a `request` tag describes.
    pub fn build(tag: &XmlTag) -> (r: Result<Request, BuildError>)
        ensures
            r is Ok <==> message_ok(*tag),
            r matches Ok(q) ==> message_matches(q.name@, q.description, q.args@, *tag),
    {
        let (name, description, args) = build_message(tag)?;
        Ok(Request { name, description, args })
    }
}

impl Event {
    /// Builds the event that an `event` tag describes.
    pub fn build(tag: &XmlTag) -> (r: Result<Event, BuildError>)
        ensures
            r is Ok <==> message_ok(*tag),
            r matches Ok(q) ==> message_matches(q.name@, q.description, q.args@, *tag),
    {
        let (name, description, args) = build_message(tag)?;
        Ok(Event { name, description, args })
    }
}

/// Whether an `enum` tag describes an enum: it has a name, and each of its `entry`
/// tags describes an entry.
pub open spec fn enum_ok(t: XmlTag) -> bool {
    attr(t, k_name()) is Some && all_entries(children(t, k_entry()))
}

/// The enum `e` is the one that the tag `t` describes.
pub open spec fn enum_matches(e: Enum, t: XmlTag) -> bool {
    &&& e.name@ == attr(t, k_name()).unwrap()
    &&& description_matches(e.description, t)
    &&& e.entries@.len() == children(t, k_entry()).len()
    &&& forall|i: int|
        0 <= i < e.entries@.len() ==> entry_of(children(t, k_entry())[i]) == Some(
            entry_parts(#[trigger] e.entries@[i]),
        )
}

/// The version that an `interface` tag gives.
pub open spec fn version_of(t: XmlTag) -> Option<u32> {
    match attr(t, k_version()) {
        Some(v) => entry_value(v),
        None => None,
    }
}

/// Whether an `interface` tag describes an interface: it has a name and a version, and
/// each of its requests, events and enums is well described.
pub open spec fn interface_ok(t: XmlTag) -> bool {
    &&& attr(t, k_name()) is Some
    &&& version_of(t) is Some
    &&& forall|i: int|
        0 <= i < children(t, k_request()).len() ==> message_ok(
            #[trigger] children(t, k_request())[i],
        )
    &&& forall|i: int|
        0 <= i < children(t, k_event()).len() ==> message_ok(#[trigger] children(t, k_event())[i])
    &&& forall|i: int|
        0 <= i < children(t, k_enum()).len() ==> enum_ok(#[trigger] children(t, k_enum())[i])
}

/// The interface `x` is the one that the tag `t` describes.
pub open spec fn interface_matches(x: Interface, t: XmlTag) -> bool {
    &&& x.name@ == attr(t, k_name()).unwrap()
    &&& Some(x.version) == version_of(t)
    &&& description_matches(x.description, t)
    &&& x.requests@.len() == children(t, k_request()).len()
    &&& forall|i: int|
        0 <= i < x.requests@.len() ==> message_matches(
            (#[trigger] x.requests@[i]).name@,
            x.requests@[i].description,
            x.requests@[i].args@,
            children(t, k_request())[i],
        )
    &&& x.events@.len() == children(t, k_event()).len()
    &&& forall|i: int|
        0 <= i < x.events@.len() ==> message_matches(
            (#[trigger] x.events@[i]).name@,
            x.events@[i].description,
            x.events@[i].args@,
            children(t, k_event())[i],
        )
    &&& x.enums@.len() == children(t, k_enum()).len()
    &&& forall|i: int|
        0 <= i < x.enums@.len() ==> enum_matches(#[trigger] x.enums@[i], children(t, k_enum())[i])
}

impl Interface {
    /// Builds the interface that an `interface` tag describes: its name, version and
    /// description, and its requests, events and enums in order.
    pub fn build(tag: &XmlTag) -> (r: Result<Interface, BuildError>)
        ensures
            r is Ok <==> interface_ok(*tag),
            r matches Ok(x) ==> interface_matches(x, *tag),
    {
        let name_key: [u8; 4] = [110, 97, 109, 101];
        let version_key: [u8; 7] = [118, 101, 114, 115, 105, 111, 110];
        let request_key: [u8; 7] = [114, 101, 113, 117, 101, 115, 116];
        let event_key: [u8; 5] = [101, 118, 101, 110, 116];
        let enum_key: [u8; 4] = [101, 110, 117, 109];
        assert(name_key@ =~= k_name());
        assert(version_key@ =~= k_version());
        assert(request_key@ =~= k_request());
        assert(event_key@ =~= k_event());
        assert(enum_key@ =~= k_enum());
        let name = match owned_attr(tag, name_key.as_slice()) {
            Some(n) => n,
            None => return Err(BuildError::BadAttribute),
        };
        let version = match tag.get_attr(version_key.as_slice()) {
            Some(v) => match parse_entry_value(v) {
                Some(x) => x,
                None => return Err(BuildError::BadAttribute),
            },
            None => return Err(BuildError::BadAttribute),
        };
        let description = build_inner_description(tag);
        let ts = children_of(tag, request_key.as_slice());
        let mut requests: Vec<Request> = Vec::new();
        let mut i: usize = 0;
        while i < ts.len()
            invariant
                ts@ == children(*tag, k_request()),
                i <= ts@.len(),
                requests@.len() == i,
                forall|j: int| 0 <= j < i ==> message_ok(#[trigger] ts@[j]),
                forall|j: int|
                    0 <= j < i ==> message_matches(
                        (#[trigger] requests@[j]).name@,
                        requests@[j].description,
                        requests@[j].args@,
                        ts@[j],
                    ),
            decreases ts@.len() - i,
        {
            requests.push(Request::build(&ts[i])?);
            i = i + 1;
        }
        let ts = children_of(tag, event_key.as_slice());
        let mut events: Vec<Event> = Vec::new();
        let mut i: usize = 0;
        while i < ts.len()
            invariant
                ts@ == children(*tag, k_event()),
                i <= ts@.len(),
                events@.len() == i,
                forall|j: int| 0 <= j < i ==> message_ok(#[trigger] ts@[j]),
                forall|j: int|
                    0 <= j < i ==> message_matches(
                        (#[trigger] events@[j]).name@,
                        events@[j].description,
                        events@[j].args@,
                        ts@[j],
                    ),
            decreases ts@.len() - i,
        {
            events.push(Event::build(&ts[i])?);
            i = i + 1;
        }
        let ts = children_of(tag, enum_key.as_slice());
        let mut enums: Vec<Enum> = Vec::new();
        let mut i: usize = 0;
        while i < ts.len()
            invariant
                ts@ == children(*tag, k_enum()),
                i <= ts@.len(),
                enums@.len() == i,
                forall|j: int| 0 <= j < i ==> enum_ok(#[trigger] ts@[j]),
                forall|j: int| 0 <= j < i ==> enum_matches(#[trigger] enums@[j], ts@[j]),
            decreases ts@.len() - i,
        {
            enums.push(Enum::build(&ts[i])?);
            i = i + 1;
        }
        Ok(Interface { name, version, description, requests, events, enums })
    }
}

/// Whether a `protocol` tag describes a protocol: it has a name, and each of its
/// `interface` tags describes an interface.
pub open spec fn protocol_ok(t: XmlTag) -> bool {
    &&& attr(t, k_name()) is Some
    &&& forall|i: int|
        0 <= i < children(t, k_interface()).len() ==> interface_ok(
            #[trigger] children(t, k_interface())[i],
        )
}

impl Protocol {
    /// Builds the protocol that a `protocol` tag describes: its name and its interfaces
    /// in order.
    pub fn build(tag: &XmlTag) -> (r: Result<Protocol, BuildError>)
        ensures
            r is Ok <==> protocol_ok(*tag),
            r matches Ok(p) ==> p.name@ == attr(*tag, k_name()).unwrap() && p.interfaces@.len()
                == children(*tag, k_interface()).len() && forall|i: int|
                0 <= i < p.interfaces@.len() ==> interface_matches(
                    #[trigger] p.interfaces@[i],
                    children(*tag, k_interface())[i],
                ),
    {
        let name_key: [u8; 4] = [110, 97, 109, 101];
        let interface_key: [u8; 9] = [105, 110, 116, 101, 114, 102, 97, 99, 101];
        assert(name_key@ =~= k_name());
        assert(interface_key@ =~= k_interface());
        let name = match owned_attr(tag, name_key.as_slice()) {
            Some(n) => n,
            None => return Err(BuildError::BadAttribute),
        };
        let ts = children_of(tag, interface_key.as_slice());
        let mut interfaces: Vec<Interface> = Vec::new();
        let mut i: usize = 0;
        while i < ts.len()
            invariant
                ts@ == children(*tag, k_interface()),
                i <= ts@.len(),
                interfaces@.len() == i,
                forall|j: int| 0 <= j < i ==> interface_ok(#[trigger] ts@[j]),
                forall|j: int| 0 <= j < i ==> interface_matches(#[trigger] interfaces@[j], ts@[j]),
            decreases ts@.len() - i,
        {
            interfaces.push(Interface::build(&ts[i])?);
            i = i + 1;
        }
        Ok(Protocol { name, interfaces })
    }
}

} // verus!
