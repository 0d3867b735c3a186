//! The values that protocol arguments decode to.
use vstd::prelude::*;

use std::cmp::Ordering;
use std::marker::PhantomData;

verus! {

/// An object id as it stands on the wire, not yet tied to an interface.
#[derive(Debug, Clone, Copy, PartialEq, Eq, Structural)]
pub struct RawId {
    value: u32,
}

impl View for RawId {
    type V = u32;

    closed spec fn view(&self) -> u32 {
        self.value
    }
}

impl RawId {
    /// The id's number.
    pub fn value(self) -> (r: u32)
        ensures
            r == self@,
    {
        self.value
    }

    /// The id with number `value`.
    pub fn from_value(value: u32) -> (r: Self)
        ensures
            r@ == value,
    {
        RawId { value }
    }

    /// The same id, as an existing object of interface `T`.
    pub fn to_obj<T>(self) -> (r: ObjId<T>)
        ensures
            r@ == self@,
    {
        ObjId::from_raw(self)
    }

    /// The same id, as a new object of interface `T`.
    pub fn to_new<T>(self) -> (r: NewId<T>)
        ensures
            r@ == self@,
    {
        NewId::from_raw(self)
    }
}

/// The id of an existing object of interface `T`.
pub struct ObjId<T> {
    raw: RawId,
    kind: PhantomData<T>,
}

impl<T> View for ObjId<T> {
    type V = u32;

    closed spec fn view(&self) -> u32 {
        self.raw@
    }
}

impl<T> ObjId<T> {
    /// The id as it stands on the wire.
    pub fn raw(&self) -> (r: RawId)
        ensures
            r@ == self@,
    {
        self.raw
    }

    /// The typed id of `raw`.
    pub fn from_raw(raw: RawId) -> (r: Self)
        ensures
            r@ == raw@,
    {
        ObjId { raw, kind: PhantomData }
    }
}

/// The id of an object of interface `T` that a request creates.
pub struct NewId<T> {
    raw: RawId,
    kind: PhantomData<T>,
}

impl<T> View for NewId<T> {
    type V = u32;

    closed spec fn view(&self) -> u32 {
        self.raw@
    }
}

impl<T> NewId<T> {
    /// The id as it stands on the wire.
    pub fn raw(&self) -> (r: RawId)
        ensures
            r@ == self@,
    {
        self.raw
    }

    /// The typed id of `raw`.
    pub fn from_raw(raw: RawId) -> (r: Self)
        ensures
            r@ == raw@,
    {
        NewId { raw, kind: PhantomData }
    }

    /// The id's number.
    pub fn value(&self) -> (r: u32)
        ensures
            r == self@,
    {
        self.raw.value
    }

    /// The typed id with number `value`.
    pub fn from_value(value: u32) -> (r: Self)
        ensures
            r@ == value,
    {
        NewId { raw: RawId { value }, kind: PhantomData }
    }
}

/// The id of an object of interface `T`, by number.
pub struct ObjectId<T> {
    value: u32,
    kind: PhantomData<T>,
}

impl<T> View for ObjectId<T> {
    type V = u32;

    closed spec fn view(&self) -> u32 {
        self.value
    }
}

impl<T> ObjectId<T> {
    /// The id's number.
    pub fn value(&self) -> (r: u32)
        ensures
            r == self@,
    {
        self.value
    }

    /// The typed id with number `value`.
    pub fn from_value(value: u32) -> (r: Self)
        ensures
            r@ == value,
    {
        ObjectId { value, kind: PhantomData }
    }
}

/// The bytes of a protocol string, trailing NUL included, as they stood on the wire.
pub struct RawString {
    bytes: Vec<u8>,
}

impl View for RawString {
    type V = Seq<u8>;

    closed spec fn view(&self) -> Seq<u8> {
        self.bytes@
    }
}

impl RawString {
    /// The string of the bytes `bytes`.
    pub fn from_bytes(bytes: Vec<u8>) -> (r: Self)
        ensures
            r@ == bytes@,
    {
        RawString { bytes }
    }

    /// The bytes of the string.
    pub fn as_bytes(&self) -> (r: &[u8])
        ensures
            r@ == self@,
    {
        self.bytes.as_slice()
    }
}

/// A new object whose interface the request names: the interface, its version and the
/// new id.
pub struct CustomNewId {
    pub name: RawString,
    pub version: u32,
    pub value: u32,
}

impl View for CustomNewId {
    type V = (Seq<u8>, u32, u32);

    open spec fn view(&self) -> (Seq<u8>, u32, u32) {
        (self.name@, self.version, self.value)
    }
}

/// The index of the first of `values` that equals `v`.
pub open spec fn entry_index(values: Seq<u32>, v: u32) -> Option<usize> {
    if exists|i: int| 0 <= i < values.len() && values[i] == v {
        let i = choose|i: int|
            0 <= i < values.len() && values[i] == v && forall|j: int|
                0 <= j < i ==> values[j] != v;
        Some(i as usize)
    } else {
        None
    }
}

/// Finds the first of `values` that equals `v`.
pub fn find_entry(values: &[u32], v: u32) -> (r: Option<usize>)
    ensures
        r == entry_index(values@, v),
{
    let mut i: usize = 0;
    while i < values.len()
        invariant
            i <= values@.len(),
            forall|j: int| 0 <= j < i ==> values@[j] != v,
        decreases values@.len() - i,
    {
        if values[i] == v {
            assert(values@[i as int] == v);
            let ghost k = choose|k: int|
                0 <= k < values@.len() && values@[k] == v && forall|j: int|
                    0 <= j < k ==> values@[j] != v;
            assert(k == i) by {
                if k < i {
                } else if k > i {
                    assert(values@[i as int] == v);
                }
            }
            return Some(i);
        }
        i = i + 1;
    }
    None
}

/// The value of an integer argument that names an entry of a protocol enum.
#[derive(Debug, Clone, Copy, PartialEq, Eq, Structural)]
pub struct RawEnum {
    value: Option<u32>,
}

impl RawEnum {
    /// The value on the wire; none where a signed argument was negative.
    pub closed spec fn wire(&self) -> Option<u32> {
        self.value
    }

    /// An unsigned argument's value.
    pub fn new(value: u32) -> (r: Self)
        ensures
            r.wire() == Some(value),
    {
        RawEnum { value: Some(value) }
    }

    /// An unsigned argument's value.
    pub fn from_u32(value: u32) -> (r: Self)
        ensures
            r.wire() == Some(value),
    {
        RawEnum { value: Some(value) }
    }

    /// A signed argument's value; a negative one names no entry.
    pub fn from_i32(value: i32) -> (r: Self)
        ensures
            value >= 0 ==> r.wire() == Some(value as u32),
            value < 0 ==> r.wire() is None,
    {
        if value >= 0 {
            RawEnum { value: Some(value as u32) }
        } else {
            RawEnum { value: None }
        }
    }

    /// The index of the entry, among an enum's entry values, that the value names.
    pub fn build(&self, values: &[u32]) -> (r: Option<usize>)
        ensures
            r == match self.wire() {
                Some(v) => entry_index(values@, v),
                None => None::<usize>,
            },
    {
        match self.value {
            Some(v) => find_entry(values, v),
            None => None,
        }
    }
}

impl<T> From<u32> for NewId<T> {
    fn from(value: u32) -> (r: Self) {
        NewId { raw: RawId { value }, kind: PhantomData }
    }
}

impl<T> vstd::std_specs::convert::FromSpecImpl<u32> for NewId<T> {
    open spec fn obeys_from_spec() -> bool {
        true
    }

    closed spec fn from_spec(v: u32) -> Self {
        NewId { raw: RawId { value: v }, kind: PhantomData }
    }
}

impl<T> From<u32> for ObjectId<T> {
    fn from(value: u32) -> (r: Self) {
        ObjectId { value, kind: PhantomData }
    }
}

impl<T> vstd::std_specs::convert::FromSpecImpl<u32> for ObjectId<T> {
    open spec fn obeys_from_spec() -> bool {
        true
    }

    closed spec fn from_spec(v: u32) -> Self {
        ObjectId { value: v, kind: PhantomData }
    }
}

/// The id made by `From` is the id of that value.
pub proof fn law_from_value<T>(v: u32)
    ensures
        <NewId<T> as vstd::std_specs::convert::FromSpec<u32>>::from_spec(v)@ == v,
        <ObjectId<T> as vstd::std_specs::convert::FromSpec<u32>>::from_spec(v)@ == v,
{
}

/// Two raw ids are the same exactly when their values are.
pub proof fn law_raw_id_eq(a: RawId, b: RawId)
    ensures
        (a == b) <==> (a@ == b@),
{
}

/// Two typed ids of existing objects are the same exactly when their values are.
pub proof fn law_obj_id_eq<T>(a: ObjId<T>, b: ObjId<T>)
    ensures
        (a == b) <==> (a@ == b@),
{
    if a@ == b@ {
        assert(a.raw == b.raw);
        assert(a.kind == b.kind);
    }
}

/// Two typed ids of new objects are the same exactly when their values are.
pub proof fn law_new_id_eq<T>(a: NewId<T>, b: NewId<T>)
    ensures
        (a == b) <==> (a@ == b@),
{
    if a@ == b@ {
        assert(a.raw == b.raw);
        assert(a.kind == b.kind);
    }
}

/// Two typed object ids are the same exactly when their values are.
pub proof fn law_object_id_eq<T>(a: ObjectId<T>, b: ObjectId<T>)
    ensures
        (a == b) <==> (a@ == b@),
{
    if a@ == b@ {
        assert(a.kind == b.kind);
    }
}

/// The order of two id numbers.
pub open spec fn order_of(a: u32, b: u32) -> Option<Ordering> {
    if a < b {
        Some(Ordering::Less)
    } else if a > b {
        Some(Ordering::Greater)
    } else {
        Some(Ordering::Equal)
    }
}

/// Compares two id numbers.
fn compare(a: u32, b: u32) -> (r: Option<Ordering>)
    ensures
        r == order_of(a, b),
{
    if a < b {
        Some(Ordering::Less)
    } else if a > b {
        Some(Ordering::Greater)
    } else {
        Some(Ordering::Equal)
    }
}

impl PartialOrd for RawId {
    fn partial_cmp(&self, o: &RawId) -> (r: Option<Ordering>) {
        compare(self.value, o.value)
    }
}

impl vstd::std_specs::cmp::PartialOrdSpecImpl for RawId {
    open spec fn obeys_partial_cmp_spec() -> bool {
        true
    }

    open spec fn partial_cmp_spec(&self, o: &RawId) -> Option<Ordering> {
        order_of(self@, o@)
    }
}

impl<T> PartialEq for ObjId<T> {
    fn eq(&self, o: &ObjId<T>) -> (r: bool) {
        self.raw.value == o.raw.value
    }
}

impl<T> vstd::std_specs::cmp::PartialEqSpecImpl for ObjId<T> {
    open spec fn obeys_eq_spec() -> bool {
        true
    }

    open spec fn eq_spec(&self, o: &ObjId<T>) -> bool {
        self@ == o@
    }
}

impl<T> PartialOrd for ObjId<T> {
    fn partial_cmp(&self, o: &ObjId<T>) -> (r: Option<Ordering>) {
        compare(self.raw.value, o.raw.value)
    }
}

impl<T> vstd::std_specs::cmp::PartialOrdSpecImpl for ObjId<T> {
    open spec fn obeys_partial_cmp_spec() -> bool {
        true
    }

    open spec fn partial_cmp_spec(&self, o: &ObjId<T>) -> Option<Ordering> {
        order_of(self@, o@)
    }
}

} // verus!
