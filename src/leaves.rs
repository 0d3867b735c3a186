//! Parsers of the argument encodings of the wire: integers, ids, arrays, strings,
//! enum values and file descriptors.
use vstd::prelude::*;

use crate::parse::{Bytes, Consume, Fd, MapFn, MapParser, Outcome, Parser, Then, ThenFn, Unwrap};
use crate::types::{entry_index, find_entry, RawId, RawString};
use crate::wire::{as_i32, le_u32, pad4, read_i32, read_u32};

verus! {

/// Reads an unsigned little-endian word from four bytes.
pub struct LeU32 {
    unit: (),
}

impl LeU32 {
    /// The reader.
    pub fn new() -> (r: Self) {
        LeU32 { unit: () }
    }
}

impl MapFn<Vec<u8>> for LeU32 {
    type Out = u32;

    open spec fn spec_apply(&self, x: Seq<u8>) -> u32 {
        if x.len() >= 4 {
            le_u32(x, 0) as u32
        } else {
            0
        }
    }

    fn apply(self, x: Vec<u8>) -> (r: u32) {
        if x.len() >= 4 {
            read_u32(x.as_slice(), 0)
        } else {
            0
        }
    }
}

/// Reads a signed little-endian word from four bytes.
pub struct LeI32 {
    unit: (),
}

impl LeI32 {
    /// The reader.
    pub fn new() -> (r: Self) {
        LeI32 { unit: () }
    }
}

impl MapFn<Vec<u8>> for LeI32 {
    type Out = i32;

    open spec fn spec_apply(&self, x: Seq<u8>) -> i32 {
        if x.len() >= 4 {
            as_i32(le_u32(x, 0)) as i32
        } else {
            0
        }
    }

    fn apply(self, x: Vec<u8>) -> (r: i32) {
        if x.len() >= 4 {
            read_i32(x.as_slice(), 0)
        } else {
            0
        }
    }
}

/// Reads an object id from four bytes.
pub struct LeRawId {
    unit: (),
}

impl LeRawId {
    /// The reader.
    pub fn new() -> (r: Self) {
        LeRawId { unit: () }
    }
}

impl MapFn<Vec<u8>> for LeRawId {
    type Out = RawId;

    open spec fn spec_apply(&self, x: Seq<u8>) -> u32 {
        if x.len() >= 4 {
            le_u32(x, 0) as u32
        } else {
            0
        }
    }

    fn apply(self, x: Vec<u8>) -> (r: RawId) {
        if x.len() >= 4 {
            RawId::from_value(read_u32(x.as_slice(), 0))
        } else {
            RawId::from_value(0)
        }
    }
}

/// What a parser of one word gives: the word `w` of the first four bytes.
pub open spec fn word_run<T>(b: Seq<u8>, w: T) -> Outcome<T> {
    if b.len() >= 4 {
        Outcome::Done(w, 4, 0)
    } else {
        Outcome::Short(b.len(), 0)
    }
}

/// The four bytes of a word, taken from the front of `b`, read as the word there.
proof fn lemma_take4(b: Seq<u8>)
    requires
        b.len() >= 4,
    ensures
        le_u32(b.take(4), 0) == le_u32(b, 0),
        Seq::<u8>::empty() + b.take(4) == b.take(4),
{
    assert(Seq::<u8>::empty() + b.take(4) =~= b.take(4));
}

/// A parser of an unsigned 32-bit argument.
pub fn uint() -> (r: MapParser<Bytes, LeU32>)
    ensures
        forall|b: Seq<u8>, f: Seq<i32>| #[trigger]
            r.run(b, f) == word_run(b, le_u32(b, 0) as u32),
{
    let r = MapParser::new(Bytes::new(4), LeU32 { unit: () });
    assert forall|b: Seq<u8>, f: Seq<i32>| #[trigger]
        r.run(b, f) == word_run(b, le_u32(b, 0) as u32) by {
        if b.len() >= 4 {
            lemma_take4(b);
        }
    }
    r
}

/// A parser of a signed 32-bit (`int`) argument.
pub fn int32() -> (r: MapParser<Bytes, LeI32>)
    ensures
        forall|b: Seq<u8>, f: Seq<i32>| #[trigger]
            r.run(b, f) == word_run(b, as_i32(le_u32(b, 0)) as i32),
{
    let r = MapParser::new(Bytes::new(4), LeI32 { unit: () });
    assert forall|b: Seq<u8>, f: Seq<i32>| #[trigger]
        r.run(b, f) == word_run(b, as_i32(le_u32(b, 0)) as i32) by {
        if b.len() >= 4 {
            lemma_take4(b);
        }
    }
    r
}

/// A parser of a fixed-point argument: the signed 24.8 value as its 32 raw bits.
pub fn fixed() -> (r: MapParser<Bytes, LeI32>)
    ensures
        forall|b: Seq<u8>, f: Seq<i32>| #[trigger]
            r.run(b, f) == word_run(b, as_i32(le_u32(b, 0)) as i32),
{
    int32()
}

/// A parser of an object id.
pub fn raw_id() -> (r: MapParser<Bytes, LeRawId>)
    ensures
        forall|b: Seq<u8>, f: Seq<i32>| #[trigger]
            r.run(b, f) == word_run(b, le_u32(b, 0) as u32),
{
    let r = MapParser::new(Bytes::new(4), LeRawId { unit: () });
    assert forall|b: Seq<u8>, f: Seq<i32>| #[trigger]
        r.run(b, f) == word_run(b, le_u32(b, 0) as u32) by {
        if b.len() >= 4 {
            lemma_take4(b);
        }
    }
    r
}

/// A parser of a file descriptor argument, taken from the descriptor queue.
pub fn fd() -> (r: Fd)
    ensures
        forall|b: Seq<u8>, f: Seq<i32>| #[trigger]
            r.run(b, f) == if f.len() >= 1 {
                Outcome::Done(f[0], 0, 1)
            } else {
                Outcome::<i32>::Short(0, 0)
            },
{
    Fd::new()
}

/// Hands back the bytes it holds, whatever the discarded padding gave.
pub struct KeepBytes {
    bytes: Vec<u8>,
}

impl MapFn<(usize, usize)> for KeepBytes {
    type Out = Vec<u8>;

    open spec fn spec_apply(&self, x: (usize, usize)) -> Seq<u8> {
        self.held()
    }

    fn apply(self, x: (usize, usize)) -> (r: Vec<u8>) {
        self.bytes
    }
}

impl KeepBytes {
    /// The bytes held.
    pub closed spec fn held(&self) -> Seq<u8> {
        self.bytes@
    }
}

/// The padding that follows `n` bytes up to the next multiple of four.
pub open spec fn pad_after(n: nat) -> nat {
    (pad4(n) - n) as nat
}

/// After the bytes of an array, discards their padding and hands the bytes back.
pub struct PadFn {
    unit: (),
}

impl ThenFn<Vec<u8>> for PadFn {
    type Next = MapParser<Consume, KeepBytes>;

    open spec fn next_run(&self, v: Seq<u8>, b: Seq<u8>, f: Seq<i32>) -> Outcome<Seq<u8>> {
        if b.len() >= pad_after(v.len()) {
            Outcome::Done(v, pad_after(v.len()), 0)
        } else {
            Outcome::Short(b.len(), 0)
        }
    }

    proof fn lemma_next(&self, v: Seq<u8>, b: Seq<u8>, f: Seq<i32>, x: Seq<u8>, y: Seq<i32>) {
    }

    fn call(self, x: Vec<u8>) -> (r: MapParser<Consume, KeepBytes>) {
        let rem = x.len() % 4;
        let pad: usize = if rem == 0 {
            0
        } else {
            4 - rem
        };
        assert(pad == pad_after(x@.len())) by {
            let n = x@.len() as int;
            assert(pad4(n as nat) == (n + 3) / 4 * 4);
            assert(rem == n % 4);
            assert((n + 3) / 4 * 4 - n == if n % 4 == 0 {
                0
            } else {
                4 - n % 4
            }) by (nonlinear_arith)
                requires
                    n >= 0,
            ;
        }
        let ghost held = x@;
        let r = MapParser::new(Consume::new(pad, 0), KeepBytes { bytes: x });
        assert forall|b: Seq<u8>, f: Seq<i32>| #[trigger]
            r.run(b, f) == self.next_run(held, b, f) by {}
        r
    }
}

/// After the length of an array, reads that many bytes and their padding.
pub struct ArrayBody {
    unit: (),
}

impl ThenFn<u32> for ArrayBody {
    type Next = Then<Bytes, PadFn, MapParser<Consume, KeepBytes>>;

    open spec fn next_run(&self, v: u32, b: Seq<u8>, f: Seq<i32>) -> Outcome<Seq<u8>> {
        if b.len() >= pad4(v as nat) {
            Outcome::Done(b.take(v as int), pad4(v as nat), 0)
        } else {
            Outcome::Short(b.len(), 0)
        }
    }

    proof fn lemma_next(&self, v: u32, b: Seq<u8>, f: Seq<i32>, x: Seq<u8>, y: Seq<i32>) {
        let n = pad4(v as nat) as int;
        if b.len() >= n {
            assert((b.take(n) + x).take(v as int) =~= b.take(v as int));
        }
    }

    fn call(self, x: u32) -> (r: Then<Bytes, PadFn, MapParser<Consume, KeepBytes>>) {
        let r = Then::new(Bytes::new(x as usize), PadFn { unit: () });
        assert forall|b: Seq<u8>, f: Seq<i32>| #[trigger]
            r.run(b, f) == self.next_run(x, b, f) by {
            let v = x as nat;
            if b.len() >= v {
                assert(Seq::<u8>::empty() + b.take(v as int) =~= b.take(v as int));
                assert(b.skip(v as int).len() == b.len() - v);
            }
        }
        r
    }
}

/// The parser of an array argument: a 32-bit length, that many bytes, and padding to
/// the next multiple of four.
pub type ArrayParser = Then<
    MapParser<Bytes, LeU32>,
    ArrayBody,
    Then<Bytes, PadFn, MapParser<Consume, KeepBytes>>,
>;

/// What the parser of an array gives on `b`.
pub open spec fn array_run(b: Seq<u8>) -> Outcome<Seq<u8>> {
    if b.len() >= 4 {
        let len = le_u32(b, 0);
        if b.len() - 4 >= pad4(len) {
            Outcome::Done(b.subrange(4, 4 + len as int), 4 + pad4(len), 0)
        } else {
            Outcome::Short(b.len(), 0)
        }
    } else {
        Outcome::Short(b.len(), 0)
    }
}

/// A parser of an array argument.
pub fn array() -> (r: ArrayParser)
    ensures
        forall|b: Seq<u8>, f: Seq<i32>| #[trigger] r.run(b, f) == array_run(b),
{
    let r = Then::new(uint(), ArrayBody { unit: () });
    assert forall|b: Seq<u8>, f: Seq<i32>| #[trigger] r.run(b, f) == array_run(b) by {
        if b.len() >= 4 {
            let len = le_u32(b, 0);
            assert(len < 0x1_0000_0000);
            assert((len as u32) as nat == len);
            let rest = b.skip(4);
            if rest.len() >= pad4(len) {
                assert(rest.take(len as int) =~= b.subrange(4, 4 + len as int));
            }
        }
    }
    r
}

/// Makes a string of the bytes of an array.
pub struct ToRawString {
    unit: (),
}

impl MapFn<Vec<u8>> for ToRawString {
    type Out = RawString;

    open spec fn spec_apply(&self, x: Seq<u8>) -> Seq<u8> {
        x
    }

    fn apply(self, x: Vec<u8>) -> (r: RawString) {
        RawString::from_bytes(x)
    }
}

/// The parser of a string argument.
pub type StringParser = MapParser<ArrayParser, ToRawString>;

/// A parser of a string argument: encoded as an array, trailing NUL included.
pub fn string() -> (r: StringParser)
    ensures
        forall|b: Seq<u8>, f: Seq<i32>| #[trigger] r.run(b, f) == array_run(b),
{
    let r = MapParser::new(array(), ToRawString { unit: () });
    assert forall|b: Seq<u8>, f: Seq<i32>| #[trigger] r.run(b, f) == array_run(b) by {
        assert(r.inner().run(b, f) == array_run(b));
    }
    r
}

/// Looks a value up among the values of an enum's entries.
pub struct EnumLookup {
    values: Vec<u32>,
}

impl EnumLookup {
    /// The lookup among `values`.
    pub fn new(values: Vec<u32>) -> (r: Self)
        ensures
            r.values() == values@,
    {
        EnumLookup { values }
    }

    /// The values of the entries, in order.
    pub closed spec fn values(&self) -> Seq<u32> {
        self.values@
    }
}

impl MapFn<u32> for EnumLookup {
    type Out = Option<usize>;

    open spec fn spec_apply(&self, x: u32) -> Option<usize> {
        entry_index(self.values(), x)
    }

    fn apply(self, x: u32) -> (r: Option<usize>) {
        find_entry(self.values.as_slice(), x)
    }
}

/// The parser of an unsigned argument that names an enum entry.
pub type EnumParser = Unwrap<MapParser<MapParser<Bytes, LeU32>, EnumLookup>>;

/// What the parser of an enum argument gives on `b`: the index of the entry that the
/// word names, or a failure where it names none.
pub open spec fn enum_run(values: Seq<u32>, b: Seq<u8>) -> Outcome<usize> {
    if b.len() >= 4 {
        match entry_index(values, le_u32(b, 0) as u32) {
            Some(i) => Outcome::Done(i, 4, 0),
            None => Outcome::Fail(4, 0),
        }
    } else {
        Outcome::Short(b.len(), 0)
    }
}

/// A parser of an unsigned argument tagged with an enum whose entries have the values
/// `values`: it yields the index of the matching entry, and fails on any other value.
pub fn uint_enum(values: Vec<u32>) -> (r: EnumParser)
    ensures
        forall|b: Seq<u8>, f: Seq<i32>| #[trigger] r.run(b, f) == enum_run(values@, b),
{
    let ghost vs = values@;
    let r = Unwrap::new(MapParser::new(uint(), EnumLookup::new(values)));
    assert forall|b: Seq<u8>, f: Seq<i32>| #[trigger] r.run(b, f) == enum_run(vs, b) by {
        assert(r.inner().inner().run(b, f) == word_run(b, le_u32(b, 0) as u32));
    }
    r
}

} // verus!
