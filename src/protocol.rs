//! Protocol descriptions as the XML of a protocol gives them: interfaces with their
//! requests, events and enums, and the rule that turns a request's arguments into the
//! signature its decoder follows. Names and texts are UTF-8 bytes.
use vstd::prelude::*;

use crate::request::{kind_views, ArgKind, KindModel};

verus! {

/// The type of an argument, as the `type` attribute names it.
#[derive(Debug, Clone, Copy, PartialEq, Eq, Structural)]
pub enum ArgType {
    Int,
    Uint,
    Fixed,
    String,
    Object,
    NewId,
    Array,
    Fd,
}

/// Compares two byte strings.
pub fn bytes_eq(a: &[u8], b: &[u8]) -> (r: bool)
    ensures
        r == (a@ == b@),
{
    if a.len() != b.len() {
        return false;
    }
    let mut i: usize = 0;
    while i < a.len()
        invariant
            a@.len() == b@.len(),
            i <= a@.len(),
            forall|j: int| 0 <= j < i ==> a@[j] == b@[j],
        decreases a@.len() - i,
    {
        if a[i] != b[i] {
            return false;
        }
        i = i + 1;
    }
    assert(a@ =~= b@);
    true
}

/// The type that the name `s` stands for.
pub open spec fn arg_type_of(s: Seq<u8>) -> Option<ArgType> {
    if s == seq![105u8, 110u8, 116u8] {
        Some(ArgType::Int)
    } else if s == seq![117u8, 105u8, 110u8, 116u8] {
        Some(ArgType::Uint)
    } else if s == seq![102u8, 105u8, 120u8, 101u8, 100u8] {
        Some(ArgType::Fixed)
    } else if s == seq![115u8, 116u8, 114u8, 105u8, 110u8, 103u8] {
        Some(ArgType::String)
    } else if s == seq![111u8, 98u8, 106u8, 101u8, 99u8, 116u8] {
        Some(ArgType::Object)
    } else if s == seq![110u8, 101u8, 119u8, 95u8, 105u8, 100u8] {
        Some(ArgType::NewId)
    } else if s == seq![97u8, 114u8, 114u8, 97u8, 121u8] {
        Some(ArgType::Array)
    } else if s == seq![102u8, 100u8] {
        Some(ArgType::Fd)
    } else {
        None
    }
}

impl ArgType {
    /// The type named `name` (`int`, `uint`, `fixed`, `string`, `object`, `new_id`,
    /// `array` or `fd`); none for any other name.
    pub fn from_name(name: &[u8]) -> (r: Option<ArgType>)
        ensures
            r == arg_type_of(name@),
    {
        let int_name: [u8; 3] = [105, 110, 116];
        let uint: [u8; 4] = [117, 105, 110, 116];
        let fixed: [u8; 5] = [102, 105, 120, 101, 100];
        let string: [u8; 6] = [115, 116, 114, 105, 110, 103];
        let object: [u8; 6] = [111, 98, 106, 101, 99, 116];
        let new_id: [u8; 6] = [110, 101, 119, 95, 105, 100];
        let array: [u8; 5] = [97, 114, 114, 97, 121];
        let fd: [u8; 2] = [102, 100];
        assert(int_name@ =~= seq![105u8, 110u8, 116u8]);
        assert(uint@ =~= seq![117u8, 105u8, 110u8, 116u8]);
        assert(fixed@ =~= seq![102u8, 105u8, 120u8, 101u8, 100u8]);
        assert(string@ =~= seq![115u8, 116u8, 114u8, 105u8, 110u8, 103u8]);
        assert(object@ =~= seq![111u8, 98u8, 106u8, 101u8, 99u8, 116u8]);
        assert(new_id@ =~= seq![110u8, 101u8, 119u8, 95u8, 105u8, 100u8]);
        assert(array@ =~= seq![97u8, 114u8, 114u8, 97u8, 121u8]);
        assert(fd@ =~= seq![102u8, 100u8]);
        if bytes_eq(name, int_name.as_slice()) {
            Some(ArgType::Int)
        } else if bytes_eq(name, uint.as_slice()) {
            Some(ArgType::Uint)
        } else if bytes_eq(name, fixed.as_slice()) {
            Some(ArgType::Fixed)
        } else if bytes_eq(name, string.as_slice()) {
            Some(ArgType::String)
        } else if bytes_eq(name, object.as_slice()) {
            Some(ArgType::Object)
        } else if bytes_eq(name, new_id.as_slice()) {
            Some(ArgType::NewId)
        } else if bytes_eq(name, array.as_slice()) {
            Some(ArgType::Array)
        } else if bytes_eq(name, fd.as_slice()) {
            Some(ArgType::Fd)
        } else {
            None
        }
    }
}

/// The value of a decimal digit, or of a hexadecimal one where `hex`.
pub open spec fn digit_value(c: u8, hex: bool) -> Option<nat> {
    if 48 <= c <= 57 {
        Some((c - 48) as nat)
    } else if hex && 97 <= c <= 102 {
        Some((c - 87) as nat)
    } else if hex && 65 <= c <= 70 {
        Some((c - 55) as nat)
    } else {
        None
    }
}

/// The number that the digits `s` write in base 16 where `hex`, else base 10.
pub open spec fn digits_value(s: Seq<u8>, hex: bool) -> Option<nat>
    decreases s.len(),
{
    if s.len() == 0 {
        Some(0)
    } else {
        match (digits_value(s.drop_last(), hex), digit_value(s.last(), hex)) {
            (Some(high), Some(d)) => Some(high * (if hex {
                16nat
            } else {
                10nat
            }) + d),
            _ => None,
        }
    }
}

/// The value of an enum entry as the XML writes it: decimal digits, or `0x` and
/// hexadecimal digits; none where it is empty, holds another character, or exceeds
/// 32 bits.
pub open spec fn entry_value(s: Seq<u8>) -> Option<u32> {
    let hex = s.len() >= 2 && s[0] == 48u8 && s[1] == 120u8;
    let digits = if hex {
        s.skip(2)
    } else {
        s
    };
    if digits.len() == 0 {
        None
    } else {
        match digits_value(digits, hex) {
            Some(v) => if v <= u32::MAX {
                Some(v as u32)
            } else {
                None
            },
            None => None,
        }
    }
}

/// Reads the value of an enum entry: decimal, or hexadecimal after `0x`.
pub fn parse_entry_value(s: &[u8]) -> (r: Option<u32>)
    ensures
        r == entry_value(s@),
{
    let hex = s.len() >= 2 && s[0] == 48u8 && s[1] == 120u8;
    let start: usize = if hex {
        2
    } else {
        0
    };
    let ghost digits = s@.skip(start as int);
    assert(digits =~= (if hex {
        s@.skip(2)
    } else {
        s@
    }));
    if start == s.len() {
        assert(digits.len() == 0);
        return None;
    }
    assert(s@.subrange(start as int, start as int) =~= Seq::<u8>::empty());
    let base: u64 = if hex {
        16
    } else {
        10
    };
    let mut acc: u64 = 0;
    let mut i: usize = start;
    while i < s.len()
        invariant
            start <= i <= s@.len(),
            start < s@.len(),
            hex == (s@.len() >= 2 && s@[0] == 48u8 && s@[1] == 120u8),
            start == (if hex {
                2usize
            } else {
                0usize
            }),
            digits == s@.skip(start as int),
            digits == (if hex {
                s@.skip(2)
            } else {
                s@
            }),
            base == (if hex {
                16u64
            } else {
                10u64
            }),
            digits_value(s@.subrange(start as int, i as int), hex) == Some(acc as nat),
            acc <= u32::MAX,
        decreases s@.len() - i,
    {
        let c = s[i];
        proof {
            let pre = s@.subrange(start as int, i + 1);
            assert(pre.drop_last() =~= s@.subrange(start as int, i as int));
            assert(pre.last() == c);
            assert(pre =~= digits.take(pre.len() as int));
        }
        let d: u64 = if 48 <= c && c <= 57 {
            (c - 48) as u64
        } else if hex && 97 <= c && c <= 102 {
            (c - 87) as u64
        } else if hex && 65 <= c && c <= 70 {
            (c - 55) as u64
        } else {
            proof {
                lemma_digits_none(s@.subrange(start as int, i + 1), digits, hex);
            }
            return None;
        };
        assert(acc * base + d <= 0xffff_ffff * 16 + 15) by (nonlinear_arith)
            requires
                acc <= 0xffff_ffff,
                base <= 16,
                d <= 15,
        ;
        let next = acc * base + d;
        if next > u32::MAX as u64 {
            proof {
                lemma_digits_grow(s@.subrange(start as int, i + 1), digits, hex);
            }
            return None;
        }
        acc = next;
        i = i + 1;
    }
    assert(s@.subrange(start as int, s@.len() as int) =~= digits);
    Some(acc as u32)
}

/// Digits that stop being digits make no number, however they go on.
proof fn lemma_digits_none(pre: Seq<u8>, all: Seq<u8>, hex: bool)
    requires
        pre.len() > 0,
        pre.len() <= all.len(),
        pre == all.take(pre.len() as int),
        digits_value(pre, hex) is None,
    ensures
        digits_value(all, hex) is None,
    decreases all.len() - pre.len(),
{
    if pre.len() < all.len() {
        let longer = all.take(pre.len() + 1int);
        assert(longer.drop_last() =~= pre);
        lemma_digits_none(longer, all, hex);
    } else {
        assert(all =~= pre);
    }
}

/// A number that a prefix of the digits already makes above 32 bits only grows.
proof fn lemma_digits_grow(pre: Seq<u8>, all: Seq<u8>, hex: bool)
    requires
        pre.len() > 0,
        pre.len() <= all.len(),
        pre == all.take(pre.len() as int),
        digits_value(pre, hex) matches Some(v) && v > u32::MAX,
    ensures
        match digits_value(all, hex) {
            Some(v) => v > u32::MAX,
            None => true,
        },
    decreases all.len() - pre.len(),
{
    if pre.len() < all.len() {
        let longer = all.take(pre.len() + 1int);
        assert(longer.drop_last() =~= pre);
        if digits_value(longer, hex) is None {
            lemma_digits_none(longer, all, hex);
        } else {
            lemma_digits_grow(longer, all, hex);
        }
    } else {
        assert(all =~= pre);
    }
}

/// A description: a one-line summary and an optional longer text.
pub struct Description {
    pub summary: Vec<u8>,
    pub text: Option<Vec<u8>>,
}

impl Description {
    /// The text to document an item with: the longer text where there is one, else the
    /// summary.
    pub fn doc_text(&self) -> (r: &[u8])
        ensures
            r@ == match self.text {
                Some(t) => t@,
                None => self.summary@,
            },
    {
        match &self.text {
            Some(t) => t.as_slice(),
            None => self.summary.as_slice(),
        }
    }
}

/// Where the first line of `s` ends: the index of its first newline, or its length.
pub open spec fn line_end(s: Seq<u8>) -> nat
    decreases s.len(),
{
    if s.len() == 0 || s[0] == 10u8 {
        0
    } else {
        1 + line_end(s.skip(1))
    }
}

/// A line without the carriage return that may end it.
pub open spec fn strip_cr(l: Seq<u8>) -> Seq<u8> {
    if l.len() > 0 && l.last() == 13u8 {
        l.drop_last()
    } else {
        l
    }
}

/// The lines of `s`: split at each newline, each without a final carriage return; a
/// final newline ends the last line rather than starting an empty one.
pub open spec fn lines_of(s: Seq<u8>) -> Seq<Seq<u8>>
    decreases s.len(),
{
    if s.len() == 0 {
        seq![]
    } else {
        let n = line_end(s);
        let rest = if n < s.len() {
            s.skip(n + 1int)
        } else {
            seq![]
        };
        seq![strip_cr(s.take(n as int))] + lines_of(rest)
    }
}

/// Whether `c` is ASCII white space.
pub open spec fn is_space(c: u8) -> bool {
    c == 32u8 || c == 9u8 || c == 10u8 || c == 13u8 || c == 12u8 || c == 11u8
}

/// Whether the two bytes `a b` are the UTF-8 encoding of a white space character
/// (U+0085, U+00A0).
pub open spec fn is_space2(a: u8, b: u8) -> bool {
    a == 0xc2u8 && (b == 0x85u8 || b == 0xa0u8)
}

/// Whether the three bytes `a b c` are the UTF-8 encoding of a white space character
/// (U+1680, U+2000 to U+200A, U+2028, U+2029, U+202F, U+205F, U+3000).
pub open spec fn is_space3(a: u8, b: u8, c: u8) -> bool {
    (a == 0xe1u8 && b == 0x9au8 && c == 0x80u8) || (a == 0xe2u8 && b == 0x80u8 && ((0x80u8 <= c
        && c <= 0x8au8) || c == 0xa8u8 || c == 0xa9u8 || c == 0xafu8)) || (a == 0xe2u8 && b
        == 0x81u8 && c == 0x9fu8) || (a == 0xe3u8 && b == 0x80u8 && c == 0x80u8)
}

/// The length of the encoding of a white space character at the start of `l`, or 0.
pub open spec fn space_prefix(l: Seq<u8>) -> nat {
    if l.len() >= 1 && is_space(l[0]) {
        1
    } else if l.len() >= 2 && is_space2(l[0], l[1]) {
        2
    } else if l.len() >= 3 && is_space3(l[0], l[1], l[2]) {
        3
    } else {
        0
    }
}

/// The length of the encoding of a white space character at the end of `l`, or 0.
pub open spec fn space_suffix(l: Seq<u8>) -> nat {
    let n = l.len() as int;
    if n >= 1 && is_space(l[n - 1]) {
        1
    } else if n >= 2 && is_space2(l[n - 2], l[n - 1]) {
        2
    } else if n >= 3 && is_space3(l[n - 3], l[n - 2], l[n - 1]) {
        3
    } else {
        0
    }
}

/// `l` without the white space (Unicode's, in UTF-8) at its start and end.
pub open spec fn trim(l: Seq<u8>) -> Seq<u8>
    decreases l.len(),
{
    if space_prefix(l) > 0 {
        trim(l.skip(space_prefix(l) as int))
    } else if space_suffix(l) > 0 {
        trim(l.take(l.len() - space_suffix(l)))
    } else {
        l
    }
}

/// The length of the white space encoding at the start of `l[a..b]`, or 0.
fn space_prefix_at(l: &[u8], a: usize, b: usize) -> (r: usize)
    requires
        a <= b <= l@.len(),
    ensures
        r == space_prefix(l@.subrange(a as int, b as int)),
{
    let n = b - a;
    if n >= 1 && (l[a] == 32 || l[a] == 9 || l[a] == 10 || l[a] == 13 || l[a] == 12 || l[a] == 11) {
        1
    } else if n >= 2 && l[a] == 0xc2 && (l[a + 1] == 0x85 || l[a + 1] == 0xa0) {
        2
    } else if n >= 3 && ((l[a] == 0xe1 && l[a + 1] == 0x9a && l[a + 2] == 0x80) || (l[a] == 0xe2
        && l[a + 1] == 0x80 && ((0x80 <= l[a + 2] && l[a + 2] <= 0x8a) || l[a + 2] == 0xa8
        || l[a + 2] == 0xa9 || l[a + 2] == 0xaf)) || (l[a] == 0xe2 && l[a + 1] == 0x81 && l[a
        + 2] == 0x9f) || (l[a] == 0xe3 && l[a + 1] == 0x80 && l[a + 2] == 0x80)) {
        3
    } else {
        0
    }
}

/// The length of the white space encoding at the end of `l[a..b]`, or 0.
fn space_suffix_at(l: &[u8], a: usize, b: usize) -> (r: usize)
    requires
        a <= b <= l@.len(),
    ensures
        r == space_suffix(l@.subrange(a as int, b as int)),
{
    let n = b - a;
    if n >= 1 && (l[b - 1] == 32 || l[b - 1] == 9 || l[b - 1] == 10 || l[b - 1] == 13 || l[b
        - 1] == 12 || l[b - 1] == 11) {
        1
    } else if n >= 2 && l[b - 2] == 0xc2 && (l[b - 1] == 0x85 || l[b - 1] == 0xa0) {
        2
    } else if n >= 3 && ((l[b - 3] == 0xe1 && l[b - 2] == 0x9a && l[b - 1] == 0x80) || (l[b - 3]
        == 0xe2 && l[b - 2] == 0x80 && ((0x80 <= l[b - 1] && l[b - 1] <= 0x8a) || l[b - 1]
        == 0xa8 || l[b - 1] == 0xa9 || l[b - 1] == 0xaf)) || (l[b - 3] == 0xe2 && l[b - 2]
        == 0x81 && l[b - 1] == 0x9f) || (l[b - 3] == 0xe3 && l[b - 2] == 0x80 && l[b - 1]
        == 0x80)) {
        3
    } else {
        0
    }
}

proof fn lemma_line_end_at(s: Seq<u8>, n: int)
    requires
        0 <= n <= s.len(),
        forall|j: int| 0 <= j < n ==> s[j] != 10u8,
        n == s.len() || s[n] == 10u8,
    ensures
        line_end(s) == n,
    decreases n,
{
    if n > 0 {
        assert forall|j: int| 0 <= j < n - 1 implies s.skip(1)[j] != 10u8 by {
            assert(s.skip(1)[j] == s[j + 1]);
        }
        lemma_line_end_at(s.skip(1), n - 1);
    }
}

/// Copies `s[from..to]` without a final carriage return.
fn copy_line(s: &[u8], from: usize, to: usize) -> (r: Vec<u8>)
    requires
        from <= to <= s@.len(),
    ensures
        r@ == strip_cr(s@.subrange(from as int, to as int)),
{
    let end = if to > from && s[to - 1] == 13u8 {
        to - 1
    } else {
        to
    };
    let r = crate::framer::copy_range(s, from, end);
    assert(end < to ==> s@.subrange(from as int, to as int).drop_last() =~= s@.subrange(
        from as int,
        end as int,
    ));
    r
}

/// Splits `s` into its lines.
pub fn split_lines(s: &[u8]) -> (r: Vec<Vec<u8>>)
    ensures
        r@.map_values(|l: Vec<u8>| l@) == lines_of(s@),
{
    let mut out: Vec<Vec<u8>> = Vec::new();
    let mut start: usize = 0;
    assert(s@.skip(0) =~= s@);
    while start < s.len()
        invariant
            start <= s@.len(),
            lines_of(s@) == out@.map_values(|l: Vec<u8>| l@) + lines_of(s@.skip(start as int)),
        decreases s@.len() - start,
    {
        let ghost t = s@.skip(start as int);
        let mut end: usize = start;
        while end < s.len() && s[end] != 10u8
            invariant
                start <= end <= s@.len(),
                forall|j: int| start <= j < end ==> s@[j] != 10u8,
            decreases s@.len() - end,
        {
            end = end + 1;
        }
        proof {
            assert forall|j: int| 0 <= j < end - start implies t[j] != 10u8 by {
                assert(t[j] == s@[start + j]);
            }
            if end < s@.len() {
                assert(t[end - start] == s@[end as int]);
            }
            lemma_line_end_at(t, end - start);
            assert(t.take(end - start) =~= s@.subrange(start as int, end as int));
        }
        let line = copy_line(s, start, end);
        let ghost prev = out@;
        out.push(line);
        proof {
            assert(out@.map_values(|l: Vec<u8>| l@) =~= prev.map_values(|l: Vec<u8>| l@).push(
                line@,
            ));
        }
        if end < s.len() {
            proof {
                assert(t.skip(end - start + 1) =~= s@.skip(end + 1));
            }
            start = end + 1;
        } else {
            proof {
                assert(s@.skip(s@.len() as int) =~= Seq::<u8>::empty());
            }
            start = end;
        }
        proof {
            assert(lines_of(s@) =~= out@.map_values(|l: Vec<u8>| l@) + lines_of(
                s@.skip(start as int),
            ));
        }
    }
    proof {
        assert(s@.skip(start as int) =~= Seq::<u8>::empty());
        assert(out@.map_values(|l: Vec<u8>| l@) + Seq::<Seq<u8>>::empty() =~= out@.map_values(
            |l: Vec<u8>| l@,
        ));
    }
    out
}

/// `l` without the white space (Unicode's, in UTF-8) at its start and end.
pub fn trim_bytes(l: &[u8]) -> (r: Vec<u8>)
    ensures
        r@ == trim(l@),
{
    let mut a: usize = 0;
    let mut b: usize = l.len();
    assert(l@.subrange(0, l@.len() as int) =~= l@);
    loop
        invariant
            a <= b <= l@.len(),
            trim(l@) == trim(l@.subrange(a as int, b as int)),
        ensures
            a <= b <= l@.len(),
            trim(l@) == l@.subrange(a as int, b as int),
        decreases b - a,
    {
        let p = space_prefix_at(l, a, b);
        if p > 0 {
            assert(l@.subrange(a as int, b as int).skip(p as int) =~= l@.subrange(
                a + p,
                b as int,
            ));
            a = a + p;
        } else {
            let q = space_suffix_at(l, a, b);
            if q > 0 {
                assert(l@.subrange(a as int, b as int).take(b - a - q) =~= l@.subrange(
                    a as int,
                    b - q,
                ));
                b = b - q;
            } else {
                assert(trim(l@.subrange(a as int, b as int)) == l@.subrange(a as int, b as int));
                break;
            }
        }
    }
    crate::framer::copy_range(l, a, b)
}

impl Description {
    /// The lines of the documentation text.
    pub fn doc_lines(&self) -> (r: Vec<Vec<u8>>)
        ensures
            r@.map_values(|l: Vec<u8>| l@) == lines_of(
                match self.text {
                    Some(t) => t@,
                    None => self.summary@,
                },
            ),
    {
        split_lines(self.doc_text())
    }

    /// The lines of the documentation text, each without the white space around it.
    pub fn lines(&self) -> (r: Vec<Vec<u8>>)
        ensures
            r@.len() == lines_of(
                match self.text {
                    Some(t) => t@,
                    None => self.summary@,
                },
            ).len(),
            forall|i: int|
                0 <= i < r@.len() ==> (#[trigger] r@[i])@ == trim(
                    lines_of(
                        match self.text {
                            Some(t) => t@,
                            None => self.summary@,
                        },
                    )[i],
                ),
    {
        let raw = self.doc_lines();
        let ghost ls = raw@.map_values(|l: Vec<u8>| l@);
        let mut out: Vec<Vec<u8>> = Vec::new();
        let mut i: usize = 0;
        while i < raw.len()
            invariant
                ls == raw@.map_values(|l: Vec<u8>| l@),
                i <= raw@.len(),
                out@.len() == i,
                forall|j: int| 0 <= j < i ==> (#[trigger] out@[j])@ == trim(ls[j]),
            decreases raw@.len() - i,
        {
            out.push(trim_bytes(raw[i].as_slice()));
            i = i + 1;
        }
        out
    }
}

/// An argument of a request or event.
pub struct Arg {
    pub name: Vec<u8>,
    pub ty: ArgType,
    /// The interface of an object or new object, where it is fixed.
    pub interface: Option<Vec<u8>>,
    /// The enum whose entries the integer names, where it is tagged with one.
    pub enum_kind: Option<Vec<u8>>,
    pub allow_null: bool,
    pub summary: Vec<u8>,
}

/// An entry of an enum.
pub struct Entry {
    pub name: Vec<u8>,
    pub value: u32,
    pub summary: Vec<u8>,
}

/// An enum of an interface.
pub struct Enum {
    pub name: Vec<u8>,
    pub description: Option<Description>,
    pub entries: Vec<Entry>,
}

/// A request: a message a client sends.
pub struct Request {
    pub name: Vec<u8>,
    pub description: Option<Description>,
    pub args: Vec<Arg>,
}

/// An event: a message a server sends.
pub struct Event {
    pub name: Vec<u8>,
    pub description: Option<Description>,
    pub args: Vec<Arg>,
}

/// An interface: its version, requests, events and enums.
pub struct Interface {
    pub name: Vec<u8>,
    pub version: u32,
    pub description: Option<Description>,
    pub requests: Vec<Request>,
    pub events: Vec<Event>,
    pub enums: Vec<Enum>,
}

/// A protocol: a set of interfaces.
pub struct Protocol {
    pub name: Vec<u8>,
    pub interfaces: Vec<Interface>,
}

/// The values of an enum's entries, in order.
pub open spec fn entry_values(e: Enum) -> Seq<u32> {
    e.entries@.map_values(|x: Entry| x.value)
}

/// The enum of `enums` named `name`: the first with that name.
pub open spec fn enum_named(enums: Seq<Enum>, name: Seq<u8>) -> Option<Enum> {
    if exists|i: int| 0 <= i < enums.len() && enums[i].name@ == name {
        let i = choose|i: int|
            0 <= i < enums.len() && enums[i].name@ == name && forall|j: int|
                0 <= j < i ==> enums[j].name@ != name;
        Some(enums[i])
    } else {
        None
    }
}

/// The interface of `ifaces` named `name`: the first with that name.
pub open spec fn interface_named(ifaces: Seq<Interface>, name: Seq<u8>) -> Option<Interface> {
    if exists|i: int| 0 <= i < ifaces.len() && ifaces[i].name@ == name {
        let i = choose|i: int|
            0 <= i < ifaces.len() && ifaces[i].name@ == name && forall|j: int|
                0 <= j < i ==> ifaces[j].name@ != name;
        Some(ifaces[i])
    } else {
        None
    }
}

/// The index of the first dot in `s`.
pub open spec fn dot_at(s: Seq<u8>) -> Option<int> {
    if exists|i: int| 0 <= i < s.len() && s[i] == 46u8 {
        Some(
            choose|i: int|
                0 <= i < s.len() && s[i] == 46u8 && forall|j: int| 0 <= j < i ==> s[j] != 46u8,
        )
    } else {
        None
    }
}

/// The enum that the `enum` attribute `name` of an argument of interface `own` names:
/// `iface.enum` names an enum of another interface of `ifaces`; a name without a dot
/// names one of `own`'s enums.
pub open spec fn resolve_enum(ifaces: Seq<Interface>, own: Interface, name: Seq<u8>) -> Option<
    Enum,
> {
    match dot_at(name) {
        Some(d) => match interface_named(ifaces, name.take(d)) {
            Some(x) => enum_named(x.enums@, name.skip(d + 1)),
            None => None,
        },
        None => enum_named(own.enums@, name),
    }
}

/// The decoding kind of an argument of interface `own` of the protocol whose interfaces
/// are `ifaces`, by the decoder construction rule: integers tagged with an enum decode
/// to its entries; a new object without a fixed interface is decoded with its interface
/// and version; strings, arrays and objects are optional where they allow null. None
/// where the tagged enum is nowhere in the protocol.
pub open spec fn kind_of(a: Arg, ifaces: Seq<Interface>, own: Interface) -> Option<KindModel> {
    match a.ty {
        ArgType::Int | ArgType::Uint => match a.enum_kind {
            Some(e) => match resolve_enum(ifaces, own, e@) {
                Some(en) => Some(KindModel::Enum(entry_values(en))),
                None => None,
            },
            None => if a.ty == ArgType::Int {
                Some(KindModel::Int)
            } else {
                Some(KindModel::Uint)
            },
        },
        ArgType::Fixed => Some(KindModel::Fixed),
        ArgType::String => Some(KindModel::Str(a.allow_null)),
        ArgType::Object => Some(KindModel::Object(a.allow_null)),
        ArgType::NewId => if a.interface is Some {
            Some(KindModel::NewId)
        } else {
            Some(KindModel::DynNewId)
        },
        ArgType::Array => Some(KindModel::Array(a.allow_null)),
        ArgType::Fd => Some(KindModel::Fd),
    }
}

/// Whether the `enum` attribute of an integer argument `a`, if any, names an enum of
/// the protocol.
pub open spec fn enum_resolves(a: Arg, ifaces: Seq<Interface>, own: Interface) -> bool {
    match a.enum_kind {
        Some(e) => (a.ty == ArgType::Int || a.ty == ArgType::Uint) ==> resolve_enum(
            ifaces,
            own,
            e@,
        ) is Some,
        None => true,
    }
}

/// Finds the enum of `enums` named `name`.
fn find_enum(enums: &Vec<Enum>, name: &[u8]) -> (r: Option<usize>)
    ensures
        match r {
            Some(i) => i < enums@.len() && enum_named(enums@, name@) == Some(enums@[i as int]),
            None => enum_named(enums@, name@) is None,
        },
{
    let mut i: usize = 0;
    while i < enums.len()
        invariant
            i <= enums@.len(),
            forall|j: int| 0 <= j < i ==> enums@[j].name@ != name@,
        decreases enums@.len() - i,
    {
        if bytes_eq(enums[i].name.as_slice(), name) {
            let ghost k = choose|k: int|
                0 <= k < enums@.len() && enums@[k].name@ == name@ && forall|j: int|
                    0 <= j < k ==> enums@[j].name@ != name@;
            assert(k == i) by {
                if k > i {
                    assert(enums@[i as int].name@ == name@);
                }
            }
            return Some(i);
        }
        i = i + 1;
    }
    None
}

/// The values of the entries of `e`.
fn values_of(e: &Enum) -> (r: Vec<u32>)
    ensures
        r@ == entry_values(*e),
{
    let mut r: Vec<u32> = Vec::new();
    let mut i: usize = 0;
    while i < e.entries.len()
        invariant
            i <= e.entries@.len(),
            r@ == entry_values(*e).take(i as int),
        decreases e.entries@.len() - i,
    {
        r.push(e.entries[i].value);
        i = i + 1;
        assert(r@ =~= entry_values(*e).take(i as int));
    }
    assert(entry_values(*e).take(i as int) =~= entry_values(*e));
    r
}

/// Finds the interface of `ifaces` named `name`.
fn find_interface(ifaces: &Vec<Interface>, name: &[u8]) -> (r: Option<usize>)
    ensures
        match r {
            Some(i) => i < ifaces@.len() && interface_named(ifaces@, name@) == Some(
                ifaces@[i as int],
            ),
            None => interface_named(ifaces@, name@) is None,
        },
{
    let mut i: usize = 0;
    while i < ifaces.len()
        invariant
            i <= ifaces@.len(),
            forall|j: int| 0 <= j < i ==> ifaces@[j].name@ != name@,
        decreases ifaces@.len() - i,
    {
        if bytes_eq(ifaces[i].name.as_slice(), name) {
            let ghost k = choose|k: int|
                0 <= k < ifaces@.len() && ifaces@[k].name@ == name@ && forall|j: int|
                    0 <= j < k ==> ifaces@[j].name@ != name@;
            assert(k == i) by {
                if k > i {
                    assert(ifaces@[i as int].name@ == name@);
                }
            }
            return Some(i);
        }
        i = i + 1;
    }
    None
}

/// Finds the first dot of `s`.
fn find_dot(s: &[u8]) -> (r: Option<usize>)
    ensures
        match r {
            Some(i) => i < s@.len() && dot_at(s@) == Some(i as int),
            None => dot_at(s@) is None,
        },
{
    let mut i: usize = 0;
    while i < s.len()
        invariant
            i <= s@.len(),
            forall|j: int| 0 <= j < i ==> s@[j] != 46u8,
        decreases s@.len() - i,
    {
        if s[i] == 46u8 {
            let ghost k = choose|k: int|
                0 <= k < s@.len() && s@[k] == 46u8 && forall|j: int| 0 <= j < k ==> s@[j] != 46u8;
            assert(k == i) by {
                if k > i {
                    assert(s@[i as int] == 46u8);
                }
            }
            return Some(i);
        }
        i = i + 1;
    }
    None
}

/// Finds the enum that the `enum` attribute `name` names, as [`resolve_enum`] says.
fn find_enum_ref(ifaces: &Vec<Interface>, own: usize, name: &[u8]) -> (r: Option<(usize, usize)>)
    requires
        own < ifaces@.len(),
    ensures
        match r {
            Some((x, e)) => x < ifaces@.len() && e < ifaces@[x as int].enums@.len() && resolve_enum(
                ifaces@,
                ifaces@[own as int],
                name@,
            ) == Some(ifaces@[x as int].enums@[e as int]),
            None => resolve_enum(ifaces@, ifaces@[own as int], name@) is None,
        },
{
    let n = name.len();
    match find_dot(name) {
        Some(d) => {
            let prefix = &name[0..d];
            let suffix = &name[d + 1..n];
            assert(prefix@ =~= name@.take(d as int));
            assert(suffix@ =~= name@.skip(d + 1));
            match find_interface(ifaces, prefix) {
                Some(x) => match find_enum(&ifaces[x].enums, suffix) {
                    Some(e) => Some((x, e)),
                    None => None,
                },
                None => None,
            }
        },
        None => match find_enum(&ifaces[own].enums, name) {
            Some(e) => Some((own, e)),
            None => None,
        },
    }
}

impl Arg {
    /// How the argument, of interface `own` of a protocol with interfaces `ifaces`, is
    /// decoded, by the decoder construction rule.
    pub fn kind(&self, ifaces: &Vec<Interface>, own: usize) -> (r: Option<ArgKind>)
        requires
            own < ifaces@.len(),
        ensures
            match r {
                Some(k) => kind_of(*self, ifaces@, ifaces@[own as int]) == Some(k@),
                None => kind_of(*self, ifaces@, ifaces@[own as int]) is None,
            },
            r is None <==> !enum_resolves(*self, ifaces@, ifaces@[own as int]),
    {
        match self.ty {
            ArgType::Int | ArgType::Uint => match &self.enum_kind {
                Some(e) => match find_enum_ref(ifaces, own, e.as_slice()) {
                    Some((x, i)) => Some(ArgKind::Enum { values: values_of(&ifaces[x].enums[i]) }),
                    None => None,
                },
                None => {
                    if self.ty == ArgType::Int {
                        Some(ArgKind::Int)
                    } else {
                        Some(ArgKind::Uint)
                    }
                },
            },
            _ => {
                assert(self.enum_kind is Some ==> true);
                let k = match self.ty {
                    ArgType::Fixed => ArgKind::Fixed,
                    ArgType::String => ArgKind::Str { nullable: self.allow_null },
                    ArgType::Object => ArgKind::Object { nullable: self.allow_null },
                    ArgType::NewId => {
                        if self.interface.is_some() {
                            ArgKind::NewId
                        } else {
                            ArgKind::DynNewId
                        }
                    },
                    ArgType::Array => ArgKind::Array { nullable: self.allow_null },
                    _ => ArgKind::Fd,
                };
                Some(k)
            },
        }
    }
}

/// The signature of a request of interface `own`: the kinds of its arguments in order,
/// or none where one of them names an enum that the protocol lacks.
pub open spec fn signature_of(args: Seq<Arg>, ifaces: Seq<Interface>, own: Interface) -> Option<
    Seq<KindModel>,
>
    decreases args.len(),
{
    if args.len() == 0 {
        Some(seq![])
    } else {
        match (kind_of(args[0], ifaces, own), signature_of(args.skip(1), ifaces, own)) {
            (Some(k), Some(ks)) => Some(seq![k] + ks),
            _ => None,
        }
    }
}

impl Protocol {
    /// The signature of the decoder of request `opcode` of the interface at index
    /// `interface`: none for an interface or opcode out of range, or where an argument
    /// names an enum that is nowhere in the protocol; enums of other interfaces are
    /// named `iface.enum`.
    pub fn request_signature(&self, interface: usize, opcode: u16) -> (r: Option<Vec<ArgKind>>)
        ensures
            interface >= self.interfaces@.len() ==> r is None,
            interface < self.interfaces@.len() && opcode >= self.interfaces@[interface as int].requests@.len()
                ==> r is None,
            interface < self.interfaces@.len() && opcode < self.interfaces@[interface as int].requests@.len()
                ==> match r {
                Some(ks) => signature_of(
                    self.interfaces@[interface as int].requests@[opcode as int].args@,
                    self.interfaces@,
                    self.interfaces@[interface as int],
                ) == Some(kind_views(ks@)),
                None => signature_of(
                    self.interfaces@[interface as int].requests@[opcode as int].args@,
                    self.interfaces@,
                    self.interfaces@[interface as int],
                ) is None,
            },
            interface < self.interfaces@.len() && opcode < self.interfaces@[interface as int].requests@.len()
                && (forall|i: int|
                0 <= i < self.interfaces@[interface as int].requests@[opcode as int].args@.len()
                    ==> enum_resolves(
                    #[trigger] self.interfaces@[interface as int].requests@[opcode as int].args@[i],
                    self.interfaces@,
                    self.interfaces@[interface as int],
                )) ==> r is Some,
    {
        if interface >= self.interfaces.len() {
            return None;
        }
        let iface = &self.interfaces[interface];
        if opcode as usize >= iface.requests.len() {
            return None;
        }
        let args = &iface.requests[opcode as usize].args;
        let ghost own = self.interfaces@[interface as int];
        assert(args@ == own.requests@[opcode as int].args@);
        let mut out: Vec<ArgKind> = Vec::new();
        let mut i: usize = args.len();
        let ghost all = args@;
        proof {
            assert(all.skip(all.len() as int) =~= Seq::<Arg>::empty());
            assert(kind_views(out@) =~= Seq::<KindModel>::empty());
        }
        while i > 0
            invariant
                all == args@,
                interface < self.interfaces@.len(),
                own == self.interfaces@[interface as int],
                opcode < own.requests@.len(),
                all == own.requests@[opcode as int].args@,
                i <= all.len(),
                signature_of(all.skip(i as int), self.interfaces@, own) == Some(kind_views(out@)),
            decreases i,
        {
            let a = &args[i - 1];
            assert(*a == all[i - 1]);
            match a.kind(&self.interfaces, interface) {
                Some(k) => {
                    proof {
                        assert(all.skip(i - 1).skip(1) =~= all.skip(i as int));
                        assert(all.skip(i - 1)[0] == all[i - 1]);
                    }
                    let ghost prev = out@;
                    out.insert(0, k);
                    proof {
                        assert(kind_views(out@) =~= seq![k@] + kind_views(prev));
                    }
                    i = i - 1;
                },
                None => {
                    proof {
                        lemma_signature_none(all, (i - 1) as nat, self.interfaces@, own);
                        if forall|j: int| 0 <= j < all.len() ==> enum_resolves(
                            #[trigger] all[j],
                            self.interfaces@,
                            own,
                        ) {
                            law_signature_exists(all, self.interfaces@, own);
                        }
                    }
                    return None;
                },
            }
        }
        assert(all.skip(0) =~= all);
        Some(out)
    }
}

/// An argument without a kind leaves the whole signature without one.
proof fn lemma_signature_none(args: Seq<Arg>, at: nat, ifaces: Seq<Interface>, own: Interface)
    requires
        at < args.len(),
        kind_of(args[at as int], ifaces, own) is None,
    ensures
        signature_of(args, ifaces, own) is None,
    decreases at,
{
    if at > 0 {
        lemma_signature_none(args.skip(1), (at - 1) as nat, ifaces, own);
        assert(args.skip(1)[at - 1] == args[at as int]);
    }
}

/// Where every `enum` attribute of a request names an enum somewhere in the protocol,
/// of its own interface or, as `iface.enum`, of another, the request has a signature
/// with one kind per argument.
pub proof fn law_signature_exists(args: Seq<Arg>, ifaces: Seq<Interface>, own: Interface)
    requires
        forall|i: int| 0 <= i < args.len() ==> enum_resolves(#[trigger] args[i], ifaces, own),
    ensures
        signature_of(args, ifaces, own) matches Some(ks) && ks.len() == args.len(),
    decreases args.len(),
{
    if args.len() > 0 {
        assert(enum_resolves(args[0], ifaces, own));
        assert forall|i: int| 0 <= i < args.skip(1).len() implies enum_resolves(
            #[trigger] args.skip(1)[i],
            ifaces,
            own,
        ) by {
            assert(args.skip(1)[i] == args[i + 1]);
        }
        law_signature_exists(args.skip(1), ifaces, own);
    }
}

} // verus!
