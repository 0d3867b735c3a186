//! The byte layout of the wire: little-endian words and the framing of
//! messages into header plus padded body.
use vstd::prelude::*;

verus! {

/// Rounds a byte count up to the next multiple of four.
pub open spec fn pad4(n: nat) -> nat {
    ((n + 3) / 4 * 4) as nat
}

/// The unsigned 16-bit little-endian word at offset `i` of `s`.
pub open spec fn le_u16(s: Seq<u8>, i: int) -> nat {
    (s[i] as nat) + 256 * (s[i + 1] as nat)
}

/// The unsigned 32-bit little-endian word at offset `i` of `s`.
pub open spec fn le_u32(s: Seq<u8>, i: int) -> nat {
    (s[i] as nat) + 256 * (s[i + 1] as nat) + 65536 * (s[i + 2] as nat) + 16777216 * (
    s[i + 3] as nat)
}

/// The signed reading of a 32-bit word.
pub open spec fn as_i32(w: nat) -> int {
    if w < 0x8000_0000 {
        w as int
    } else {
        w - 0x1_0000_0000
    }
}

/// The size that a header announces, raised to the eight bytes of the header itself.
pub open spec fn frame_size(s: Seq<u8>) -> nat {
    let size = le_u16(s, 6);
    if size < 8 {
        8
    } else {
        size
    }
}

/// The bytes that the frame at the front of `s` occupies on the wire, padding included.
pub open spec fn frame_len(s: Seq<u8>) -> nat {
    pad4(frame_size(s))
}

/// Whether a whole frame, padding included, stands at the front of `s`.
pub open spec fn has_frame(s: Seq<u8>) -> bool {
    s.len() >= 8 && s.len() >= frame_len(s)
}

/// A message as the framer delivers it.
pub struct Frame {
    pub object_id: nat,
    pub opcode: nat,
    pub body: Seq<u8>,
}

/// The message read from the frame at the front of `s`.
pub open spec fn first_frame(s: Seq<u8>) -> Frame {
    Frame { object_id: le_u32(s, 0), opcode: le_u16(s, 4), body: s.subrange(8, frame_size(s) as int) }
}

/// Every whole frame at the front of `s`, in order.
pub open spec fn frames(s: Seq<u8>) -> Seq<Frame>
    decreases s.len(),
{
    if has_frame(s) && frame_len(s) > 0 {
        seq![first_frame(s)] + frames(s.skip(frame_len(s) as int))
    } else {
        seq![]
    }
}

/// What stays of `s` once every whole frame is taken off its front.
pub open spec fn rest(s: Seq<u8>) -> Seq<u8>
    decreases s.len(),
{
    if has_frame(s) && frame_len(s) > 0 {
        rest(s.skip(frame_len(s) as int))
    } else {
        s
    }
}

/// The eight bytes of a header, little-endian, with `size` as the announced size.
pub open spec fn header_bytes(object_id: u32, opcode: u16, size: u16) -> Seq<u8> {
    seq![
        (object_id % 256) as u8,
        (object_id / 256 % 256) as u8,
        (object_id / 65536 % 256) as u8,
        (object_id / 16777216) as u8,
        (opcode % 256) as u8,
        (opcode / 256) as u8,
        (size % 256) as u8,
        (size / 256) as u8,
    ]
}

/// The frame that encodes a message, header, body and zero padding.
pub open spec fn encode(object_id: u32, opcode: u16, body: Seq<u8>) -> Seq<u8> {
    let size = (body.len() + 8) as nat;
    header_bytes(object_id, opcode, size as u16) + body + Seq::new(
        (pad4(size) - size) as nat,
        |i: int| 0u8,
    )
}

/// The message that `encode` writes down.
pub open spec fn frame_of(object_id: u32, opcode: u16, body: Seq<u8>) -> Frame {
    Frame { object_id: object_id as nat, opcode: opcode as nat, body }
}

/// The frames of several messages written one after another.
pub open spec fn encode_all(msgs: Seq<(u32, u16, Seq<u8>)>) -> Seq<u8>
    decreases msgs.len(),
{
    if msgs.len() == 0 {
        seq![]
    } else {
        encode(msgs[0].0, msgs[0].1, msgs[0].2) + encode_all(msgs.skip(1))
    }
}

/// A message whose frame fits the 16-bit size field.
pub open spec fn encodable(m: (u32, u16, Seq<u8>)) -> bool {
    m.2.len() + 8 <= 0xfff8
}

/// The alignment rule of control records: a length rounded up to a multiple of eight.
pub open spec fn align8(n: nat) -> nat {
    ((n + 7) / 8 * 8) as nat
}

/// Rounds `n` up to the next multiple of four.
pub fn padded_len(n: usize) -> (r: usize)
    requires
        n + 3 <= usize::MAX,
    ensures
        r == pad4(n as nat),
{
    (n + 3) / 4 * 4
}

/// Rounds the length of a control record up to the alignment of a machine word.
pub fn cmsg_align(len: usize) -> (r: usize)
    requires
        len + 7 <= usize::MAX,
    ensures
        r == align8(len as nat),
{
    (len + 7) / 8 * 8
}

/// Reads the little-endian 16-bit word at offset `i`.
pub fn read_u16(s: &[u8], i: usize) -> (r: u16)
    requires
        i + 2 <= s@.len(),
    ensures
        r == le_u16(s@, i as int),
{
    let a = s[i] as u16;
    let b = s[i + 1] as u16;
    a + b * 256
}

/// Reads the little-endian 32-bit word at offset `i`.
pub fn read_u32(s: &[u8], i: usize) -> (r: u32)
    requires
        i + 4 <= s@.len(),
    ensures
        r == le_u32(s@, i as int),
{
    let a = s[i] as u32;
    let b = s[i + 1] as u32;
    let c = s[i + 2] as u32;
    let d = s[i + 3] as u32;
    a + b * 256 + c * 65536 + d * 16777216
}

/// Reads the little-endian 32-bit word at offset `i` as a signed integer.
pub fn read_i32(s: &[u8], i: usize) -> (r: i32)
    requires
        i + 4 <= s@.len(),
    ensures
        r == as_i32(le_u32(s@, i as int)),
{
    let w = read_u32(s, i);
    if w < 0x8000_0000 {
        w as i32
    } else {
        let low = (w - 0x8000_0000) as i32;
        low - 0x4000_0000 - 0x4000_0000
    }
}

/// The number of bytes that the frame at the front of `s` occupies on the wire.
pub fn frame_length(s: &[u8]) -> (r: usize)
    requires
        s@.len() >= 8,
    ensures
        r == frame_len(s@),
        8 <= r <= 0x1_0000,
{
    let size = read_u16(s, 6);
    let size: usize = if size < 8 {
        8
    } else {
        size as usize
    };
    padded_len(size)
}

/// A header whose size field is below eight is read as a bare header of eight bytes.
pub proof fn law_header_size_clamp(s: Seq<u8>)
    requires
        s.len() >= 8,
        le_u16(s, 6) < 8,
    ensures
        frame_size(s) == 8,
        frame_len(s) == 8,
        has_frame(s),
        first_frame(s).body.len() == 0,
        rest(s) == rest(s.skip(8)),
{
}

/// Appending bytes never takes back a frame: the frames of `s + t` are those of `s`,
/// followed by the frames of what `s` left over, continued by `t`.
pub proof fn lemma_frames_append(s: Seq<u8>, t: Seq<u8>)
    ensures
        frames(s + t) == frames(s) + frames(rest(s) + t),
        rest(s + t) == rest(rest(s) + t),
    decreases s.len(),
{
    if has_frame(s) && frame_len(s) > 0 {
        let n = frame_len(s) as int;
        let st = s + t;
        assert(st.subrange(0, 8) == s.subrange(0, 8));
        assert(le_u16(st, 6) == le_u16(s, 6));
        assert(frame_len(st) == frame_len(s));
        assert(has_frame(st));
        assert(first_frame(st) == first_frame(s)) by {
            assert(st.subrange(8, frame_size(s) as int) =~= s.subrange(8, frame_size(s) as int));
        }
        assert(st.skip(n) =~= s.skip(n) + t);
        lemma_frames_append(s.skip(n), t);
        assert(frames(s + t) == seq![first_frame(s)] + frames(s.skip(n) + t));
        assert(frames(s) + frames(rest(s) + t) =~= seq![first_frame(s)] + (frames(s.skip(n))
            + frames(rest(s.skip(n)) + t)));
    } else {
        assert(frames(s) =~= seq![]);
        assert(frames(s) + frames(rest(s) + t) =~= frames(s + t));
    }
}

/// Bytes fed in one at a time: the front frame is whole exactly when its last padding
/// byte has arrived, and not before.
pub proof fn law_frame_completes_at_last_byte(s: Seq<u8>, k: int)
    requires
        8 <= k <= s.len(),
    ensures
        frame_len(s.take(k)) == frame_len(s),
        has_frame(s.take(k)) <==> k >= frame_len(s),
{
    assert(le_u16(s.take(k), 6) == le_u16(s, 6));
}

/// The encoding of a message announces its size and holds a whole frame.
pub proof fn lemma_encode_frame(object_id: u32, opcode: u16, body: Seq<u8>, t: Seq<u8>)
    requires
        body.len() + 8 <= 0xfff8,
    ensures
        has_frame(encode(object_id, opcode, body) + t),
        frame_len(encode(object_id, opcode, body) + t) == encode(object_id, opcode, body).len(),
        first_frame(encode(object_id, opcode, body) + t) == frame_of(object_id, opcode, body),
        (encode(object_id, opcode, body) + t).skip(encode(object_id, opcode, body).len() as int)
            == t,
{
    let e = encode(object_id, opcode, body);
    let s = e + t;
    let size = (body.len() + 8) as nat;
    let su = size as u16;
    assert(su as nat == size);
    assert(s[6] == (su % 256) as u8 && s[7] == (su / 256) as u8);
    assert(le_u16(s, 6) == size);
    assert(le_u32(s, 0) == object_id as nat) by {
        assert(s[0] == (object_id % 256) as u8);
        assert(s[1] == (object_id / 256 % 256) as u8);
        assert(s[2] == (object_id / 65536 % 256) as u8);
        assert(s[3] == (object_id / 16777216) as u8);
        let o = object_id as int;
        assert(o == o % 256 + 256 * (o / 256 % 256) + 65536 * (o / 65536 % 256) + 16777216 * (o
            / 16777216)) by (nonlinear_arith)
            requires
                0 <= o < 0x1_0000_0000,
        ;
    }
    assert(le_u16(s, 4) == opcode as nat) by {
        assert(s[4] == (opcode % 256) as u8);
        assert(s[5] == (opcode / 256) as u8);
    }
    assert(s.subrange(8, size as int) =~= body);
    assert(s.skip(e.len() as int) =~= t);
}

/// Framing recovers every message of a stream of frames, in order: whatever the chunks in
/// which the stream arrives, the frames of the whole are exactly the messages encoded.
pub proof fn lemma_framing_round_trip(msgs: Seq<(u32, u16, Seq<u8>)>)
    requires
        forall|i: int| 0 <= i < msgs.len() ==> encodable(#[trigger] msgs[i]),
    ensures
        frames(encode_all(msgs)) == msgs.map_values(
            |m: (u32, u16, Seq<u8>)| frame_of(m.0, m.1, m.2),
        ),
        rest(encode_all(msgs)) == Seq::<u8>::empty(),
    decreases msgs.len(),
{
    let f = |m: (u32, u16, Seq<u8>)| frame_of(m.0, m.1, m.2);
    if msgs.len() == 0 {
        assert(encode_all(msgs) =~= seq![]);
        assert(msgs.map_values(f) =~= seq![]);
    } else {
        let m = msgs[0];
        assert(encodable(msgs[0]));
        let tail = encode_all(msgs.skip(1));
        lemma_encode_frame(m.0, m.1, m.2, tail);
        assert forall|i: int| 0 <= i < msgs.skip(1).len() implies encodable(
            #[trigger] msgs.skip(1)[i],
        ) by {
            assert(msgs.skip(1)[i] == msgs[i + 1]);
        }
        lemma_framing_round_trip(msgs.skip(1));
        assert(msgs.map_values(f) =~= seq![f(m)] + msgs.skip(1).map_values(f));
    }
}

} // verus!
