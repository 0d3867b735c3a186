//! Framing a byte stream into messages, across reads of any size.
use vstd::prelude::*;

use crate::wire::{
    first_frame, frame_len, frame_length, frame_size, frames, has_frame, le_u16, le_u32, read_u16,
    read_u32, rest, Frame,
};

verus! {

/// A message taken off the wire: the object it is sent to, its opcode and its body.
pub struct Message {
    pub object_id: u32,
    pub opcode: u16,
    pub body: Vec<u8>,
}

impl View for Message {
    type V = Frame;

    open spec fn view(&self) -> Frame {
        Frame { object_id: self.object_id as nat, opcode: self.opcode as nat, body: self.body@ }
    }
}

/// Copies `s[from..to]` into a new vector.
pub fn copy_range(s: &[u8], from: usize, to: usize) -> (r: Vec<u8>)
    requires
        from <= to <= s@.len(),
    ensures
        r@ == s@.subrange(from as int, to as int),
{
    let mut r: Vec<u8> = Vec::with_capacity(to - from);
    let mut i: usize = from;
    while i < to
        invariant
            from <= i <= to <= s@.len(),
            r@ == s@.subrange(from as int, i as int),
        decreases to - i,
    {
        r.push(s[i]);
        i = i + 1;
    }
    r
}

/// Reads the frame at the front of `s`, with the number of bytes it occupies.
pub fn decode_frame(s: &[u8]) -> (r: (Message, usize))
    requires
        has_frame(s@),
    ensures
        r.0@ == first_frame(s@),
        r.1 == frame_len(s@),
{
    let n = frame_length(s);
    let object_id = read_u32(s, 0);
    let opcode = read_u16(s, 4);
    let size = read_u16(s, 6);
    let size: usize = if size < 8 {
        8
    } else {
        size as usize
    };
    assert(size == frame_size(s@));
    let body = copy_range(s, 8, size);
    (Message { object_id, opcode, body }, n)
}

/// The bytes of one call of [`MessageParser::parse`], framed one message at a time by
/// [`MessageStream::next`]; nothing is framed until then.
pub struct MessageStream {
    bytes: Vec<u8>,
    pos: usize,
}

/// A frame read from the front of a prefix of `s` that holds it is the frame at the
/// front of `s`.
proof fn lemma_first_frame_take(s: Seq<u8>, k: int)
    requires
        8 <= k <= s.len(),
        has_frame(s.take(k)),
    ensures
        frame_len(s.take(k)) == frame_len(s),
        first_frame(s.take(k)) == first_frame(s),
{
    let t = s.take(k);
    assert(le_u16(t, 6) == le_u16(s, 6));
    assert(le_u32(t, 0) == le_u32(s, 0));
    assert(le_u16(t, 4) == le_u16(s, 4));
    assert(t.subrange(8, frame_size(s) as int) =~= s.subrange(8, frame_size(s) as int));
}

impl MessageStream {
    /// The bytes not framed yet.
    pub closed spec fn remaining(&self) -> Seq<u8> {
        self.bytes@.skip(self.pos as int)
    }

    /// The position lies within the bytes.
    pub closed spec fn wf(&self) -> bool {
        self.pos <= self.bytes@.len()
    }

    /// Frames the next message, going on from the unfinished frame that `parser` holds:
    /// where the parser's pending bytes and this stream's bytes together hold a whole
    /// frame, returns its message and keeps what follows it; otherwise moves every byte
    /// into the parser and returns nothing.
    pub fn next(&mut self, parser: &mut MessageParser) -> (r: Option<Message>)
        requires
            old(self).wf(),
            old(parser).wf(),
        ensures
            final(self).wf(),
            final(parser).wf(),
            has_frame(old(parser).pending() + old(self).remaining()) ==> r is Some && r.unwrap()@
                == first_frame(old(parser).pending() + old(self).remaining()) && final(parser).pending() == Seq::<u8>::empty() && final(self).remaining() == (old(parser).pending()
                + old(self).remaining()).skip(
                frame_len(old(parser).pending() + old(self).remaining()) as int,
            ),
            !has_frame(old(parser).pending() + old(self).remaining()) ==> r is None && final(parser).pending() == old(parser).pending() + old(self).remaining() && final(self).remaining()
                == Seq::<u8>::empty(),
    {
        let ghost all = parser.pending@ + self.bytes@.skip(self.pos as int);
        let ghost k0 = parser.pending@.len();
        proof {
            assert(all.take(k0 as int) =~= parser.pending@);
        }
        loop
            invariant_except_break
                !has_frame(parser.pending@),
            invariant
                self.pos <= self.bytes@.len(),
                parser.pending@ + self.bytes@.skip(self.pos as int) == all,
                parser.pending@ == all.take(parser.pending@.len() as int),
                self.bytes@ == old(self).bytes@,
            ensures
                self.pos <= self.bytes@.len(),
                parser.pending@ + self.bytes@.skip(self.pos as int) == all,
                parser.pending@ == all.take(parser.pending@.len() as int),
                !has_frame(parser.pending@) ==> self.pos == self.bytes@.len(),
                has_frame(parser.pending@) ==> parser.pending@.len() >= 1 && !has_frame(
                    all.take(parser.pending@.len() - 1),
                ),
                self.bytes@ == old(self).bytes@,
            decreases self.bytes@.len() - self.pos,
        {
            if self.pos >= self.bytes.len() {
                break;
            }
            let b = self.bytes[self.pos];
            let ghost before = parser.pending@;
            parser.pending.push(b);
            self.pos = self.pos + 1;
            proof {
                assert(self.bytes@.skip(self.pos - 1) =~= seq![b] + self.bytes@.skip(
                    self.pos as int,
                ));
                assert(parser.pending@ + self.bytes@.skip(self.pos as int) =~= all);
                assert(parser.pending@ =~= all.take(parser.pending@.len() as int));
            }
            let p = parser.pending.as_slice();
            if p.len() >= 8 {
                let n = frame_length(p);
                if p.len() >= n {
                    proof {
                        assert(all.take(parser.pending@.len() - 1) =~= before);
                    }
                    break;
                }
            }
        }
        if has_frame_now(parser.pending.as_slice()) {
            let ghost k = parser.pending@.len() as int;
            proof {
                assert(all.take(k) == parser.pending@);
                assert(k >= 8);
                lemma_first_frame_take(all, k);
                crate::wire::law_frame_completes_at_last_byte(all, k);
                if k - 1 >= 8 {
                    crate::wire::law_frame_completes_at_last_byte(all, k - 1);
                }
                assert(k == frame_len(all));
                assert(self.bytes@.skip(self.pos as int) =~= all.skip(k));
            }
            let (m, _) = decode_frame(parser.pending.as_slice());
            parser.pending = Vec::new();
            Some(m)
        } else {
            proof {
                assert(self.bytes@.skip(self.pos as int) =~= Seq::<u8>::empty());
                assert(parser.pending@ =~= all);
            }
            None
        }
    }
}

/// Whether a whole frame stands in `s`.
fn has_frame_now(s: &[u8]) -> (r: bool)
    ensures
        r == has_frame(s@),
{
    s.len() >= 8 && s.len() >= frame_length(s)
}

/// A framer that keeps an unfinished message between calls, so that bytes may arrive
/// in chunks of any size.
pub struct MessageParser {
    pending: Vec<u8>,
}

impl MessageParser {
    /// The bytes received that do not make a whole frame yet.
    pub closed spec fn pending(&self) -> Seq<u8> {
        self.pending@
    }

    /// No whole frame waits in the pending bytes.
    pub open spec fn wf(&self) -> bool {
        !has_frame(self.pending())
    }

    /// Returns a new parser with nothing pending.
    pub fn new() -> (r: Self)
        ensures
            r.pending() == Seq::<u8>::empty(),
            r.wf(),
    {
        MessageParser { pending: Vec::new() }
    }

    /// The stream of the messages that `bytes` completes or holds, framed on from this
    /// parser's unfinished frame as [`MessageStream::next`] is called; the parser itself
    /// is left as it is until then.
    pub fn parse(&mut self, bytes: &[u8]) -> (r: MessageStream)
        ensures
            r.wf(),
            r.remaining() == bytes@,
            final(self).pending() == old(self).pending(),
    {
        let v = copy_range(bytes, 0, bytes.len());
        assert(bytes@.subrange(0, bytes@.len() as int) =~= bytes@);
        let r = MessageStream { bytes: v, pos: 0 };
        assert(r.remaining() =~= bytes@);
        r
    }
}

/// What [`rest`] leaves holds no whole frame.
pub proof fn lemma_rest_is_final(s: Seq<u8>)
    ensures
        !has_frame(rest(s)) || frame_len(rest(s)) == 0,
    decreases s.len(),
{
    if has_frame(s) && frame_len(s) > 0 {
        lemma_rest_is_final(s.skip(frame_len(s) as int));
    }
}

/// The bytes of several chunks, one after another.
pub open spec fn concat(cs: Seq<Seq<u8>>) -> Seq<u8>
    decreases cs.len(),
{
    if cs.len() == 0 {
        seq![]
    } else {
        cs[0] + concat(cs.skip(1))
    }
}

/// The messages that the streams of [`MessageParser::parse`] yield, drained with
/// [`MessageStream::next`] one after another, when the chunks `cs` are fed to a parser
/// with `pending` bytes pending: each drained stream yields the frames of the pending
/// bytes and its chunk, and leaves the rest pending.
pub open spec fn feed(pending: Seq<u8>, cs: Seq<Seq<u8>>) -> Seq<Frame>
    decreases cs.len(),
{
    if cs.len() == 0 {
        seq![]
    } else {
        frames(pending + cs[0]) + feed(rest(pending + cs[0]), cs.skip(1))
    }
}

/// Feeding chunks one at a time yields the frames of their concatenation, whatever the
/// chunk sizes.
pub proof fn lemma_feed(pending: Seq<u8>, cs: Seq<Seq<u8>>)
    requires
        !has_frame(pending) || frame_len(pending) == 0,
    ensures
        feed(pending, cs) == frames(pending + concat(cs)),
    decreases cs.len(),
{
    if cs.len() == 0 {
        assert(pending + concat(cs) =~= pending);
        assert(frames(pending) =~= seq![]);
    } else {
        let head = pending + cs[0];
        crate::wire::lemma_frames_append(head, concat(cs.skip(1)));
        lemma_rest_is_final(head);
        lemma_feed(rest(head), cs.skip(1));
        assert(head + concat(cs.skip(1)) =~= pending + concat(cs));
    }
}

/// Framing round trip: messages encoded one after another and fed to a new parser in
/// chunks of any sizes come out exactly once each, in order.
pub proof fn law_framing_round_trip(msgs: Seq<(u32, u16, Seq<u8>)>, cs: Seq<Seq<u8>>)
    requires
        forall|i: int| 0 <= i < msgs.len() ==> crate::wire::encodable(#[trigger] msgs[i]),
        concat(cs) == crate::wire::encode_all(msgs),
    ensures
        feed(seq![], cs) == msgs.map_values(
            |m: (u32, u16, Seq<u8>)| crate::wire::frame_of(m.0, m.1, m.2),
        ),
{
    lemma_feed(seq![], cs);
    assert(Seq::<u8>::empty() + concat(cs) =~= concat(cs));
    crate::wire::lemma_framing_round_trip(msgs);
}

/// The messages that calls of [`MessageStream::next`] yield, one per call and in order,
/// until the first call that yields nothing, for a parser with `pending` bytes pending
/// and a stream with bytes `rem` left: each call is one step of its contract.
pub open spec fn drain(pending: Seq<u8>, rem: Seq<u8>) -> Seq<Frame>
    decreases pending.len() + rem.len(),
{
    let all = pending + rem;
    if has_frame(all) && frame_len(all) > 0 {
        seq![first_frame(all)] + drain(seq![], all.skip(frame_len(all) as int))
    } else {
        seq![]
    }
}

/// Draining a stream yields exactly the whole frames of the parser's pending bytes
/// followed by the stream's bytes, in order, none lost or repeated; what stays pending
/// after the last call is what follows them.
pub proof fn law_drain(pending: Seq<u8>, rem: Seq<u8>)
    ensures
        drain(pending, rem) == frames(pending + rem),
    decreases pending.len() + rem.len(),
{
    let all = pending + rem;
    if has_frame(all) && frame_len(all) > 0 {
        let next = all.skip(frame_len(all) as int);
        assert(Seq::<u8>::empty() + next =~= next);
        law_drain(seq![], next);
    }
}

} // verus!
