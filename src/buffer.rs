//! Fixed-capacity buffers: a partially filled byte region, and the receive buffer of a
//! client stream with its queue of received descriptors.
use vstd::prelude::*;

use crate::control::{control_fds, has_credentials, parse_control, ControlError};
use crate::framer::{decode_frame, Message};
use crate::wire::{first_frame, frame_len, frame_length, has_frame};
use std::collections::VecDeque;

verus! {

/// Copies `src[0..count]` over `dst[at..at + count]`; `src` and `dst` may be the same
/// vector's contents seen before and after.
fn copy_into(dst: &mut Vec<u8>, at: usize, src: &[u8], count: usize)
    requires
        at + count <= old(dst)@.len(),
        count <= src@.len(),
    ensures
        final(dst)@.len() == old(dst)@.len(),
        final(dst)@.subrange(at as int, at + count) == src@.take(count as int),
        final(dst)@.take(at as int) == old(dst)@.take(at as int),
{
    let len = dst.len();
    let mut i: usize = 0;
    while i < count
        invariant
            len == dst@.len(),
            at + count <= dst@.len(),
            count <= src@.len(),
            i <= count,
            dst@.len() == old(dst)@.len(),
            dst@.subrange(at as int, at + i) == src@.take(i as int),
            dst@.take(at as int) == old(dst)@.take(at as int),
        decreases count - i,
    {
        dst.set(at + i, src[i]);
        i = i + 1;
        assert(dst@.subrange(at as int, at + i) =~= src@.take(i as int));
        assert(dst@.take(at as int) =~= old(dst)@.take(at as int));
    }
}

/// Moves `buf[from..to]` to the front of `buf`.
fn move_to_front(buf: &mut Vec<u8>, from: usize, to: usize)
    requires
        from <= to <= old(buf)@.len(),
    ensures
        final(buf)@.len() == old(buf)@.len(),
        final(buf)@.take(to - from) == old(buf)@.subrange(from as int, to as int),
{
    let mut i: usize = 0;
    while i < to - from
        invariant
            from <= to <= buf@.len(),
            i <= to - from,
            buf@.len() == old(buf)@.len(),
            buf@.take(i as int) == old(buf)@.subrange(from as int, from + i),
            buf@.subrange(from + i, to as int) == old(buf)@.subrange(from + i, to as int),
        decreases to - from - i,
    {
        let b = buf[from + i];
        proof {
            assert(buf@.subrange(from + i, to as int)[0] == buf@[from + i]);
            assert(old(buf)@.subrange(from + i, to as int)[0] == old(buf)@[from + i]);
        }
        let ghost prev = buf@;
        buf.set(i, b);
        proof {
            assert forall|k: int| from + i < k < to implies buf@[k] == prev[k] by {
                assert(prev.subrange(from + i, to as int)[k - from - i] == prev[k]);
            }
        }
        assert(buf@.take(i + 1) =~= old(buf)@.subrange(from as int, from + i + 1)) by {
            assert forall|k: int| 0 <= k < i implies buf@[k] == prev[k] by {}
            assert(prev.take(i as int)[0] == prev[0] || i == 0);
        }
        i = i + 1;
        assert(buf@.subrange(from + i, to as int) =~= old(buf)@.subrange(from + i, to as int)) by {
            assert forall|k: int| from + i <= k < to implies buf@[k] == old(buf)@[k] by {
                assert(prev.subrange(from + i - 1, to as int)[k - from - i + 1] == prev[k]);
                assert(old(buf)@.subrange(from + i - 1, to as int)[k - from - i + 1] == old(buf)@[k]);
            }
        }
    }
}

/// A byte region whose front part holds data and whose back part is free.
pub struct InitBuffer {
    init_len: usize,
    raw: Vec<u8>,
}

impl InitBuffer {
    /// The bytes held, in order.
    pub closed spec fn init(&self) -> Seq<u8> {
        self.raw@.take(self.init_len as int)
    }

    /// The number of bytes the region can hold.
    pub closed spec fn capacity(&self) -> nat {
        self.raw@.len()
    }

    /// The held bytes fit in the region.
    pub closed spec fn wf(&self) -> bool {
        self.init_len <= self.raw@.len()
    }

    /// Returns an empty buffer over `raw`, whose length is the capacity.
    pub fn new(raw: Vec<u8>) -> (r: Self)
        ensures
            r.wf(),
            r.init() == Seq::<u8>::empty(),
            r.capacity() == raw@.len(),
    {
        InitBuffer { init_len: 0, raw }
    }

    /// The bytes held.
    pub fn get_init(&self) -> (r: &[u8])
        requires
            self.wf(),
        ensures
            r@ == self.init(),
    {
        let r = &self.raw.as_slice()[0..self.init_len];
        assert(r@ =~= self.init());
        r
    }

    /// The number of free bytes.
    pub fn uninit_len(&self) -> (r: usize)
        requires
            self.wf(),
        ensures
            r == self.capacity() - self.init().len(),
    {
        self.raw.len() - self.init_len
    }

    /// Copies as many of `bytes` as fit into the free part; returns how many.
    pub fn write(&mut self, bytes: &[u8]) -> (r: usize)
        requires
            old(self).wf(),
        ensures
            final(self).wf(),
            final(self).capacity() == old(self).capacity(),
            r == if bytes@.len() < old(self).capacity() - old(self).init().len() {
                bytes@.len()
            } else {
                (old(self).capacity() - old(self).init().len()) as nat
            },
            final(self).init() == old(self).init() + bytes@.take(r as int),
    {
        let free = self.raw.len() - self.init_len;
        let count = if bytes.len() < free {
            bytes.len()
        } else {
            free
        };
        copy_into(&mut self.raw, self.init_len, bytes, count);
        proof {
            let s = self.raw@;
            assert(s.take(self.init_len + count) =~= s.take(self.init_len as int) + s.subrange(
                self.init_len as int,
                self.init_len + count,
            ));
            assert(s.take(self.init_len as int) =~= old(self).raw@.take(self.init_len as int));
        }
        self.init_len = self.init_len + count;
        count
    }

    /// Drops the first `count` held bytes; what remains moves to the front.
    pub fn consume(&mut self, count: usize)
        requires
            old(self).wf(),
        ensures
            final(self).wf(),
            final(self).capacity() == old(self).capacity(),
            final(self).init() == if count >= old(self).init().len() {
                Seq::<u8>::empty()
            } else {
                old(self).init().skip(count as int)
            },
    {
        if count >= self.init_len {
            self.init_len = 0;
            assert(self.init() =~= Seq::<u8>::empty());
        } else {
            move_to_front(&mut self.raw, count, self.init_len);
            self.init_len = self.init_len - count;
            assert(self.init() =~= old(self).init().skip(count as int));
        }
    }
}

/// What ends a receive with an error.
#[derive(Debug, Clone, Copy, PartialEq, Eq, Structural)]
pub enum StreamError {
    /// The control region was too small, and descriptors were dropped by the kernel.
    TruncatedControl,
    /// A control record that the protocol never sends, such as credentials.
    InvalidControl,
}

/// The descriptors of a queue, as integers.
pub open spec fn fd_values(q: Seq<i32>) -> Seq<int> {
    q.map_values(|f: i32| f as int)
}

/// The receive buffer of a client stream: a fixed region where message bytes wait to be
/// framed, and the queue of descriptors received beside them.
pub struct ReadBuffer {
    data_buf: Vec<u8>,
    ctrl_buf: Vec<u8>,
    data_start: usize,
    data_end: usize,
    fds: VecDeque<i32>,
}

/// The same receive buffer, under the name that some callers use.
pub type StreamBuffer = ReadBuffer;

impl ReadBuffer {
    /// The bytes received and not yet framed.
    pub closed spec fn pending(&self) -> Seq<u8> {
        self.data_buf@.subrange(self.data_start as int, self.data_end as int)
    }

    /// The number of message bytes the buffer can hold.
    pub closed spec fn capacity(&self) -> nat {
        self.data_buf@.len()
    }

    /// The number of control bytes that one receive may take.
    pub closed spec fn ctrl_capacity(&self) -> nat {
        self.ctrl_buf@.len()
    }

    /// The descriptors received and not yet taken, first in first out.
    pub closed spec fn queued_fds(&self) -> Seq<i32> {
        self.fds@
    }

    /// The pending bytes stand at the front of the region.
    pub closed spec fn at_front(&self) -> bool {
        self.data_start == 0
    }

    /// The window of pending bytes lies inside the region.
    pub closed spec fn wf(&self) -> bool {
        self.data_start <= self.data_end <= self.data_buf@.len()
    }

    /// Returns an empty buffer; the lengths of `data_buf` and `ctrl_buf` are the room for
    /// message bytes and for control bytes.
    pub fn new(data_buf: Vec<u8>, ctrl_buf: Vec<u8>) -> (r: Self)
        ensures
            r.wf(),
            r.pending() == Seq::<u8>::empty(),
            r.queued_fds() == Seq::<i32>::empty(),
            r.capacity() == data_buf@.len(),
            r.ctrl_capacity() == ctrl_buf@.len(),
    {
        let r = ReadBuffer { data_buf, ctrl_buf, data_start: 0, data_end: 0, fds: VecDeque::new() };
        assert(r.pending() =~= Seq::<u8>::empty());
        r
    }

    /// The number of bytes that a receive may add now.
    pub fn free_space(&self) -> (r: usize)
        requires
            self.wf(),
        ensures
            r == self.capacity() - self.pending().len(),
    {
        self.data_buf.len() - (self.data_end - self.data_start)
    }

    /// The number of control bytes that one receive may take.
    pub fn ctrl_len(&self) -> (r: usize)
        ensures
            r == self.ctrl_capacity(),
    {
        self.ctrl_buf.len()
    }

    /// The bytes received and not yet framed.
    pub fn pending_bytes(&self) -> (r: &[u8])
        requires
            self.wf(),
        ensures
            r@ == self.pending(),
    {
        &self.data_buf.as_slice()[self.data_start..self.data_end]
    }

    /// Moves the pending bytes to the front of the region, so that the free room is
    /// all at the back.
    pub fn shift_data_buffer(&mut self)
        requires
            old(self).wf(),
        ensures
            final(self).wf(),
            final(self).at_front(),
            final(self).pending() == old(self).pending(),
            final(self).capacity() == old(self).capacity(),
            final(self).ctrl_capacity() == old(self).ctrl_capacity(),
            final(self).queued_fds() == old(self).queued_fds(),
    {
        if self.data_start == 0 {
            return ;
        }
        if self.data_start == self.data_end {
            self.data_start = 0;
            self.data_end = 0;
            assert(self.pending() =~= old(self).pending());
            return ;
        }
        move_to_front(&mut self.data_buf, self.data_start, self.data_end);
        self.data_end = self.data_end - self.data_start;
        self.data_start = 0;
        assert(self.pending() =~= old(self).pending());
    }

    /// Appends as many of `bytes` as fit; returns how many.
    pub fn write(&mut self, bytes: &[u8]) -> (r: usize)
        requires
            old(self).wf(),
        ensures
            final(self).wf(),
            r == if bytes@.len() < old(self).capacity() - old(self).pending().len() {
                bytes@.len()
            } else {
                (old(self).capacity() - old(self).pending().len()) as nat
            },
            final(self).pending() == old(self).pending() + bytes@.take(r as int),
            final(self).capacity() == old(self).capacity(),
            final(self).ctrl_capacity() == old(self).ctrl_capacity(),
            final(self).queued_fds() == old(self).queued_fds(),
    {
        self.shift_data_buffer();
        let free = self.data_buf.len() - self.data_end;
        let count = if bytes.len() < free {
            bytes.len()
        } else {
            free
        };
        let ghost before = self.data_buf@;
        copy_into(&mut self.data_buf, self.data_end, bytes, count);
        proof {
            let s = self.data_buf@;
            assert(s.subrange(0, self.data_end as int) =~= before.subrange(
                0,
                self.data_end as int,
            )) by {
                assert(s.take(self.data_end as int) =~= before.take(self.data_end as int));
            }
            assert(s.subrange(0, self.data_end + count) =~= s.subrange(0, self.data_end as int)
                + s.subrange(self.data_end as int, self.data_end + count));
        }
        self.data_end = self.data_end + count;
        count
    }

    /// Frames the next message of the pending bytes: the message, once it is whole with
    /// its padding; nothing otherwise, and then nothing is consumed.
    pub fn parse_message(&mut self) -> (r: Option<Message>)
        requires
            old(self).wf(),
        ensures
            final(self).wf(),
            final(self).capacity() == old(self).capacity(),
            final(self).ctrl_capacity() == old(self).ctrl_capacity(),
            final(self).queued_fds() == old(self).queued_fds(),
            has_frame(old(self).pending()) ==> r is Some && r.unwrap()@ == first_frame(
                old(self).pending(),
            ) && final(self).pending() == old(self).pending().skip(
                frame_len(old(self).pending()) as int,
            ),
            !has_frame(old(self).pending()) ==> r is None && final(self).pending() == old(self).pending(),
    {
        let data = &self.data_buf.as_slice()[self.data_start..self.data_end];
        if data.len() < 8 {
            return None;
        }
        let n = frame_length(data);
        if data.len() < n {
            return None;
        }
        let (m, n) = decode_frame(data);
        self.data_start = self.data_start + n;
        assert(self.pending() =~= old(self).pending().skip(n as int));
        Some(m)
    }

    /// Takes the oldest received descriptor, if one is queued.
    pub fn parse_fd(&mut self) -> (r: Option<i32>)
        ensures
            final(self).pending() == old(self).pending(),
            final(self).wf() == old(self).wf(),
            final(self).capacity() == old(self).capacity(),
            final(self).ctrl_capacity() == old(self).ctrl_capacity(),
            old(self).queued_fds().len() == 0 ==> r is None && final(self).queued_fds() == old(self).queued_fds(),
            old(self).queued_fds().len() > 0 ==> r == Some(old(self).queued_fds()[0])
                && final(self).queued_fds() == old(self).queued_fds().skip(1),
    {
        let r = self.fds.pop_front();
        proof {
            if old(self).fds@.len() > 0 {
                assert(self.fds@ =~= old(self).fds@.skip(1));
            }
        }
        r
    }

    /// The number of descriptors queued.
    pub fn fd_count(&self) -> (r: usize)
        ensures
            r == self.queued_fds().len(),
    {
        self.fds.len()
    }

    /// Queues the descriptors that the control records `ctrl` carry, in order; a
    /// credentials record is an error, and the descriptors before it are still queued.
    pub fn push_control(&mut self, ctrl: &[u8]) -> (r: Result<(), StreamError>)
        ensures
            final(self).pending() == old(self).pending(),
            final(self).wf() == old(self).wf(),
            final(self).capacity() == old(self).capacity(),
            final(self).ctrl_capacity() == old(self).ctrl_capacity(),
            fd_values(final(self).queued_fds()) == fd_values(old(self).queued_fds())
                + control_fds(ctrl@),
            r is Err <==> has_credentials(ctrl@),
            r is Err ==> r == Err::<(), StreamError>(StreamError::InvalidControl),
    {
        let (fds, status) = parse_control(ctrl);
        let mut i: usize = 0;
        let ghost start = self.fds@;
        while i < fds.len()
            invariant
                i <= fds@.len(),
                self.fds@ == start + fds@.take(i as int),
                self.data_buf == old(self).data_buf,
                self.ctrl_buf == old(self).ctrl_buf,
                self.data_start == old(self).data_start,
                self.data_end == old(self).data_end,
            decreases fds@.len() - i,
        {
            self.fds.push_back(fds[i]);
            i = i + 1;
            assert(self.fds@ =~= start + fds@.take(i as int));
        }
        proof {
            assert(fds@.take(fds@.len() as int) =~= fds@);
            assert(fd_values(self.fds@) =~= fd_values(start) + fd_values(fds@));
        }
        match status {
            Ok(()) => Ok(()),
            Err(ControlError::InvalidControl) => Err(StreamError::InvalidControl),
        }
    }

    /// Takes in what one receive brought: the message bytes `data`, the control
    /// records `ctrl`, and whether the kernel reported the control data truncated.
    /// The bytes are appended; a truncation is an error; then the descriptors of the
    /// records are queued as [`ReadBuffer::push_control`] does. Returns whether any
    /// byte arrived.
    pub fn complete_receive(&mut self, data: &[u8], ctrl: &[u8], truncated: bool) -> (r: Result<
        bool,
        StreamError,
    >)
        requires
            old(self).wf(),
            data@.len() <= old(self).capacity() - old(self).pending().len(),
        ensures
            final(self).wf(),
            final(self).capacity() == old(self).capacity(),
            final(self).pending() == old(self).pending() + data@,
            truncated ==> r == Err::<bool, StreamError>(StreamError::TruncatedControl)
                && final(self).queued_fds() == old(self).queued_fds(),
            !truncated ==> fd_values(final(self).queued_fds()) == fd_values(
                old(self).queued_fds(),
            ) + control_fds(ctrl@),
            !truncated && has_credentials(ctrl@) ==> r == Err::<bool, StreamError>(
                StreamError::InvalidControl,
            ),
            !truncated && !has_credentials(ctrl@) ==> r == Ok::<bool, StreamError>(data@.len()
                > 0),
    {
        let n = self.write(data);
        assert(data@.take(n as int) =~= data@);
        if truncated {
            return Err(StreamError::TruncatedControl);
        }
        match self.push_control(ctrl) {
            Ok(()) => Ok(data.len() > 0),
            Err(e) => Err(e),
        }
    }
}

} // verus!
