//! Ancillary control records (`cmsg`) as the kernel lays them out on 64-bit Linux:
//! an eight-byte length, a four-byte level and a four-byte type, then the payload;
//! each record starts at a multiple of eight bytes.
use vstd::prelude::*;

use crate::request::{bits, lemma_bits, lemma_word, word};
use crate::wire::{align8, as_i32, le_u32, read_i32, read_u32};

verus! {

/// The size of a control record header.
pub const CMSG_HEADER: usize = 16;

/// The socket level that rights and credentials are sent at.
pub const SOL_SOCKET: i32 = 1;

/// The record type that carries file descriptors.
pub const SCM_RIGHTS: i32 = 1;

/// The record type that carries the peer's credentials.
pub const SCM_CREDENTIALS: i32 = 2;

/// A control record that a server never asks for.
#[derive(Debug, Clone, Copy, PartialEq, Eq, Structural)]
pub enum ControlError {
    /// The peer's credentials were received.
    InvalidControl,
}

/// The length field of the record at the front of `s`.
pub open spec fn record_len(s: Seq<u8>) -> nat {
    le_u32(s, 0) + 0x1_0000_0000 * le_u32(s, 4)
}

/// Whether a well-formed record stands at the front of `s`.
pub open spec fn has_record(s: Seq<u8>) -> bool {
    s.len() >= 16 && record_len(s) >= 16 && record_len(s) <= s.len()
}

/// The level of the record at the front of `s`.
pub open spec fn record_level(s: Seq<u8>) -> int {
    as_i32(le_u32(s, 8))
}

/// The type of the record at the front of `s`.
pub open spec fn record_type(s: Seq<u8>) -> int {
    as_i32(le_u32(s, 12))
}

/// The descriptors in a rights payload, four bytes each.
pub open spec fn fds_of(p: Seq<u8>) -> Seq<int> {
    Seq::new(p.len() / 4, |i: int| as_i32(le_u32(p, 4 * i)))
}

/// The descriptors that the record at the front of `s` carries.
pub open spec fn record_fds(s: Seq<u8>) -> Seq<int> {
    if record_level(s) == SOL_SOCKET && record_type(s) == SCM_RIGHTS {
        fds_of(s.subrange(16, record_len(s) as int))
    } else {
        seq![]
    }
}

/// Whether the record at the front of `s` carries credentials.
pub open spec fn is_credentials(s: Seq<u8>) -> bool {
    record_level(s) == SOL_SOCKET && record_type(s) == SCM_CREDENTIALS
}

/// The records of `s` after the one at its front.
pub open spec fn next_records(s: Seq<u8>) -> Seq<u8> {
    if align8(record_len(s)) >= s.len() {
        seq![]
    } else {
        s.skip(align8(record_len(s)) as int)
    }
}

/// The descriptors of every record in `s`, in order, up to the first record that is not
/// well formed.
pub open spec fn control_fds(s: Seq<u8>) -> Seq<int>
    decreases s.len(),
{
    if !has_record(s) {
        seq![]
    } else {
        record_fds(s) + control_fds(next_records(s))
    }
}

/// Whether a credentials record stands among the well-formed records of `s`.
pub open spec fn has_credentials(s: Seq<u8>) -> bool
    decreases s.len(),
{
    if !has_record(s) {
        false
    } else if is_credentials(s) {
        true
    } else {
        has_credentials(next_records(s))
    }
}

/// Reads the descriptors of a rights payload `s[from..to]` onto the end of `out`.
fn push_fds(s: &[u8], from: usize, to: usize, out: &mut Vec<i32>)
    requires
        from <= to <= s@.len(),
    ensures
        final(out)@.map_values(|f: i32| f as int) == old(out)@.map_values(|f: i32| f as int)
            + fds_of(s@.subrange(from as int, to as int)),
{
    let ghost p = s@.subrange(from as int, to as int);
    let count = (to - from) / 4;
    let mut i: usize = 0;
    let ghost base = old(out)@.map_values(|f: i32| f as int);
    while i < count
        invariant
            from <= to <= s@.len(),
            count == (to - from) / 4,
            p == s@.subrange(from as int, to as int),
            i <= count,
            out@.map_values(|f: i32| f as int) == base + fds_of(p).take(i as int),
        decreases count - i,
    {
        let at = from + 4 * i;
        let fd = read_i32(s, at);
        let ghost prev = out@;
        proof {
            assert(le_u32(s@, at as int) == le_u32(p, 4 * i));
            assert(fds_of(p)[i as int] == fd as int);
            assert(fds_of(p).take(i + 1) =~= fds_of(p).take(i as int).push(fd as int));
        }
        out.push(fd);
        i = i + 1;
        proof {
            assert(out@.map_values(|f: i32| f as int) =~= prev.map_values(|f: i32| f as int).push(
                fd as int,
            ));
            assert(out@.map_values(|f: i32| f as int) =~= base + fds_of(p).take(i as int));
        }
    }
    assert(fds_of(p).take(count as int) =~= fds_of(p));
}

/// Reads the header of the record at the front of `t`: its length, level and type,
/// or nothing where no well-formed record stands there.
fn read_record(t: &[u8]) -> (r: Option<(usize, i32, i32)>)
    ensures
        r is Some <==> has_record(t@),
        r matches Some(h) ==> h.0 == record_len(t@) && h.1 == record_level(t@) && h.2
            == record_type(t@),
{
    if t.len() < CMSG_HEADER {
        return None;
    }
    let lo = read_u32(t, 0) as u64;
    let hi = read_u32(t, 4) as u64;
    let len = lo + hi * 0x1_0000_0000;
    if len < 16 || len > t.len() as u64 {
        return None;
    }
    Some((len as usize, read_i32(t, 8), read_i32(t, 12)))
}

/// The offset of the record after one of length `len`, or nothing where it would fall
/// at or past the end of `t`.
fn next_offset(t: &[u8], len: usize) -> (r: Option<usize>)
    requires
        has_record(t@),
        len == record_len(t@),
    ensures
        r is None <==> align8(record_len(t@)) >= t@.len(),
        r matches Some(n) ==> n == align8(record_len(t@)),
{
    let base = len / 8 * 8;
    if base == len {
        if base >= t.len() {
            None
        } else {
            Some(base)
        }
    } else if t.len() - base <= 8 {
        None
    } else {
        Some(base + 8)
    }
}

/// Walks the control records of `s` and collects the descriptors they carry, in order.
/// A credentials record makes the result an error; the descriptors of every rights
/// record, before or after it, are still returned, so that none is lost.
pub fn parse_control(s: &[u8]) -> (r: (Vec<i32>, Result<(), ControlError>))
    ensures
        r.0@.map_values(|f: i32| f as int) == control_fds(s@),
        r.1 is Err <==> has_credentials(s@),
{
    let mut out: Vec<i32> = Vec::new();
    let mut pos: usize = 0;
    let mut bad = false;
    assert(s@.skip(0) =~= s@);
    while pos < s.len()
        invariant
            pos <= s@.len(),
            control_fds(s@) == out@.map_values(|f: i32| f as int) + control_fds(
                s@.skip(pos as int),
            ),
            has_credentials(s@) == (bad || has_credentials(s@.skip(pos as int))),
        ensures
            pos == s@.len(),
            control_fds(s@) == out@.map_values(|f: i32| f as int) + control_fds(
                s@.skip(pos as int),
            ),
            has_credentials(s@) == (bad || has_credentials(s@.skip(pos as int))),
        decreases s@.len() - pos,
    {
        let t = &s[pos..s.len()];
        assert(t@ == s@.skip(pos as int));
        let (len, level, kind) = match read_record(t) {
            Some(h) => h,
            None => {
                pos = s.len();
                assert(s@.skip(pos as int) =~= seq![]);
                break;
            },
        };
        if level == SOL_SOCKET && kind == SCM_CREDENTIALS {
            bad = true;
        }
        assert(has_credentials(t@) == (is_credentials(t@) || has_credentials(next_records(t@))));
        let ghost before = out@.map_values(|f: i32| f as int);
        if level == SOL_SOCKET && kind == SCM_RIGHTS {
            push_fds(t, 16, len, &mut out);
        }
        proof {
            assert(out@.map_values(|f: i32| f as int) =~= before + record_fds(t@));
            assert(control_fds(t@) == record_fds(t@) + control_fds(next_records(t@)));
            assert(control_fds(s@) =~= out@.map_values(|f: i32| f as int) + control_fds(
                next_records(t@),
            ));
        }
        let step = match next_offset(t, len) {
            Some(n) => n,
            None => {
                assert(next_records(t@) =~= seq![]);
                pos = s.len();
                assert(s@.skip(pos as int) =~= seq![]);
                break;
            },
        };
        proof {
            assert(t@.skip(step as int) =~= s@.skip(pos + step));
        }
        pos = pos + step;
    }
    assert(s@.skip(pos as int) =~= seq![]);
    assert(control_fds(s@.skip(pos as int)) =~= seq![]);
    if bad {
        (out, Err(ControlError::InvalidControl))
    } else {
        (out, Ok(()))
    }
}

/// The payload of a rights record: each descriptor as four little-endian bytes.
pub open spec fn fd_payload(fds: Seq<i32>) -> Seq<u8>
    decreases fds.len(),
{
    if fds.len() == 0 {
        seq![]
    } else {
        word(bits(fds[0])) + fd_payload(fds.skip(1))
    }
}

/// A rights record that carries `fds`, padded to its alignment, as the kernel writes it.
pub open spec fn rights_record(fds: Seq<i32>) -> Seq<u8> {
    let len = (16 + 4 * fds.len()) as nat;
    word(len as u32) + word(0) + word(SOL_SOCKET as u32) + word(SCM_RIGHTS as u32) + fd_payload(
        fds,
    ) + Seq::new((align8(len) - len) as nat, |i: int| 0u8)
}

proof fn lemma_fd_payload(fds: Seq<i32>, i: int)
    requires
        0 <= i < fds.len(),
    ensures
        fd_payload(fds).len() == 4 * fds.len(),
        as_i32(le_u32(fd_payload(fds), 4 * i)) == fds[i] as int,
    decreases fds.len(),
{
    let p = fd_payload(fds);
    lemma_fd_payload_len(fds.skip(1));
    if i == 0 {
        lemma_word(bits(fds[0]), fd_payload(fds.skip(1)));
        lemma_bits(fds[0]);
    } else {
        lemma_fd_payload(fds.skip(1), i - 1);
        let tail = fd_payload(fds.skip(1));
        assert(p =~= word(bits(fds[0])) + tail);
        assert(p[4 * i] == tail[4 * (i - 1)]);
        assert(p[4 * i + 1] == tail[4 * (i - 1) + 1]);
        assert(p[4 * i + 2] == tail[4 * (i - 1) + 2]);
        assert(p[4 * i + 3] == tail[4 * (i - 1) + 3]);
    }
}

proof fn lemma_fd_payload_len(fds: Seq<i32>)
    ensures
        fd_payload(fds).len() == 4 * fds.len(),
    decreases fds.len(),
{
    if fds.len() > 0 {
        lemma_fd_payload_len(fds.skip(1));
    }
}

/// A rights record that carries `k` descriptors gives exactly those `k`, in order, and
/// no others; received with it, they are the descriptors that the receive queues.
pub proof fn law_rights_record(fds: Seq<i32>)
    requires
        16 + 4 * fds.len() + 8 < 0x1_0000_0000,
    ensures
        control_fds(rights_record(fds)) == fds.map_values(|f: i32| f as int),
        !has_credentials(rights_record(fds)),
{
    let len = (16 + 4 * fds.len()) as nat;
    let s = rights_record(fds);
    let p = fd_payload(fds);
    lemma_fd_payload_len(fds);
    let pad = Seq::new((align8(len) - len) as nat, |i: int| 0u8);
    assert(align8(len) >= len && align8(len) < len + 8) by (nonlinear_arith)
        requires
            align8(len) == (len + 7) / 8 * 8,
    ;
    let rest0 = word(0) + word(SOL_SOCKET as u32) + word(SCM_RIGHTS as u32) + p + pad;
    assert(s =~= word(len as u32) + rest0);
    lemma_word(len as u32, rest0);
    let rest1 = word(SOL_SOCKET as u32) + word(SCM_RIGHTS as u32) + p + pad;
    assert(rest0 =~= word(0) + rest1);
    lemma_word(0, rest1);
    assert(s.skip(4) =~= rest0);
    assert(le_u32(s, 4) == le_u32(s.skip(4), 0));
    let rest2 = word(SCM_RIGHTS as u32) + p + pad;
    assert(rest1 =~= word(SOL_SOCKET as u32) + rest2);
    lemma_word(SOL_SOCKET as u32, rest2);
    assert(s.skip(8) =~= rest1);
    assert(le_u32(s, 8) == le_u32(s.skip(8), 0));
    let rest3 = p + pad;
    assert(rest2 =~= word(SCM_RIGHTS as u32) + rest3);
    lemma_word(SCM_RIGHTS as u32, rest3);
    assert(s.skip(12) =~= rest2);
    assert(le_u32(s, 12) == le_u32(s.skip(12), 0));
    assert(s.len() == align8(len));
    assert(record_len(s) == len);
    assert(has_record(s));
    assert(!is_credentials(s));
    assert(s.subrange(16, len as int) =~= p);
    assert(record_fds(s) =~= fds.map_values(|f: i32| f as int)) by {
        assert forall|i: int| 0 <= i < fds.len() implies #[trigger] fds_of(p)[i] == fds[i] as int by {
            lemma_fd_payload(fds, i);
        }
    }
    assert(next_records(s) =~= Seq::<u8>::empty());
    assert(control_fds(Seq::<u8>::empty()) =~= Seq::<int>::empty());
    assert(!has_credentials(Seq::<u8>::empty()));
    assert(!has_credentials(next_records(s)));
    assert(control_fds(s) =~= fds.map_values(|f: i32| f as int));
}

} // verus!
