//! Decoding the arguments of a request from its message body and the descriptor queue,
//! by the request's signature: the argument kinds in order.
use vstd::prelude::*;

use crate::leaves::pad_after;
use crate::parse::IterBuf;
use crate::parse::Buffer;
use crate::types::{entry_index, find_entry};
use crate::wire::{as_i32, le_u32, pad4, read_i32, read_u32};

verus! {

/// How one argument is encoded, and what it decodes to.
pub enum ArgKind {
    /// A signed 32-bit integer.
    Int,
    /// An unsigned 32-bit integer.
    Uint,
    /// A signed 24.8 fixed-point number, kept as its raw bits.
    Fixed,
    /// An object id; where nullable, id 0 is no object.
    Object { nullable: bool },
    /// The id of a new object of a known interface.
    NewId,
    /// A new object of an interface that the request names: interface, version, id.
    DynNewId,
    /// A string; where nullable, length 0 is no string.
    Str { nullable: bool },
    /// An array of bytes; where nullable, length 0 is no array.
    Array { nullable: bool },
    /// A file descriptor, taken from the descriptor queue.
    Fd,
    /// An unsigned integer that names an entry of an enum with the given values.
    Enum { values: Vec<u32> },
}

/// A decoded argument.
pub enum ArgValue {
    Int(i32),
    Uint(u32),
    Fixed(i32),
    Object(Option<u32>),
    NewId(u32),
    DynNewId(Vec<u8>, u32, u32),
    Str(Option<Vec<u8>>),
    Array(Option<Vec<u8>>),
    Fd(i32),
    Enum(usize),
}

/// The mathematical form of an [`ArgKind`].
pub enum KindModel {
    Int,
    Uint,
    Fixed,
    Object(bool),
    NewId,
    DynNewId,
    Str(bool),
    Array(bool),
    Fd,
    Enum(Seq<u32>),
}

/// The mathematical form of an [`ArgValue`].
pub enum ValueModel {
    Int(i32),
    Uint(u32),
    Fixed(i32),
    Object(Option<u32>),
    NewId(u32),
    DynNewId(Seq<u8>, u32, u32),
    Str(Option<Seq<u8>>),
    Array(Option<Seq<u8>>),
    Fd(i32),
    Enum(usize),
}

impl View for ArgKind {
    type V = KindModel;

    open spec fn view(&self) -> KindModel {
        match self {
            ArgKind::Int => KindModel::Int,
            ArgKind::Uint => KindModel::Uint,
            ArgKind::Fixed => KindModel::Fixed,
            ArgKind::Object { nullable } => KindModel::Object(*nullable),
            ArgKind::NewId => KindModel::NewId,
            ArgKind::DynNewId => KindModel::DynNewId,
            ArgKind::Str { nullable } => KindModel::Str(*nullable),
            ArgKind::Array { nullable } => KindModel::Array(*nullable),
            ArgKind::Fd => KindModel::Fd,
            ArgKind::Enum { values } => KindModel::Enum(values@),
        }
    }
}

impl View for ArgValue {
    type V = ValueModel;

    open spec fn view(&self) -> ValueModel {
        match self {
            ArgValue::Int(v) => ValueModel::Int(*v),
            ArgValue::Uint(v) => ValueModel::Uint(*v),
            ArgValue::Fixed(v) => ValueModel::Fixed(*v),
            ArgValue::Object(v) => ValueModel::Object(*v),
            ArgValue::NewId(v) => ValueModel::NewId(*v),
            ArgValue::DynNewId(n, v, i) => ValueModel::DynNewId(n@, *v, *i),
            ArgValue::Str(s) => ValueModel::Str(
                match s {
                    Some(s) => Some(s@),
                    None => None,
                },
            ),
            ArgValue::Array(s) => ValueModel::Array(
                match s {
                    Some(s) => Some(s@),
                    None => None,
                },
            ),
            ArgValue::Fd(v) => ValueModel::Fd(*v),
            ArgValue::Enum(v) => ValueModel::Enum(*v),
        }
    }
}

/// What decoding one argument gives: its value with the numbers of bytes and
/// descriptors it took, a need for more descriptors, or a failure.
pub enum Step {
    Done(ValueModel, nat, nat),
    NeedFds,
    Fail,
}

/// The length word of an array at the front of `b`, and whether its bytes and padding
/// are all in `b`.
pub open spec fn array_fits(b: Seq<u8>) -> bool {
    b.len() >= 4 && b.len() - 4 >= pad4(le_u32(b, 0))
}

/// The bytes of the array at the front of `b`.
pub open spec fn array_bytes(b: Seq<u8>) -> Seq<u8> {
    b.subrange(4, 4 + le_u32(b, 0) as int)
}

/// The bytes that the array at the front of `b` occupies, padding included.
pub open spec fn array_len(b: Seq<u8>) -> nat {
    4 + pad4(le_u32(b, 0))
}

/// The value of an array or string argument: none where it is nullable and empty.
pub open spec fn optional_bytes(nullable: bool, s: Seq<u8>) -> Option<Seq<u8>> {
    if nullable && s.len() == 0 {
        None
    } else {
        Some(s)
    }
}

/// What decoding one argument of kind `k` gives on the body bytes `b` and the queued
/// descriptors `f`.
#[verifier::opaque]
pub open spec fn arg_step(k: KindModel, b: Seq<u8>, f: Seq<i32>) -> Step {
    match k {
        KindModel::Fd => if f.len() >= 1 {
            Step::Done(ValueModel::Fd(f[0]), 0, 1)
        } else {
            Step::NeedFds
        },
        KindModel::Str(nullable) => if array_fits(b) {
            Step::Done(ValueModel::Str(optional_bytes(nullable, array_bytes(b))), array_len(b), 0)
        } else {
            Step::Fail
        },
        KindModel::Array(nullable) => if array_fits(b) {
            Step::Done(
                ValueModel::Array(optional_bytes(nullable, array_bytes(b))),
                array_len(b),
                0,
            )
        } else {
            Step::Fail
        },
        KindModel::DynNewId => if array_fits(b) && b.len() - array_len(b) >= 8 {
            Step::Done(
                ValueModel::DynNewId(
                    array_bytes(b),
                    le_u32(b, array_len(b) as int) as u32,
                    le_u32(b, array_len(b) + 4int) as u32,
                ),
                array_len(b) + 8,
                0,
            )
        } else {
            Step::Fail
        },
        _ => if b.len() >= 4 {
            let w = le_u32(b, 0);
            match k {
                KindModel::Int => Step::Done(ValueModel::Int(as_i32(w) as i32), 4, 0),
                KindModel::Uint => Step::Done(ValueModel::Uint(w as u32), 4, 0),
                KindModel::Fixed => Step::Done(ValueModel::Fixed(as_i32(w) as i32), 4, 0),
                KindModel::Object(nullable) => Step::Done(
                    ValueModel::Object(
                        if nullable && w == 0 {
                            None
                        } else {
                            Some(w as u32)
                        },
                    ),
                    4,
                    0,
                ),
                KindModel::NewId => Step::Done(ValueModel::NewId(w as u32), 4, 0),
                KindModel::Enum(values) => match entry_index(values, w as u32) {
                    Some(i) => Step::Done(ValueModel::Enum(i), 4, 0),
                    None => Step::Fail,
                },
                _ => Step::Fail,
            }
        } else {
            Step::Fail
        },
    }
}

/// What decoding a whole request gives.
pub enum Decoded {
    /// The values, and the number of descriptors they took.
    Done(Seq<ValueModel>, nat),
    /// The body is complete, but descriptors are missing: nothing is taken.
    NeedFds,
    /// The body does not encode arguments of these kinds.
    Fail,
}

/// What decoding arguments of kinds `ks` gives on the body bytes `b` and the queued
/// descriptors `f`; every body byte must belong to an argument.
pub open spec fn decode_args(ks: Seq<KindModel>, b: Seq<u8>, f: Seq<i32>) -> Decoded
    decreases ks.len(),
{
    if ks.len() == 0 {
        if b.len() == 0 {
            Decoded::Done(seq![], 0)
        } else {
            Decoded::Fail
        }
    } else {
        match arg_step(ks[0], b, f) {
            Step::Done(v, nb, nf) => if nb <= b.len() && nf <= f.len() {
                match decode_args(ks.skip(1), b.skip(nb as int), f.skip(nf as int)) {
                    Decoded::Done(vs, n) => Decoded::Done(seq![v] + vs, n + nf),
                    Decoded::NeedFds => Decoded::NeedFds,
                    Decoded::Fail => Decoded::Fail,
                }
            } else {
                Decoded::Fail
            },
            Step::NeedFds => Decoded::NeedFds,
            Step::Fail => Decoded::Fail,
        }
    }
}

/// Copies `s[from..to]` into a new vector.
fn copy_bytes(s: &[u8], from: usize, to: usize) -> (r: Vec<u8>)
    requires
        from <= to <= s@.len(),
    ensures
        r@ == s@.subrange(from as int, to as int),
{
    let mut r: Vec<u8> = Vec::new();
    let mut i: usize = from;
    while i < to
        invariant
            from <= i <= to <= s@.len(),
            r@ == s@.subrange(from as int, i as int),
        decreases to - i,
    {
        r.push(s[i]);
        i = i + 1;
        assert(r@ =~= s@.subrange(from as int, i as int));
    }
    r
}

/// Reads the array at the front of `b`: its bytes and the bytes it occupies.
fn read_array(b: &[u8]) -> (r: Option<(Vec<u8>, usize)>)
    ensures
        r is Some <==> array_fits(b@),
        r matches Some(a) ==> a.0@ == array_bytes(b@) && a.1 == array_len(b@),
{
    if b.len() < 4 {
        return None;
    }
    let len = read_u32(b, 0) as u64;
    let rem = len % 4;
    let padded = if rem == 0 {
        len
    } else {
        len - rem + 4
    };
    assert(padded == pad4(len as nat)) by (nonlinear_arith)
        requires
            rem == len % 4,
            padded == if rem == 0 {
                len as int
            } else {
                len - rem + 4
            },
    ;
    if padded > (b.len() - 4) as u64 {
        return None;
    }
    let bytes = copy_bytes(b, 4, 4 + len as usize);
    Some((bytes, 4 + padded as usize))
}

/// Decodes one argument of kind `k` from the front of `b`, with `fds` the queued
/// descriptors from index `fd_at` on.
fn decode_arg(k: &ArgKind, b: &[u8], fds: &Vec<i32>, fd_at: usize) -> (r: Result<
    (ArgValue, usize, usize),
    bool,
>)
    requires
        fd_at <= fds@.len(),
    ensures
        r matches Ok(x) ==> arg_step(k@, b@, fds@.skip(fd_at as int)) == Step::Done(
            x.0@,
            x.1 as nat,
            x.2 as nat,
        ),
        r == Err::<(ArgValue, usize, usize), bool>(true) ==> arg_step(
            k@,
            b@,
            fds@.skip(fd_at as int),
        ) is NeedFds,
        r == Err::<(ArgValue, usize, usize), bool>(false) ==> arg_step(
            k@,
            b@,
            fds@.skip(fd_at as int),
        ) is Fail,
{
    reveal(arg_step);
    match k {
        ArgKind::Fd => {
            if fd_at < fds.len() {
                Ok((ArgValue::Fd(fds[fd_at]), 0, 1))
            } else {
                Err(true)
            }
        },
        ArgKind::Str { nullable } => match read_array(b) {
            Some((bytes, n)) => {
                let v = if *nullable && bytes.len() == 0 {
                    None
                } else {
                    Some(bytes)
                };
                Ok((ArgValue::Str(v), n, 0))
            },
            None => Err(false),
        },
        ArgKind::Array { nullable } => match read_array(b) {
            Some((bytes, n)) => {
                let v = if *nullable && bytes.len() == 0 {
                    None
                } else {
                    Some(bytes)
                };
                Ok((ArgValue::Array(v), n, 0))
            },
            None => Err(false),
        },
        ArgKind::DynNewId => match read_array(b) {
            Some((name, n)) => {
                if b.len() - n < 8 {
                    Err(false)
                } else {
                    let version = read_u32(b, n);
                    let id = read_u32(b, n + 4);
                    Ok((ArgValue::DynNewId(name, version, id), n + 8, 0))
                }
            },
            None => Err(false),
        },
        _ => {
            if b.len() < 4 {
                return Err(false);
            }
            let w = read_u32(b, 0);
            match k {
                ArgKind::Int => Ok((ArgValue::Int(read_i32(b, 0)), 4, 0)),
                ArgKind::Uint => Ok((ArgValue::Uint(w), 4, 0)),
                ArgKind::Fixed => Ok((ArgValue::Fixed(read_i32(b, 0)), 4, 0)),
                ArgKind::Object { nullable } => {
                    let v = if *nullable && w == 0 {
                        None
                    } else {
                        Some(w)
                    };
                    Ok((ArgValue::Object(v), 4, 0))
                },
                ArgKind::NewId => Ok((ArgValue::NewId(w), 4, 0)),
                ArgKind::Enum { values } => match find_entry(values.as_slice(), w) {
                    Some(i) => Ok((ArgValue::Enum(i), 4, 0)),
                    None => Err(false),
                },
                _ => Err(false),
            }
        },
    }
}

/// The views of a sequence of kinds.
pub open spec fn kind_views(ks: Seq<ArgKind>) -> Seq<KindModel> {
    ks.map_values(|k: ArgKind| k@)
}

/// The views of a sequence of values.
pub open spec fn value_views(vs: Seq<ArgValue>) -> Seq<ValueModel> {
    vs.map_values(|v: ArgValue| v@)
}

/// Why a request could not be decoded.
#[derive(Debug, Clone, Copy, PartialEq, Eq, Structural)]
pub enum DecodeError {
    /// The descriptors of the request have not all arrived; nothing was taken.
    NeedFds,
    /// The body does not encode the request's arguments: the client must be dropped.
    Failed,
}

/// Decodes the arguments of a request of signature `kinds` from its whole body `body`;
/// the descriptors come from the front of `fds`, and are taken only where the whole
/// request decodes.
#[verifier::rlimit(40)]
pub fn decode_request(kinds: &[ArgKind], body: &[u8], fds: &mut IterBuf<i32>) -> (r: Result<
    Vec<ArgValue>,
    DecodeError,
>)
    ensures
        decode_args(kind_views(kinds@), body@, old(fds).items()) matches Decoded::Done(vs, n)
            ==> r is Ok && value_views(r.unwrap()@) == vs && final(fds).items() == old(
            fds,
        ).items().skip(n as int),
        decode_args(kind_views(kinds@), body@, old(fds).items()) is NeedFds ==> r == Err::<
            Vec<ArgValue>,
            DecodeError,
        >(DecodeError::NeedFds) && final(fds).items() == old(fds).items(),
        decode_args(kind_views(kinds@), body@, old(fds).items()) is Fail ==> r == Err::<
            Vec<ArgValue>,
            DecodeError,
        >(DecodeError::Failed) && final(fds).items() == old(fds).items(),
{
    let ghost f0 = fds.items();
    let avail = peek_all(fds);
    let mut out: Vec<ArgValue> = Vec::new();
    let mut pos: usize = 0;
    let mut fd_at: usize = 0;
    let mut i: usize = 0;
    let ghost ks = kind_views(kinds@);
    let n_avail = avail.len();
    proof {
        assert(ks.skip(0) =~= ks);
        assert(body@.skip(0) =~= body@);
        assert(f0.skip(0) =~= f0);
        lemma_prepend_empty(decode_args(ks, body@, f0));
    }
    while i < kinds.len()
        invariant
            avail@ == f0,
            f0 == old(fds).items(),
            n_avail == f0.len(),
            fds.items() == f0,
            ks == kind_views(kinds@),
            i <= kinds@.len(),
            pos <= body@.len(),
            fd_at <= avail@.len(),
            decode_args(ks, body@, f0) == prepend(
                value_views(out@),
                fd_at as nat,
                decode_args(ks.skip(i as int), body@.skip(pos as int), f0.skip(fd_at as int)),
            ),
        decreases kinds@.len() - i,
    {
        let rest = &body[pos..body.len()];
        assert(rest@ == body@.skip(pos as int));
        let ghost tail = ks.skip(i as int);
        assert(tail[0] == kinds@[i as int]@);
        assert(tail.skip(1) =~= ks.skip((i + 1) as int));
        match decode_arg(&kinds[i], rest, &avail, fd_at) {
            Ok((v, nb, nf)) => {
                proof {
                    lemma_step_bounds(kinds@[i as int]@, rest@, f0.skip(fd_at as int));
                    lemma_unfold_done(tail, rest@, f0.skip(fd_at as int));
                    assert(rest@.skip(nb as int) =~= body@.skip((pos + nb) as int));
                    assert(f0.skip(fd_at as int).skip(nf as int) =~= f0.skip((fd_at + nf) as int));
                    assert(value_views(out@.push(v)) =~= value_views(out@).push(v@));
                    lemma_prepend_push(
                        value_views(out@),
                        v@,
                        fd_at as nat,
                        nf as nat,
                        decode_args(ks.skip((i + 1) as int), body@.skip((pos + nb) as int), f0.skip((fd_at + nf) as int)),
                    );
                }
                out.push(v);
                pos = pos + nb;
                fd_at = fd_at + nf;
            },
            Err(true) => {
                assert(decode_args(tail, rest@, f0.skip(fd_at as int)) is NeedFds);
                assert(decode_args(ks, body@, f0) is NeedFds);
                assert(f0 == old(fds).items());
                return Err(DecodeError::NeedFds);
            },
            Err(false) => {
                assert(decode_args(tail, rest@, f0.skip(fd_at as int)) is Fail);
                assert(decode_args(ks, body@, f0) is Fail);
                return Err(DecodeError::Failed);
            },
        }
        i = i + 1;
    }
    assert(ks.skip(i as int) =~= Seq::<KindModel>::empty());
    if pos < body.len() {
        return Err(DecodeError::Failed);
    }
    assert(body@.skip(pos as int) =~= Seq::<u8>::empty());
    let mut k: usize = 0;
    while k < fd_at
        invariant
            k <= fd_at <= f0.len(),
            fds.items() == f0.skip(k as int),
        decreases fd_at - k,
    {
        let _ = fds.take();
        k = k + 1;
        assert(fds.items() =~= f0.skip(k as int));
    }
    assert(value_views(out@) + seq![] =~= value_views(out@));
    Ok(out)
}

proof fn lemma_prepend_empty(d: Decoded)
    ensures
        prepend(seq![], 0, d) == d,
{
    if let Decoded::Done(vs, n) = d {
        assert(Seq::<ValueModel>::empty() + vs =~= vs);
    }
}

/// Decoding arguments whose first one decodes is that value followed by the rest.
proof fn lemma_unfold_done(ks: Seq<KindModel>, b: Seq<u8>, f: Seq<i32>)
    requires
        ks.len() > 0,
        arg_step(ks[0], b, f) is Done,
    ensures
        arg_step(ks[0], b, f) matches Step::Done(v, nb, nf) ==> nb <= b.len() && nf <= f.len()
            && decode_args(ks, b, f) == prepend(
            seq![v],
            nf,
            decode_args(ks.skip(1), b.skip(nb as int), f.skip(nf as int)),
        ),
{
    lemma_step_bounds(ks[0], b, f);
}

/// A decode of the arguments that follow `done`, having taken `nf` descriptors before.
pub open spec fn prepend(done: Seq<ValueModel>, nf: nat, d: Decoded) -> Decoded {
    match d {
        Decoded::Done(vs, n) => Decoded::Done(done + vs, n + nf),
        Decoded::NeedFds => Decoded::NeedFds,
        Decoded::Fail => Decoded::Fail,
    }
}

proof fn lemma_prepend_push(done: Seq<ValueModel>, v: ValueModel, a: nat, b: nat, d: Decoded)
    ensures
        prepend(done, a, prepend(seq![v], b, d)) == prepend(done.push(v), a + b, d),
{
    if let Decoded::Done(vs, n) = d {
        assert(done + (seq![v] + vs) =~= done.push(v) + vs);
    }
}

/// A finished step takes no more than it is given.
proof fn lemma_step_bounds(k: KindModel, b: Seq<u8>, f: Seq<i32>)
    ensures
        arg_step(k, b, f) matches Step::Done(v, nb, nf) ==> nb <= b.len() && nf <= f.len(),
{
    reveal(arg_step);
}

/// Copies the queued descriptors without taking them.
fn peek_all(fds: &mut IterBuf<i32>) -> (r: Vec<i32>)
    ensures
        r@ == old(fds).items(),
        final(fds).items() == old(fds).items(),
{
    let n = fds.len();
    let mut r: Vec<i32> = Vec::new();
    let mut k: usize = 0;
    let ghost f0 = fds.items();
    while k < n
        invariant
            n == f0.len(),
            k <= n,
            r@ == f0.take(k as int),
            fds.items() == f0.skip(k as int) + f0.take(k as int),
        decreases n - k,
    {
        let x = fds.take().unwrap();
        fds.push(x);
        r.push(x);
        k = k + 1;
        assert(r@ =~= f0.take(k as int));
        assert(fds.items() =~= f0.skip(k as int) + f0.take(k as int));
    }
    assert(fds.items() =~= f0);
    r
}

/// The four little-endian bytes of a word.
pub open spec fn word(w: u32) -> Seq<u8> {
    seq![(w % 256) as u8, (w / 256 % 256) as u8, (w / 65536 % 256) as u8, (w / 16777216) as u8]
}

/// The bits of a signed integer as an unsigned word.
pub open spec fn bits(i: i32) -> u32 {
    if i >= 0 {
        i as u32
    } else {
        (i + 0x1_0000_0000) as u32
    }
}

/// The encoding of an array or string: its length, its bytes, and zero padding.
pub open spec fn encode_bytes(s: Seq<u8>) -> Seq<u8> {
    word(s.len() as u32) + s + Seq::new(pad_after(s.len()), |i: int| 0u8)
}

/// The body bytes of an argument of kind `k` with value `v`.
pub open spec fn encode_value(k: KindModel, v: ValueModel) -> Seq<u8> {
    match v {
        ValueModel::Int(i) => word(bits(i)),
        ValueModel::Uint(u) => word(u),
        ValueModel::Fixed(i) => word(bits(i)),
        ValueModel::Object(o) => word(
            match o {
                Some(id) => id,
                None => 0,
            },
        ),
        ValueModel::NewId(u) => word(u),
        ValueModel::DynNewId(name, version, id) => encode_bytes(name) + word(version) + word(id),
        ValueModel::Str(o) => match o {
            Some(s) => encode_bytes(s),
            None => word(0),
        },
        ValueModel::Array(o) => match o {
            Some(s) => encode_bytes(s),
            None => word(0),
        },
        ValueModel::Fd(_) => seq![],
        ValueModel::Enum(i) => match k {
            KindModel::Enum(values) => word(values[i as int]),
            _ => seq![],
        },
    }
}

/// The descriptors that an argument with value `v` sends.
pub open spec fn value_fds(v: ValueModel) -> Seq<i32> {
    match v {
        ValueModel::Fd(fd) => seq![fd],
        _ => seq![],
    }
}

/// Bytes that an array can hold: the length and its padding fit a word.
pub open spec fn fits_array(s: Seq<u8>) -> bool {
    s.len() + 3 < 0x1_0000_0000
}

/// A value that an argument of kind `k` can carry, encoded unambiguously: a null only
/// where the kind is nullable, and a nullable string or array that is not empty.
pub open spec fn valid_value(k: KindModel, v: ValueModel) -> bool {
    match (k, v) {
        (KindModel::Int, ValueModel::Int(_)) => true,
        (KindModel::Uint, ValueModel::Uint(_)) => true,
        (KindModel::Fixed, ValueModel::Fixed(_)) => true,
        (KindModel::Object(nullable), ValueModel::Object(o)) => match o {
            Some(id) => !nullable || id != 0,
            None => nullable,
        },
        (KindModel::NewId, ValueModel::NewId(_)) => true,
        (KindModel::DynNewId, ValueModel::DynNewId(name, _, _)) => fits_array(name),
        (KindModel::Str(nullable), ValueModel::Str(o)) => match o {
            Some(s) => fits_array(s) && (!nullable || s.len() > 0),
            None => nullable,
        },
        (KindModel::Array(nullable), ValueModel::Array(o)) => match o {
            Some(s) => fits_array(s) && (!nullable || s.len() > 0),
            None => nullable,
        },
        (KindModel::Fd, ValueModel::Fd(_)) => true,
        (KindModel::Enum(values), ValueModel::Enum(i)) => i < values.len() && entry_index(
            values,
            values[i as int],
        ) == Some(i),
        _ => false,
    }
}

/// The body of a request with arguments of kinds `ks` and values `vs`.
pub open spec fn encode_args(ks: Seq<KindModel>, vs: Seq<ValueModel>) -> Seq<u8>
    decreases vs.len(),
{
    if vs.len() == 0 || ks.len() == 0 {
        seq![]
    } else {
        encode_value(ks[0], vs[0]) + encode_args(ks.skip(1), vs.skip(1))
    }
}

/// The descriptors that a request with values `vs` sends, in order.
pub open spec fn args_fds(vs: Seq<ValueModel>) -> Seq<i32>
    decreases vs.len(),
{
    if vs.len() == 0 {
        seq![]
    } else {
        value_fds(vs[0]) + args_fds(vs.skip(1))
    }
}

pub proof fn lemma_word(w: u32, rest: Seq<u8>)
    ensures
        le_u32(word(w) + rest, 0) == w,
        (word(w) + rest).len() == rest.len() + 4,
        (word(w) + rest).skip(4) == rest,
{
    let s = word(w) + rest;
    let o = w as int;
    assert(s[0] == (w % 256) as u8 && s[1] == (w / 256 % 256) as u8 && s[2] == (w / 65536 % 256)
        as u8 && s[3] == (w / 16777216) as u8);
    assert(o == o % 256 + 256 * (o / 256 % 256) + 65536 * (o / 65536 % 256) + 16777216 * (o
        / 16777216)) by (nonlinear_arith)
        requires
            0 <= o < 0x1_0000_0000,
    ;
    assert(s.skip(4) =~= rest);
}

pub proof fn lemma_bits(i: i32)
    ensures
        as_i32(bits(i) as nat) as i32 == i,
{
}

proof fn lemma_pad(n: nat)
    ensures
        pad4(n) >= n,
        pad4(n) < n + 4,
{
    assert((n + 3) / 4 * 4 >= n && (n + 3) / 4 * 4 < n + 4) by (nonlinear_arith);
}

proof fn lemma_encode_bytes(s: Seq<u8>, rest: Seq<u8>)
    requires
        fits_array(s),
    ensures
        array_fits(encode_bytes(s) + rest),
        array_bytes(encode_bytes(s) + rest) == s,
        array_len(encode_bytes(s) + rest) == encode_bytes(s).len(),
        (encode_bytes(s) + rest).skip(encode_bytes(s).len() as int) == rest,
{
    let l = s.len() as u32;
    let tail = s + Seq::new(pad_after(s.len()), |i: int| 0u8) + rest;
    lemma_word(l, tail);
    lemma_pad(s.len());
    let e = encode_bytes(s) + rest;
    assert(e =~= word(l) + tail);
    assert(e.subrange(4, 4 + s.len() as int) =~= s);
    assert(e.skip(encode_bytes(s).len() as int) =~= rest);
}

/// What [`lemma_step_encoded`] states, for one kind and value.
pub open spec fn step_encoded(k: KindModel, v: ValueModel, rest: Seq<u8>, f: Seq<i32>) -> bool {
    &&& arg_step(k, encode_value(k, v) + rest, value_fds(v) + f) == Step::Done(
        v,
        encode_value(k, v).len(),
        value_fds(v).len(),
    )
    &&& (encode_value(k, v) + rest).skip(encode_value(k, v).len() as int) == rest
    &&& (value_fds(v) + f).skip(value_fds(v).len() as int) == f
}

proof fn lemma_step_word(k: KindModel, v: ValueModel, rest: Seq<u8>, f: Seq<i32>)
    requires
        valid_value(k, v),
        v is Int || v is Uint || v is Fixed || v is Object || v is NewId || v is Enum,
    ensures
        step_encoded(k, v, rest, f),
{
    reveal(arg_step);
    assert((value_fds(v) + f).skip(0) =~= f);
    let w: u32 = match v {
        ValueModel::Int(i) => bits(i),
        ValueModel::Fixed(i) => bits(i),
        ValueModel::Uint(u) => u,
        ValueModel::NewId(u) => u,
        ValueModel::Object(o) => match o {
            Some(id) => id,
            None => 0,
        },
        ValueModel::Enum(i) => match k {
            KindModel::Enum(values) => values[i as int],
            _ => 0,
        },
        _ => 0,
    };
    assert(encode_value(k, v) == word(w));
    lemma_word(w, rest);
    assert(value_fds(v) + f =~= f);
    match v {
        ValueModel::Int(i) => lemma_bits(i),
        ValueModel::Fixed(i) => lemma_bits(i),
        _ => {},
    }
}

proof fn lemma_step_bytes(k: KindModel, v: ValueModel, rest: Seq<u8>, f: Seq<i32>)
    requires
        valid_value(k, v),
        v is Str || v is Array,
    ensures
        step_encoded(k, v, rest, f),
{
    reveal(arg_step);
    assert((value_fds(v) + f).skip(0) =~= f);
    assert(value_fds(v) + f =~= f);
    let o = match v {
        ValueModel::Str(o) => o,
        ValueModel::Array(o) => o,
        _ => None,
    };
    match o {
        Some(s) => {
            lemma_encode_bytes(s, rest);
        },
        None => {
            lemma_word(0, rest);
            let b = word(0) + rest;
            assert(b.subrange(4, 4) =~= Seq::<u8>::empty());
            assert(pad4(0) == 0);
        },
    }
}

proof fn lemma_step_dyn(k: KindModel, v: ValueModel, rest: Seq<u8>, f: Seq<i32>)
    requires
        valid_value(k, v),
        v is DynNewId,
    ensures
        step_encoded(k, v, rest, f),
{
    reveal(arg_step);
    assert((value_fds(v) + f).skip(0) =~= f);
    assert(value_fds(v) + f =~= f);
    if let ValueModel::DynNewId(name, version, id) = v {
        let e = encode_value(k, v);
        let b = e + rest;
        let ids = word(version) + word(id) + rest;
        lemma_encode_bytes(name, ids);
        assert(b =~= encode_bytes(name) + ids);
        let n = encode_bytes(name).len() as int;
        lemma_word(version, word(id) + rest);
        lemma_word(id, rest);
        assert(b.skip(n) =~= word(version) + (word(id) + rest));
        assert(le_u32(b, n) == le_u32(b.skip(n), 0));
        assert(b.skip(n + 4) =~= word(id) + rest);
        assert(le_u32(b, n + 4) == le_u32(b.skip(n + 4), 0));
        assert(b.skip(e.len() as int) =~= rest);
    }
}

proof fn lemma_step_fd(k: KindModel, v: ValueModel, rest: Seq<u8>, f: Seq<i32>)
    requires
        valid_value(k, v),
        v is Fd,
    ensures
        step_encoded(k, v, rest, f),
{
    reveal(arg_step);
    assert((value_fds(v) + f).skip(1) =~= f);
    assert(encode_value(k, v) + rest =~= rest);
    assert(rest.skip(0) =~= rest);
}

/// Decoding one value: its encoding, then anything, decodes to the value, taking
/// exactly its bytes and its descriptors.
proof fn lemma_step_encoded(k: KindModel, v: ValueModel, rest: Seq<u8>, f: Seq<i32>)
    requires
        valid_value(k, v),
    ensures
        step_encoded(k, v, rest, f),
{
    match v {
        ValueModel::Str(_) => lemma_step_bytes(k, v, rest, f),
        ValueModel::Array(_) => lemma_step_bytes(k, v, rest, f),
        ValueModel::DynNewId(_, _, _) => lemma_step_dyn(k, v, rest, f),
        ValueModel::Fd(_) => lemma_step_fd(k, v, rest, f),
        _ => lemma_step_word(k, v, rest, f),
    }
}

/// The values of a request, encoded and sent with their descriptors, decode to the same
/// values: the decoder takes every byte of the body and exactly the request's
/// descriptors, whatever other descriptors are queued after them.
pub proof fn law_decode_encoded(ks: Seq<KindModel>, vs: Seq<ValueModel>, extra: Seq<i32>)
    requires
        ks.len() == vs.len(),
        forall|i: int| 0 <= i < vs.len() ==> valid_value(#[trigger] ks[i], vs[i]),
    ensures
        decode_args(ks, encode_args(ks, vs), args_fds(vs) + extra) == Decoded::Done(
            vs,
            args_fds(vs).len(),
        ),
    decreases vs.len(),
{
    if vs.len() == 0 {
        assert(encode_args(ks, vs) =~= Seq::<u8>::empty());
        assert(vs =~= Seq::<ValueModel>::empty());
    } else {
        let rest_b = encode_args(ks.skip(1), vs.skip(1));
        let rest_f = args_fds(vs.skip(1)) + extra;
        assert(valid_value(ks[0], vs[0]));
        lemma_step_encoded(ks[0], vs[0], rest_b, rest_f);
        assert(args_fds(vs) + extra =~= value_fds(vs[0]) + rest_f);
        assert forall|i: int| 0 <= i < vs.skip(1).len() implies valid_value(
            #[trigger] ks.skip(1)[i],
            vs.skip(1)[i],
        ) by {
            assert(ks.skip(1)[i] == ks[i + 1]);
            assert(vs.skip(1)[i] == vs[i + 1]);
        }
        law_decode_encoded(ks.skip(1), vs.skip(1), extra);
        lemma_step_bounds(ks[0], encode_value(ks[0], vs[0]) + rest_b, value_fds(vs[0]) + rest_f);
        assert(seq![vs[0]] + vs.skip(1) =~= vs);
    }
}

} // verus!
