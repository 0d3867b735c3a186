//! The decisions of binding a listening socket: which lockfile to take, when a taken
//! lock is trusted, which socket names to try and in what order, and which paths a
//! socket may have. The system calls themselves are made by the caller.
use vstd::prelude::*;

verus! {

/// The identity of a file: its device and inode numbers.
#[derive(Debug, Clone, Copy, PartialEq, Eq, Structural)]
pub struct FileId {
    pub dev: u64,
    pub ino: u64,
}

/// What to do with a lockfile that was opened and locked.
#[derive(Debug, Clone, Copy, PartialEq, Eq, Structural)]
pub enum LockDecision {
    /// The lock is on the file that the path names: keep it.
    Keep,
    /// The path was unlinked or replaced between the open and the lock: drop the lock
    /// and open the path again.
    Retry,
}

/// Decides whether a lock just taken is held on the file that `path_id` names now;
/// `path_id` is none where the path no longer resolves, and `fd_id` is the identity of
/// the locked descriptor.
pub fn verify_lock(path_id: Option<FileId>, fd_id: FileId) -> (r: LockDecision)
    ensures
        r == verify_lock_spec(path_id, fd_id),
        r == LockDecision::Keep <==> path_id == Some(fd_id),
{
    match path_id {
        Some(p) => {
            if p.dev == fd_id.dev && p.ino == fd_id.ino {
                LockDecision::Keep
            } else {
                LockDecision::Retry
            }
        },
        None => LockDecision::Retry,
    }
}

/// Of two processes that lock descriptors of the same path, only one whose descriptor
/// is the file that the path names keeps its lock; where the path was replaced in
/// between, the process holding the old file retries.
pub proof fn law_lock_winner(path_id: FileId, a: FileId, b: FileId)
    requires
        a != b,
    ensures
        !(verify_lock_spec(Some(path_id), a) == LockDecision::Keep && verify_lock_spec(
            Some(path_id),
            b,
        ) == LockDecision::Keep),
        verify_lock_spec(None, a) == LockDecision::Retry,
{
}

/// What [`verify_lock`] decides.
pub open spec fn verify_lock_spec(path_id: Option<FileId>, fd_id: FileId) -> LockDecision {
    if path_id == Some(fd_id) {
        LockDecision::Keep
    } else {
        LockDecision::Retry
    }
}

/// The bytes of `".lock"`.
pub open spec fn lock_suffix() -> Seq<u8> {
    seq![46u8, 108u8, 111u8, 99u8, 107u8]
}

/// The path of the lockfile that guards the socket at `path`: the path with `.lock`
/// appended.
pub fn lock_path(path: &[u8]) -> (r: Vec<u8>)
    ensures
        r@ == path@ + lock_suffix(),
{
    let mut r: Vec<u8> = Vec::new();
    let mut i: usize = 0;
    while i < path.len()
        invariant
            i <= path@.len(),
            r@ == path@.take(i as int),
        decreases path@.len() - i,
    {
        r.push(path[i]);
        i = i + 1;
        assert(r@ =~= path@.take(i as int));
    }
    r.push(46u8);
    r.push(108u8);
    r.push(111u8);
    r.push(99u8);
    r.push(107u8);
    assert(r@ =~= path@ + lock_suffix());
    r
}

/// The longest socket path, in bytes, that fits the address of a Unix socket with its
/// terminating NUL.
pub const MAX_SOCKET_PATH: usize = 107;

/// Why a path cannot name a socket.
#[derive(Debug, Clone, Copy, PartialEq, Eq, Structural)]
pub enum PathError {
    /// The path holds a NUL byte, or is too long for a socket address.
    InvalidPath,
}

/// Whether `s` holds a NUL byte.
pub open spec fn has_nul(s: Seq<u8>) -> bool {
    exists|i: int| 0 <= i < s.len() && s[i] == 0
}

/// The path as a C string: its bytes and a terminating NUL; an error where it holds a
/// NUL byte of its own.
pub fn cpath(path: &[u8]) -> (r: Result<Vec<u8>, PathError>)
    ensures
        r is Err <==> has_nul(path@),
        r matches Ok(c) ==> c@ == path@.push(0u8),
{
    let mut r: Vec<u8> = Vec::new();
    let mut i: usize = 0;
    while i < path.len()
        invariant
            i <= path@.len(),
            r@ == path@.take(i as int),
            forall|j: int| 0 <= j < i ==> path@[j] != 0,
        decreases path@.len() - i,
    {
        if path[i] == 0 {
            return Err(PathError::InvalidPath);
        }
        r.push(path[i]);
        i = i + 1;
        assert(r@ =~= path@.take(i as int));
    }
    r.push(0u8);
    assert(path@.take(path@.len() as int) =~= path@);
    Ok(r)
}

/// The path as the address of a socket: as [`cpath`], and an error too where it is
/// longer than [`MAX_SOCKET_PATH`] bytes.
pub fn socket_path(path: &[u8]) -> (r: Result<Vec<u8>, PathError>)
    ensures
        r is Err <==> has_nul(path@) || path@.len() > MAX_SOCKET_PATH,
        r matches Ok(c) ==> c@ == path@.push(0u8),
{
    if path.len() > MAX_SOCKET_PATH {
        return Err(PathError::InvalidPath);
    }
    cpath(path)
}

/// The decimal digits of `n`, most significant first.
pub open spec fn decimal(n: nat) -> Seq<u8>
    decreases n,
{
    if n < 10 {
        seq![(48 + n) as u8]
    } else {
        decimal(n / 10).push((48 + n % 10) as u8)
    }
}

/// The bytes of `"wayland-"`.
pub open spec fn wayland_prefix() -> Seq<u8> {
    seq![119u8, 97u8, 121u8, 108u8, 97u8, 110u8, 100u8, 45u8]
}

/// Writes the decimal digits of `n` after the bytes of `out`.
fn push_decimal(out: &mut Vec<u8>, n: u64)
    ensures
        final(out)@ == old(out)@ + decimal(n as nat),
    decreases n,
{
    if n >= 10 {
        push_decimal(out, n / 10);
    }
    out.push((48 + n % 10) as u8);
    assert(final(out)@ =~= old(out)@ + decimal(n as nat));
}

/// The short name of the socket with number `n`: `wayland-N`.
pub fn socket_name(n: u64) -> (r: Vec<u8>)
    ensures
        r@ == wayland_prefix() + decimal(n as nat),
{
    let mut r: Vec<u8> = Vec::new();
    r.push(119u8);
    r.push(97u8);
    r.push(121u8);
    r.push(108u8);
    r.push(97u8);
    r.push(110u8);
    r.push(100u8);
    r.push(45u8);
    assert(r@ =~= wayland_prefix());
    push_decimal(&mut r, n);
    r
}

/// What binding one candidate socket gave.
#[derive(Debug, Clone, Copy, PartialEq, Eq, Structural)]
pub enum BindOutcome {
    /// The socket is bound.
    Bound,
    /// Another server listens there.
    AddrInUse,
    /// Another server holds the lockfile.
    WouldBlock,
    /// Any other error.
    Failed,
}

/// What to do next while binding one of a range of sockets.
#[derive(Debug, Clone, Copy, PartialEq, Eq, Structural)]
pub enum RangeStep {
    /// Try the socket with this number.
    Try(u64),
    /// The socket with this number is bound: stop.
    Bound(u64),
    /// An error that ends the search.
    Fail,
    /// Every socket of the range is taken.
    AlreadyInUse { start: u64, end: u64 },
}

/// Walks the sockets `start..=end` in order, until one binds.
pub struct RangeBinder {
    start: u64,
    end: u64,
    current: u64,
}

impl RangeBinder {
    /// The first number of the range.
    pub closed spec fn start(&self) -> u64 {
        self.start
    }

    /// The last number of the range.
    pub closed spec fn end(&self) -> u64 {
        self.end
    }

    /// The number being tried.
    pub closed spec fn current(&self) -> u64 {
        self.current
    }

    /// A search over `start..=end`, and its first step.
    pub fn new(start: u64, end: u64) -> (r: (Self, RangeStep))
        ensures
            r.0.start() == start,
            r.0.end() == end,
            r.0.current() == start,
            start <= end ==> r.1 == RangeStep::Try(start),
            start > end ==> r.1 == (RangeStep::AlreadyInUse { start, end }),
    {
        let b = RangeBinder { start, end, current: start };
        if start <= end {
            (b, RangeStep::Try(start))
        } else {
            (b, RangeStep::AlreadyInUse { start, end })
        }
    }

    /// Takes in what binding the current socket gave, and says what to do next: stop
    /// on success or on an error other than the two that mean "taken"; else go on with
    /// the next number, until the range ends.
    pub fn step(&mut self, outcome: BindOutcome) -> (r: RangeStep)
        ensures
            final(self).start() == old(self).start(),
            final(self).end() == old(self).end(),
            outcome == BindOutcome::Bound ==> r == RangeStep::Bound(old(self).current())
                && final(self).current() == old(self).current(),
            outcome == BindOutcome::Failed ==> r == RangeStep::Fail && final(self).current()
                == old(self).current(),
            (outcome == BindOutcome::AddrInUse || outcome == BindOutcome::WouldBlock) ==> if old(
                self,
            ).current() < old(self).end() {
                r == RangeStep::Try((old(self).current() + 1) as u64) && final(self).current()
                    == old(self).current() + 1
            } else {
                r == (RangeStep::AlreadyInUse { start: old(self).start(), end: old(self).end() })
                    && final(self).current() == old(self).current()
            },
    {
        match outcome {
            BindOutcome::Bound => RangeStep::Bound(self.current),
            BindOutcome::Failed => RangeStep::Fail,
            BindOutcome::AddrInUse | BindOutcome::WouldBlock => {
                if self.current < self.end {
                    self.current = self.current + 1;
                    RangeStep::Try(self.current)
                } else {
                    RangeStep::AlreadyInUse { start: self.start, end: self.end }
                }
            },
        }
    }
}

/// The number of a client connection, unique within the process.
#[derive(Debug, Clone, Copy, PartialEq, Eq, Structural)]
pub struct ClientId {
    value: u64,
}

impl ClientId {
    /// The id with number `value`.
    pub fn new(value: u64) -> (r: Self)
        ensures
            r.number() == value,
    {
        ClientId { value }
    }

    /// The id's number.
    pub closed spec fn number(&self) -> u64 {
        self.value
    }

    /// The id's number.
    pub fn value(&self) -> (r: u64)
        ensures
            r == self.number(),
    {
        self.value
    }
}

/// The number of a listener, unique within the process.
#[derive(Debug, Clone, Copy, PartialEq, Eq, Structural)]
pub struct ListenerId {
    value: u64,
}

impl ListenerId {
    /// The id with number `value`.
    pub fn new(value: u64) -> (r: Self)
        ensures
            r.number() == value,
    {
        ListenerId { value }
    }

    /// The id's number.
    pub closed spec fn number(&self) -> u64 {
        self.value
    }

    /// The id's number.
    pub fn value(&self) -> (r: u64)
        ensures
            r == self.number(),
    {
        self.value
    }
}

} // verus!
