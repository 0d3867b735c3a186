//! Resumable parsers over a sequence of bytes and a sequence of file descriptors.
//!
//! A parser either finishes with its output, fails on data that is structurally
//! invalid, or hands itself back as incomplete when the input runs out, so that the
//! caller may go on with more input later without any work being redone.
use vstd::prelude::*;

use std::collections::VecDeque;
use vstd::arithmetic::div_mod::{lemma_add_mod_noop, lemma_mod_twice};

verus! {

/// A source of items taken one at a time from the front.
pub trait Buffer<T> {
    /// The items not taken yet, in order.
    spec fn items(&self) -> Seq<T>;

    /// Takes the next item, if one is left.
    fn take(&mut self) -> (r: Option<T>)
        ensures
            old(self).items().len() == 0 ==> r is None && final(self).items() == old(self).items(),
            old(self).items().len() > 0 ==> r == Some(old(self).items()[0]) && final(self).items() == old(self).items().skip(1),
    ;
}

/// A queue of items that parsers take from.
pub struct IterBuf<T> {
    queue: VecDeque<T>,
}

impl<T> IterBuf<T> {
    /// A buffer over the items of `v`, first item first.
    pub fn new(v: Vec<T>) -> (r: Self)
        ensures
            r.items() == v@,
    {
        let mut queue: VecDeque<T> = VecDeque::new();
        let mut v = v;
        let ghost all = v@;
        assert(all =~= v@ + queue@);
        while v.len() > 0
            invariant
                all == v@ + queue@,
            decreases v@.len(),
        {
            let x = v.pop().unwrap();
            queue.push_front(x);
            assert(all =~= v@ + queue@);
        }
        assert(queue@ =~= all);
        IterBuf { queue }
    }

    /// Appends an item at the back.
    pub fn push(&mut self, item: T)
        ensures
            final(self).items() == old(self).items().push(item),
    {
        self.queue.push_back(item);
    }

    /// The number of items left.
    pub fn len(&self) -> (r: usize)
        ensures
            r == self.items().len(),
    {
        self.queue.len()
    }
}

impl<T> Buffer<T> for IterBuf<T> {
    closed spec fn items(&self) -> Seq<T> {
        self.queue@
    }

    fn take(&mut self) -> (r: Option<T>) {
        let r = self.queue.pop_front();
        proof {
            if old(self).queue@.len() > 0 {
                assert(self.queue@ =~= old(self).queue@.skip(1));
            }
        }
        r
    }
}

/// What a parser gives on input that starts with given bytes and descriptors: the view
/// of its output, or a need for more input, or a failure; each with the numbers of
/// bytes and descriptors that the parse takes.
pub enum Outcome<T> {
    Done(T, nat, nat),
    Short(nat, nat),
    Fail(nat, nat),
}

/// An outcome seen from `nb` bytes and `nf` descriptors earlier in the input.
pub open spec fn shifted<T>(o: Outcome<T>, nb: nat, nf: nat) -> Outcome<T> {
    match o {
        Outcome::Done(v, b, f) => Outcome::Done(v, b + nb, f + nf),
        Outcome::Short(b, f) => Outcome::Short(b + nb, f + nf),
        Outcome::Fail(b, f) => Outcome::Fail(b + nb, f + nf),
    }
}

/// Why a parser did not finish.
pub enum ParseError<P> {
    /// The input ran out; the parser to resume with.
    Incomplete(P),
    /// The data is structurally invalid.
    Failed,
}

impl<P> ParseError<P> {
    /// Applies `f` to the parser of an incomplete parse.
    pub fn map<Pb, F: FnOnce(P) -> Pb>(self, f: F) -> (r: ParseError<Pb>)
        requires
            self matches ParseError::Incomplete(p) ==> f.requires((p,)),
        ensures
            self matches ParseError::Failed ==> r matches ParseError::Failed,
            self matches ParseError::Incomplete(p) ==> (r matches ParseError::Incomplete(q)
                && f.ensures((p,), q)),
    {
        match self {
            ParseError::Incomplete(p) => ParseError::Incomplete(f(p)),
            ParseError::Failed => ParseError::Failed,
        }
    }
}

/// `b2` is what is left of `b` once a part is taken from its front.
pub open spec fn took<T>(b: Seq<T>, b2: Seq<T>) -> bool {
    b2.len() <= b.len() && b2 == b.skip(b.len() - b2.len())
}

/// The number of items taken from `b` to leave `b2`.
pub open spec fn taken<T>(b: Seq<T>, b2: Seq<T>) -> nat {
    (b.len() - b2.len()) as nat
}

/// A resumable parser.
pub trait Parser: Sized {
    type Output: View;

    /// What the parser gives on input that starts with `b` and `f`.
    spec fn run(&self, b: Seq<u8>, f: Seq<i32>) -> Outcome<<Self::Output as View>::V>;

    /// A finished parse takes no more than the input, and depends on nothing but what
    /// it took.
    proof fn lemma_run(&self, b: Seq<u8>, f: Seq<i32>, x: Seq<u8>, y: Seq<i32>)
        ensures
            self.run(b, f) matches Outcome::Done(v, nb, nf) ==> nb <= b.len() && nf <= f.len()
                && self.run(b.take(nb as int) + x, f.take(nf as int) + y) == self.run(b, f),
    ;

    /// Parses from `bytes` and `fds`.
    fn parse(self, bytes: &mut IterBuf<u8>, fds: &mut IterBuf<i32>) -> (r: Result<
        Self::Output,
        ParseError<Self>,
    >)
        ensures
            took(old(bytes).items(), final(bytes).items()),
            took(old(fds).items(), final(fds).items()),
            r matches Ok(v) ==> self.run(old(bytes).items(), old(fds).items()) == Outcome::Done(
                v@,
                taken(old(bytes).items(), final(bytes).items()),
                taken(old(fds).items(), final(fds).items()),
            ),
            r matches Err(ParseError::Failed) ==> self.run(old(bytes).items(), old(fds).items())
                == Outcome::<<Self::Output as View>::V>::Fail(
                taken(old(bytes).items(), final(bytes).items()),
                taken(old(fds).items(), final(fds).items()),
            ),
            r matches Err(ParseError::Incomplete(q)) ==> self.run(old(bytes).items(), old(fds).items())
                == Outcome::<<Self::Output as View>::V>::Short(
                taken(old(bytes).items(), final(bytes).items()),
                taken(old(fds).items(), final(fds).items()),
            )
                && forall|x: Seq<u8>, y: Seq<i32>| #[trigger]
                self.run(
                    old(bytes).items().take(taken(old(bytes).items(), final(bytes).items()) as int)
                        + x,
                    old(fds).items().take(taken(old(fds).items(), final(fds).items()) as int) + y,
                ) == shifted(
                    q.run(x, y),
                    taken(old(bytes).items(), final(bytes).items()),
                    taken(old(fds).items(), final(fds).items()),
                ),
    ;
}

/// Takes a fixed number of bytes.
pub struct Bytes {
    want: usize,
    got: Vec<u8>,
}

/// The bytes still wanted by a parser that wants `want` and holds `got`.
pub open spec fn still_wanted(want: nat, got: nat) -> nat {
    if want >= got {
        (want - got) as nat
    } else {
        0
    }
}

impl Bytes {
    /// A parser of `size` bytes.
    pub fn new(size: usize) -> (r: Self)
        ensures
            r.wanted() == size,
            r.held() == Seq::<u8>::empty(),
    {
        Bytes { want: size, got: Vec::new() }
    }

    /// The number of bytes the parser yields in all.
    pub closed spec fn wanted(&self) -> nat {
        self.want as nat
    }

    /// The bytes taken so far.
    pub closed spec fn held(&self) -> Seq<u8> {
        self.got@
    }

    /// The bytes still wanted.
    pub open spec fn need(&self) -> nat {
        still_wanted(self.wanted(), self.held().len())
    }
}

impl Parser for Bytes {
    type Output = Vec<u8>;

    open spec fn run(&self, b: Seq<u8>, f: Seq<i32>) -> Outcome<Seq<u8>> {
        if b.len() >= self.need() {
            Outcome::Done(self.held() + b.take(self.need() as int), self.need(), 0)
        } else {
            Outcome::Short(b.len(), 0)
        }
    }

    proof fn lemma_run(&self, b: Seq<u8>, f: Seq<i32>, x: Seq<u8>, y: Seq<i32>) {
        let n = self.need() as int;
        if b.len() >= n {
            assert((b.take(n) + x).take(n) =~= b.take(n));
        }
    }

    fn parse(self, bytes: &mut IterBuf<u8>, fds: &mut IterBuf<i32>) -> (r: Result<
        Vec<u8>,
        ParseError<Self>,
    >) {
        let ghost b = bytes.items();
        let ghost start = self;
        let need = if self.want >= self.got.len() {
            self.want - self.got.len()
        } else {
            0
        };
        let mut this = self;
        let mut taken: usize = 0;
        while taken < need
            invariant
                need == start.need(),
                taken <= need,
                this.want == start.want,
                this.got@ == start.got@ + b.take(taken as int),
                taken <= b.len(),
                bytes.items() == b.skip(taken as int),
                fds.items() == old(fds).items(),
            ensures
                taken == need || taken == b.len(),
            decreases need - taken,
        {
            match bytes.take() {
                Some(byte) => {
                    this.got.push(byte);
                    taken = taken + 1;
                    assert(this.got@ =~= start.got@ + b.take(taken as int));
                    assert(bytes.items() =~= b.skip(taken as int));
                },
                None => {
                    break;
                },
            }
        }
        assert(fds.items() =~= old(fds).items().skip(0));
        if taken < need {
            proof {
                assert forall|x: Seq<u8>, y: Seq<i32>| #[trigger]
                    start.run(b.take(taken as int) + x, old(fds).items().take(0) + y) == shifted(
                        this.run(x, y),
                        taken as nat,
                        0,
                    ) by {
                    assert(b.take(taken as int) =~= b);
                    assert(this.got@ == start.got@ + b);
                    assert(this.need() == start.need() - taken);
                    let bx = b + x;
                    if bx.len() >= start.need() {
                        assert(bx.take(start.need() as int) =~= b + x.take(this.need() as int));
                        assert(start.got@ + bx.take(start.need() as int) =~= this.got@ + x.take(
                            this.need() as int,
                        ));
                    }
                }
            }
            Err(ParseError::Incomplete(this))
        } else {
            Ok(this.got)
        }
    }
}

/// Takes one file descriptor.
pub struct Fd {
    unit: (),
}

impl Fd {
    /// A parser of one descriptor.
    pub fn new() -> (r: Self) {
        Fd { unit: () }
    }
}

impl Parser for Fd {
    type Output = i32;

    open spec fn run(&self, b: Seq<u8>, f: Seq<i32>) -> Outcome<i32> {
        if f.len() >= 1 {
            Outcome::Done(f[0], 0, 1)
        } else {
            Outcome::Short(0, 0)
        }
    }

    proof fn lemma_run(&self, b: Seq<u8>, f: Seq<i32>, x: Seq<u8>, y: Seq<i32>) {
        if f.len() >= 1 {
            assert((f.take(1) + y)[0] == f[0]);
        }
    }

    fn parse(self, bytes: &mut IterBuf<u8>, fds: &mut IterBuf<i32>) -> (r: Result<
        i32,
        ParseError<Self>,
    >) {
        assert(bytes.items() =~= old(bytes).items().skip(0));
        match fds.take() {
            Some(fd) => Ok(fd),
            None => {
                proof {
                    assert(fds.items() =~= old(fds).items().skip(0));
                    assert forall|x: Seq<u8>, y: Seq<i32>| #[trigger]
                        self.run(old(bytes).items().take(0) + x, old(fds).items().take(0) + y)
                            == shifted(self.run(x, y), 0, 0) by {
                        assert(old(bytes).items().take(0) + x =~= x);
                        assert(old(fds).items().take(0) + y =~= y);
                    }
                }
                Err(ParseError::Incomplete(self))
            },
        }
    }
}

/// Takes nothing and yields a value.
pub struct Pass<T> {
    item: T,
}

impl<T: View> Pass<T> {
    /// A parser that yields `item`.
    pub fn new(item: T) -> (r: Self)
        ensures
            r.item() == item,
    {
        Pass { item }
    }

    /// The value yielded.
    pub closed spec fn item(&self) -> T {
        self.item
    }
}

impl<T: View> Parser for Pass<T> {
    type Output = T;

    open spec fn run(&self, b: Seq<u8>, f: Seq<i32>) -> Outcome<T::V> {
        Outcome::Done(self.item()@, 0, 0)
    }

    proof fn lemma_run(&self, b: Seq<u8>, f: Seq<i32>, x: Seq<u8>, y: Seq<i32>) {
    }

    fn parse(self, bytes: &mut IterBuf<u8>, fds: &mut IterBuf<i32>) -> (r: Result<
        T,
        ParseError<Self>,
    >) {
        assert(bytes.items() =~= old(bytes).items().skip(0));
        assert(fds.items() =~= old(fds).items().skip(0));
        Ok(self.item)
    }
}

/// A function on a parser's output, with its meaning stated over views.
pub trait MapFn<In: View> {
    type Out: View;

    /// What the function returns on an input whose view is `x`.
    spec fn spec_apply(&self, x: In::V) -> <Self::Out as View>::V;

    /// Applies the function.
    fn apply(self, x: In) -> (r: Self::Out)
        ensures
            r@ == self.spec_apply(x@),
    ;
}

/// Runs a parser and applies a function to its output.
pub struct MapParser<P, F> {
    parser: P,
    f: F,
}

impl<P: Parser, F: MapFn<P::Output>> MapParser<P, F> {
    /// The parser that applies `f` to what `parser` yields.
    pub fn new(parser: P, f: F) -> (r: Self)
        ensures
            r.inner() == parser,
            r.func() == f,
    {
        MapParser { parser, f }
    }

    /// The parser run first.
    pub closed spec fn inner(&self) -> P {
        self.parser
    }

    /// The function applied.
    pub closed spec fn func(&self) -> F {
        self.f
    }
}

/// The outcome of a parser whose output goes through `f`.
pub open spec fn map_outcome<A, B>(o: Outcome<A>, f: spec_fn(A) -> B) -> Outcome<B> {
    match o {
        Outcome::Done(v, nb, nf) => Outcome::Done(f(v), nb, nf),
        Outcome::Short(nb, nf) => Outcome::Short(nb, nf),
        Outcome::Fail(nb, nf) => Outcome::Fail(nb, nf),
    }
}

impl<P: Parser, F: MapFn<P::Output>> Parser for MapParser<P, F> {
    type Output = F::Out;

    open spec fn run(&self, b: Seq<u8>, f: Seq<i32>) -> Outcome<<F::Out as View>::V> {
        map_outcome(self.inner().run(b, f), |v| self.func().spec_apply(v))
    }

    proof fn lemma_run(&self, b: Seq<u8>, f: Seq<i32>, x: Seq<u8>, y: Seq<i32>) {
        self.inner().lemma_run(b, f, x, y);
    }

    fn parse(self, bytes: &mut IterBuf<u8>, fds: &mut IterBuf<i32>) -> (r: Result<
        F::Out,
        ParseError<Self>,
    >) {
        let MapParser { parser, f } = self;
        match parser.parse(bytes, fds) {
            Ok(out) => Ok(f.apply(out)),
            Err(ParseError::Failed) => Err(ParseError::Failed),
            Err(ParseError::Incomplete(q)) => {
                let r = MapParser { parser: q, f };
                proof {
                    let nb = taken(old(bytes).items(), bytes.items());
                    let nf = taken(old(fds).items(), fds.items());
                    assert forall|x: Seq<u8>, y: Seq<i32>| #[trigger]
                        self.run(
                            old(bytes).items().take(nb as int) + x,
                            old(fds).items().take(nf as int) + y,
                        ) == shifted(r.run(x, y), nb, nf) by {
                        assert(parser.run(
                            old(bytes).items().take(nb as int) + x,
                            old(fds).items().take(nf as int) + y,
                        ) == shifted(q.run(x, y), nb, nf));
                    }
                }
                Err(ParseError::Incomplete(r))
            },
        }
    }
}

/// Runs a parser whose output is optional; fails where it yields nothing.
pub struct Unwrap<P> {
    parser: P,
}

impl<T: View, P: Parser<Output = Option<T>>> Unwrap<P> {
    /// The parser that unwraps what `parser` yields.
    pub fn new(parser: P) -> (r: Self)
        ensures
            r.inner() == parser,
    {
        Unwrap { parser }
    }

    /// The parser run.
    pub closed spec fn inner(&self) -> P {
        self.parser
    }
}

/// The outcome of a parser of an optional value, unwrapped.
pub open spec fn unwrap_outcome<T: View>(o: Outcome<Option<T>>) -> Outcome<T::V> {
    match o {
        Outcome::Done(Some(v), nb, nf) => Outcome::Done(v@, nb, nf),
        Outcome::Done(None, nb, nf) => Outcome::Fail(nb, nf),
        Outcome::Short(nb, nf) => Outcome::Short(nb, nf),
        Outcome::Fail(nb, nf) => Outcome::Fail(nb, nf),
    }
}

impl<T: View, P: Parser<Output = Option<T>>> Parser for Unwrap<P> {
    type Output = T;

    open spec fn run(&self, b: Seq<u8>, f: Seq<i32>) -> Outcome<T::V> {
        unwrap_outcome::<T>(self.inner().run(b, f))
    }

    proof fn lemma_run(&self, b: Seq<u8>, f: Seq<i32>, x: Seq<u8>, y: Seq<i32>) {
        self.inner().lemma_run(b, f, x, y);
    }

    fn parse(self, bytes: &mut IterBuf<u8>, fds: &mut IterBuf<i32>) -> (r: Result<
        T,
        ParseError<Self>,
    >) {
        match self.parser.parse(bytes, fds) {
            Ok(Some(out)) => Ok(out),
            Ok(None) => Err(ParseError::Failed),
            Err(ParseError::Failed) => Err(ParseError::Failed),
            Err(ParseError::Incomplete(q)) => {
                let r = Unwrap { parser: q };
                proof {
                    let nb = taken(old(bytes).items(), bytes.items());
                    let nf = taken(old(fds).items(), fds.items());
                    assert forall|x: Seq<u8>, y: Seq<i32>| #[trigger]
                        self.run(
                            old(bytes).items().take(nb as int) + x,
                            old(fds).items().take(nf as int) + y,
                        ) == shifted(r.run(x, y), nb, nf) by {
                        assert(self.parser.run(
                            old(bytes).items().take(nb as int) + x,
                            old(fds).items().take(nf as int) + y,
                        ) == shifted(q.run(x, y), nb, nf));
                    }
                }
                Err(ParseError::Incomplete(r))
            },
        }
    }
}

/// A function from a parser's output to the parser to run next, with what that parser
/// gives stated.
pub trait ThenFn<In: View> {
    type Next: Parser;

    /// What the next parser, made from an output whose view is `v`, gives on input that
    /// starts with `b` and `f`.
    spec fn next_run(&self, v: In::V, b: Seq<u8>, f: Seq<i32>) -> Outcome<
        <<Self::Next as Parser>::Output as View>::V,
    >;

    /// The next parser's finished outcomes depend on nothing but what they took.
    proof fn lemma_next(&self, v: In::V, b: Seq<u8>, f: Seq<i32>, x: Seq<u8>, y: Seq<i32>)
        ensures
            self.next_run(v, b, f) matches Outcome::Done(w, nb, nf) ==> nb <= b.len() && nf
                <= f.len() && self.next_run(v, b.take(nb as int) + x, f.take(nf as int) + y)
                == self.next_run(v, b, f),
    ;

    /// Makes the next parser from the output `x`.
    fn call(self, x: In) -> (r: Self::Next)
        ensures
            forall|b: Seq<u8>, f: Seq<i32>| #[trigger] r.run(b, f) == self.next_run(x@, b, f),
    ;
}

/// The stage that a [`Then`] is at.
pub enum ThenState<Pa, F, Pb> {
    /// Running the first parser; the function makes the second from its output.
    First(Pa, F),
    /// Running the second parser.
    Second(Pb),
}

/// Runs a parser, makes a second parser from its output, and runs that one.
pub struct Then<Pa, F, Pb> {
    state: ThenState<Pa, F, Pb>,
}

impl<Pa: Parser, F: ThenFn<Pa::Output, Next = Pb>, Pb: Parser> Then<Pa, F, Pb> {
    /// The parser that runs `first`, then the parser that `f` makes of its output.
    pub fn new(first: Pa, f: F) -> (r: Self)
        ensures
            r.stage() == ThenState::<Pa, F, Pb>::First(first, f),
    {
        Then { state: ThenState::First(first, f) }
    }

    /// The stage reached.
    pub closed spec fn stage(&self) -> ThenState<Pa, F, Pb> {
        self.state
    }
}

/// What a [`Then`] in its first stage gives, where the first parser gave `o`.
pub open spec fn then_outcome<Pa: Parser, F: ThenFn<Pa::Output>>(
    o: Outcome<<Pa::Output as View>::V>,
    g: F,
    b: Seq<u8>,
    f: Seq<i32>,
) -> Outcome<<<F::Next as Parser>::Output as View>::V> {
    match o {
        Outcome::Done(v, nb, nf) => shifted(
            g.next_run(v, b.skip(nb as int), f.skip(nf as int)),
            nb,
            nf,
        ),
        Outcome::Short(nb, nf) => Outcome::Short(nb, nf),
        Outcome::Fail(nb, nf) => Outcome::Fail(nb, nf),
    }
}

impl<Pa: Parser, F: ThenFn<Pa::Output, Next = Pb>, Pb: Parser> Parser for Then<Pa, F, Pb> {
    type Output = Pb::Output;

    open spec fn run(&self, b: Seq<u8>, f: Seq<i32>) -> Outcome<<Pb::Output as View>::V> {
        match self.stage() {
            ThenState::First(p1, g) => then_outcome::<Pa, F>(p1.run(b, f), g, b, f),
            ThenState::Second(p2) => p2.run(b, f),
        }
    }

    proof fn lemma_run(&self, b: Seq<u8>, f: Seq<i32>, x: Seq<u8>, y: Seq<i32>) {
        match self.stage() {
            ThenState::First(p1, g) => {
                if let Outcome::Done(v, nb1, nf1) = p1.run(b, f) {
                    p1.lemma_run(b, f, seq![], seq![]);
                    let b1 = b.skip(nb1 as int);
                    let f1 = f.skip(nf1 as int);
                    g.lemma_next(v, b1, f1, x, y);
                    if let Outcome::Done(w, nb2, nf2) = g.next_run(v, b1, f1) {
                        let bx = b.take((nb1 + nb2) as int) + x;
                        let fy = f.take((nf1 + nf2) as int) + y;
                        let xx = b1.take(nb2 as int) + x;
                        let yy = f1.take(nf2 as int) + y;
                        p1.lemma_run(b, f, xx, yy);
                        assert(b.take(nb1 as int) + xx =~= bx);
                        assert(f.take(nf1 as int) + yy =~= fy);
                        assert(bx.skip(nb1 as int) =~= xx);
                        assert(fy.skip(nf1 as int) =~= yy);
                    }
                }
            },
            ThenState::Second(p2) => {
                p2.lemma_run(b, f, x, y);
            },
        }
    }

    fn parse(self, bytes: &mut IterBuf<u8>, fds: &mut IterBuf<i32>) -> (r: Result<
        Pb::Output,
        ParseError<Self>,
    >) {
        let ghost b = bytes.items();
        let ghost f = fds.items();
        match self.state {
            ThenState::First(p1, g) => {
                let ghost g0 = g;
                match p1.parse(bytes, fds) {
                    Ok(v) => {
                        let ghost nb1 = taken(b, bytes.items());
                        let ghost nf1 = taken(f, fds.items());
                        let ghost b1 = bytes.items();
                        let ghost f1 = fds.items();
                        let p2 = g.call(v);
                        assert(p2.run(b1, f1) == g0.next_run(v@, b1, f1));
                        let r = p2.parse(bytes, fds);
                        proof {
                            let nb2 = taken(b1, bytes.items());
                            let nf2 = taken(f1, fds.items());
                            assert(bytes.items() =~= b.skip((nb1 + nb2) as int));
                            assert(fds.items() =~= f.skip((nf1 + nf2) as int));
                        }
                        match r {
                            Ok(w) => Ok(w),
                            Err(ParseError::Failed) => Err(ParseError::Failed),
                            Err(ParseError::Incomplete(q)) => {
                                let r = Then { state: ThenState::Second(q) };
                                proof {
                                    let nb2 = taken(b1, bytes.items());
                                    let nf2 = taken(f1, fds.items());
                                    let nb = taken(b, bytes.items());
                                    let nf = taken(f, fds.items());
                                    assert(nb == nb1 + nb2);
                                    assert forall|x: Seq<u8>, y: Seq<i32>| #[trigger]
                                        self.run(b.take(nb as int) + x, f.take(nf as int) + y)
                                            == shifted(r.run(x, y), nb, nf) by {
                                        let xx = b1.take(nb2 as int) + x;
                                        let yy = f1.take(nf2 as int) + y;
                                        p1.lemma_run(b, f, xx, yy);
                                        assert(b.take(nb1 as int) + xx =~= b.take(nb as int) + x);
                                        assert(f.take(nf1 as int) + yy =~= f.take(nf as int) + y);
                                        assert((b.take(nb as int) + x).skip(nb1 as int) =~= xx);
                                        assert((f.take(nf as int) + y).skip(nf1 as int) =~= yy);
                                        assert(p2.run(xx, yy) == shifted(q.run(x, y), nb2, nf2));
                                    }
                                }
                                Err(ParseError::Incomplete(r))
                            },
                        }
                    },
                    Err(ParseError::Failed) => Err(ParseError::Failed),
                    Err(ParseError::Incomplete(q)) => {
                        let r = Then { state: ThenState::First(q, g) };
                        proof {
                            let nb = taken(b, bytes.items());
                            let nf = taken(f, fds.items());
                            assert forall|x: Seq<u8>, y: Seq<i32>| #[trigger]
                                self.run(b.take(nb as int) + x, f.take(nf as int) + y) == shifted(
                                    r.run(x, y),
                                    nb,
                                    nf,
                                ) by {
                                let bx = b.take(nb as int) + x;
                                let fy = f.take(nf as int) + y;
                                assert(p1.run(bx, fy) == shifted(q.run(x, y), nb, nf));
                                if let Outcome::Done(v, k, m) = q.run(x, y) {
                                    q.lemma_run(x, y, seq![], seq![]);
                                    assert(b.take(nb as int).len() == nb);
                                    assert(f.take(nf as int).len() == nf);
                                    assert(bx.skip((k + nb) as int) =~= x.skip(k as int));
                                    assert(fy.skip((m + nf) as int) =~= y.skip(m as int));
                                }
                            }
                        }
                        Err(ParseError::Incomplete(r))
                    },
                }
            },
            ThenState::Second(p2) => {
                match p2.parse(bytes, fds) {
                    Ok(w) => Ok(w),
                    Err(ParseError::Failed) => Err(ParseError::Failed),
                    Err(ParseError::Incomplete(q)) => {
                        let r = Then { state: ThenState::Second(q) };
                        proof {
                            let nb = taken(b, bytes.items());
                            let nf = taken(f, fds.items());
                            assert forall|x: Seq<u8>, y: Seq<i32>| #[trigger]
                                self.run(b.take(nb as int) + x, f.take(nf as int) + y) == shifted(
                                    r.run(x, y),
                                    nb,
                                    nf,
                                ) by {
                                assert(p2.run(b.take(nb as int) + x, f.take(nf as int) + y)
                                    == shifted(q.run(x, y), nb, nf));
                            }
                        }
                        Err(ParseError::Incomplete(r))
                    },
                }
            },
        }
    }
}

/// Discards a number of bytes and a number of descriptors.
pub struct Consume {
    bytes: usize,
    fds: usize,
}

impl Consume {
    /// A parser that discards `bytes` bytes and `fds` descriptors.
    pub fn new(bytes: usize, fds: usize) -> (r: Self)
        ensures
            r.bytes_left() == bytes,
            r.fds_left() == fds,
    {
        Consume { bytes, fds }
    }

    /// The bytes still to discard.
    pub closed spec fn bytes_left(&self) -> nat {
        self.bytes as nat
    }

    /// The descriptors still to discard.
    pub closed spec fn fds_left(&self) -> nat {
        self.fds as nat
    }
}

impl Parser for Consume {
    type Output = (usize, usize);

    open spec fn run(&self, b: Seq<u8>, f: Seq<i32>) -> Outcome<(usize, usize)> {
        if b.len() >= self.bytes_left() && f.len() >= self.fds_left() {
            Outcome::Done((0usize, 0usize), self.bytes_left(), self.fds_left())
        } else if b.len() < self.bytes_left() {
            Outcome::Short(b.len(), 0)
        } else {
            Outcome::Short(self.bytes_left(), f.len())
        }
    }

    proof fn lemma_run(&self, b: Seq<u8>, f: Seq<i32>, x: Seq<u8>, y: Seq<i32>) {
    }

    fn parse(self, bytes: &mut IterBuf<u8>, fds: &mut IterBuf<i32>) -> (r: Result<
        (usize, usize),
        ParseError<Self>,
    >) {
        let ghost b = bytes.items();
        let ghost f = fds.items();
        let ghost start = self;
        let mut this = self;
        while this.bytes > 0
            invariant
                b == old(bytes).items(),
                f == old(fds).items(),
                start == self,
                this.bytes <= start.bytes,
                this.fds == start.fds,
                bytes.items() == b.skip(start.bytes - this.bytes),
                start.bytes - this.bytes <= b.len(),
                fds.items() == f,
            decreases this.bytes,
        {
            match bytes.take() {
                Some(_) => {
                    this.bytes = this.bytes - 1;
                    assert(bytes.items() =~= b.skip(start.bytes - this.bytes));
                },
                None => {
                    proof {
                        let nb = (start.bytes - this.bytes) as nat;
                        assert(bytes.items().len() == 0);
                        assert(nb == b.len());
                        assert(bytes.items() =~= b.skip(b.len() as int));
                        assert(f =~= f.skip(0));
                        assert(b.take(nb as int) =~= b);
                        assert forall|x: Seq<u8>, y: Seq<i32>| #[trigger]
                            start.run(b.take(nb as int) + x, f.take(0) + y) == shifted(
                                this.run(x, y),
                                nb,
                                0,
                            ) by {
                            assert(f.take(0) + y =~= y);
                        }
                    }
                    return Err(ParseError::Incomplete(this));
                },
            }
        }
        assert(bytes.items() =~= b.skip(start.bytes as int));
        while this.fds > 0
            invariant
                b == old(bytes).items(),
                f == old(fds).items(),
                start == self,
                this.bytes == 0,
                this.fds <= start.fds,
                fds.items() == f.skip(start.fds - this.fds),
                start.fds - this.fds <= f.len(),
                bytes.items() == b.skip(start.bytes as int),
                start.bytes <= b.len(),
            decreases this.fds,
        {
            match fds.take() {
                Some(_) => {
                    this.fds = this.fds - 1;
                    assert(fds.items() =~= f.skip(start.fds - this.fds));
                },
                None => {
                    proof {
                        let nf = (start.fds - this.fds) as nat;
                        let nb = start.bytes as nat;
                        assert(fds.items().len() == 0);
                        assert(nf == f.len());
                        assert(fds.items() =~= f.skip(f.len() as int));
                        assert(f.take(nf as int) =~= f);
                        assert forall|x: Seq<u8>, y: Seq<i32>| #[trigger]
                            start.run(b.take(nb as int) + x, f.take(nf as int) + y) == shifted(
                                this.run(x, y),
                                nb,
                                nf,
                            ) by {}
                    }
                    return Err(ParseError::Incomplete(this));
                },
            }
        }
        assert(fds.items() =~= f.skip(start.fds as int));
        Ok((0, 0))
    }
}

/// Makes, of any output, the parser that yields it at once.
pub struct PassOn {
    unit: (),
}

impl PassOn {
    /// The function from an output to the parser that yields it.
    pub fn new() -> (r: Self) {
        PassOn { unit: () }
    }
}

impl<T: View> ThenFn<T> for PassOn {
    type Next = Pass<T>;

    open spec fn next_run(&self, v: T::V, b: Seq<u8>, f: Seq<i32>) -> Outcome<T::V> {
        Outcome::Done(v, 0, 0)
    }

    proof fn lemma_next(&self, v: T::V, b: Seq<u8>, f: Seq<i32>, x: Seq<u8>, y: Seq<i32>) {
    }

    fn call(self, x: T) -> (r: Pass<T>) {
        Pass::new(x)
    }
}

/// Two functions applied one after the other: first `f`, then `g`.
pub struct Compose<F, G> {
    pub f: F,
    pub g: G,
}

impl<A: View, F: MapFn<A>, G: MapFn<F::Out>> MapFn<A> for Compose<F, G> {
    type Out = G::Out;

    open spec fn spec_apply(&self, x: A::V) -> <G::Out as View>::V {
        self.g.spec_apply(self.f.spec_apply(x))
    }

    fn apply(self, x: A) -> (r: G::Out) {
        let Compose { f, g } = self;
        let y = f.apply(x);
        g.apply(y)
    }
}

/// Following a parser with one that yields its output at once changes nothing: the
/// sequence gives what the parser alone gives, on every input.
pub proof fn law_then_pass<P: Parser>(
    p: P,
    g: PassOn,
    t: Then<P, PassOn, Pass<P::Output>>,
    b: Seq<u8>,
    f: Seq<i32>,
)
    requires
        t.stage() == ThenState::<P, PassOn, Pass<P::Output>>::First(p, g),
    ensures
        t.run(b, f) == p.run(b, f),
{
}

/// Mapping twice is mapping once by the composition: `map(map(p, f), g)` gives what
/// `map(p, g ∘ f)` gives, on every input.
pub proof fn law_map_map<P: Parser, F: MapFn<P::Output>, G: MapFn<F::Out>>(
    twice: MapParser<MapParser<P, F>, G>,
    once: MapParser<P, Compose<F, G>>,
    b: Seq<u8>,
    f: Seq<i32>,
)
    requires
        twice.inner().inner() == once.inner(),
        once.func() == (Compose { f: twice.inner().func(), g: twice.func() }),
    ensures
        twice.run(b, f) == once.run(b, f),
{
}

/// Unwrapping a parser that yields `Some(v)` at once yields `v`, taking nothing.
pub proof fn law_unwrap_some<T: View>(u: Unwrap<Pass<Option<T>>>, v: T, b: Seq<u8>, f: Seq<i32>)
    requires
        u.inner().item() == Some(v),
    ensures
        u.run(b, f) == Outcome::Done(v@, 0, 0),
{
}

/// Unwrapping a parser that yields `None` fails.
pub proof fn law_unwrap_none<T: View>(u: Unwrap<Pass<Option<T>>>, b: Seq<u8>, f: Seq<i32>)
    requires
        u.inner().item() == None::<T>,
    ensures
        u.run(b, f) == Outcome::<T::V>::Fail(0, 0),
{
}

/// The bytes that follow `count` bytes up to the next multiple of `n`; none where `n`
/// is zero.
pub open spec fn pad_needed(count: nat, n: nat) -> nat {
    if n == 0 || count % n == 0 {
        0
    } else {
        (n - count % n) as nat
    }
}

/// The stage that a [`Pad`] is at.
pub enum PadState<P: Parser> {
    /// Running the parser, having taken this many bytes modulo the alignment.
    Running(P, usize),
    /// The parser finished with this output; this many padding bytes are left.
    Padding(P::Output, usize),
}

/// Runs a parser, then discards bytes until the bytes taken reach a multiple of `n`.
pub struct Pad<P: Parser> {
    state: PadState<P>,
    n: usize,
}

impl<P: Parser> Pad<P> {
    /// The parser that runs `parser` and pads what it took to a multiple of `n`.
    pub fn new(parser: P, n: usize) -> (r: Self)
        ensures
            r.align() == n,
            r.stage() == PadState::Running(parser, 0usize),
    {
        Pad { state: PadState::Running(parser, 0), n }
    }

    /// The alignment.
    pub closed spec fn align(&self) -> nat {
        self.n as nat
    }

    /// The stage reached.
    pub closed spec fn stage(&self) -> PadState<P> {
        self.state
    }
}

impl<P: Parser> Parser for Pad<P> {
    type Output = P::Output;

    open spec fn run(&self, b: Seq<u8>, f: Seq<i32>) -> Outcome<<P::Output as View>::V> {
        match self.stage() {
            PadState::Running(p, k) => match p.run(b, f) {
                Outcome::Done(v, nb, nf) => {
                    let pad = pad_needed((k + nb) as nat, self.align());
                    if b.len() >= nb + pad {
                        Outcome::Done(v, nb + pad, nf)
                    } else {
                        Outcome::Short(b.len(), nf)
                    }
                },
                Outcome::Short(nb, nf) => Outcome::Short(nb, nf),
                Outcome::Fail(nb, nf) => Outcome::Fail(nb, nf),
            },
            PadState::Padding(out, left) => if b.len() >= left {
                Outcome::Done(out@, left as nat, 0)
            } else {
                Outcome::Short(b.len(), 0)
            },
        }
    }

    proof fn lemma_run(&self, b: Seq<u8>, f: Seq<i32>, x: Seq<u8>, y: Seq<i32>) {
        match self.stage() {
            PadState::Running(p, k) => {
                p.lemma_run(b, f, seq![], seq![]);
                if let Outcome::Done(v, nb, nf) = p.run(b, f) {
                    let pad = pad_needed((k + nb) as nat, self.align());
                    if b.len() >= nb + pad {
                        let bx = b.take((nb + pad) as int) + x;
                        let fy = f.take(nf as int) + y;
                        let xx = b.take((nb + pad) as int).skip(nb as int) + x;
                        p.lemma_run(b, f, xx, y);
                        assert(b.take(nb as int) + xx =~= bx);
                    }
                }
            },
            PadState::Padding(out, left) => {},
        }
    }

    fn parse(self, bytes: &mut IterBuf<u8>, fds: &mut IterBuf<i32>) -> (r: Result<
        P::Output,
        ParseError<Self>,
    >) {
        let ghost b = bytes.items();
        let ghost f = fds.items();
        let n = self.n;
        match self.state {
            PadState::Running(p, k) => {
                let ghost p0 = p;
                let before = bytes.len();
                match p.parse(bytes, fds) {
                    Ok(v) => {
                        let nb = before - bytes.len();
                        let pad: usize = if n == 0 {
                            0
                        } else {
                            let total = (k as u128 % n as u128 + nb as u128 % n as u128) % n as u128;
                            proof {
                                lemma_add_mod_noop(k as int, nb as int, n as int);
                            }
                            if total == 0 {
                                0
                            } else {
                                (n as u128 - total) as usize
                            }
                        };
                        assert(pad == pad_needed((k + nb) as nat, n as nat));
                        let ghost b1 = bytes.items();
                        let skipped = skip_bytes(bytes, pad);
                        proof {
                            assert(bytes.items() =~= b.skip(nb + skipped));
                        }
                        if skipped == pad {
                            Ok(v)
                        } else {
                            let r = Pad { state: PadState::Padding(v, pad - skipped), n };
                            proof {
                                let tb = taken(b, bytes.items());
                                let tf = taken(f, fds.items());
                                assert(tb == nb + skipped);
                                assert forall|x: Seq<u8>, y: Seq<i32>| #[trigger]
                                    self.run(b.take(tb as int) + x, f.take(tf as int) + y)
                                        == shifted(r.run(x, y), tb, tf) by {
                                    let xx = b1.take(skipped as int) + x;
                                    p0.lemma_run(b, f, xx, y);
                                    assert(b.take(nb as int) + xx =~= b.take(tb as int) + x);
                                }
                            }
                            Err(ParseError::Incomplete(r))
                        }
                    },
                    Err(ParseError::Failed) => Err(ParseError::Failed),
                    Err(ParseError::Incomplete(q)) => {
                        let nb = before - bytes.len();
                        let k3: usize = if n == 0 {
                            0
                        } else {
                            proof {
                                lemma_add_mod_noop(k as int, nb as int, n as int);
                            }
                            ((k as u128 % n as u128 + nb as u128 % n as u128) % n as u128) as usize
                        };
                        assert(n > 0 ==> k3 == (k + nb) % (n as int));
                        let r = Pad { state: PadState::Running(q, k3), n };
                        proof {
                            let tb = taken(b, bytes.items());
                            let tf = taken(f, fds.items());
                            assert forall|x: Seq<u8>, y: Seq<i32>| #[trigger]
                                self.run(b.take(tb as int) + x, f.take(tf as int) + y) == shifted(
                                    r.run(x, y),
                                    tb,
                                    tf,
                                ) by {
                                let bx = b.take(tb as int) + x;
                                let fy = f.take(tf as int) + y;
                                assert(p0.run(bx, fy) == shifted(q.run(x, y), tb, tf));
                                if let Outcome::Done(v, m, mf) = q.run(x, y) {
                                    let nn = n as int;
                                    if n > 0 {
                                        lemma_add_mod_noop((k + tb) as int, m as int, nn);
                                        lemma_mod_twice((k + tb) as int, nn);
                                        lemma_add_mod_noop(k3 as int, m as int, nn);
                                    }
                                    assert(pad_needed((k3 + m) as nat, n as nat) == pad_needed(
                                        (k + (m + tb)) as nat,
                                        n as nat,
                                    ));
                                    assert(b.take(tb as int).len() == tb);
                                }
                            }
                        }
                        Err(ParseError::Incomplete(r))
                    },
                }
            },
            PadState::Padding(out, left) => {
                let skipped = skip_bytes(bytes, left);
                assert(fds.items() =~= f.skip(0));
                if skipped == left {
                    Ok(out)
                } else {
                    let r = Pad { state: PadState::Padding(out, left - skipped), n };
                    proof {
                        assert forall|x: Seq<u8>, y: Seq<i32>| #[trigger]
                            self.run(b.take(skipped as int) + x, f.take(0) + y) == shifted(
                                r.run(x, y),
                                skipped as nat,
                                0,
                            ) by {
                            assert(f.take(0) + y =~= y);
                            assert(b.take(skipped as int).len() == skipped);
                        }
                    }
                    Err(ParseError::Incomplete(r))
                }
            },
        }
    }
}

/// Discards up to `n` bytes from the front of `bytes`; returns how many it discarded,
/// fewer than `n` only where the bytes ran out.
fn skip_bytes(bytes: &mut IterBuf<u8>, n: usize) -> (r: usize)
    ensures
        r <= n,
        r <= old(bytes).items().len(),
        final(bytes).items() == old(bytes).items().skip(r as int),
        r < n ==> r == old(bytes).items().len(),
{
    let ghost b = bytes.items();
    let mut k: usize = 0;
    while k < n
        invariant
            k <= n,
            k <= b.len(),
            b == old(bytes).items(),
            bytes.items() == b.skip(k as int),
        ensures
            k <= n,
            k <= b.len(),
            bytes.items() == b.skip(k as int),
            k < n ==> k == b.len(),
        decreases n - k,
    {
        match bytes.take() {
            Some(_) => {
                k = k + 1;
                assert(bytes.items() =~= b.skip(k as int));
            },
            None => {
                break;
            },
        }
    }
    assert(b.skip(0) =~= b);
    k
}

/// Builds combinators from a parser, method style.
pub trait MapExt: Parser {
    /// The parser that applies `f` to what this one yields.
    fn map<F: MapFn<Self::Output>>(self, f: F) -> (r: MapParser<Self, F>)
        ensures
            r.inner() == self,
            r.func() == f,
    {
        MapParser::new(self, f)
    }

    /// The parser that runs this one, then the parser that `f` makes of its output.
    fn and_then<F: ThenFn<Self::Output>>(self, f: F) -> (r: Then<Self, F, F::Next>)
        ensures
            r.stage() == ThenState::<Self, F, F::Next>::First(self, f),
    {
        Then::new(self, f)
    }

    /// The parser that runs this one and pads what it took to a multiple of `n`.
    fn pad(self, n: usize) -> (r: Pad<Self>)
        ensures
            r.align() == n,
            r.stage() == PadState::Running(self, 0usize),
    {
        Pad::new(self, n)
    }
}

impl<P: Parser> MapExt for P {
}

/// Unwraps the output of a parser of optional values, method style.
pub trait OptionExt<T: View>: Parser<Output = Option<T>> {
    /// The parser that fails where this one yields nothing.
    fn some(self) -> (r: Unwrap<Self>)
        ensures
            r.inner() == self,
    {
        Unwrap::new(self)
    }
}

impl<T: View, P: Parser<Output = Option<T>>> OptionExt<T> for P {
}

/// The parser of a fixed number of bytes, under the name that some callers use.
pub type VecParser = Bytes;

} // verus!
