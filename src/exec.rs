use vstd::prelude::*;
use crate::operation::OpError;

verus! {

/// How many requests may run one inside another before the next is deferred.
pub const STACK_LIMIT: u16 = 1000;

/// Whether the next request runs inline, and how deep the inline chain is.
#[derive(Clone, Copy, Debug, PartialEq, Eq, Structural)]
pub enum ShouldSpawn {
    /// Defer the next request to a fresh stack.
    Yes,
    /// Run the next request inline, this many levels deep.
    No(u16),
}

impl ShouldSpawn {
    /// An inline depth never exceeds the limit.
    pub open spec fn wf(self) -> bool {
        match self {
            ShouldSpawn::No(n) => n <= STACK_LIMIT,
            ShouldSpawn::Yes => true,
        }
    }

    /// One level deeper: a deferred request starts a fresh chain, and a chain at the
    /// limit defers the next one.
    pub fn increment(self) -> (r: ShouldSpawn)
        requires
            self.wf(),
        ensures
            r.wf(),
            r == match self {
                ShouldSpawn::Yes => ShouldSpawn::No(0),
                ShouldSpawn::No(n) => if n < STACK_LIMIT {
                    ShouldSpawn::No((n + 1) as u16)
                } else {
                    ShouldSpawn::Yes
                },
            },
    {
        match self {
            ShouldSpawn::Yes => ShouldSpawn::No(0),
            ShouldSpawn::No(n) => if n < STACK_LIMIT {
                ShouldSpawn::No(n + 1)
            } else {
                ShouldSpawn::Yes
            },
        }
    }
}

/// What each request carries along: how deep it is in a chain of inline calls.
#[derive(Clone, Copy, Debug, PartialEq, Eq, Structural)]
pub struct ExecEnvironment {
    pub stack_counter: usize,
}

impl ExecEnvironment {
    pub fn new() -> (r: ExecEnvironment)
        ensures
            r.stack_counter == 0,
    {
        ExecEnvironment { stack_counter: 0 }
    }

    /// One call deeper.
    pub fn increment(self) -> (r: ExecEnvironment)
        requires
            self.stack_counter < usize::MAX,
        ensures
            r.stack_counter == self.stack_counter + 1,
    {
        ExecEnvironment { stack_counter: self.stack_counter + 1 }
    }

    /// A fresh stack.
    pub fn reset(self) -> (r: ExecEnvironment)
        ensures
            r.stack_counter == 0,
    {
        ExecEnvironment { stack_counter: 0 }
    }

    /// Whether the next request may run inline.
    pub fn may_inline(self) -> (r: bool)
        ensures
            r == (self.stack_counter < STACK_LIMIT),
    {
        self.stack_counter < STACK_LIMIT as usize
    }
}

/// The failures recorded during one evaluation, each once: the marker that a
/// reader saw an upstream failure is never recorded.
#[derive(Debug)]
pub struct ErrorAccumulator {
    errors: Vec<OpError>,
}

impl View for ErrorAccumulator {
    type V = Seq<OpError>;

    closed spec fn view(&self) -> Seq<OpError> {
        self.errors@
    }
}

impl ErrorAccumulator {
    pub fn new() -> (r: ErrorAccumulator)
        ensures
            r@ == Seq::<OpError>::empty(),
    {
        let r = ErrorAccumulator { errors: Vec::new() };
        assert(r@ =~= Seq::<OpError>::empty());
        r
    }

    /// Records `err`, unless it is the marker of an upstream failure.
    pub fn push(&mut self, err: OpError)
        ensures
            err is Observed ==> final(self)@ == old(self)@,
            !(err is Observed) ==> final(self)@ == old(self)@.push(err),
    {
        if !err.is_observed() {
            self.errors.push(err);
        }
    }

    pub fn is_empty(&self) -> (r: bool)
        ensures
            r == (self@.len() == 0),
    {
        self.errors.len() == 0
    }

    /// Takes out the failures recorded so far, leaving none.
    pub fn take(&mut self) -> (r: Vec<OpError>)
        ensures
            r@ == old(self)@,
            final(self)@ == Seq::<OpError>::empty(),
    {
        let mut out: Vec<OpError> = Vec::new();
        std::mem::swap(&mut out, &mut self.errors);
        assert(self@ =~= Seq::<OpError>::empty());
        out
    }

    pub fn into_vec(self) -> (r: Vec<OpError>)
        ensures
            r@ == self@,
    {
        self.errors
    }
}

} // verus!
