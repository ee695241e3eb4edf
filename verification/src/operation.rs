//! Send, wait for the answer, send again when none comes: the pattern under
//! every exchange, and the rule that says when to give up.
use vstd::prelude::*;

verus! {

/// How often an operation is sent again before it is given up.
pub const RETRY_COUNT: usize = 3;

/// How long an answer is waited for before the operation is sent again, in nanoseconds.
pub const RETRY_DURATION: u64 = 150_000_000;

/// Why an exchange ended without its result.
#[derive(Debug, Clone, Copy, PartialEq, Eq, Structural)]
pub enum Failure {
    /// No answer came in the time allowed.
    TimedOut,
    /// The two servers saw this peer under different addresses.
    SymmetricNat,
    /// The server knows no peer under the id that was looked up.
    PeerNotFound,
    /// The other side named a chunk that the block does not have, or sent
    /// one of the wrong size.
    ChunkOutOfRange,
    /// The other side asked for sizes that no transfer can have.
    BadTerms,
    /// The file has more blocks than can be numbered.
    TooManyBlocks,
}

/// What an answer did to a waiting operation.
#[derive(Debug, Clone, PartialEq, Eq)]
pub enum Resolved<T> {
    /// The answer was not the one waited for; the operation goes on waiting.
    Pending,
    Done(T),
    Failed(Failure),
}

/// An exchange that is sent, and sent again, until its answer arrives.
///
/// `poll` yields what one attempt sends. `resolve` takes what came in and
/// says whether the exchange is over. `result` yields what the exchange had
/// reached when the last attempt ran out, if that counts as a result.
pub trait Operation<T> {
    type Request;

    type Reply;

    /// What `result` would yield now.
    spec fn partial(&self) -> Option<T>;

    fn poll(&mut self) -> Vec<Self::Request>;

    fn resolve(&mut self, reply: Self::Reply) -> Resolved<T>;

    fn result(&mut self) -> (r: Option<T>)
        ensures
            r == old(self).partial(),
    ;
}

/// What to do when the wait for an answer has run out.
#[derive(Debug, Clone, PartialEq, Eq)]
pub enum Timeout<T> {
    /// Send the operation again and wait once more.
    Poll,
    /// Give up waiting; the operation had reached this result.
    Done(T),
    /// Give up; there is no result.
    TimedOut,
}

/// The count of the attempts of one exchange.
#[derive(Debug, Clone, Copy, PartialEq, Eq, Structural)]
pub struct Retry {
    pub attempt: usize,
}

impl Retry {
    /// The count at the first attempt.
    pub fn new() -> (r: Self)
        ensures
            r.attempt == 0,
    {
        Retry { attempt: 0 }
    }

    /// Decides what follows a wait that ran out: another attempt while
    /// fewer than `RETRY_COUNT` were repeated, else the operation's partial
    /// result, else failure. The operation is asked for its result only
    /// when no attempt is left.
    pub fn on_timeout<T, O: Operation<T>>(&mut self, operation: &mut O) -> (r: Timeout<T>)
        ensures
            old(self).attempt < RETRY_COUNT ==> r is Poll && final(self).attempt == old(
                self,
            ).attempt + 1 && *final(operation) == *old(operation),
            old(self).attempt >= RETRY_COUNT ==> final(self).attempt == old(self).attempt && r
                == match old(operation).partial() {
                Some(v) => Timeout::<T>::Done(v),
                None => Timeout::<T>::TimedOut,
            },
    {
        if self.attempt < RETRY_COUNT {
            self.attempt += 1;
            Timeout::Poll
        } else {
            match operation.result() {
                Some(v) => Timeout::Done(v),
                None => Timeout::TimedOut,
            }
        }
    }
}

} // verus!
