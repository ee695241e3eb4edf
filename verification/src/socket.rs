//! What a datagram endpoint asks of the messages it carries.
use vstd::prelude::*;

verus! {

/// A value with a wire form.
pub trait Encode {
    /// The bytes that stand for this value on the wire.
    spec fn wire(&self) -> Seq<u8>;

    fn encode(&self) -> (v: Vec<u8>)
        ensures
            v@ == self.wire(),
    ;
}

/// A value that can be read back from a datagram.
pub trait Decode: Sized {
    /// Whether `data` is a datagram that carries `value`.
    spec fn carries(data: Seq<u8>, value: &Self) -> bool;

    /// The value that `data` carries, or nothing where it carries none.
    fn decode(data: &[u8]) -> (r: Option<Self>)
        ensures
            match r {
                Some(value) => Self::carries(data@, &value),
                None => forall|value: &Self| !Self::carries(data@, value),
            },
    ;
}

} // verus!
