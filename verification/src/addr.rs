//! Socket addresses as plain values, and their wire form.
use crate::wire::{
    agrees, get_u128_be, get_u16, get_u32, get_u32_be, get_u8, holds_at, lemma_holds_concat,
    lemma_read_u128_be, lemma_read_u16, lemma_read_u32, lemma_read_u32_be, lemma_read_u8,
    lemma_u128_be_value, lemma_u32_be_value, lemma_u32_le_value, put_u128_be, put_u16, put_u32,
    put_u32_be, read_u128_be, read_u16, read_u32, read_u32_be, read_u8, u128_be, u16_le,
    u32_be, u32_le,
};
use vstd::prelude::*;

verus! {

/// An IPv4 socket address; `ip` holds the four octets, first octet highest.
#[derive(Clone, Copy, Debug, PartialEq, Eq, Structural, Hash)]
pub struct AddrV4 {
    pub ip: u32,
    pub port: u16,
}

/// An IPv6 socket address; `ip` holds the sixteen octets, first octet highest.
#[derive(Clone, Copy, Debug, PartialEq, Eq, Structural, Hash)]
pub struct AddrV6 {
    pub ip: u128,
    pub port: u16,
    pub flowinfo: u32,
    pub scope_id: u32,
}

/// A socket address of either family.
#[derive(Clone, Copy, Debug, PartialEq, Eq, Structural, Hash)]
pub enum Addr {
    V4(AddrV4),
    V6(AddrV6),
}

impl Addr {
    /// The wire form: the family as a four-byte number, the octets, the port.
    /// Flow information and scope of an IPv6 address are not sent.
    pub open spec fn wire(self) -> Seq<u8> {
        match self {
            Addr::V4(a) => u32_le(0) + u32_be(a.ip) + u16_le(a.port),
            Addr::V6(a) => u32_le(1) + u128_be(a.ip) + u16_le(a.port),
        }
    }

    /// The address as it arrives at the other end.
    pub open spec fn on_wire(self) -> Addr {
        match self {
            Addr::V4(a) => self,
            Addr::V6(a) => Addr::V6(AddrV6 { ip: a.ip, port: a.port, flowinfo: 0, scope_id: 0 }),
        }
    }

    /// The address at `pos`: of the family that the first four bytes name;
    /// a family other than 0 and 1 is none.
    pub open spec fn read(s: Seq<u8>, pos: int) -> Option<(Addr, int)> {
        match read_u32(s, pos) {
            Some((family, p)) => if family == 0 {
                match read_u32_be(s, p) {
                    Some((ip, q)) => match read_u16(s, q) {
                        Some((port, r)) => Some((Addr::V4(AddrV4 { ip, port }), r)),
                        None => None,
                    },
                    None => None,
                }
            } else if family == 1 {
                match read_u128_be(s, p) {
                    Some((ip, q)) => match read_u16(s, q) {
                        Some((port, r)) => Some(
                            (Addr::V6(AddrV6 { ip, port, flowinfo: 0, scope_id: 0 }), r),
                        ),
                        None => None,
                    },
                    None => None,
                }
            } else {
                None
            },
            None => None,
        }
    }

    /// A read yields the address that was written, as it arrives.
    pub proof fn lemma_read_written(s: Seq<u8>, pos: int, a: Addr)
        requires
            holds_at(s, pos, a.wire()),
        ensures
            Addr::read(s, pos) == Some((a.on_wire(), pos + a.wire().len())),
    {
        match a {
            Addr::V4(v) => {
                lemma_u32_le_value(0);
                lemma_u32_be_value(v.ip);
                lemma_holds_concat(s, pos, u32_le(0) + u32_be(v.ip), u16_le(v.port));
                lemma_holds_concat(s, pos, u32_le(0), u32_be(v.ip));
                lemma_read_u32(s, pos, 0);
                lemma_read_u32_be(s, pos + 4, v.ip);
                lemma_read_u16(s, pos + 8, v.port);
            },
            Addr::V6(v) => {
                lemma_u32_le_value(1);
                lemma_u128_be_value(v.ip);
                lemma_holds_concat(s, pos, u32_le(1) + u128_be(v.ip), u16_le(v.port));
                lemma_holds_concat(s, pos, u32_le(1), u128_be(v.ip));
                lemma_read_u32(s, pos, 1);
                lemma_read_u128_be(s, pos + 4, v.ip);
                lemma_read_u16(s, pos + 20, v.port);
            },
        }
    }

    /// What a read yields lies at the place it was read from, in its wire form.
    pub proof fn lemma_written_read(s: Seq<u8>, pos: int)
        ensures
            Addr::read(s, pos) matches Some((a, p)) ==> holds_at(s, pos, a.wire()) && p == pos
                + a.wire().len() && a.on_wire() == a,
    {
        match Addr::read(s, pos) {
            Some((a, p)) => {
                match a {
                    Addr::V4(v) => {
                        lemma_u32_le_value(0);
                        lemma_u32_be_value(v.ip);
                        lemma_read_u32(s, pos, 0);
                        lemma_read_u32_be(s, pos + 4, v.ip);
                        lemma_read_u16(s, pos + 8, v.port);
                        lemma_holds_concat(s, pos, u32_le(0), u32_be(v.ip));
                        lemma_holds_concat(s, pos, u32_le(0) + u32_be(v.ip), u16_le(v.port));
                    },
                    Addr::V6(v) => {
                        lemma_u32_le_value(1);
                        lemma_u128_be_value(v.ip);
                        lemma_read_u32(s, pos, 1);
                        lemma_read_u128_be(s, pos + 4, v.ip);
                        lemma_read_u16(s, pos + 20, v.port);
                        lemma_holds_concat(s, pos, u32_le(1), u128_be(v.ip));
                        lemma_holds_concat(s, pos, u32_le(1) + u128_be(v.ip), u16_le(v.port));
                    },
                }
            },
            None => {},
        }
    }

    /// Appends the wire form of this address.
    pub fn put(&self, out: &mut Vec<u8>)
        ensures
            final(out)@ == old(out)@ + self.wire(),
    {
        match self {
            Addr::V4(a) => {
                put_u32(out, 0);
                put_u32_be(out, a.ip);
                put_u16(out, a.port);
                assert(out@ =~= old(out)@ + self.wire());
            },
            Addr::V6(a) => {
                put_u32(out, 1);
                put_u128_be(out, a.ip);
                put_u16(out, a.port);
                assert(out@ =~= old(out)@ + self.wire());
            },
        }
    }

    /// Reads an address at `pos`.
    pub fn get(data: &[u8], pos: usize) -> (r: Option<(Addr, usize)>)
        ensures
            agrees(r, Addr::read(data@, pos as int)),
    {
        let (family, p) = match get_u32(data, pos) {
            Some(x) => x,
            None => return None,
        };
        if family == 0 {
            let (ip, q) = match get_u32_be(data, p) {
                Some(x) => x,
                None => return None,
            };
            match get_u16(data, q) {
                Some((port, r)) => Some((Addr::V4(AddrV4 { ip, port }), r)),
                None => None,
            }
        } else if family == 1 {
            let (ip, q) = match get_u128_be(data, p) {
                Some(x) => x,
                None => return None,
            };
            match get_u16(data, q) {
                Some((port, r)) => Some(
                    (Addr::V6(AddrV6 { ip, port, flowinfo: 0, scope_id: 0 }), r),
                ),
                None => None,
            }
        } else {
            None
        }
    }
}

/// The wire form of an address that may be absent: one byte that says
/// whether it is there, then the address.
pub open spec fn opt_addr_wire(a: Option<Addr>) -> Seq<u8> {
    match a {
        Some(a) => seq![1u8] + a.wire(),
        None => seq![0u8],
    }
}

/// The address at `pos` that may be absent; a presence byte other than 0
/// and 1 is none.
pub open spec fn read_opt_addr(s: Seq<u8>, pos: int) -> Option<(Option<Addr>, int)> {
    match read_u8(s, pos) {
        Some((present, p)) => if present == 0 {
            Some((None, p))
        } else if present == 1 {
            match Addr::read(s, p) {
                Some((a, q)) => Some((Some(a), q)),
                None => None,
            }
        } else {
            None
        },
        None => None,
    }
}

/// The address that may be absent, as it arrives at the other end.
pub open spec fn opt_on_wire(a: Option<Addr>) -> Option<Addr> {
    match a {
        Some(a) => Some(a.on_wire()),
        None => None,
    }
}

/// A read yields the address that was written, as it arrives.
pub proof fn lemma_read_written_opt(s: Seq<u8>, pos: int, a: Option<Addr>)
    requires
        holds_at(s, pos, opt_addr_wire(a)),
    ensures
        read_opt_addr(s, pos) == Some((opt_on_wire(a), pos + opt_addr_wire(a).len())),
{
    match a {
        Some(x) => {
            lemma_holds_concat(s, pos, seq![1u8], x.wire());
            lemma_read_u8(s, pos, 1);
            Addr::lemma_read_written(s, pos + 1, x);
        },
        None => {
            lemma_read_u8(s, pos, 0);
        },
    }
}

/// What a read yields lies at the place it was read from, in its wire form.
pub proof fn lemma_written_read_opt(s: Seq<u8>, pos: int)
    ensures
        read_opt_addr(s, pos) matches Some((a, p)) ==> holds_at(s, pos, opt_addr_wire(a)) && p
            == pos + opt_addr_wire(a).len() && opt_on_wire(a) == a,
{
    match read_opt_addr(s, pos) {
        Some((a, p)) => {
            match a {
                Some(x) => {
                    lemma_read_u8(s, pos, 1);
                    Addr::lemma_written_read(s, pos + 1);
                    lemma_holds_concat(s, pos, seq![1u8], x.wire());
                },
                None => {
                    lemma_read_u8(s, pos, 0);
                },
            }
        },
        None => {},
    }
}

/// Appends the wire form of an address that may be absent.
pub fn put_opt_addr(out: &mut Vec<u8>, a: &Option<Addr>)
    ensures
        final(out)@ == old(out)@ + opt_addr_wire(*a),
{
    match a {
        Some(x) => {
            out.push(1);
            x.put(out);
            assert(out@ =~= old(out)@ + opt_addr_wire(*a));
        },
        None => {
            out.push(0);
            assert(out@ =~= old(out)@ + opt_addr_wire(*a));
        },
    }
}

/// Reads an address that may be absent at `pos`.
pub fn get_opt_addr(data: &[u8], pos: usize) -> (r: Option<(Option<Addr>, usize)>)
    ensures
        agrees(r, read_opt_addr(data@, pos as int)),
{
    match get_u8(data, pos) {
        Some((present, p)) => {
            if present == 0 {
                Some((None, p))
            } else if present == 1 {
                match Addr::get(data, p) {
                    Some((a, q)) => Some((Some(a), q)),
                    None => None,
                }
            } else {
                None
            }
        },
        None => None,
    }
}

} // verus!
