use bincode::Options;
use serde::de::DeserializeOwned;
use udp_hole_punching::addr::{Addr, AddrV4};
use udp_hole_punching::file_transfer::message::{Message, Request, Response};
use udp_hole_punching::message::Message as Rendezvous;
use udp_hole_punching::socket::{Decode, Encode};

const VALUES: [u8; 9] = [0, 1, 2, 3, 0x7f, 0x80, 0xc3, 0xf8, 0xff];

/// What bincode reads from `bytes` as a `T`, with fixed-width integers and
/// nothing allowed behind the value.
fn strict<T: DeserializeOwned>(bytes: &[u8]) -> Option<T> {
    bincode::DefaultOptions::new()
        .with_fixint_encoding()
        .reject_trailing_bytes()
        .deserialize(bytes)
        .ok()
}

/// What bincode reads from the head of `bytes` as a `T`, and how many bytes
/// it leaves.
fn leading<T: DeserializeOwned>(mut bytes: &[u8]) -> Option<(T, usize)> {
    let value = bincode::deserialize_from(&mut bytes).ok()?;
    Some((value, bytes.len()))
}

/// Every way of changing one byte behind `from`, of cutting the end off and
/// of putting a byte behind the end.
fn variations(bytes: &[u8], from: usize, spare: &[usize]) -> Vec<Vec<u8>> {
    let mut out = vec![bytes.to_vec()];
    for pos in from..bytes.len() {
        if spare.contains(&pos) {
            continue;
        }
        for value in VALUES {
            let mut changed = bytes.to_vec();
            changed[pos] = value;
            out.push(changed);
        }
    }
    for len in from..bytes.len() {
        out.push(bytes[..len].to_vec());
    }
    for value in VALUES {
        let mut longer = bytes.to_vec();
        longer.push(value);
        out.push(longer);
    }
    out
}

fn agree_strict<T: DeserializeOwned>(msg: Message, make: &dyn Fn(T) -> Message) {
    for bytes in variations(&msg.encode(), 4, &[]) {
        assert_eq!(Message::decode(&bytes), strict::<T>(&bytes).map(make), "{:?}", bytes);
    }
}

fn agree_leading<T: DeserializeOwned>(msg: Message, lengths: &[usize], make: &dyn Fn(T) -> Message) {
    for bytes in variations(&msg.encode(), 4, lengths) {
        let expected = leading::<T>(&bytes).map(|(value, rest)| (make(value), rest));
        assert_eq!(Message::trailing_decode(&bytes), expected, "{:?}", bytes);
    }
}

fn request(fields: (u32, String, u64, bool)) -> Message {
    Message::Request(Request::new(fields.1, fields.2, fields.3))
}

fn response(fields: (u32, u32, u16, u32)) -> Message {
    Message::Response(Response::new(fields.1, fields.2, fields.3))
}

fn file_part(fields: (u32, u32, u32)) -> Message {
    Message::FilePart { block: fields.1, chunk: fields.2 }
}

fn block_complete(fields: (u32, u32)) -> Message {
    Message::BlockComplete(fields.1)
}

fn block_complete_ack(fields: (u32, u32)) -> Message {
    Message::BlockCompleteAck(fields.1)
}

fn missing(fields: (u32, u32, Vec<u32>, u32)) -> Message {
    Message::BlockMissingChunk { block: fields.1, chunk: fields.2, count: fields.3 }
}

fn file_complete(_: (u32,)) -> Message {
    Message::FileComplete
}

fn file_complete_ack(_: (u32,)) -> Message {
    Message::FileCompleteAck
}

#[test]
fn strict_decoding_accepts_what_bincode_accepts() {
    agree_strict(request((0, "gr\u{fc}n.txt".to_string(), 3_000_000, true)), &request);
    agree_strict(request((0, String::new(), 0, false)), &request);
    agree_strict(response((1, 1_048_576, 496, 2)), &response);
    agree_strict(file_part((2, 7, 2016)), &file_part);
    agree_strict(block_complete((3, 9)), &block_complete);
    agree_strict(block_complete_ack((4, 9)), &block_complete_ack);
    agree_strict(missing((5, 0, vec![5, 17, 42], 3)), &missing);
    agree_strict(missing((5, 1, Vec::new(), 0)), &missing);
    agree_strict(file_complete((6,)), &file_complete);
    agree_strict(file_complete_ack((7,)), &file_complete_ack);
}

#[test]
fn leading_decoding_accepts_what_bincode_accepts() {
    let text_length = [5, 6, 7, 8, 9, 10, 11];
    let list_length = [9, 10, 11, 12, 13, 14, 15];
    agree_leading(request((0, "gr\u{fc}n.txt".to_string(), 3_000_000, true)), &text_length, &request);
    agree_leading(response((1, 1_048_576, 496, 2)), &[], &response);
    agree_leading(file_part((2, 7, 2016)), &[], &file_part);
    agree_leading(block_complete((3, 9)), &[], &block_complete);
    agree_leading(block_complete_ack((4, 9)), &[], &block_complete_ack);
    agree_leading(missing((5, 0, vec![5, 17, 42], 3)), &list_length, &missing);
    agree_leading(file_complete((6,)), &[], &file_complete);
    agree_leading(file_complete_ack((7,)), &[], &file_complete_ack);
}

const MAGIC: [u8; 8] = [205, 126, 86, 230, 111, 189, 169, 142];

/// What bincode reads from the head of `bytes` as a `T`, where exactly the
/// closing bytes follow.
fn closed<T: DeserializeOwned>(mut bytes: &[u8]) -> Option<T> {
    let value = bincode::deserialize_from(&mut bytes).ok()?;
    if bytes == MAGIC {
        Some(value)
    } else {
        None
    }
}

fn agree_closed<T: DeserializeOwned>(
    msg: Rendezvous,
    from: usize,
    lengths: &[usize],
    make: &dyn Fn(T) -> Rendezvous,
) {
    for bytes in variations(&msg.encode(), from, lengths) {
        assert_eq!(Rendezvous::decode(&bytes), closed::<T>(&bytes).map(make), "{:?}", bytes);
    }
}

fn v4(fields: (u32, [u8; 4], u16)) -> Addr {
    Addr::V4(AddrV4 { ip: u32::from_be_bytes(fields.1), port: fields.2 })
}

#[test]
fn rendezvous_decoding_accepts_what_bincode_accepts() {
    let id_length = [5, 6, 7, 8, 9, 10, 11];
    agree_closed(Rendezvous::Query, 4, &[], &|_: (u32,)| Rendezvous::Query);
    agree_closed(Rendezvous::RegisterAck, 4, &[], &|_: (u32,)| Rendezvous::RegisterAck);
    agree_closed(Rendezvous::ResponseAck, 4, &[], &|_: (u32,)| Rendezvous::ResponseAck);
    agree_closed(Rendezvous::Hello, 4, &[], &|_: (u32,)| Rendezvous::Hello);
    agree_closed(Rendezvous::HelloAck, 4, &[], &|_: (u32,)| Rendezvous::HelloAck);
    agree_closed(
        Rendezvous::Register { id: b"alice".to_vec() },
        4,
        &id_length,
        &|f: (u32, Vec<u8>)| Rendezvous::Register { id: f.1 },
    );
    agree_closed(
        Rendezvous::Lookup { peer_id: b"bob".to_vec() },
        4,
        &id_length,
        &|f: (u32, Vec<u8>)| Rendezvous::Lookup { peer_id: f.1 },
    );
    let addr = Addr::V4(AddrV4 { ip: 0x0a00_0001, port: 4000 });
    agree_closed(
        Rendezvous::Address(addr),
        8,
        &[],
        &|f: (u32, (u32, [u8; 4], u16))| Rendezvous::Address(v4(f.1)),
    );
    agree_closed(
        Rendezvous::Request { peer_addr: addr },
        8,
        &[],
        &|f: (u32, (u32, [u8; 4], u16))| Rendezvous::Request { peer_addr: v4(f.1) },
    );
    agree_closed(
        Rendezvous::Response { peer_addr: addr },
        8,
        &[],
        &|f: (u32, (u32, [u8; 4], u16))| Rendezvous::Response { peer_addr: v4(f.1) },
    );
    agree_closed(
        Rendezvous::Peer { addr: None },
        4,
        &[],
        &|f: (u32, Option<(u32, [u8; 4], u16)>)| Rendezvous::Peer { addr: f.1.map(v4) },
    );
}
