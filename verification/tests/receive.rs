use udp_hole_punching::file_transfer::block::OpenPlan;
use udp_hole_punching::file_transfer::message::{Chunk, Message, Request, Response};
use udp_hole_punching::file_transfer::receive::{
    fits_blocks, plan, read_message, read_request, report_missing, FirstChunk, Outcome, Receiver,
    SendComplete, SendResponse, BLOCK_SIZE, CHUNK_HEAD_SIZE, CHUNK_SIZE, MISSING_PER_MESSAGE,
    READ_TIMEOUT,
};
use udp_hole_punching::operation::{Failure, Operation, Resolved};
use udp_hole_punching::socket::Encode;

fn source(len: usize) -> Vec<u8> {
    (0..len).map(|i| (i * 31 % 251) as u8).collect()
}

fn chunk_of(data: &[u8], chunk: u32) -> &[u8] {
    let start = chunk as usize * CHUNK_SIZE as usize;
    &data[start..(start + CHUNK_SIZE as usize).min(data.len())]
}

fn go_on(out: Outcome) -> (Receiver, Vec<Message>) {
    match out {
        Outcome::Continue { receiver, send } => (receiver, send),
        Outcome::Commit { .. } => panic!("unexpected commit"),
        Outcome::Failed(f) => panic!("unexpected failure {:?}", f),
    }
}

fn feed(receiver: Receiver, block: u32, data: &[u8], chunk: u32) -> Receiver {
    let datagram = Chunk::new(block, chunk, chunk_of(data, chunk)).encode();
    let (receiver, send) = go_on(receiver.on_datagram(&datagram));
    assert!(send.is_empty());
    receiver
}

#[test]
fn constants_of_the_transfer() {
    assert_eq!(BLOCK_SIZE, 1_048_576);
    assert_eq!(CHUNK_SIZE, 496);
    assert_eq!(CHUNK_HEAD_SIZE, 12);
    assert_eq!(CHUNK_HEAD_SIZE + CHUNK_SIZE as usize + 8 + 60, 576);
    assert_eq!(READ_TIMEOUT, 5_000_000_000);
    assert_eq!(MISSING_PER_MESSAGE, 100);
}

#[test]
fn request_is_read_from_its_datagram_only() {
    let req = Request::new("f.bin".to_string(), 10, true);
    let bytes = Message::Request(req.clone()).encode();
    assert_eq!(read_request(&bytes), Some(req));
    assert_eq!(read_request(&Message::FileComplete.encode()), None);
    let mut long = bytes.clone();
    long.push(1);
    assert_eq!(read_request(&long), None);
    assert_eq!(read_request(&[]), None);
}

#[test]
fn datagram_is_a_message_and_a_payload() {
    let mut part = Message::FilePart { block: 1, chunk: 2 }.encode();
    part.extend_from_slice(&[7, 8, 9]);
    assert_eq!(read_message(&part), Some((Message::FilePart { block: 1, chunk: 2 }, 12)));
    let header = Message::FilePart { block: 1, chunk: 2 }.encode();
    assert_eq!(read_message(&header), Some((Message::FilePart { block: 1, chunk: 2 }, 12)));
    let done = Message::BlockComplete(3).encode();
    assert_eq!(read_message(&done), Some((Message::BlockComplete(3), 8)));
    let mut long = done.clone();
    long.push(0);
    assert_eq!(read_message(&long), None);
    assert_eq!(read_message(&[1, 2]), None);
}

#[test]
fn empty_file_needs_no_transfer() {
    let req = Request::new("empty".to_string(), 0, true);
    assert_eq!(plan(&req, None), Ok(OpenPlan::Empty));
    assert_eq!(plan(&req, Some(12)), Ok(OpenPlan::Empty));
    let mut done = SendComplete {};
    assert_eq!(done.poll(), vec![Message::FileComplete]);
    assert_eq!(done.resolve(Message::FileComplete), Resolved::Pending);
    assert_eq!(done.resolve(Message::FileCompleteAck), Resolved::Done(()));
    assert_eq!(done.result(), Some(()));
}

#[test]
fn resumed_transfer_starts_at_block_two() {
    let req = Request::new("big".to_string(), 3_000_000, true);
    let opened = plan(&req, Some(2 * 1_048_576)).unwrap();
    assert_eq!(opened, OpenPlan::Resume { next_block: 2, offset: 2_097_152 });
    let receiver = Receiver::new(req.size, 2).unwrap();
    assert_eq!(receiver.index(), 2);
    let mut terms = SendResponse::new(receiver.index());
    assert_eq!(terms.poll(), vec![Message::Response(Response::new(1_048_576, 496, 2))]);
    let data = source(3_000_000);
    let tail = &data[2_097_152..];
    let mut receiver = receiver;
    for chunk in 0..1821 {
        receiver = feed(receiver, 2, tail, chunk);
    }
    match receiver.on_message(Message::BlockComplete(2), &[]) {
        Outcome::Commit { ack, block } => {
            assert_eq!(ack, Message::BlockCompleteAck(2));
            assert_eq!(block.data(), tail);
            assert!(Receiver::advance(block).is_none());
        }
        _ => panic!("the block is whole"),
    }
}

#[test]
fn plan_follows_the_sidecar() {
    let req = Request::new("f".to_string(), 3_000_000, false);
    assert_eq!(plan(&req, None), Ok(OpenPlan::Fresh));
    assert_eq!(plan(&req, Some(3_000_000)), Ok(OpenPlan::Complete));
    assert_eq!(plan(&req, Some(3_000_001)), Ok(OpenPlan::Fresh));
    assert_eq!(plan(&req, Some(5)), Ok(OpenPlan::Resume { next_block: 0, offset: 0 }));
}

#[test]
fn offer_of_too_many_blocks_is_turned_down() {
    let req = Request::new("huge".to_string(), u64::MAX, true);
    assert_eq!(plan(&req, None), Err(Failure::TooManyBlocks));
    assert!(fits_blocks(u32::MAX as u64 * 1_048_576, BLOCK_SIZE));
    assert!(!fits_blocks(u32::MAX as u64 * 1_048_576 + 1, BLOCK_SIZE));
    assert!(fits_blocks(0, 1));
    assert!(fits_blocks(u32::MAX as u64, 1));
    assert!(!fits_blocks(u32::MAX as u64 + 1, 1));
}

#[test]
fn receiver_past_the_last_block_does_not_exist() {
    assert!(Receiver::new(3_000_000, 3).is_none());
    assert!(Receiver::new(1, 1).is_none());
    assert!(Receiver::new(1, 0).is_some());
    assert!(Receiver::new(0, 0).is_none());
}

#[test]
fn file_of_one_small_chunk_is_taken_and_ends_the_transfer() {
    let data = [7u8; 10];
    let receiver = Receiver::new(10, 0).unwrap();
    let (receiver, send) = go_on(receiver.on_message(Message::FilePart { block: 0, chunk: 0 }, &data));
    assert!(send.is_empty());
    match receiver.on_message(Message::BlockComplete(0), &[]) {
        Outcome::Commit { ack, block } => {
            assert_eq!(ack, Message::BlockCompleteAck(0));
            assert_eq!(block.data(), &data[..]);
            assert!(Receiver::advance(block).is_none());
        }
        _ => panic!("the block is whole"),
    }
}

#[test]
fn two_block_file_ends_after_its_second_block() {
    let receiver = Receiver::new(2_097_152, 0).unwrap();
    let full = vec![1u8; 496];
    let tail = vec![1u8; 32];
    let mut receiver = receiver;
    for index in 0..2 {
        assert_eq!(receiver.index(), index);
        for chunk in 0..2115 {
            let part: &[u8] = if chunk < 2114 { &full } else { &tail };
            receiver = go_on(receiver.on_message(Message::FilePart { block: index, chunk }, part)).0;
        }
        match receiver.on_message(Message::BlockComplete(index), &[]) {
            Outcome::Commit { block, .. } => match Receiver::advance(block) {
                Some(next) => {
                    assert_eq!(index, 0);
                    receiver = next;
                }
                None => {
                    assert_eq!(index, 1);
                    return;
                }
            },
            _ => panic!("the block is whole"),
        }
    }
    panic!("the transfer ends with the last block");
}

#[test]
fn first_chunk_is_a_part_of_the_starting_block() {
    let mut op = SendResponse::new(2);
    let mut datagram = Message::FilePart { block: 2, chunk: 5 }.encode();
    datagram.extend_from_slice(&[1, 2, 3]);
    assert_eq!(op.accept(&datagram), Some(FirstChunk { chunk: 5, start: 12, end: 15 }));
    assert_eq!(
        op.resolve(datagram.clone()),
        Resolved::Done(FirstChunk { chunk: 5, start: 12, end: 15 })
    );
    let other = Message::FilePart { block: 1, chunk: 5 }.encode();
    assert_eq!(op.accept(&other), None);
    assert_eq!(op.resolve(other), Resolved::Pending);
    assert_eq!(op.resolve(Message::BlockComplete(2).encode()), Resolved::Pending);
    assert_eq!(op.resolve(vec![1]), Resolved::Pending);
    assert_eq!(op.result(), None);
}

#[test]
fn one_block_with_three_chunks_lost() {
    let data = source(1_000_000);
    let mut receiver = Receiver::new(1_000_000, 0).unwrap();
    for chunk in 0..2017 {
        if chunk != 5 && chunk != 17 && chunk != 42 {
            receiver = feed(receiver, 0, &data, chunk);
        }
    }
    let (mut receiver, send) = go_on(receiver.on_datagram(&Message::BlockComplete(0).encode()));
    assert_eq!(
        send,
        vec![Message::BlockMissingChunk { block: 0, chunk: vec![5, 17, 42], count: 3 }]
    );
    for chunk in [5, 17, 42] {
        receiver = feed(receiver, 0, &data, chunk);
    }
    match receiver.on_datagram(&Message::BlockComplete(0).encode()) {
        Outcome::Commit { ack, block } => {
            assert_eq!(ack, Message::BlockCompleteAck(0));
            assert_eq!(block.index(), 0);
            assert_eq!(block.data(), &data[..]);
            assert!(Receiver::advance(block).is_none());
        }
        _ => panic!("the block is whole"),
    }
}

#[test]
fn twelve_hundred_missing_chunks_go_in_twelve_messages() {
    let missing: Vec<u32> = (0..1200).map(|i| i * 2).collect();
    let msgs = report_missing(4, &missing);
    assert_eq!(msgs.len(), 12);
    for (i, msg) in msgs.iter().enumerate() {
        assert_eq!(
            *msg,
            Message::BlockMissingChunk {
                block: 4,
                chunk: missing[i * 100..(i + 1) * 100].to_vec(),
                count: 1200,
            }
        );
        assert!(msg.encode().len() <= 512);
    }
}

#[test]
fn missing_list_is_cut_into_hundreds() {
    assert_eq!(report_missing(0, &Vec::new()), Vec::<Message>::new());
    assert_eq!(
        report_missing(1, &vec![9]),
        vec![Message::BlockMissingChunk { block: 1, chunk: vec![9], count: 1 }]
    );
    let hundred: Vec<u32> = (0..100).collect();
    assert_eq!(report_missing(1, &hundred).len(), 1);
    let more: Vec<u32> = (0..101).collect();
    assert_eq!(
        report_missing(1, &more),
        vec![
            Message::BlockMissingChunk { block: 1, chunk: hundred, count: 101 },
            Message::BlockMissingChunk { block: 1, chunk: vec![100], count: 101 },
        ]
    );
}

#[test]
fn fresh_block_reports_every_chunk() {
    let receiver = Receiver::new(1_000_000, 0).unwrap();
    let (_, send) = go_on(receiver.on_message(Message::BlockComplete(0), &[]));
    assert_eq!(send.len(), 21);
    let mut all = Vec::new();
    for msg in send {
        match msg {
            Message::BlockMissingChunk { block, chunk, count } => {
                assert_eq!((block, count), (0, 2017));
                all.extend(chunk);
            }
            _ => panic!("unexpected message"),
        }
    }
    assert_eq!(all, (0..2017).collect::<Vec<u32>>());
}

#[test]
fn late_notice_is_confirmed_again_and_changes_nothing() {
    let size = 1_048_576u64 + 1000;
    let data = source(size as usize);
    let mut receiver = Receiver::new(size, 0).unwrap();
    for chunk in 0..2115 {
        receiver = feed(receiver, 0, &data[..1_048_576], chunk);
    }
    let block = match receiver.on_message(Message::BlockComplete(0), &[]) {
        Outcome::Commit { ack, block } => {
            assert_eq!(ack, Message::BlockCompleteAck(0));
            block
        }
        _ => panic!("the block is whole"),
    };
    let receiver = Receiver::advance(block).unwrap();
    assert_eq!(receiver.index(), 1);
    let tail = &data[1_048_576..];
    let receiver = feed(receiver, 1, tail, 1);
    let (receiver, send) = go_on(receiver.on_message(Message::BlockComplete(0), &[]));
    assert_eq!(send, vec![Message::BlockCompleteAck(0)]);
    assert_eq!(receiver.index(), 1);
    let (receiver, send) = go_on(receiver.on_message(Message::BlockComplete(1), &[]));
    assert_eq!(send, vec![Message::BlockMissingChunk { block: 1, chunk: vec![0, 2], count: 2 }]);
    let receiver = feed(receiver, 1, tail, 0);
    let receiver = feed(receiver, 1, tail, 2);
    match receiver.on_message(Message::BlockComplete(1), &[]) {
        Outcome::Commit { ack, block } => {
            assert_eq!(ack, Message::BlockCompleteAck(1));
            assert_eq!(block.data(), tail);
        }
        _ => panic!("the block is whole"),
    }
}

#[test]
fn what_does_not_concern_the_block_is_ignored() {
    let data = source(3_000_000);
    let receiver = Receiver::new(3_000_000, 1).unwrap();
    let ignored = vec![
        Message::BlockComplete(2),
        Message::BlockComplete(3),
        Message::BlockComplete(u32::MAX),
        Message::BlockCompleteAck(1),
        Message::FileComplete,
        Message::FileCompleteAck,
        Message::Response(Response::new(1, 1, 1)),
        Message::Request(Request::new("x".to_string(), 1, true)),
        Message::BlockMissingChunk { block: 1, chunk: vec![1], count: 1 },
    ];
    let mut receiver = receiver;
    for msg in ignored {
        let (next, send) = go_on(receiver.on_message(msg, &[]));
        assert!(send.is_empty());
        receiver = next;
    }
    let (receiver, send) = go_on(receiver.on_message(
        Message::FilePart { block: 0, chunk: 0 },
        chunk_of(&data, 0),
    ));
    assert!(send.is_empty());
    let (receiver, send) =
        go_on(receiver.on_message(Message::FilePart { block: 2, chunk: 0 }, &[1, 2, 3]));
    assert!(send.is_empty());
    let (receiver, send) = go_on(receiver.on_datagram(&[0xff; 20]));
    assert!(send.is_empty());
    let (_, send) = go_on(receiver.on_message(Message::BlockComplete(1), &[]));
    assert_eq!(send.len(), 22);
}

#[test]
fn duplicate_parts_are_ignored() {
    let mut receiver = Receiver::new(1000, 0).unwrap();
    let first = vec![1u8; 496];
    let second = vec![2u8; 496];
    let tail = vec![3u8; 8];
    receiver = go_on(receiver.on_message(Message::FilePart { block: 0, chunk: 0 }, &first)).0;
    receiver = go_on(receiver.on_message(Message::FilePart { block: 0, chunk: 0 }, &second)).0;
    receiver = go_on(receiver.on_message(Message::FilePart { block: 0, chunk: 1 }, &second)).0;
    receiver = go_on(receiver.on_message(Message::FilePart { block: 0, chunk: 2 }, &tail)).0;
    match receiver.on_message(Message::BlockComplete(0), &[]) {
        Outcome::Commit { block, .. } => {
            let mut expected = first.clone();
            expected.extend_from_slice(&second);
            expected.extend_from_slice(&tail);
            assert_eq!(block.data(), &expected[..]);
        }
        _ => panic!("the block is whole"),
    }
}

#[test]
fn malformed_part_ends_the_transfer() {
    let short = vec![0u8; 495];
    let full = vec![0u8; 496];
    let receiver = Receiver::new(1000, 0).unwrap();
    assert!(matches!(
        receiver.on_message(Message::FilePart { block: 0, chunk: 0 }, &short),
        Outcome::Failed(Failure::ChunkOutOfRange)
    ));
    let receiver = Receiver::new(1000, 0).unwrap();
    assert!(matches!(
        receiver.on_message(Message::FilePart { block: 0, chunk: 2 }, &full),
        Outcome::Failed(Failure::ChunkOutOfRange)
    ));
    let receiver = Receiver::new(1000, 0).unwrap();
    assert!(matches!(
        receiver.on_message(Message::FilePart { block: 0, chunk: 3 }, &full),
        Outcome::Failed(Failure::ChunkOutOfRange)
    ));
    let receiver = Receiver::new(1000, 0).unwrap();
    let datagram = Message::FilePart { block: 0, chunk: 0 }.encode();
    assert!(matches!(
        receiver.on_datagram(&datagram),
        Outcome::Failed(Failure::ChunkOutOfRange)
    ));
}
