use udp_hole_punching::file_transfer::block::{Block, BlockReader};
use udp_hole_punching::file_transfer::message::{Chunk, Message, Request, Response};
use udp_hole_punching::file_transfer::receive::{report_missing, Outcome, Receiver, CHUNK_SIZE};
use udp_hole_punching::file_transfer::send::{
    after_block_complete, block_parts, is_file_complete, open_reader, BlockStep, SendBlockComplete,
    SendRequest, READ_TIMEOUT, RECV_BUF_SIZE,
};
use udp_hole_punching::operation::{Failure, Operation, Resolved, Retry, Timeout};
use udp_hole_punching::socket::Encode;

#[test]
fn constants_of_the_sender() {
    assert_eq!(READ_TIMEOUT, 5_000_000_000);
    assert_eq!(RECV_BUF_SIZE, 512);
}

#[test]
fn offer_names_the_file_and_allows_resuming() {
    let mut op = SendRequest::new("a.txt".to_string(), 42);
    let offer = Message::Request(Request::new("a.txt".to_string(), 42, true));
    assert_eq!(op.poll(), vec![offer.clone()]);
    assert_eq!(op.poll(), vec![offer]);
    assert_eq!(op.result(), None);
}

#[test]
fn offer_is_answered_by_terms_or_by_completion() {
    let mut op = SendRequest::new("a.txt".to_string(), 42);
    assert_eq!(op.resolve(Message::BlockComplete(0)), Resolved::Pending);
    assert_eq!(op.resolve(Message::FileCompleteAck), Resolved::Pending);
    let terms = Response::new(1048576, 496, 3);
    assert_eq!(op.resolve(Message::Response(terms)), Resolved::Done(Some(terms)));
    assert_eq!(op.resolve(Message::FileComplete), Resolved::Done(None));
}

#[test]
fn notice_names_the_block() {
    let mut op = SendBlockComplete::new(7);
    assert_eq!(op.poll(), vec![Message::BlockComplete(7)]);
    assert_eq!(op.result(), None);
}

#[test]
fn confirmation_means_nothing_is_missing() {
    let mut op = SendBlockComplete::new(7);
    assert_eq!(op.resolve(Message::BlockCompleteAck(6)), Resolved::Pending);
    assert_eq!(op.resolve(Message::BlockCompleteAck(8)), Resolved::Pending);
    assert_eq!(op.resolve(Message::FileComplete), Resolved::Pending);
    assert_eq!(op.resolve(Message::BlockCompleteAck(7)), Resolved::Done(Vec::new()));
}

#[test]
fn missing_lists_are_gathered_until_the_count_is_met() {
    let mut op = SendBlockComplete::new(0);
    assert_eq!(
        op.resolve(Message::BlockMissingChunk { block: 1, chunk: vec![9], count: 1 }),
        Resolved::Pending
    );
    assert_eq!(op.missing_chunk, None);
    assert_eq!(
        op.resolve(Message::BlockMissingChunk { block: 0, chunk: vec![5, 17], count: 3 }),
        Resolved::Pending
    );
    assert_eq!(op.missing_chunk, Some(vec![5, 17]));
    assert_eq!(
        op.resolve(Message::BlockMissingChunk { block: 0, chunk: vec![42], count: 3 }),
        Resolved::Done(vec![5, 17, 42])
    );
    assert_eq!(op.missing_chunk, None);
    assert_eq!(
        op.resolve(Message::BlockMissingChunk { block: 0, chunk: vec![1], count: 1 }),
        Resolved::Done(vec![1])
    );
}

#[test]
fn sender_waits_for_all_twelve_hundred() {
    let missing: Vec<u32> = (0..1200).collect();
    let msgs = report_missing(3, &missing);
    let mut op = SendBlockComplete::new(3);
    for (i, msg) in msgs.into_iter().enumerate() {
        let r = op.resolve(msg);
        if i < 11 {
            assert_eq!(r, Resolved::Pending);
            assert_eq!(op.missing_chunk.as_ref().map(|v| v.len()), Some((i + 1) * 100));
        } else {
            assert_eq!(r, Resolved::Done(missing.clone()));
        }
    }
}

#[test]
fn partial_list_is_no_result_when_time_runs_out() {
    let mut op = SendBlockComplete::new(0);
    op.resolve(Message::BlockMissingChunk { block: 0, chunk: vec![5, 17], count: 3 });
    let mut retry = Retry::new();
    assert_eq!(retry.on_timeout(&mut op), Timeout::Poll);
    assert_eq!(retry.on_timeout(&mut op), Timeout::Poll);
    assert_eq!(retry.on_timeout(&mut op), Timeout::Poll);
    assert_eq!(op.missing_chunk, Some(vec![5, 17]));
    assert_eq!(retry.on_timeout(&mut op), Timeout::TimedOut);
    assert_eq!(op.missing_chunk, None);
    assert_eq!(retry.on_timeout(&mut op), Timeout::TimedOut);
}

#[test]
fn partial_list_is_never_handed_out() {
    let mut op = SendBlockComplete::new(4);
    assert_eq!(op.result(), None);
    op.resolve(Message::BlockMissingChunk { block: 4, chunk: vec![1], count: 2 });
    assert_eq!(op.result(), None);
    assert_eq!(op.missing_chunk, None);
    assert_eq!(
        op.resolve(Message::BlockMissingChunk { block: 4, chunk: vec![1, 2], count: 2 }),
        Resolved::Done(vec![1, 2])
    );
}

#[test]
fn parts_are_the_chunks_in_order() {
    let data: Vec<u8> = (0..10).collect();
    let block = Block::new(3, &data, 4);
    assert_eq!(
        block_parts(&block),
        vec![
            Chunk::new(3, 0, &data[0..4]).encode(),
            Chunk::new(3, 1, &data[4..8]).encode(),
            Chunk::new(3, 2, &data[8..10]).encode(),
        ]
    );
    assert_eq!(block_parts(&Block::new(0, &[], 4)), Vec::<Vec<u8>>::new());
}

#[test]
fn one_block_file_has_2017_parts() {
    let data = vec![0u8; 1_000_000];
    let block = Block::new(0, &data, 496);
    let parts = block_parts(&block);
    assert_eq!(parts.len(), 2017);
    assert_eq!(parts[0].len(), 508);
    assert_eq!(parts[2016].len(), 12 + 64);
}

#[test]
fn exactly_the_missing_chunks_are_sent_again() {
    let data: Vec<u8> = (0..10).collect();
    let block = Block::new(3, &data, 4);
    assert!(matches!(after_block_complete(&block, &Vec::new()), Ok(BlockStep::Next)));
    match after_block_complete(&block, &vec![2, 0, 2]) {
        Ok(BlockStep::Resend(parts)) => assert_eq!(
            parts,
            vec![
                Chunk::new(3, 2, &data[8..10]).encode(),
                Chunk::new(3, 0, &data[0..4]).encode(),
                Chunk::new(3, 2, &data[8..10]).encode(),
            ]
        ),
        _ => panic!("chunks are missing"),
    }
}

#[test]
fn answer_that_names_no_chunk_of_the_block_ends_the_transfer() {
    let data: Vec<u8> = (0..10).collect();
    let block = Block::new(3, &data, 4);
    assert!(matches!(
        after_block_complete(&block, &vec![0, 3]),
        Err(Failure::ChunkOutOfRange)
    ));
    assert!(matches!(
        after_block_complete(&block, &vec![u32::MAX]),
        Err(Failure::ChunkOutOfRange)
    ));
}

#[test]
fn terms_are_checked() {
    assert!(matches!(open_reader(0, Response::new(10, 4, 0)), Err(Failure::BadTerms)));
    assert!(matches!(open_reader(5, Response::new(0, 4, 0)), Err(Failure::BadTerms)));
    assert!(matches!(open_reader(5, Response::new(10, 0, 0)), Err(Failure::BadTerms)));
    assert!(matches!(
        open_reader(u32::MAX as u64 + 1, Response::new(1, 4, 0)),
        Err(Failure::TooManyBlocks)
    ));
    let reader = open_reader(u32::MAX as u64, Response::new(1, 4, 0)).ok().unwrap();
    assert_eq!(reader.next_len(), Some(1));
    let reader = open_reader(3_000_000, Response::new(1048576, 496, 2)).ok().unwrap();
    assert_eq!(reader.start_offset(), 2_097_152);
    assert_eq!(reader.next_len(), Some(902_848));
}

#[test]
fn final_word_of_the_receiver() {
    assert!(is_file_complete(&Message::FileComplete));
    assert!(!is_file_complete(&Message::FileCompleteAck));
    assert!(!is_file_complete(&Message::BlockCompleteAck(0)));
}

/// Sends `data` through the two state machines; `lost` says which datagrams
/// of the first pass of each block do not arrive. Yields what the receiver
/// put on disk and how many parts were sent again.
fn transfer(data: &[u8], start_block: u32, lost: &dyn Fn(u32, u32) -> bool) -> (Vec<u8>, usize) {
    let size = data.len() as u64;
    let mut written = Vec::new();
    let mut resent = 0;
    let mut receiver = match Receiver::new(size, start_block) {
        Some(r) => r,
        None => return (written, resent),
    };
    let terms = Response::new(1_048_576, CHUNK_SIZE, receiver.index());
    let mut reader: BlockReader = open_reader(size, terms).ok().unwrap();
    let mut offset = reader.start_offset() as usize;
    loop {
        let len = match reader.next_len() {
            Some(n) => n as usize,
            None => break,
        };
        let block = reader.read(&data[offset..offset + len]).unwrap();
        offset += len;
        for (i, part) in block_parts(&block).into_iter().enumerate() {
            if lost(block.index(), i as u32) {
                continue;
            }
            receiver = match receiver.on_datagram(&part) {
                Outcome::Continue { receiver, send } => {
                    assert!(send.is_empty());
                    receiver
                }
                _ => panic!("a part only continues"),
            };
        }
        loop {
            let mut op = SendBlockComplete::new(block.index());
            let notice = op.poll().remove(0).encode();
            let missing = match receiver.on_datagram(&notice) {
                Outcome::Commit { ack, block: whole } => {
                    assert_eq!(op.resolve(ack), Resolved::Done(Vec::new()));
                    written.extend_from_slice(whole.data());
                    match Receiver::advance(whole) {
                        Some(next) => {
                            receiver = next;
                            break;
                        }
                        None => return (written, resent),
                    }
                }
                Outcome::Continue { receiver: same, send } => {
                    receiver = same;
                    let mut answer = None;
                    for msg in send {
                        assert!(answer.is_none());
                        if let Resolved::Done(list) = op.resolve(msg) {
                            answer = Some(list);
                        }
                    }
                    answer.unwrap()
                }
                Outcome::Failed(f) => panic!("failed: {:?}", f),
            };
            match after_block_complete(&block, &missing) {
                Ok(BlockStep::Resend(parts)) => {
                    resent += parts.len();
                    for part in parts {
                        receiver = match receiver.on_datagram(&part) {
                            Outcome::Continue { receiver, .. } => receiver,
                            _ => panic!("a part only continues"),
                        };
                    }
                }
                _ => panic!("chunks are missing"),
            }
        }
    }
    (written, resent)
}

fn pattern(len: usize) -> Vec<u8> {
    (0..len).map(|i| ((i * 7 + i / 253) % 256) as u8).collect()
}

#[test]
fn file_arrives_as_it_was_sent() {
    for len in [1usize, 495, 496, 497, 1_000_000, 1_048_576, 1_048_577, 2_500_000] {
        let data = pattern(len);
        let (written, resent) = transfer(&data, 0, &|_, _| false);
        assert_eq!(written, data);
        assert_eq!(resent, 0);
    }
}

#[test]
fn file_arrives_whatever_is_lost() {
    let data = pattern(2_500_000);
    let (written, resent) = transfer(&data, 0, &|_, chunk| chunk % 7 == 3);
    assert_eq!(written, data);
    assert_eq!(resent, 302 + 302 + 116);
    let (written, resent) = transfer(&data, 0, &|_, _| true);
    assert_eq!(written, data);
    assert_eq!(resent, 2115 + 2115 + 813);
    let (written, resent) = transfer(&data, 0, &|block, chunk| block == 1 && chunk < 3);
    assert_eq!(written, data);
    assert_eq!(resent, 3);
}

#[test]
fn resumed_file_arrives_from_the_block_it_resumes_at() {
    let data = pattern(3_000_000);
    let (written, resent) = transfer(&data, 2, &|_, chunk| chunk == 0);
    assert_eq!(written, &data[2_097_152..]);
    assert_eq!(resent, 1);
    let (written, _) = transfer(&data, 3, &|_, _| false);
    assert!(written.is_empty());
}
