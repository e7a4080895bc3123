use multicats::chunk::FragmentError;
use multicats::dispatch::write_fragment;
use multicats::image::compute_image_metadata;
use multicats::receiver::{
    ChunkReceiver, Reception, INITIAL_BUFFER_LEN, MAX_ASSEMBLERS, MAX_REQUEST_LEN,
};
use multicats::wire::DecodeError;
use multicats::{ChunkData, ChunkMetadata, ImageMetadata};

fn datagram(chunk: u32, data: &[u8], offset: u32, len: usize) -> Vec<u8> {
    let mut buf = vec![0u8; 64];
    let (n, _) = write_fragment(chunk, data, offset, len, &mut buf).unwrap();
    buf.truncate(n);
    buf
}

fn receiver_for(image: &[u8], chunk_size: u32) -> ChunkReceiver {
    ChunkReceiver::new(compute_image_metadata(image, chunk_size).unwrap())
}

fn asked(r: &ChunkReceiver) -> Vec<u32> {
    r.build_request().iter().copied().collect()
}

#[test]
fn constants_of_the_receiver() {
    assert_eq!(MAX_ASSEMBLERS, 40);
    assert_eq!(INITIAL_BUFFER_LEN, 2500 - 40 - 8);
    assert_eq!(MAX_REQUEST_LEN, 1 + 40 * 5);
}

#[test]
fn every_chunk_is_missing_at_first() {
    let r = receiver_for(b"HELLO WORLDS", 5);
    assert!(!r.is_done());
    assert_eq!(r.chunk_count(), 3);
    assert_eq!(r.missing_count(), 3);
    assert_eq!(asked(&r), vec![0, 1, 2]);
}

#[test]
fn receiver_of_an_empty_image_is_done() {
    let r = receiver_for(b"", 5);
    assert!(r.is_done());
    assert_eq!(r.missing_count(), 0);
    assert!(asked(&r).is_empty());
}

#[test]
fn request_holds_the_forty_smallest_missing_indices() {
    let image = vec![3u8; 100];
    let mut r = receiver_for(&image, 1);
    assert_eq!(asked(&r), (0..40).collect::<Vec<u32>>());
    // Chunks 1 and 38 arrive: the request moves on by two.
    for chunk in [1u32, 38] {
        assert!(matches!(
            r.receive(&datagram(chunk, &image[..1], 0, 1)),
            Reception::Complete { .. }
        ));
    }
    let mut expected: Vec<u32> = (0..42).collect();
    expected.retain(|&id| id != 1 && id != 38);
    assert_eq!(asked(&r), expected);
    assert_eq!(r.missing_count(), 98);
}

#[test]
fn request_on_the_wire() {
    let r = receiver_for(b"HELLO WORLDS", 5);
    let mut buf = vec![0xaau8; MAX_REQUEST_LEN];
    assert_eq!(r.write_request(&mut buf), Some(4));
    assert_eq!(&buf[..4], &[3, 0, 1, 2]);
    assert_eq!(buf.len(), MAX_REQUEST_LEN);
    let mut short = vec![0u8; 3];
    assert_eq!(r.write_request(&mut short), None);
}

#[test]
fn request_of_indices_that_take_two_bytes() {
    let image = vec![1u8; 200];
    let mut r = receiver_for(&image, 1);
    for chunk in 0..170u32 {
        assert!(matches!(
            r.receive(&datagram(chunk, &image[..1], 0, 1)),
            Reception::Complete { .. }
        ));
    }
    let mut buf = vec![0u8; MAX_REQUEST_LEN];
    let n = r.write_request(&mut buf).unwrap();
    let mut expected = vec![30u8];
    for id in 170..200u32 {
        expected.push((id % 128 + 128) as u8);
        expected.push((id / 128) as u8);
    }
    assert_eq!(&buf[..n], &expected[..]);
}

#[test]
fn chunk_is_handed_over_when_its_last_fragment_comes() {
    let image = b"HELLO WORLDS";
    let mut r = receiver_for(image, 5);
    assert!(matches!(r.receive(&datagram(1, &image[5..10], 3, 2)), Reception::Stored));
    assert!(matches!(r.receive(&datagram(1, &image[5..10], 0, 2)), Reception::Stored));
    assert_eq!(r.missing_count(), 3);
    assert!(matches!(
        r.receive(&datagram(1, &image[5..10], 0, 5)),
        Reception::Refused(FragmentError::Overlap)
    ));
    // A fragment that has come before is refused.
    assert!(matches!(
        r.receive(&datagram(1, &image[5..10], 3, 2)),
        Reception::Refused(FragmentError::Overlap)
    ));
    assert_eq!(asked(&r), vec![0, 1, 2]);
    match r.receive(&datagram(1, &image[5..10], 2, 1)) {
        Reception::Complete { chunk, offset, data } => {
            assert_eq!((chunk, offset), (1, 5));
            assert_eq!(data, b" WORL".to_vec());
        }
        other => panic!("{:?}", other),
    }
    assert_eq!(asked(&r), vec![0, 2]);
}

#[test]
fn complete_chunk_carries_offset_and_bytes() {
    let image = b"HELLO WORLDS";
    let mut r = receiver_for(image, 5);
    assert!(matches!(r.receive(&datagram(2, &image[10..], 1, 1)), Reception::Stored));
    match r.receive(&datagram(2, &image[10..], 0, 1)) {
        Reception::Complete { chunk, offset, data } => {
            assert_eq!(chunk, 2);
            assert_eq!(offset, 10);
            assert_eq!(data, b"DS".to_vec());
        }
        other => panic!("{:?}", other),
    }
    assert_eq!(asked(&r), vec![0, 1]);
    assert!(!r.is_done());
}

#[test]
fn corrupt_chunk_is_thrown_away_and_stays_missing() {
    let image = b"HELLO WORLDS";
    let mut r = receiver_for(image, 5);
    assert!(matches!(r.receive(&datagram(1, b" WORL", 0, 3)), Reception::Stored));
    // The second fragment was changed on the way.
    assert!(matches!(r.receive(&datagram(1, b" WORX", 3, 2)), Reception::Corrupt));
    assert_eq!(asked(&r), vec![0, 1, 2]);
    // The assembler is gone: the chunk is taken in anew.
    assert!(matches!(r.receive(&datagram(1, b" WORL", 0, 3)), Reception::Stored));
    match r.receive(&datagram(1, b" WORL", 3, 2)) {
        Reception::Complete { chunk: 1, offset: 5, data } => assert_eq!(data, b" WORL".to_vec()),
        other => panic!("{:?}", other),
    }
    assert_eq!(asked(&r), vec![0, 2]);
}

#[test]
fn settling_by_hash() {
    let image = b"HELLO WORLDS";
    let table = compute_image_metadata(image, 5).unwrap();
    let hash = table.chunks[0].hash;
    let mut r = ChunkReceiver::new(table);
    assert!(matches!(
        r.settle_chunk(0, b"HELLO".to_vec(), hash.wrapping_add(1)),
        Reception::Corrupt
    ));
    assert_eq!(r.missing_count(), 3);
    match r.settle_chunk(0, b"HELLO".to_vec(), hash) {
        Reception::Complete { chunk: 0, offset: 0, data } => assert_eq!(data, b"HELLO".to_vec()),
        other => panic!("{:?}", other),
    }
    assert_eq!(asked(&r), vec![1, 2]);
    // A chunk that is settled a second time is handed over again.
    assert!(matches!(
        r.settle_chunk(0, b"HELLO".to_vec(), hash),
        Reception::Complete { chunk: 0, .. }
    ));
    assert_eq!(asked(&r), vec![1, 2]);
}

#[test]
fn fragment_of_an_unknown_chunk_is_passed_over() {
    let mut r = receiver_for(b"HELLO WORLDS", 5);
    assert!(matches!(r.receive(&datagram(3, b"DS", 0, 2)), Reception::UnknownChunk));
    assert!(matches!(r.receive(&datagram(u32::MAX, b"DS", 0, 2)), Reception::UnknownChunk));
    assert_eq!(r.missing_count(), 3);
}

#[test]
fn fragment_past_the_end_of_its_chunk_is_refused() {
    let mut r = receiver_for(b"HELLO WORLDS", 5);
    // Chunk 2 has two bytes.
    assert!(matches!(
        r.receive(&datagram(2, b"DSX", 0, 3)),
        Reception::Refused(FragmentError::OutOfBounds)
    ));
    assert!(matches!(
        r.receive(&datagram(2, b"abcdefgh", 7, 1)),
        Reception::Refused(FragmentError::OutOfBounds)
    ));
    assert!(matches!(r.receive(&datagram(2, b"DS", 0, 2)), Reception::Complete { .. }));
}

#[test]
fn datagram_cut_short_is_told_apart_from_a_bad_one() {
    let mut r = receiver_for(b"HELLO WORLDS", 5);
    let whole = datagram(0, b"HELLO", 0, 5);
    for cut in 0..whole.len() {
        assert!(matches!(r.receive(&whole[..cut]), Reception::Grow));
    }
    // A chunk index of more than 32 bits.
    assert!(matches!(
        r.receive(&[0xff, 0xff, 0xff, 0xff, 0x7f, 0, 0]),
        Reception::Malformed
    ));
    assert!(matches!(r.receive(&whole), Reception::Complete { chunk: 0, .. }));
}

#[test]
fn decoded_fragment_is_taken_as_it_is() {
    let mut r = receiver_for(b"HELLO WORLDS", 5);
    assert!(matches!(r.accept_fragment(Err(DecodeError::UnexpectedEnd)), Reception::Grow));
    assert!(matches!(r.accept_fragment(Err(DecodeError::Malformed)), Reception::Malformed));
    assert!(matches!(
        r.accept_fragment(Ok(ChunkData { chunk: 0, offset: 1, data: b"ELLO" })),
        Reception::Stored
    ));
    assert!(matches!(
        r.accept_fragment(Ok(ChunkData { chunk: 0, offset: 0, data: b"H" })),
        Reception::Complete { chunk: 0, offset: 0, .. }
    ));
}

#[test]
fn empty_fragment_opens_an_assembler_and_is_stored() {
    let mut r = receiver_for(b"HELLO WORLDS", 5);
    assert!(matches!(
        r.accept_fragment(Ok(ChunkData { chunk: 1, offset: 5, data: b"" })),
        Reception::Stored
    ));
    assert!(matches!(
        r.accept_fragment(Ok(ChunkData { chunk: 1, offset: 6, data: b"" })),
        Reception::Refused(FragmentError::OutOfBounds)
    ));
}

#[test]
fn smallest_assembler_is_given_up_for_the_forty_first() {
    let image = vec![5u8; 100];
    let mut r = receiver_for(&image, 2);
    // First bytes of the chunks 0 to 39: forty assemblers are open.
    for chunk in 0..40u32 {
        assert!(matches!(r.receive(&datagram(chunk, &image[..2], 0, 1)), Reception::Stored));
    }
    // They are all still there: the same byte is refused.
    for chunk in 0..40u32 {
        assert!(matches!(
            r.receive(&datagram(chunk, &image[..2], 0, 1)),
            Reception::Refused(FragmentError::Overlap)
        ));
    }
    // Chunk 45 takes the place of chunk 0.
    assert!(matches!(r.receive(&datagram(45, &image[..2], 0, 1)), Reception::Stored));
    // Chunk 1 is still being assembled.
    assert!(matches!(
        r.receive(&datagram(1, &image[..2], 0, 1)),
        Reception::Refused(FragmentError::Overlap)
    ));
    // Chunk 0 starts anew, and for that chunk 1 is given up.
    assert!(matches!(r.receive(&datagram(0, &image[..2], 0, 1)), Reception::Stored));
    assert!(matches!(r.receive(&datagram(1, &image[..2], 0, 1)), Reception::Stored));
    // That gave up chunk 2; chunk 45, the greatest, is still there.
    assert!(matches!(
        r.receive(&datagram(45, &image[..2], 0, 1)),
        Reception::Refused(FragmentError::Overlap)
    ));
    assert_eq!(r.missing_count(), 50);
}

#[test]
fn completing_a_chunk_frees_its_assembler() {
    let image = vec![5u8; 100];
    let mut r = receiver_for(&image, 2);
    for chunk in 0..40u32 {
        assert!(matches!(r.receive(&datagram(chunk, &image[..2], 0, 1)), Reception::Stored));
    }
    assert!(matches!(
        r.receive(&datagram(20, &image[..2], 1, 1)),
        Reception::Complete { chunk: 20, offset: 40, .. }
    ));
    // There is room for chunk 41 now, so chunk 0 stays.
    assert!(matches!(r.receive(&datagram(41, &image[..2], 0, 1)), Reception::Stored));
    assert!(matches!(
        r.receive(&datagram(0, &image[..2], 0, 1)),
        Reception::Refused(FragmentError::Overlap)
    ));
}

#[test]
fn chunk_that_was_handed_over_is_assembled_again_when_it_comes_again() {
    let image = b"HELLO WORLDS";
    let mut r = receiver_for(image, 5);
    assert!(matches!(r.receive(&datagram(2, b"DS", 0, 2)), Reception::Complete { .. }));
    assert_eq!(asked(&r), vec![0, 1]);
    assert!(matches!(
        r.receive(&datagram(2, b"DS", 0, 2)),
        Reception::Complete { chunk: 2, offset: 10, .. }
    ));
    assert_eq!(asked(&r), vec![0, 1]);
}

#[test]
fn table_with_an_empty_chunk_keeps_it_missing() {
    let table = ImageMetadata {
        chunks: vec![
            ChunkMetadata { offset: 0, size: 0, hash: twox_hash::XxHash3_64::oneshot(b"") },
            ChunkMetadata { offset: 0, size: 1, hash: twox_hash::XxHash3_64::oneshot(b"a") },
        ],
    };
    assert!(table.validate());
    let mut r = ChunkReceiver::new(table);
    assert!(matches!(
        r.accept_fragment(Ok(ChunkData { chunk: 0, offset: 0, data: b"" })),
        Reception::Stored
    ));
    assert!(matches!(
        r.accept_fragment(Ok(ChunkData { chunk: 1, offset: 0, data: b"a" })),
        Reception::Complete { chunk: 1, .. }
    ));
    assert_eq!(asked(&r), vec![0]);
}
