//! Piece assembly: blocks in, verified pieces out.

use torrent_client::file::{Assembler, BlockOutcome, WriteMessage};

// SHA-1 of the 32 bytes 0,1,...,31.
const PIECE_DIGEST: [u8; 20] = [
    174, 91, 216, 239, 234, 83, 34, 196, 217, 152, 109, 6, 104, 10, 120, 19, 146, 249, 166, 66,
];

fn one_piece_assembler() -> Assembler {
    Assembler::new(32, 32, 1, 16, vec![PIECE_DIGEST.to_vec()])
}

fn piece_bytes() -> Vec<u8> {
    (0u8..32).collect()
}

#[test]
fn two_blocks_complete_and_verify() {
    let mut assembler = one_piece_assembler();
    let content = piece_bytes();

    let first = assembler.on_block(&WriteMessage::new(0, 0, &content[0..16]));
    match first {
        BlockOutcome::Incomplete => {}
        other => panic!("unexpected outcome: {:?}", outcome_name(&other)),
    }
    assert!(!assembler.is_done(0));

    let second = assembler.on_block(&WriteMessage::new(0, 16, &content[16..32]));
    match second {
        BlockOutcome::Completed { offset, data } => {
            assert_eq!(offset, 0);
            assert_eq!(data, content);
        }
        other => panic!("unexpected outcome: {:?}", outcome_name(&other)),
    }
    assert!(assembler.is_done(0));
}

#[test]
fn corrupted_piece_is_rejected_and_released() {
    let mut assembler = one_piece_assembler();
    let mut corrupted = piece_bytes();
    corrupted[5] ^= 0xFF;

    let first = assembler.on_block(&WriteMessage::new(0, 0, &corrupted[0..16]));
    match first {
        BlockOutcome::Incomplete => {}
        other => panic!("unexpected outcome: {:?}", outcome_name(&other)),
    }
    let second = assembler.on_block(&WriteMessage::new(0, 16, &corrupted[16..32]));
    match second {
        BlockOutcome::HashMismatch => {}
        other => panic!("unexpected outcome: {:?}", outcome_name(&other)),
    }
    assert!(!assembler.is_done(0));

    // The piece can be fetched again and then verifies.
    let content = piece_bytes();
    let again = assembler.on_block(&WriteMessage::new(0, 0, &content[0..16]));
    match again {
        BlockOutcome::Incomplete => {}
        other => panic!("unexpected outcome: {:?}", outcome_name(&other)),
    }
    let done = assembler.on_block(&WriteMessage::new(0, 16, &content[16..32]));
    match done {
        BlockOutcome::Completed { offset, data } => {
            assert_eq!(offset, 0);
            assert_eq!(data, content);
        }
        other => panic!("unexpected outcome: {:?}", outcome_name(&other)),
    }
}

#[test]
fn overlapping_blocks_last_writer_wins() {
    let mut assembler = one_piece_assembler();
    let content = piece_bytes();
    let mut wrong_first_half = vec![0xEEu8; 16];
    wrong_first_half[0] = 0xDD;

    let _ = assembler.on_block(&WriteMessage::new(0, 0, &wrong_first_half));
    // The same block arrives again with the right bytes; bytes are replaced.
    let _ = assembler.on_block(&WriteMessage::new(0, 0, &content[0..16]));
    let done = assembler.on_block(&WriteMessage::new(0, 16, &content[16..32]));
    match done {
        BlockOutcome::Completed { data, .. } => assert_eq!(data, content),
        other => panic!("unexpected outcome: {:?}", outcome_name(&other)),
    }
}

#[test]
fn completed_offsets_use_piece_length() {
    // Two pieces of 16 bytes each: SHA-1 digests of [0;16] and [1;16].
    let d0: [u8; 20] = [
        225, 41, 242, 124, 81, 3, 188, 92, 196, 75, 205, 240, 161, 94, 22, 13, 68, 80, 102, 255,
    ];
    let d1: [u8; 20] = [
        52, 92, 14, 151, 152, 123, 31, 78, 27, 227, 142, 225, 103, 138, 95, 16, 97, 194, 195, 1,
    ];
    let mut assembler = Assembler::new(16, 16, 2, 16, vec![d0.to_vec(), d1.to_vec()]);
    match assembler.on_block(&WriteMessage::new(1, 0, &[1u8; 16])) {
        BlockOutcome::Completed { offset, data } => {
            assert_eq!(offset, 16);
            assert_eq!(data, vec![1u8; 16]);
        }
        other => panic!("unexpected outcome: {:?}", outcome_name(&other)),
    }
    match assembler.on_block(&WriteMessage::new(0, 0, &[0u8; 16])) {
        BlockOutcome::Completed { offset, .. } => assert_eq!(offset, 0),
        other => panic!("unexpected outcome: {:?}", outcome_name(&other)),
    }
    assert!(assembler.is_done(0));
    assert!(assembler.is_done(1));
}

#[test]
fn write_message_getters() {
    let wm = WriteMessage::new(3, 16, &[5, 6]);
    assert_eq!(wm.index(), 3);
    assert_eq!(wm.begin(), 16);
    assert_eq!(wm.block(), &vec![5, 6]);
}

fn outcome_name(o: &BlockOutcome) -> &'static str {
    match o {
        BlockOutcome::Incomplete => "incomplete",
        BlockOutcome::Completed { .. } => "completed",
        BlockOutcome::HashMismatch => "hash mismatch",
    }
}
