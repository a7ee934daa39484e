use infinitris::codec::{board_max_tag, decode_state, encode_state, load_game, StateError};
use infinitris::game::HeightPolicy;

fn sample_board() -> Vec<Vec<u32>> {
    let mut row0 = vec![0u32; 10];
    let mut row1 = vec![0u32; 10];
    row0[0] = 1;
    row0[9] = 0x01020304;
    row1[3] = 7;
    vec![row0, row1]
}

#[test]
fn round_trip_reproduces_rows_and_tags() {
    let board = sample_board();
    let bytes = encode_state(&board, 10);
    assert_eq!(bytes.len(), 8 + 2 * 10 * 4);
    let back = decode_state(&bytes, 10).expect("well-formed state");
    assert_eq!(back, board);
}

#[test]
fn encoding_layout_is_versioned_big_endian() {
    let board = sample_board();
    let bytes = encode_state(&board, 10);
    assert_eq!(&bytes[0..8], &[1, 0, 0, 0, 0, 0, 0, 0]);
    // Row 0 cell 0 holds tag 1.
    assert_eq!(&bytes[8..12], &[0, 0, 0, 1]);
    // Row 0 cell 9 holds the multi-byte tag, most significant byte first.
    assert_eq!(&bytes[8 + 9 * 4..8 + 10 * 4], &[1, 2, 3, 4]);
    // Row 1 cell 3 follows the whole first row record.
    assert_eq!(&bytes[8 + 13 * 4..8 + 14 * 4], &[0, 0, 0, 7]);
}

#[test]
fn empty_board_round_trips_through_a_bare_header() {
    let board: Vec<Vec<u32>> = Vec::new();
    let bytes = encode_state(&board, 10);
    assert_eq!(bytes, vec![1, 0, 0, 0, 0, 0, 0, 0]);
    let back = decode_state(&bytes, 10).expect("bare header");
    assert!(back.is_empty());
}

#[test]
fn unknown_version_is_refused() {
    let bytes = vec![2u8, 0, 0, 0, 0, 0, 0, 0];
    assert_eq!(decode_state(&bytes, 10), Err(StateError::BadVersion(2)));
}

#[test]
fn short_header_is_refused() {
    let bytes = vec![1u8, 0, 0];
    assert_eq!(decode_state(&bytes, 10), Err(StateError::ShortHeader));
    assert_eq!(decode_state(&Vec::new(), 10), Err(StateError::ShortHeader));
}

#[test]
fn truncated_row_is_refused() {
    let board = sample_board();
    let mut bytes = encode_state(&board, 10);
    bytes.pop();
    assert_eq!(decode_state(&bytes, 10), Err(StateError::TruncatedRow));
}

#[test]
fn max_tag_scans_every_cell() {
    let board = sample_board();
    assert_eq!(board_max_tag(&board), 0x01020304);
    assert_eq!(board_max_tag(&Vec::new()), 0);
}

#[test]
fn load_rebuilds_the_game_state() {
    let board = sample_board();
    let bytes = encode_state(&board, 10);
    let game = load_game(&bytes, 10, HeightPolicy::Growing(10), 2).expect("loadable state");
    assert_eq!(game.world, board);
    assert_eq!(game.next_gen, 0x01020304 + 1);
    assert_eq!(game.width, 10);
    assert_eq!(game.piece_index, 2);
    assert_eq!(game.orient, 0);
    assert_eq!(game.x, 3);
    assert_eq!(game.y, 2 + 10);
}

#[test]
fn load_refuses_exhausted_tag_space() {
    let mut board = sample_board();
    board[1][5] = u32::MAX;
    let bytes = encode_state(&board, 10);
    assert!(matches!(
        load_game(&bytes, 10, HeightPolicy::Growing(10), 0),
        Err(StateError::TagOverflow)
    ));
}

#[test]
fn load_propagates_decode_errors() {
    assert!(matches!(
        load_game(&vec![1u8, 0], 10, HeightPolicy::Growing(10), 0),
        Err(StateError::ShortHeader)
    ));
    let bytes = vec![3u8, 0, 0, 0, 0, 0, 0, 0];
    assert!(matches!(
        load_game(&bytes, 10, HeightPolicy::Fixed(20), 0),
        Err(StateError::BadVersion(3))
    ));
}
