use byte_buster::framing::{build_frame, frame_messages};
use byte_buster::history::push_message;

#[test]
fn two_chunk_scenario() {
    let start = [0xAAu8, 0x55];
    let end = [0x0Du8, 0x0A];
    let mut buffer: Vec<u8> = Vec::new();

    buffer.extend_from_slice(&[0xAA, 0x55, 0x01, 0x0D, 0x0A]);
    let msgs = frame_messages(&mut buffer, &start, &end);
    assert_eq!(msgs, vec![vec![0xAA, 0x55, 0x01, 0x0D, 0x0A]]);
    assert!(buffer.is_empty());

    buffer.extend_from_slice(&[0xAA, 0x55, 0x02, 0x0D, 0x0A, 0xAA]);
    let msgs = frame_messages(&mut buffer, &start, &end);
    assert_eq!(msgs, vec![vec![0xAA, 0x55, 0x02, 0x0D, 0x0A]]);
    assert_eq!(buffer, vec![0xAA]);
}

#[test]
fn second_extraction_yields_nothing() {
    let start = [0xAAu8, 0x55];
    let end = [0x0Du8, 0x0A];
    let mut buffer = vec![0x00, 0xAA, 0x55, 0x01, 0x0D, 0x0A, 0xAA, 0x55];
    let first = frame_messages(&mut buffer, &start, &end);
    assert_eq!(first.len(), 1);
    let again = frame_messages(&mut buffer, &start, &end);
    assert!(again.is_empty());
    assert_eq!(buffer, vec![0xAA, 0x55]);
}

#[test]
fn chunked_feeding_matches_one_concatenated_append() {
    let start = [0xAAu8];
    let end = [0x0Au8];
    let stream: Vec<u8> = vec![
        0x01, 0xAA, 0x02, 0x0A, 0xAA, 0xAA, 0x03, 0x04, 0x0A, 0x0A, 0xAA, 0x05,
    ];

    let mut whole = stream.clone();
    let expected = frame_messages(&mut whole, &start, &end);

    for cut in 0..=stream.len() {
        let mut buffer: Vec<u8> = Vec::new();
        let mut collected = Vec::new();
        buffer.extend_from_slice(&stream[..cut]);
        collected.extend(frame_messages(&mut buffer, &start, &end));
        buffer.extend_from_slice(&stream[cut..]);
        collected.extend(frame_messages(&mut buffer, &start, &end));
        assert_eq!(collected, expected);
        assert_eq!(buffer, whole);
    }
}

#[test]
fn messages_carry_both_delimiters() {
    let start = [0xAAu8, 0x55];
    let end = [0x0Du8, 0x0A];
    let mut buffer = vec![
        0xAA, 0x55, 0x01, 0x02, 0x0D, 0x0A, 0xFF, 0xAA, 0x55, 0x0D, 0x0A,
    ];
    let msgs = frame_messages(&mut buffer, &start, &end);
    assert_eq!(msgs.len(), 2);
    for m in &msgs {
        assert!(m.len() >= 4);
        assert_eq!(&m[..2], &start);
        assert_eq!(&m[m.len() - 2..], &end);
    }
}

#[test]
fn empty_start_matches_at_front() {
    let end = [0x0Au8];
    let mut buffer = vec![0x01, 0x02, 0x0A, 0x03];
    let msgs = frame_messages(&mut buffer, &[], &end);
    assert_eq!(msgs, vec![vec![0x01, 0x02, 0x0A]]);
    assert_eq!(buffer, vec![0x03]);
}

#[test]
fn empty_end_takes_the_rest() {
    let start = [0xAAu8];
    let mut buffer = vec![0x01, 0xAA, 0x02, 0x03];
    let msgs = frame_messages(&mut buffer, &start, &[]);
    assert_eq!(msgs, vec![vec![0xAA, 0x02, 0x03]]);
    assert!(buffer.is_empty());
}

#[test]
fn no_start_keeps_all_bytes() {
    let start = [0xAAu8];
    let end = [0x0Au8];
    let mut buffer = vec![0x01, 0x02, 0x03];
    let msgs = frame_messages(&mut buffer, &start, &end);
    assert!(msgs.is_empty());
    assert_eq!(buffer, vec![0x01, 0x02, 0x03]);
}

#[test]
fn unmatched_start_keeps_prefix_bytes() {
    // Bytes before the dangling start stay too: nothing resynchronizes.
    let start = [0xAAu8];
    let end = [0x0Au8];
    let mut buffer = vec![0x01, 0xAA, 0x02];
    let msgs = frame_messages(&mut buffer, &start, &end);
    assert!(msgs.is_empty());
    assert_eq!(buffer, vec![0x01, 0xAA, 0x02]);
}

#[test]
fn embedded_end_delimiter_cuts_the_frame_short() {
    let start = [0xAAu8];
    let end = [0x0Au8];
    let mut buffer = vec![0xAA, 0x01, 0x0A, 0x02, 0x0A];
    let msgs = frame_messages(&mut buffer, &start, &end);
    assert_eq!(msgs, vec![vec![0xAA, 0x01, 0x0A]]);
    assert_eq!(buffer, vec![0x02, 0x0A]);
}

#[test]
fn built_frame_layout_is_exact() {
    let frame = build_frame(0x01, [0xAA, 0x55], [0x0D, 0x0A], b"PING");
    let mut expected = vec![0xAAu8, 0x55, 0xEE, 0x01, 0xA4, 0xA5, 0xA6, 0xA7, 0xA8, 0xA9];
    expected.extend_from_slice(b"PING");
    expected.extend_from_slice(&[b' '; 17]);
    expected.extend_from_slice(&[0xF1, 0xF2, 0x0D, 0x0A]);
    assert_eq!(frame, expected);
    assert_eq!(frame.len(), 35);
}

#[test]
fn built_frame_truncates_long_messages() {
    let long = [b'X'; 30];
    let frame = build_frame(0x02, [0xAA, 0x55], [0x0D, 0x0A], &long);
    assert_eq!(frame.len(), 35);
    assert_eq!(&frame[10..31], &long[..21]);
}

#[test]
fn history_keeps_the_newest_messages() {
    let mut history: Vec<Vec<u8>> = Vec::new();
    push_message(&mut history, vec![1], 2);
    push_message(&mut history, vec![2], 2);
    push_message(&mut history, vec![3], 2);
    assert_eq!(history, vec![vec![2], vec![3]]);
}

#[test]
fn history_with_zero_capacity_stays_empty() {
    let mut history: Vec<Vec<u8>> = vec![vec![9]];
    push_message(&mut history, vec![1], 0);
    assert!(history.is_empty());
}

#[test]
fn history_at_exact_capacity_keeps_everything() {
    let mut history: Vec<Vec<u8>> = Vec::new();
    push_message(&mut history, vec![1], 3);
    push_message(&mut history, vec![2], 3);
    push_message(&mut history, vec![3], 3);
    assert_eq!(history, vec![vec![1], vec![2], vec![3]]);
}

#[test]
fn back_to_back_frames_come_out_in_order() {
    let start = [0xAAu8, 0x55];
    let end = [0x0Du8, 0x0A];
    let mut buffer = Vec::new();
    for id in [0x01u8, 0x02, 0x03] {
        buffer.extend_from_slice(&build_frame(id, [0xAA, 0x55], [0x0D, 0x0A], b"X"));
    }
    let msgs = frame_messages(&mut buffer, &start, &end);
    assert_eq!(msgs.len(), 3);
    for (i, id) in [0x01u8, 0x02, 0x03].iter().enumerate() {
        assert_eq!(msgs[i][3], *id);
        assert_eq!(msgs[i].len(), 35);
    }
    assert!(buffer.is_empty());
}
