use glzip::decoder::{count, decode_map};
use glzip::encoder::encode;

fn round_trip(source: u32, targets: &[u32]) {
    let list: Vec<u32> = targets.to_vec();
    let mut bytes: Vec<u8> = Vec::new();
    encode(&mut bytes, source, &list);
    let decoded = decode_map(source, &bytes);
    assert_eq!(decoded, list);
    assert_eq!(count(source, &bytes), list.len());
}

#[test]
fn gap_head_forward() {
    // neighbours [5] of source 3: delta 2, no sign, no continuation
    let mut bytes: Vec<u8> = Vec::new();
    encode(&mut bytes, 3, &vec![5u32]);
    assert_eq!(bytes[0], 0x02);
    let decoded = decode_map(3, &bytes);
    assert_eq!(decoded, vec![5u32]);
}

#[test]
fn gap_head_backward() {
    // neighbours [2] of source 5: delta 3 with the sign bit set
    let mut bytes: Vec<u8> = Vec::new();
    encode(&mut bytes, 5, &vec![2u32]);
    assert_eq!(bytes[0], 0x43);
    let decoded = decode_map(5, &bytes);
    assert_eq!(decoded, vec![2u32]);
}

#[test]
fn gap_head_zero() {
    let mut bytes: Vec<u8> = Vec::new();
    encode(&mut bytes, 7, &vec![7u32]);
    assert_eq!(bytes, vec![0x00u8]);
    round_trip(7, &[7]);
}

#[test]
fn gap_head_continuation() {
    // delta 100 needs one continuation byte: low 6 bits then 100 >> 6
    let mut bytes: Vec<u8> = Vec::new();
    encode(&mut bytes, 0, &vec![100u32]);
    assert_eq!(bytes.len(), 2);
    assert_eq!(bytes[0], 0x80 | (100 & 0x3f) as u8);
    assert_eq!(bytes[1], (100 >> 6) as u8);
    round_trip(0, &[100]);
}

#[test]
fn width_classification() {
    // 64 consecutive neighbours of the source: a 1-byte gap head, then
    // one run group of 63 width-1 deltas
    let source = 10u32;
    let list: Vec<u32> = (11u32..=74).collect();
    let mut bytes: Vec<u8> = Vec::new();
    encode(&mut bytes, source, &list);
    assert_eq!(bytes.len(), 1 + 1 + 63);
    assert_eq!(bytes[1], (63u8 - 1) << 2);
    for t in 2..bytes.len() {
        assert_eq!(bytes[t], 1);
    }
    round_trip(source, &list);
}

#[test]
fn empty_list() {
    let mut bytes: Vec<u8> = Vec::new();
    encode(&mut bytes, 42, &Vec::new());
    assert!(bytes.is_empty());
    assert_eq!(decode_map(42, &bytes), Vec::<u32>::new());
    assert_eq!(count(42, &bytes), 0);
}

#[test]
fn mixed_widths() {
    // deltas of widths 1, 2, 3 and 4 in one list
    let list: Vec<u32> = vec![5, 6, 300, 70_000, 20_000_000, 4_000_000_000];
    round_trip(0, &list);
    round_trip(3_999_999_999, &list);
}

#[test]
fn long_run_splits() {
    // more than 64 equal-width deltas force a second run group
    let list: Vec<u32> = (0u32..200).map(|i| i * 2).collect();
    round_trip(100, &list);
}

#[test]
fn extreme_values() {
    round_trip(0, &[u32::MAX]);
    round_trip(u32::MAX, &[0, u32::MAX]);
    round_trip(2_147_483_648, &[0, 1, 2_147_483_647, 2_147_483_649, u32::MAX]);
}

#[test]
fn count_matches_length() {
    let list: Vec<u32> = vec![1, 2, 3, 1000, 2000, 100_000, 16_777_216, 4_000_000_000];
    let mut bytes: Vec<u8> = Vec::new();
    encode(&mut bytes, 500, &list);
    assert_eq!(count(500, &bytes), 8);
}
