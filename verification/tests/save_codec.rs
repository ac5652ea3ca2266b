use re0box::inventory::Item;
use re0box::saves::{SavedBoxes, NUM_SAVE_SLOTS};

#[test]
fn encode_layout() {
    let mut saves = SavedBoxes::new();
    saves.save_to_slot(
        &[
            Item { id: 6, count: 1 },
            Item {
                id: 180,
                count: 260,
            },
        ],
        0,
    );
    let bytes = saves.encode();
    // the magic tag, one slot of two items, then nineteen empty slots
    assert_eq!(bytes.len(), 4 + (4 + 2 * 8) + 19 * 4);
    assert_eq!(&bytes[..4], b"IBOX");
    assert_eq!(&bytes[4..8], &[2, 0, 0, 0]); // item count
    assert_eq!(&bytes[8..12], &[6, 0, 0, 0]); // first item id
    assert_eq!(&bytes[12..16], &[1, 0, 0, 0]); // first item count
    assert_eq!(&bytes[16..20], &[180, 0, 0, 0]); // second item id
    assert_eq!(&bytes[20..24], &[4, 1, 0, 0]); // second item count, 260 = 0x104
    assert!(bytes[24..].iter().all(|&b| b == 0)); // empty slots
}

#[test]
fn encode_negative_values() {
    let mut saves = SavedBoxes::new();
    saves.save_to_slot(
        &[Item {
            id: -1,
            count: -2,
        }],
        0,
    );
    let bytes = saves.encode();
    // two's complement little-endian
    assert_eq!(&bytes[8..12], &[0xFF, 0xFF, 0xFF, 0xFF]);
    assert_eq!(&bytes[12..16], &[0xFE, 0xFF, 0xFF, 0xFF]);
}

#[test]
fn decode_round_trip() {
    let mut saves = SavedBoxes::new();
    saves.save_to_slot(
        &[Item { id: 6, count: 1 }, Item { id: 180, count: 1 }],
        2,
    );
    saves.save_to_slot(&[Item { id: -7, count: 300 }], 19);
    let bytes = saves.encode();
    let decoded = SavedBoxes::decode(&bytes).unwrap();
    for i in 0..NUM_SAVE_SLOTS {
        assert_eq!(decoded.load_from_slot(i), saves.load_from_slot(i));
    }
}

#[test]
fn decode_ignores_trailing_bytes() {
    let mut saves = SavedBoxes::new();
    saves.save_to_slot(&[Item { id: 3, count: 9 }], 5);
    let mut bytes = saves.encode();
    bytes.extend_from_slice(&[1, 2, 3, 4, 5]);
    let decoded = SavedBoxes::decode(&bytes).unwrap();
    assert_eq!(decoded.load_from_slot(5), vec![Item { id: 3, count: 9 }]);
}

#[test]
fn decode_rejects_bad_input() {
    // too short for the tag
    assert!(SavedBoxes::decode(&[]).is_none());
    assert!(SavedBoxes::decode(b"IBO").is_none());
    // wrong tag
    assert!(SavedBoxes::decode(b"XBOX\0\0\0\0").is_none());
    // tag alone: every slot is missing
    assert!(SavedBoxes::decode(b"IBOX").is_none());
    // a slot whose item list is cut short
    let mut bytes = Vec::new();
    bytes.extend_from_slice(b"IBOX");
    bytes.extend_from_slice(&[1, 0, 0, 0]); // one item claimed
    bytes.extend_from_slice(&[6, 0, 0, 0]); // id only, count missing
    assert!(SavedBoxes::decode(&bytes).is_none());
    // a complete single slot still leaves nineteen missing
    let mut bytes = Vec::new();
    bytes.extend_from_slice(b"IBOX");
    bytes.extend_from_slice(&[0, 0, 0, 0]);
    assert!(SavedBoxes::decode(&bytes).is_none());
}

#[test]
fn decode_all_empty_slots() {
    let saves = SavedBoxes::new();
    let bytes = saves.encode();
    assert_eq!(bytes.len(), 4 + NUM_SAVE_SLOTS * 4);
    let decoded = SavedBoxes::decode(&bytes).unwrap();
    for i in 0..NUM_SAVE_SLOTS {
        assert!(decoded.load_from_slot(i).is_empty());
    }
}
