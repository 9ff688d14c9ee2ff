use openhome_core::bank::{Bank, SlotEdit, MAX_SLOTS};
use openhome_core::bytes::copy_bytes;
use openhome_core::digest::Reference;
use openhome_core::error::{Error, Missing};

fn named(digest: u64) -> Reference {
    Reference { digest }
}

fn no_slot(box_idx: usize, position: usize) -> Error {
    Error::NotFound(Missing::Slot { box_idx, position })
}

#[test]
fn new_bank_has_every_slot_empty() {
    let bank = Bank::new(2, 3).unwrap();
    assert_eq!(bank.boxes(), 2);
    assert_eq!(bank.positions(), 3);
    assert_eq!(bank.slot_count(), 6);
    for b in 0..2 {
        for p in 0..3 {
            assert_eq!(bank.slot(b, p), Ok(None));
        }
    }
}

#[test]
fn bank_shape_is_limited() {
    assert!(Bank::new(MAX_SLOTS, 1).is_some());
    assert!(Bank::new(1000, 1000).is_some());
    assert!(Bank::new(1000, 1001).is_none());
    assert!(Bank::new(MAX_SLOTS + 1, 0).is_none());
    assert!(Bank::new(0, MAX_SLOTS + 1).is_none());
    assert!(Bank::new(usize::MAX, usize::MAX).is_none());
    assert_eq!(Bank::new(0, 0).unwrap().slot_count(), 0);
    assert_eq!(Bank::new(0, 5).unwrap().slot_count(), 0);
}

#[test]
fn set_slot_writes_one_slot_and_returns_what_it_held() {
    let mut bank = Bank::new(2, 3).unwrap();
    assert_eq!(bank.set_slot(1, 2, Some(named(7))), Ok(None));
    assert_eq!(bank.slot(1, 2), Ok(Some(named(7))));
    assert_eq!(bank.set_slot(1, 2, Some(named(8))), Ok(Some(named(7))));
    assert_eq!(bank.set_slot(1, 2, None), Ok(Some(named(8))));
    assert_eq!(bank.slot(1, 2), Ok(None));
    assert_eq!(bank, Bank::new(2, 3).unwrap());
}

#[test]
fn set_slot_leaves_the_other_slots_alone() {
    let mut bank = Bank::new(2, 3).unwrap();
    bank.set_slot(0, 2, Some(named(1))).unwrap();
    bank.set_slot(1, 0, Some(named(2))).unwrap();
    assert_eq!(bank.slot(0, 0), Ok(None));
    assert_eq!(bank.slot(0, 1), Ok(None));
    assert_eq!(bank.slot(0, 2), Ok(Some(named(1))));
    assert_eq!(bank.slot(1, 0), Ok(Some(named(2))));
    assert_eq!(bank.slot(1, 1), Ok(None));
    assert_eq!(bank.slot(1, 2), Ok(None));
}

#[test]
fn slot_outside_the_bank_is_not_found() {
    let mut bank = Bank::new(2, 3).unwrap();
    assert_eq!(bank.slot(2, 0), Err(no_slot(2, 0)));
    assert_eq!(bank.slot(0, 3), Err(no_slot(0, 3)));
    assert_eq!(bank.set_slot(2, 0, Some(named(1))), Err(no_slot(2, 0)));
    assert_eq!(bank.set_slot(0, 3, Some(named(1))), Err(no_slot(0, 3)));
    assert_eq!(bank.set_slot(usize::MAX, usize::MAX, None), Err(no_slot(usize::MAX, usize::MAX)));
    assert_eq!(bank, Bank::new(2, 3).unwrap());
}

#[test]
fn move_slot_empties_the_source_and_returns_the_displaced() {
    let mut bank = Bank::new(2, 3).unwrap();
    bank.set_slot(0, 0, Some(named(1))).unwrap();
    bank.set_slot(1, 1, Some(named(2))).unwrap();
    assert_eq!(bank.move_slot(0, 0, 0, 1), Ok(None));
    assert_eq!(bank.slot(0, 0), Ok(None));
    assert_eq!(bank.slot(0, 1), Ok(Some(named(1))));
    assert_eq!(bank.move_slot(0, 1, 1, 1), Ok(Some(named(2))));
    assert_eq!(bank.slot(0, 1), Ok(None));
    assert_eq!(bank.slot(1, 1), Ok(Some(named(1))));
    assert!(!bank.names(named(2)));
    assert!(bank.names(named(1)));
}

#[test]
fn move_slot_onto_itself_changes_nothing() {
    let mut bank = Bank::new(2, 3).unwrap();
    bank.set_slot(1, 2, Some(named(9))).unwrap();
    assert_eq!(bank.move_slot(1, 2, 1, 2), Ok(None));
    assert_eq!(bank.slot(1, 2), Ok(Some(named(9))));
}

#[test]
fn move_of_an_empty_slot_empties_the_target() {
    let mut bank = Bank::new(1, 2).unwrap();
    bank.set_slot(0, 1, Some(named(4))).unwrap();
    assert_eq!(bank.move_slot(0, 0, 0, 1), Ok(Some(named(4))));
    assert_eq!(bank.slot(0, 0), Ok(None));
    assert_eq!(bank.slot(0, 1), Ok(None));
}

#[test]
fn move_slot_reports_the_first_address_outside_the_bank() {
    let mut bank = Bank::new(2, 3).unwrap();
    bank.set_slot(0, 0, Some(named(1))).unwrap();
    assert_eq!(bank.move_slot(5, 5, 9, 9), Err(no_slot(5, 5)));
    assert_eq!(bank.move_slot(0, 0, 9, 9), Err(no_slot(9, 9)));
    assert_eq!(bank.slot(0, 0), Ok(Some(named(1))));
}

#[test]
fn swap_slots_exchanges_two_slots() {
    let mut bank = Bank::new(2, 3).unwrap();
    bank.set_slot(0, 0, Some(named(1))).unwrap();
    bank.set_slot(1, 2, Some(named(2))).unwrap();
    assert_eq!(bank.swap_slots(0, 0, 1, 2), Ok(()));
    assert_eq!(bank.slot(0, 0), Ok(Some(named(2))));
    assert_eq!(bank.slot(1, 2), Ok(Some(named(1))));
    assert_eq!(bank.swap_slots(0, 0, 0, 1), Ok(()));
    assert_eq!(bank.slot(0, 0), Ok(None));
    assert_eq!(bank.slot(0, 1), Ok(Some(named(2))));
    assert_eq!(bank.swap_slots(0, 1, 0, 1), Ok(()));
    assert_eq!(bank.slot(0, 1), Ok(Some(named(2))));
}

#[test]
fn swap_twice_restores_the_bank() {
    let mut bank = Bank::new(3, 3).unwrap();
    bank.set_slot(0, 1, Some(named(1))).unwrap();
    bank.set_slot(2, 2, Some(named(2))).unwrap();
    let before = bank.clone();
    bank.swap_slots(0, 1, 2, 2).unwrap();
    assert_ne!(bank, before);
    bank.swap_slots(0, 1, 2, 2).unwrap();
    assert_eq!(bank, before);
}

#[test]
fn swap_slots_reports_the_first_address_outside_the_bank() {
    let mut bank = Bank::new(2, 3).unwrap();
    assert_eq!(bank.swap_slots(2, 0, 0, 7), Err(no_slot(2, 0)));
    assert_eq!(bank.swap_slots(0, 0, 0, 7), Err(no_slot(0, 7)));
}

#[test]
fn apply_carries_out_each_kind_of_edit() {
    let mut bank = Bank::new(1, 3).unwrap();
    assert_eq!(bank.apply(SlotEdit::Write { box_idx: 0, position: 0, content: Some(named(5)) }), Ok(None));
    assert_eq!(
        bank.apply(SlotEdit::Move { from_box: 0, from_position: 0, to_box: 0, to_position: 2 }),
        Ok(None)
    );
    assert_eq!(bank.slot(0, 2), Ok(Some(named(5))));
    assert_eq!(
        bank.apply(SlotEdit::Swap { a_box: 0, a_position: 1, b_box: 0, b_position: 2 }),
        Ok(None)
    );
    assert_eq!(bank.slot(0, 1), Ok(Some(named(5))));
    assert_eq!(
        bank.apply(SlotEdit::Swap { a_box: 0, a_position: 1, b_box: 1, b_position: 0 }),
        Err(no_slot(1, 0))
    );
    assert_eq!(
        bank.apply(SlotEdit::Write { box_idx: 0, position: 1, content: None }),
        Ok(Some(named(5)))
    );
}

#[test]
fn names_tells_whether_a_reference_is_in_the_bank() {
    let mut bank = Bank::new(2, 2).unwrap();
    assert!(!bank.names(named(3)));
    bank.set_slot(1, 1, Some(named(3))).unwrap();
    assert!(bank.names(named(3)));
    assert!(!bank.names(named(4)));
}

#[test]
fn clone_is_an_equal_bank() {
    let mut bank = Bank::new(2, 2).unwrap();
    bank.set_slot(0, 1, Some(named(3))).unwrap();
    let copy = bank.clone();
    assert_eq!(copy, bank);
    bank.set_slot(0, 1, None).unwrap();
    assert_eq!(copy.slot(0, 1), Ok(Some(named(3))));
}

#[test]
fn manifest_has_the_documented_bytes() {
    let mut bank = Bank::new(1, 2).unwrap();
    bank.set_slot(0, 1, Some(named(0x0102_0304_0506_0708))).unwrap();
    let expected: Vec<u8> = vec![
        0x42, 0x4E, 0x4B, 0x4D, 0x01, // magic, layout
        0x01, 0x00, 0x00, 0x00, // boxes
        0x02, 0x00, 0x00, 0x00, // positions
        0x00, 0x00, 0x00, 0x00, 0x00, 0x00, 0x00, 0x00, 0x00, // empty
        0x01, 0x08, 0x07, 0x06, 0x05, 0x04, 0x03, 0x02, 0x01, // occupied
    ];
    assert_eq!(bank.to_manifest(), expected);
    assert_eq!(Bank::from_manifest(&expected), Some(bank));
}

#[test]
fn manifest_lists_the_slots_box_after_box() {
    let mut bank = Bank::new(2, 3).unwrap();
    bank.set_slot(1, 1, Some(named(0xAB))).unwrap();
    let bytes = bank.to_manifest();
    for cell in 0..6 {
        let tag = bytes[13 + 9 * cell];
        assert_eq!(tag, if cell == 4 { 1 } else { 0 });
    }
    assert_eq!(bytes[13 + 9 * 4 + 1], 0xAB);
}

#[test]
fn manifest_of_an_empty_shape_is_the_header() {
    let bank = Bank::new(0, 0).unwrap();
    let bytes = bank.to_manifest();
    assert_eq!(bytes, vec![0x42, 0x4E, 0x4B, 0x4D, 1, 0, 0, 0, 0, 0, 0, 0, 0]);
    assert_eq!(Bank::from_manifest(&bytes), Some(bank));
}

#[test]
fn manifest_reads_back_as_the_bank() {
    let mut bank = Bank::new(3, 4).unwrap();
    bank.set_slot(0, 0, Some(named(u64::MAX))).unwrap();
    bank.set_slot(1, 3, Some(named(0))).unwrap();
    bank.set_slot(2, 2, Some(named(0xdead_beef))).unwrap();
    let bytes = bank.to_manifest();
    assert_eq!(bytes.len(), 13 + 9 * 12);
    let read = Bank::from_manifest(&bytes).unwrap();
    assert_eq!(read, bank);
    assert_eq!(read.slot(1, 3), Ok(Some(named(0))));
    assert_eq!(read.to_manifest(), bytes);
}

#[test]
fn manifest_with_a_wrong_start_is_refused() {
    let bytes = Bank::new(1, 1).unwrap().to_manifest();
    for at in 0..5 {
        let mut bad = bytes.clone();
        bad[at] ^= 0x20;
        assert_eq!(Bank::from_manifest(&bad), None);
    }
    assert_eq!(Bank::from_manifest(b""), None);
    assert_eq!(Bank::from_manifest(&bytes[..12]), None);
}

#[test]
fn manifest_of_the_wrong_length_is_refused() {
    let bytes = Bank::new(2, 2).unwrap().to_manifest();
    assert_eq!(Bank::from_manifest(&bytes[..bytes.len() - 1]), None);
    let mut longer = bytes.clone();
    longer.push(0);
    assert_eq!(Bank::from_manifest(&longer), None);
}

#[test]
fn manifest_with_a_shape_beyond_the_limit_is_refused() {
    let mut bytes = vec![0x42, 0x4E, 0x4B, 0x4D, 1];
    bytes.extend_from_slice(&1_000_001u32.to_le_bytes());
    bytes.extend_from_slice(&0u32.to_le_bytes());
    assert_eq!(Bank::from_manifest(&bytes), None);
    let mut wide = vec![0x42, 0x4E, 0x4B, 0x4D, 1];
    wide.extend_from_slice(&u32::MAX.to_le_bytes());
    wide.extend_from_slice(&u32::MAX.to_le_bytes());
    assert_eq!(Bank::from_manifest(&wide), None);
}

#[test]
fn manifest_with_a_cell_that_is_never_written_is_refused() {
    let mut bank = Bank::new(1, 1).unwrap();
    let empty = bank.to_manifest();
    let mut bad_tag = empty.clone();
    bad_tag[13] = 2;
    assert_eq!(Bank::from_manifest(&bad_tag), None);
    let mut stray_digest = empty.clone();
    stray_digest[20] = 1;
    assert_eq!(Bank::from_manifest(&stray_digest), None);
    bank.set_slot(0, 0, Some(named(0))).unwrap();
    let occupied = bank.to_manifest();
    assert_eq!(occupied[13], 1);
    assert_eq!(Bank::from_manifest(&occupied), Some(bank));
}

#[test]
fn bytes_are_copied() {
    assert_eq!(copy_bytes(b"PIKA"), b"PIKA".to_vec());
    assert_eq!(copy_bytes(b""), Vec::<u8>::new());
}
