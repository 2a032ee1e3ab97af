use dat::bitfield::{convert_to_index, count_ones, Bitfield};
use dat::pager::{Pager, PAGE_SIZE};
use dat::sparse::SparseBitfield;

#[test]
fn pager_sets_bytes_and_queues_dirty_pages() {
    let mut pager = Pager::new();
    assert_eq!(pager.len(), 0);
    assert_eq!(pager.get_page_size(), 3328);
    assert!(pager.get(0).is_none());
    // A zero for an absent page changes nothing and makes no page.
    assert!(!pager.set(0, 5, 0));
    assert_eq!(pager.len(), 0);
    assert!(pager.set(3, 5, 9));
    assert_eq!(pager.len(), 1);
    assert_eq!(pager.get(3).unwrap().len(), PAGE_SIZE);
    assert_eq!(pager.get(3).unwrap()[5], 9);
    assert_eq!(pager.get(3).unwrap()[6], 0);
    // The same value again changes nothing.
    assert!(!pager.set(3, 5, 9));
    assert!(pager.set(1, 0, 1));
    assert!(pager.set(3, 6, 1));
    // Most recently added first, each page once.
    assert_eq!(pager.last_updated(), Some(1));
    assert_eq!(pager.last_updated(), Some(3));
    assert_eq!(pager.last_updated(), None);
}

#[test]
fn pager_insert_does_not_mark_dirty() {
    let mut pager = Pager::new();
    pager.insert(7, vec![1u8; PAGE_SIZE]);
    assert_eq!(pager.len(), 1);
    assert_eq!(pager.get(7).unwrap()[100], 1);
    assert_eq!(pager.last_updated(), None);
}

#[test]
fn sparse_bits_and_bytes() {
    let mut bits = SparseBitfield::new();
    assert!(!bits.get(0));
    assert_eq!(bits.get_byte(0), 0);
    assert_eq!(bits.pages(), 0);
    assert_eq!(bits.len(), 0);
    assert!(bits.set(0, true));
    assert!(!bits.set(0, true));
    assert!(bits.get(0));
    assert!(bits.set(3, true));
    assert_eq!(bits.get_byte(0), 0b0000_1001);
    assert_eq!(bits.get_byte(7), 0b0000_1001);
    assert!(bits.set(9, true));
    assert_eq!(bits.get_byte(8), 0b0000_0010);
    assert!(bits.set(0, false));
    assert!(!bits.get(0));
    assert_eq!(bits.get_byte(0), 0b0000_1000);
    assert_eq!(bits.pages(), 1);
    assert_eq!(bits.len(), 3328 * 8);
    // The second page of a window of 1024 bytes starts at bit 8192.
    assert!(bits.set(8192, true));
    assert_eq!(bits.pages(), 2);
    assert!(bits.set_byte(16, 0xF0));
    assert!(!bits.set_byte(16, 0xF0));
    assert!(bits.get(20));
    assert!(!bits.get(19));
}

#[test]
fn sparse_windows_of_one_pager_do_not_overlap() {
    let mut data = SparseBitfield::with_pager(Pager::new(), 0, 1024);
    assert!(data.set_byte(8 * 1023, 0xAA));
    let pager = data.pager;
    let mut tree = SparseBitfield::with_pager(pager, 1024, 2048);
    assert_eq!(tree.get_byte(0), 0);
    assert!(tree.set_byte(0, 0x55));
    let pager = tree.pager;
    assert_eq!(pager.get(0).unwrap()[1023], 0xAA);
    assert_eq!(pager.get(0).unwrap()[1024], 0x55);
}

#[test]
fn bitfield_get_and_set() {
    let mut bitfield = Bitfield::new();
    assert!(!bitfield.get(0));
    assert!(bitfield.set(0, true));
    assert!(bitfield.get(0));
    assert!(!bitfield.get(1));
    bitfield.set(1, true);
    bitfield.set(5, true);
    assert!(bitfield.get(1));
    assert!(bitfield.get(5));
    assert!(!bitfield.get(4));
    bitfield.set(5, false);
    assert!(!bitfield.get(5));
}

#[test]
fn bitfield_set_twice_returns_false_and_marks_nothing() {
    let mut bitfield = Bitfield::new();
    bitfield.set(42, true);
    while bitfield.last_updated().is_some() {}
    assert!(!bitfield.set(42, true));
    assert!(bitfield.last_updated().is_none());
    assert!(bitfield.get(42));
    bitfield.set(42, false);
    while bitfield.last_updated().is_some() {}
    assert!(!bitfield.set(42, false));
    assert!(bitfield.last_updated().is_none());
}

#[test]
fn bitfield_total_counts_the_bits_of_a_range() {
    let mut bitfield = Bitfield::new();
    for b in [1u64, 2, 3, 9, 16, 17, 40] {
        bitfield.set(b, true);
    }
    assert_eq!(bitfield.total(0..0), 0);
    assert_eq!(bitfield.total(0..1), 0);
    assert_eq!(bitfield.total(0..2), 1);
    assert_eq!(bitfield.total(0..4), 3);
    assert_eq!(bitfield.total(1..4), 3);
    assert_eq!(bitfield.total(2..3), 1);
    assert_eq!(bitfield.total(0..8), 3);
    assert_eq!(bitfield.total(0..10), 4);
    assert_eq!(bitfield.total(3..17), 3);
    assert_eq!(bitfield.total(0..41), 7);
    assert_eq!(bitfield.total(0..40), 6);
    assert_eq!(bitfield.total(41..1000), 0);
    assert_eq!(bitfield.total(5..3), 0);
}

#[test]
fn bitfield_total_adds_up_over_adjacent_ranges() {
    let mut bitfield = Bitfield::new();
    for b in 0..200u64 {
        if b % 3 == 0 || b % 7 == 1 {
            bitfield.set(b, true);
        }
    }
    for s in [0u64, 1, 7, 8, 9, 63] {
        for e in [s, s + 1, s + 7, s + 8, s + 30] {
            for f in [e, e + 1, e + 9, e + 64] {
                assert_eq!(bitfield.total(s..e) + bitfield.total(e..f), bitfield.total(s..f));
            }
        }
    }
}

#[test]
fn bitfield_summary_follows_the_block_bytes() {
    let mut bitfield = Bitfield::new();
    bitfield.set(0, true);
    // One bit of byte 0: the first pair of the first summary byte reads 01.
    assert_eq!(bitfield.pager.get(0).unwrap()[3072], 0b0100_0000);
    for b in 1..8 {
        bitfield.set(b, true);
    }
    // A byte of ones: 11.
    assert_eq!(bitfield.pager.get(0).unwrap()[0], 0xFF);
    assert_eq!(bitfield.pager.get(0).unwrap()[3072], 0b1100_0000);
    bitfield.set(9, true);
    assert_eq!(bitfield.pager.get(0).unwrap()[3072], 0b1101_0000);
    // Byte 5 has its pair in the second summary byte, second slot.
    bitfield.set(40, true);
    assert_eq!(bitfield.pager.get(0).unwrap()[3073], 0b0001_0000);
    bitfield.set(9, false);
    assert_eq!(bitfield.pager.get(0).unwrap()[3072], 0b1100_0000);
    // The pair of the first byte of the second page lies in that page.
    bitfield.set(8192, true);
    assert_eq!(bitfield.pager.get(1).unwrap()[3072], 0b0100_0000);
}

#[test]
fn bitfield_round_trip_through_a_buffer() {
    let mut bitfield = Bitfield::new();
    for b in [0u64, 1, 5, 900, 8191, 8192, 10000] {
        bitfield.set(b, true);
    }
    let bytes = bitfield.to_vec();
    assert_eq!(bytes.len(), 2 * PAGE_SIZE);
    let copy = Bitfield::from_buffer(bytes.clone());
    for b in 0..(8 * 1024 * 2) as u64 {
        assert_eq!(copy.get(b), bitfield.get(b));
    }
    assert_eq!(copy.to_vec(), bytes);
    assert_eq!(copy.blocks(), bitfield.blocks());
    let same = Bitfield::from_vec(bytes.clone());
    assert_eq!(same.to_vec(), bytes);
}

#[test]
fn bitfield_from_a_buffer_that_ends_within_a_page() {
    let mut bytes = vec![0u8; PAGE_SIZE + 10];
    bytes[0] = 0b0000_0101;
    bytes[PAGE_SIZE] = 0b0000_0010;
    let bitfield = Bitfield::from_buffer(bytes);
    assert!(bitfield.get(0));
    assert!(!bitfield.get(1));
    assert!(bitfield.get(2));
    assert!(bitfield.get(8192 + 1));
    assert!(!bitfield.get(8192 + 100));
    assert_eq!(bitfield.to_vec().len(), 2 * PAGE_SIZE);
    assert_eq!(Bitfield::from_buffer(Vec::new()).to_vec().len(), 0);
}

#[test]
fn bitfield_last_updated_hands_out_the_changed_pages() {
    let mut bitfield = Bitfield::new();
    bitfield.set(3, true);
    let (offset, page) = bitfield.last_updated().unwrap();
    assert_eq!(offset, 0);
    assert_eq!(page.len(), PAGE_SIZE);
    assert_eq!(page[0], 0b0000_1000);
    assert!(bitfield.last_updated().is_none());
    bitfield.set(8192 * 2, true);
    let (offset, page) = bitfield.last_updated().unwrap();
    assert_eq!(offset, 2 * 3328);
    assert_eq!(page[0], 1);
}

#[test]
fn count_ones_and_summary_of_halves() {
    assert_eq!(count_ones(0), 0);
    assert_eq!(count_ones(0xFF), 8);
    assert_eq!(count_ones(0b1010_0001), 3);
    assert_eq!(convert_to_index(0x00), 0b0000);
    assert_eq!(convert_to_index(0xFF), 0b1111);
    assert_eq!(convert_to_index(0xF0), 0b1100);
    assert_eq!(convert_to_index(0x0F), 0b0011);
    assert_eq!(convert_to_index(0x10), 0b0100);
    assert_eq!(convert_to_index(0xF1), 0b1101);
    assert_eq!(convert_to_index(0x71), 0b0101);
}

#[test]
fn the_summary_follows_the_block_bit_whatever_the_tree_holds() {
    // A page in which the leaf of block 0 is marked, and the block is not.
    let mut page = vec![0u8; 3328];
    page[1024] = 1;
    let mut bitfield = Bitfield::from_buffer(page);
    assert!(!bitfield.get(0));
    // The block bit changes, the leaf does not: the summary is brought up to
    // date all the same, and the result says that not all three changed.
    assert!(!bitfield.set(0, true));
    assert!(bitfield.get(0));
    let bytes = bitfield.to_vec();
    assert_eq!(bytes[0], 1);
    assert_eq!(bytes[1024], 1);
    assert_eq!(bytes[3072], 0b0100_0000);
    assert_eq!(bitfield.last_updated().map(|(offset, _)| offset), Some(0));
}
