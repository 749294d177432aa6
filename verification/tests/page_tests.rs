use crumble::page::{Page, PAGE_SIZE};

#[test]
fn round_trips_a_row() {
    let mut page = Page::new();
    let data = b"hello";

    let slot = page.insert_row(data).expect("page has room");

    assert_eq!(page.get_row(slot), Some(data.as_slice()));
}

#[test]
fn round_trips_multiple_rows() {
    let mut page = Page::new();

    let slot_a = page.insert_row(b"alice").unwrap();
    let slot_b = page.insert_row(b"bob").unwrap();

    assert_eq!(page.get_row(slot_a), Some(b"alice".as_slice()));
    assert_eq!(page.get_row(slot_b), Some(b"bob".as_slice()));
}

#[test]
fn get_row_out_of_range_is_none() {
    let page = Page::new();
    assert_eq!(page.get_row(0), None);
}

#[test]
fn insert_fails_when_page_is_full() {
    let mut page = Page::new();
    let big_row = vec![0u8; PAGE_SIZE];

    assert_eq!(page.insert_row(&big_row), None);
}

#[test]
fn new_page_header_bytes() {
    let page = Page::new();
    let bytes = page.as_bytes();
    assert_eq!(bytes[0], 0);
    assert_eq!(bytes[1], 0);
    assert_eq!(bytes[2], 0x00);
    assert_eq!(bytes[3], 0x10);
    assert_eq!(page.slot_count(), 0);
}

#[test]
fn insert_lays_out_row_at_end_and_slot_after_header() {
    let mut page = Page::new();
    let slot = page.insert_row(b"abc").unwrap();
    assert_eq!(slot, 0);
    assert_eq!(page.slot_count(), 1);
    let bytes = page.as_bytes();
    // free-space offset moved to 4093 = 0x0FFD
    assert_eq!(bytes[2], 0xFD);
    assert_eq!(bytes[3], 0x0F);
    // slot 0: offset 4093, length 3
    assert_eq!(&bytes[4..8], &[0xFD, 0x0F, 3, 0]);
    assert_eq!(&bytes[4093..4096], b"abc");
}

#[test]
fn exact_fit_succeeds_and_one_more_byte_fails() {
    // header (4) + one slot (4) leaves 4088 bytes for the row
    let mut page = Page::new();
    assert_eq!(page.insert_row(&vec![7u8; 4089]), None);
    assert_eq!(page.slot_count(), 0);
    assert_eq!(page.insert_row(&vec![7u8; 4088]), Some(0));
    assert_eq!(page.get_row(0).unwrap().len(), 4088);
    assert_eq!(page.insert_row(b""), None);
}

#[test]
fn empty_row_round_trips() {
    let mut page = Page::new();
    let slot = page.insert_row(b"").unwrap();
    assert_eq!(page.get_row(slot), Some(b"".as_slice()));
}

#[test]
fn bytes_round_trip_through_from_bytes() {
    let mut page = Page::new();
    page.insert_row(b"persist me").unwrap();
    let copy = Page::from_bytes(*page.as_bytes());
    assert_eq!(copy.as_bytes(), page.as_bytes());
    assert_eq!(copy.get_row(0), Some(b"persist me".as_slice()));
}

#[test]
fn earlier_rows_survive_later_inserts() {
    let mut page = Page::new();
    let mut slots = Vec::new();
    for i in 0..50u8 {
        slots.push(page.insert_row(&[i; 10]).unwrap());
    }
    for (i, slot) in slots.iter().enumerate() {
        assert_eq!(page.get_row(*slot), Some([i as u8; 10].as_slice()));
    }
    assert_eq!(page.get_row(50), None);
}

#[test]
fn slot_count_counts_only_accepted_inserts() {
    let mut page = Page::new();
    assert_eq!(page.slot_count(), 0);
    assert!(page.insert_row(b"a").is_some());
    assert!(page.insert_row(b"bb").is_some());
    assert!(page.insert_row(&[0u8; 5000]).is_none());
    assert!(page.insert_row(b"ccc").is_some());
    assert_eq!(page.slot_count(), 3);
}
