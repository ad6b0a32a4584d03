use page_store::pagination::fill;
use page_store::pagination::mount_data;
use page_store::pagination::Page;
use page_store::pagination::Pages;
use page_store::serialization::to_option;
use page_store::serialization::Serializable;
use page_store::storage::MemStore;
use page_store::storage::Storable;
use page_store::storage::Store;

#[test]
fn test_u32_wire_format() {
    let value: u32 = 0x01020304;
    let serialized = value.serialize();
    assert_eq!(serialized, vec![1, 2, 3, 4]);
    assert_eq!(u32::deserialize(&serialized).unwrap(), value);
}

#[test]
fn test_u32_deserialize_truncated_input() {
    assert!(u32::deserialize(&[1, 2, 3]).is_err());
    assert!(u32::deserialize(&[]).is_err());
}

#[test]
fn test_u32_deserialize_ignores_extra_bytes() {
    assert_eq!(u32::deserialize(&[0, 0, 0, 7, 99, 99]).unwrap(), 7);
}

#[test]
fn test_usize_roundtrip() {
    let value: usize = 70000;
    let serialized = value.serialize();
    assert_eq!(serialized.len(), 4);
    assert_eq!(usize::deserialize(&serialized).unwrap(), value);
}

#[test]
fn test_page_wire_format() {
    let page = Page { id: 0, next: Some(7), size: 3, content: vec![1, 2, 3] };
    let serialized = page.serialize();
    assert_eq!(serialized, vec![0, 0, 0, 3, 0, 0, 0, 7, 1, 2, 3]);
}

#[test]
fn test_page_roundtrip_with_next() {
    let page = Page { id: 0, next: Some(7), size: 3, content: vec![1, 2, 3] };
    let back = Page::deserialize(&page.serialize()).unwrap();
    assert_eq!(back.size, 3);
    assert_eq!(back.next, Some(7));
    assert_eq!(back.content, vec![1, 2, 3]);
    assert_eq!(back.id, 0);
}

#[test]
fn test_page_deserialize_truncated_header() {
    assert!(Page::deserialize(&[0, 0, 0, 1, 0, 0, 0]).is_err());
    assert!(Page::deserialize(&[]).is_err());
}

#[test]
fn test_page_from_bytes() {
    let page = Page::from(&[10u8, 20u8][..]);
    assert_eq!(page.id, 0);
    assert_eq!(page.next, None);
    assert_eq!(page.size, 2);
    assert_eq!(page.content, vec![10, 20]);
}

#[test]
fn test_page_from_text() {
    let page = Page::from("abc");
    assert_eq!(page.size, 3);
    assert_eq!(page.content, "abc".as_bytes().to_vec());
    assert!(page.is_free());
}

#[test]
fn test_page_set_id() {
    let page = Page::from("abc").set_id(42);
    assert_eq!(page.id, 42);
    assert!(!page.is_free());
    assert_eq!(page.extract_content(), "abc".as_bytes().to_vec());
}

#[test]
fn test_to_option_zero_is_none() {
    assert_eq!(to_option(0), None);
    assert_eq!(to_option(5), Some(5));
}

#[test]
fn test_paginate_exact_division() {
    let data = "abcdefghij".to_string();
    let pages = Pages::from(&data, 5);
    assert_eq!(pages.len(), 2);
    assert_eq!(pages.capacity(), 5);
}

#[test]
fn test_paginate_pads_last_page() {
    let data = "abc".to_string();
    let pages = Pages::from(&data, 2);
    assert_eq!(pages.len(), 2);
    let last = pages.last().unwrap();
    assert_eq!(last.size, 1);
    assert_eq!(last.content, vec![b'c', 0]);
}

#[test]
fn test_mount_data_reconstructs_paginated_value() {
    let data = "hello paginated world".to_string();
    for capacity in 1..25usize {
        let pages = Pages::from(&data, capacity);
        let mounted = mount_data::<String>(pages.iter().as_slice()).unwrap();
        assert_eq!(mounted, data);
    }
}

#[test]
fn test_mount_data_partial_sizes() {
    // Only the first `size` bytes of each page count; the byte beyond the
    // first page's size is discarded.
    let pages = [
        Page { id: 0, next: Some(1), size: 2, content: "tes".as_bytes().to_vec() },
        Page { id: 1, next: None, size: 2, content: "te".as_bytes().to_vec() },
    ];
    let text = mount_data::<String>(&pages).unwrap();
    assert_eq!(text, "tete".to_string());
}

#[test]
fn test_mount_data_rejects_corrupt_content() {
    let pages = [Page { id: 0, next: None, size: 1, content: vec![132] }];
    assert!(mount_data::<String>(&pages).is_err());
}

#[test]
fn test_fill_keeps_source_prefix() {
    let value: Vec<u8> = vec![1, 2];
    let filled = fill(&value, 9, 5);
    assert_eq!(filled, vec![1, 2, 9, 9, 9]);
}

#[test]
fn test_pages_wire_format() {
    let pages = Pages::from(&"ab".to_string(), 1);
    let serialized = pages.serialize();
    let expected = vec![
        0, 0, 0, 1, // page capacity prefix
        0, 0, 0, 1, 0, 0, 0, 0, b'a', // first page
        0, 0, 0, 1, 0, 0, 0, 0, b'b', // second page
    ];
    assert_eq!(serialized, expected);
}

#[test]
fn test_pages_roundtrip() {
    let pages = Pages::from(&"roundtrip".to_string(), 4);
    let serialized = pages.serialize();
    let back = Pages::deserialize(&serialized).unwrap();
    assert_eq!(back.capacity(), pages.capacity());
    assert_eq!(back.len(), pages.len());
    for (restored, original) in back.iter().iter().zip(pages.iter().iter()) {
        assert_eq!(restored.size, original.size);
        assert_eq!(restored.next, original.next);
        assert_eq!(restored.content, original.content);
    }
}

#[test]
fn test_pages_deserialize_rejects_ragged_payload() {
    let pages = Pages::from(&"roundtrip".to_string(), 4);
    let mut serialized = pages.serialize();
    serialized.pop();
    assert!(Pages::deserialize(&serialized).is_err());
    assert!(Pages::deserialize(&[0, 0]).is_err());
}

#[test]
fn test_store_assigns_sequential_offsets() {
    let data = "abcdefgh".to_string();
    let mut store = MemStore::new();
    let pages = Pages::from(&data, 3).store(&mut store).unwrap();
    let footprint = Page::get_bytes_size(3);
    for (k, page) in pages.iter().iter().enumerate() {
        assert_eq!(page.id, k * footprint);
    }
    assert_eq!(store.position().unwrap(), pages.len() * footprint);
    assert_eq!(store.position().unwrap(), pages.get_byte_size());
}

#[test]
fn test_store_links_chain() {
    let string = "this is a test".to_string();
    let mut store = MemStore::new();
    let pages = Pages::from(&string, 2).store(&mut store).unwrap();
    let members = pages.iter();
    let footprint = Page::get_bytes_size(2);
    assert_eq!(members.len(), 7);
    for (k, page) in members.iter().enumerate() {
        if k + 1 < members.len() {
            assert_eq!(page.next, Some(((k + 1) * footprint) as u32));
        } else {
            assert_eq!(page.next, None);
        }
    }
}

#[test]
fn test_store_single_page() {
    let mut store = MemStore::new();
    let page = Page::from("abc").store(&mut store).unwrap();
    assert_eq!(page.id, 0);
    assert_eq!(store.position().unwrap(), 11);
    let second = Page::from("de").store(&mut store).unwrap();
    assert_eq!(second.id, 11);
}

#[test]
fn test_stored_bytes_decode_back_to_pages() {
    let data = "stored bytes".to_string();
    let mut store = MemStore::new();
    let pages = Pages::from(&data, 5).store(&mut store).unwrap();
    // The store holds the raw page payload; give it the capacity prefix and
    // the collection's codec reads the pages back.
    let mut wire = (5usize).serialize();
    let mut payload = Vec::new();
    for page in pages.iter() {
        payload.extend_from_slice(&page.serialize());
    }
    wire.append(&mut payload);
    let back = Pages::deserialize(&wire).unwrap();
    let mounted = mount_data::<String>(back.iter().as_slice()).unwrap();
    assert_eq!(mounted, data);
}
