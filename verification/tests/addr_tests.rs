use memcore::addr::extract_page_base;
use memcore::addr::extract_page_offset;
use memcore::addr::extract_table_index;

#[test]
fn decomposition_exact_fields() {
    // va = idx4:3 | idx3:5 | idx2:7 | idx1:9 | offset 0x123
    let va: u64 = (3u64 << 39) | (5u64 << 30) | (7u64 << 21) | (9u64 << 12) | 0x123;
    assert_eq!(extract_table_index(va, 4), 3);
    assert_eq!(extract_table_index(va, 3), 5);
    assert_eq!(extract_table_index(va, 2), 7);
    assert_eq!(extract_table_index(va, 1), 9);
    assert_eq!(extract_page_offset(va), 0x123);
    assert_eq!(extract_page_base(va), va - 0x123);
}

#[test]
fn aligned_address_is_its_own_page() {
    assert_eq!(extract_page_base(0xb8000), 0xb8000);
    assert_eq!(extract_page_offset(0xb8000), 0);
}

#[test]
fn low_addresses_index_the_bottom_field_only() {
    let va: u64 = 0x201008;
    assert_eq!(extract_table_index(va, 4), 0);
    assert_eq!(extract_table_index(va, 3), 0);
    assert_eq!(extract_table_index(va, 2), 1);
    assert_eq!(extract_table_index(va, 1), 1);
    assert_eq!(extract_page_offset(va), 8);
}
