use linker_lang::{Object, Width};

#[test]
fn test_width_bytes_match_the_variant() {
    assert_eq!(Width::U32.bytes(), 4);
    assert_eq!(Width::U64.bytes(), 8);
}

#[test]
fn test_new_object_is_named_and_empty() {
    let obj = Object::new("unit");
    assert_eq!(obj.name(), "unit");
    assert_eq!(obj.section_count(), 0);
    assert_eq!(obj.symbol_count(), 0);
    assert_eq!(obj.relocation_count(), 0);
}

#[test]
fn test_section_returns_zero_for_a_fresh_section() {
    let mut obj = Object::new("o");
    assert_eq!(obj.section(".text", &[1, 2, 3]), 0);
}

#[test]
fn test_section_appends_to_an_existing_name_and_returns_the_join_offset() {
    let mut obj = Object::new("o");
    assert_eq!(obj.section(".data", &[0u8; 4]), 0);
    assert_eq!(obj.section(".data", &[9u8; 2]), 4);
    // The two appends became one six-byte section.
    assert_eq!(obj.section_data(".data").unwrap().len(), 6);
    assert_eq!(obj.section_count(), 1);
}

#[test]
fn test_distinct_names_make_distinct_sections() {
    let mut obj = Object::new("o");
    let _ = obj.section(".text", &[0u8; 3]);
    let _ = obj.section(".data", &[0u8; 5]);
    assert_eq!(obj.section_count(), 2);
    assert_eq!(obj.section_data(".text").unwrap().len(), 3);
    assert_eq!(obj.section_data(".data").unwrap().len(), 5);
}

#[test]
fn test_section_data_is_none_for_an_unknown_name() {
    let obj = Object::new("o");
    assert!(obj.section_data(".bss").is_none());
}

#[test]
fn test_appended_bytes_follow_the_earlier_ones() {
    let mut obj = Object::new("o");
    obj.section(".data", &[1, 2]);
    obj.section(".text", &[7]);
    assert_eq!(obj.section(".data", &[3, 4, 5]), 2);
    assert_eq!(obj.section_data(".data").unwrap(), &[1, 2, 3, 4, 5]);
    assert_eq!(obj.section_data(".text").unwrap(), &[7]);
}

#[test]
fn test_define_and_relocate_record_entries() {
    let mut obj = Object::new("vectors");
    obj.section(".data", &[0u8; 16]);
    obj.define("table", ".data", 0);
    obj.relocate(".data", 0, "entry", Width::U64, 0);
    obj.relocate(".data", 8, "entry", Width::U64, 8);
    assert_eq!(obj.symbol_count(), 1);
    assert_eq!(obj.relocation_count(), 2);
    assert_eq!(obj.name(), "vectors");
}
