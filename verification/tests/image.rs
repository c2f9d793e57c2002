use linker_lang::{link, Image, Linker, Object, OutputSection};

#[test]
fn test_output_section_accessors_report_layout() {
    let mut obj = Object::new("o");
    obj.section(".text", &[1, 2, 3, 4]);
    let image = link(&[obj]).unwrap();

    let text = image.section(".text").unwrap();
    assert_eq!(text.name(), ".text");
    assert_eq!(text.address(), 0);
    assert_eq!(text.data(), &[1, 2, 3, 4]);
    assert_eq!(text.len(), 4);
    assert!(!text.is_empty());
}

#[test]
fn test_symbols_iterate_in_name_order() {
    let mut obj = Object::new("o");
    obj.section(".text", &[0u8; 8]);
    obj.define("zebra", ".text", 0);
    obj.define("alpha", ".text", 4);
    let image = link(&[obj]).unwrap();

    let names: Vec<&str> = image.symbols().iter().map(|(n, _)| n.as_str()).collect();
    assert_eq!(names, ["alpha", "zebra"]);
}

#[test]
fn test_display_renders_a_link_map() {
    let mut obj = Object::new("o");
    obj.section(".text", &[0u8; 4]);
    obj.define("main", ".text", 0);
    let image = Linker::new().entry("main").link(&[obj]).unwrap();

    let map = image.to_string();
    assert!(map.contains("entry = 0x0000000000000000"));
    assert!(map.contains(".text @ 0x0000000000000000 (4 bytes)"));
    assert!(map.contains("0x0000000000000000 main"));
}

#[test]
fn test_display_without_entry_says_none() {
    let mut obj = Object::new("o");
    obj.section(".text", &[0u8; 1]);
    let image = link(&[obj]).unwrap();
    assert!(image.to_string().contains("entry = none"));
}

#[test]
fn test_empty_link_is_an_empty_image() {
    let image = link(&[]).unwrap();
    assert!(image.is_empty());
    assert_eq!(image.len(), 0);
    assert_eq!(image.entry(), None);
    assert_eq!(image.symbols().len(), 0);
}

#[test]
fn test_link_map_is_rendered_line_by_line() {
    let mut code = Object::new("code");
    code.section(".text", &[0u8; 16]);
    code.define("start", ".text", 0);
    code.define("helper", ".text", 10);
    let mut data = Object::new("data");
    data.section(".data", &[0u8; 8]);
    let image = Linker::new()
        .base_address(0x40_00ab)
        .entry("start")
        .link(&[code, data])
        .unwrap();
    assert_eq!(
        image.to_string(),
        "entry = 0x00000000004000ab\n\
         .text @ 0x00000000004000ab (16 bytes)\n\
         .data @ 0x00000000004000bb (8 bytes)\n\
         symbols:\n\
         \x20   0x00000000004000b5 helper\n\
         \x20   0x00000000004000ab start\n"
    );
}

#[test]
fn test_link_map_without_symbols_has_no_symbol_heading() {
    let mut obj = Object::new("o");
    obj.section(".bss", &[]);
    let image = link(&[obj]).unwrap();
    assert_eq!(image.to_string(), "entry = none\n.bss @ 0x0000000000000000 (0 bytes)\n");
}

#[test]
fn test_section_and_symbol_lookups_miss_unknown_names() {
    let mut obj = Object::new("o");
    obj.section(".data", &[7, 7]);
    obj.define("f", ".data", 1);
    let image = link(&[obj]).unwrap();
    assert!(image.section(".data").is_some());
    assert!(image.section(".bss").is_none());
    assert_eq!(image.symbol("f"), Some(1));
    assert_eq!(image.symbol("missing"), None);
    assert_eq!(image.sections().len(), 1);
}

#[test]
fn test_symbols_sort_by_bytes_not_by_insertion() {
    let mut obj = Object::new("o");
    obj.section(".text", &[0u8; 8]);
    for (i, name) in ["b", "a", "ab", "B", "é", "_"].iter().enumerate() {
        obj.define(name, ".text", i as u64);
    }
    let image = link(&[obj]).unwrap();
    let names: Vec<&str> = image.symbols().iter().map(|(n, _)| n.as_str()).collect();
    assert_eq!(names, ["B", "_", "a", "ab", "b", "é"]);
    assert_eq!(image.symbol("é"), Some(4));
    assert_eq!(image.symbol("ab"), Some(2));
}

#[test]
fn test_an_image_from_parts_keeps_the_first_address_of_a_name() {
    let sections = vec![OutputSection::new(".text".to_string(), 0x40, vec![1, 2, 3])];
    let symbols = vec![
        ("zeta".to_string(), 0x41),
        ("alpha".to_string(), 0x40),
        ("zeta".to_string(), 0x99),
    ];
    let image = Image::from_parts(sections, symbols, Some(0x40));
    assert_eq!(image.symbol("zeta"), Some(0x41));
    assert_eq!(image.symbol("alpha"), Some(0x40));
    let names: Vec<&str> = image.symbols().iter().map(|(n, _)| n.as_str()).collect();
    assert_eq!(names, ["alpha", "zeta"]);
    assert_eq!(image.section(".text").unwrap().address(), 0x40);
    assert_eq!(image.entry(), Some(0x40));
    assert_eq!(image.len(), 1);
}
