use linker_lang::{link, LinkError, Linker, Object, Width};

#[test]
fn test_same_named_sections_merge_in_object_order() {
    let mut a = Object::new("a");
    a.section(".text", &[1, 2]);
    let mut b = Object::new("b");
    b.section(".text", &[3, 4, 5]);

    let image = link(&[a, b]).unwrap();
    assert_eq!(image.section(".text").unwrap().data(), &[1, 2, 3, 4, 5]);
}

#[test]
fn test_sections_are_placed_end_to_end_from_the_base() {
    let mut obj = Object::new("o");
    obj.section(".text", &[0u8; 4]);
    obj.section(".data", &[0u8; 8]);

    let image = Linker::new().base_address(0x1000).link(&[obj]).unwrap();
    assert_eq!(image.section(".text").unwrap().address(), 0x1000);
    assert_eq!(image.section(".data").unwrap().address(), 0x1004);
}

#[test]
fn test_symbol_resolves_to_section_plus_contribution_plus_offset() {
    let mut a = Object::new("a");
    a.section(".text", &[0u8; 4]);
    a.define("a_fn", ".text", 2);
    let mut b = Object::new("b");
    b.section(".text", &[0u8; 4]);
    b.define("b_fn", ".text", 1);

    let image = Linker::new().base_address(0x10).link(&[a, b]).unwrap();
    assert_eq!(image.symbol("a_fn"), Some(0x12));
    assert_eq!(image.symbol("b_fn"), Some(0x10 + 4 + 1));
}

#[test]
fn test_relocation_is_patched_with_the_target_address() {
    let mut code = Object::new("code");
    code.section(".text", &[0u8; 8]);
    code.define("target", ".text", 4);

    let mut data = Object::new("data");
    data.section(".data", &[0u8; 4]);
    data.relocate(".data", 0, "target", Width::U32, 0);

    let image = Linker::new()
        .base_address(0x100)
        .link(&[code, data])
        .unwrap();
    let slot = image.section(".data").unwrap().data();
    assert_eq!(u32::from_le_bytes(slot.try_into().unwrap()), 0x104);
}

#[test]
fn test_relocation_addend_is_added_to_the_address() {
    let mut obj = Object::new("o");
    obj.section(".text", &[0u8; 8]);
    obj.define("base", ".text", 0);
    obj.section(".data", &[0u8; 8]);
    obj.relocate(".data", 0, "base", Width::U64, 16);

    let image = Linker::new().base_address(0x1000).link(&[obj]).unwrap();
    let slot = image.section(".data").unwrap().data();
    // `.text` is at 0x1000, so base = 0x1000; plus addend 16 = 0x1010.
    assert_eq!(u64::from_le_bytes(slot.try_into().unwrap()), 0x1010);
}

#[test]
fn test_duplicate_symbol_is_rejected() {
    let mut a = Object::new("a");
    a.section(".text", &[0u8; 1]);
    a.define("dup", ".text", 0);
    let mut b = Object::new("b");
    b.section(".text", &[0u8; 1]);
    b.define("dup", ".text", 0);

    assert_eq!(
        link(&[a, b]),
        Err(LinkError::DuplicateSymbol { name: "dup".into() })
    );
}

#[test]
fn test_undefined_relocation_target_is_rejected() {
    let mut obj = Object::new("o");
    obj.section(".data", &[0u8; 8]);
    obj.relocate(".data", 0, "nowhere", Width::U64, 0);

    assert_eq!(
        link(&[obj]),
        Err(LinkError::UndefinedSymbol {
            name: "nowhere".into(),
            object: "o".into(),
        })
    );
}

#[test]
fn test_undefined_entry_is_rejected() {
    let mut obj = Object::new("o");
    obj.section(".text", &[0u8; 1]);

    assert_eq!(
        Linker::new().entry("_start").link(&[obj]),
        Err(LinkError::UndefinedEntry {
            name: "_start".into()
        })
    );
}

#[test]
fn test_symbol_in_a_missing_section_is_rejected() {
    let mut obj = Object::new("o");
    obj.section(".text", &[0u8; 4]);
    obj.define("ghost", ".rodata", 0); // never created `.rodata`

    assert_eq!(
        link(&[obj]),
        Err(LinkError::InvalidSection {
            object: "o".into(),
            section: ".rodata".into(),
        })
    );
}

#[test]
fn test_relocation_past_the_section_end_is_rejected() {
    let mut obj = Object::new("o");
    obj.section(".text", &[0u8; 4]);
    obj.define("t", ".text", 0);
    obj.section(".data", &[0u8; 4]);
    obj.relocate(".data", 1, "t", Width::U64, 0); // 1 + 8 > 4

    assert_eq!(
        link(&[obj]),
        Err(LinkError::RelocationOutOfRange {
            object: "o".into(),
            section: ".data".into(),
            offset: 1,
        })
    );
}

#[test]
fn test_address_too_large_for_width_is_rejected() {
    let mut obj = Object::new("o");
    obj.section(".text", &[0u8; 4]);
    obj.define("t", ".text", 0);
    obj.section(".data", &[0u8; 4]);
    obj.relocate(".data", 0, "t", Width::U32, 0);

    // Base above u32::MAX makes the resolved address overflow a 32-bit slot.
    assert_eq!(
        Linker::new().base_address(0x1_0000_0000).link(&[obj]),
        Err(LinkError::RelocationOverflow {
            target: "t".into(),
            width: Width::U32,
        })
    );
}

#[test]
fn test_negative_addend_below_zero_is_rejected() {
    let mut obj = Object::new("o");
    obj.section(".text", &[0u8; 4]);
    obj.define("t", ".text", 0); // address 0
    obj.section(".data", &[0u8; 8]);
    obj.relocate(".data", 0, "t", Width::U64, -1); // 0 + (-1) < 0

    assert_eq!(
        link(&[obj]),
        Err(LinkError::RelocationOverflow {
            target: "t".into(),
            width: Width::U64,
        })
    );
}

#[test]
fn test_negative_addend_within_range_resolves() {
    let mut obj = Object::new("o");
    obj.section(".text", &[0u8; 8]);
    obj.define("t", ".text", 4); // address 0x104 with base 0x100
    obj.section(".data", &[0u8; 8]);
    obj.relocate(".data", 0, "t", Width::U64, -4);

    let image = Linker::new().base_address(0x100).link(&[obj]).unwrap();
    let slot = image.section(".data").unwrap().data();
    assert_eq!(u64::from_le_bytes(slot.try_into().unwrap()), 0x100);
}

#[test]
fn test_link_is_deterministic() {
    let build = || {
        let mut a = Object::new("a");
        a.section(".text", &[1, 2, 3]);
        a.define("a", ".text", 0);
        let mut b = Object::new("b");
        b.section(".data", &[4, 5]);
        b.define("b", ".data", 1);
        [a, b]
    };
    assert_eq!(link(&build()).unwrap(), link(&build()).unwrap());
}

#[test]
fn test_layout_past_the_address_space_is_rejected() {
    let mut obj = Object::new("o");
    obj.section(".text", &[0u8; 4]);
    assert_eq!(
        Linker::new().base_address(u64::MAX - 3).link(&[obj]),
        Err(LinkError::LayoutOverflow)
    );
}

#[test]
fn test_layout_that_ends_exactly_at_the_top_fits() {
    let mut obj = Object::new("o");
    obj.section(".text", &[0u8; 4]);
    obj.define("top", ".text", 3);
    let image = Linker::new().base_address(u64::MAX - 4).link(&[obj]).unwrap();
    assert_eq!(image.symbol("top"), Some(u64::MAX - 1));
}

#[test]
fn test_symbol_past_the_address_space_is_a_layout_overflow() {
    let mut obj = Object::new("o");
    obj.section(".text", &[0u8; 4]);
    obj.define("far", ".text", 10);
    assert_eq!(
        Linker::new().base_address(u64::MAX - 4).link(&[obj]),
        Err(LinkError::LayoutOverflow)
    );
}

#[test]
fn test_relocation_in_a_missing_section_is_rejected() {
    let mut obj = Object::new("o");
    obj.section(".text", &[0u8; 4]);
    obj.define("t", ".text", 0);
    obj.relocate(".data", 0, "t", Width::U32, 0);
    assert_eq!(
        link(&[obj]),
        Err(LinkError::InvalidSection { object: "o".into(), section: ".data".into() })
    );
}

#[test]
fn test_relocation_slot_is_checked_against_its_own_objects_bytes() {
    // `.data` is 8 bytes once merged, but the second object's own part is only 4.
    let mut a = Object::new("a");
    a.section(".data", &[0u8; 4]);
    a.define("t", ".data", 0);
    let mut b = Object::new("b");
    b.section(".data", &[0u8; 4]);
    b.relocate(".data", 0, "t", Width::U64, 0);
    assert_eq!(
        link(&[a, b]),
        Err(LinkError::RelocationOutOfRange { object: "b".into(), section: ".data".into(), offset: 0 })
    );
}

#[test]
fn test_the_first_failure_in_link_order_is_reported() {
    // A duplicate symbol comes before a relocation error, which comes before the entry.
    let mut a = Object::new("a");
    a.section(".text", &[0u8; 4]);
    a.define("x", ".text", 0);
    a.relocate(".text", 0, "missing", Width::U32, 0);
    let mut b = Object::new("b");
    b.section(".text", &[0u8; 4]);
    b.define("x", ".text", 0);
    assert_eq!(
        Linker::new().entry("nowhere").link(&[a, b]),
        Err(LinkError::DuplicateSymbol { name: "x".into() })
    );
}

#[test]
fn test_u32_slot_takes_the_largest_32_bit_address() {
    let mut obj = Object::new("o");
    obj.section(".text", &[0u8; 4]);
    obj.define("t", ".text", 0);
    obj.section(".data", &[0xaa; 6]);
    obj.relocate(".data", 1, "t", Width::U32, 0xffff_ffff - 0x10);
    let image = Linker::new().base_address(0x10).link(&[obj]).unwrap();
    assert_eq!(image.section(".data").unwrap().data(), &[0xaa, 0xff, 0xff, 0xff, 0xff, 0xaa]);
}

#[test]
fn test_a_later_relocation_overwrites_an_earlier_overlapping_one() {
    let mut obj = Object::new("o");
    obj.section(".text", &[0u8; 4]);
    obj.define("t", ".text", 0);
    obj.section(".data", &[0u8; 8]);
    obj.relocate(".data", 0, "t", Width::U64, 0x0102_0304_0506_0708);
    obj.relocate(".data", 2, "t", Width::U32, 0x1122_3344);
    let image = link(&[obj]).unwrap();
    assert_eq!(
        image.section(".data").unwrap().data(),
        &[0x08, 0x07, 0x44, 0x33, 0x22, 0x11, 0x02, 0x01]
    );
}

#[test]
fn test_one_linker_links_several_sets_of_objects() {
    let linker = Linker::new().base_address(0x1000);
    for name in ["x", "y"] {
        let mut obj = Object::new(name);
        obj.section(".text", &[0u8; 4]);
        obj.define(name, ".text", 0);
        assert_eq!(linker.link(&[obj]).unwrap().symbol(name), Some(0x1000));
    }
}

#[test]
fn test_link_is_the_default_linker() {
    let build = || {
        let mut a = Object::new("a");
        a.section(".text", &[9, 9]);
        a.define("a", ".text", 1);
        a.relocate(".text", 0, "a", Width::U32, 0);
        a.section(".text", &[0, 0, 0, 0]);
        vec![a]
    };
    assert_eq!(link(&build()), Linker::new().link(&build()));
    assert_eq!(link(&build()), Linker::default().link(&build()));
}
