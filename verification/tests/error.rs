use linker_lang::{LinkError, Width};

#[test]
fn test_each_variant_renders_a_distinct_message() {
    let messages = [
        LinkError::DuplicateSymbol {
            name: "main".into(),
        }
        .to_string(),
        LinkError::UndefinedSymbol {
            name: "puts".into(),
            object: "a".into(),
        }
        .to_string(),
        LinkError::UndefinedEntry {
            name: "_start".into(),
        }
        .to_string(),
        LinkError::InvalidSection {
            object: "a".into(),
            section: ".txet".into(),
        }
        .to_string(),
        LinkError::RelocationOutOfRange {
            object: "a".into(),
            section: ".data".into(),
            offset: 12,
        }
        .to_string(),
        LinkError::RelocationOverflow {
            target: "big".into(),
            width: Width::U32,
        }
        .to_string(),
        LinkError::LayoutOverflow.to_string(),
    ];
    // No two variants share a message, and each names its subject.
    for (i, a) in messages.iter().enumerate() {
        for b in &messages[i + 1..] {
            assert_ne!(a, b);
        }
    }
    assert!(messages[0].contains("main"));
    assert!(messages[5].contains("4 bytes"));
}

#[test]
fn test_error_is_a_std_error() {
    // What `std::error::Error` asks beyond a message: `Debug`, and a message to show.
    fn assert_debug<E: std::fmt::Debug>(_: &E) {}
    let err = LinkError::LayoutOverflow;
    assert_debug(&err);
    assert!(!err.to_string().is_empty());
}

#[test]
fn test_messages_read_exactly() {
    assert_eq!(
        LinkError::DuplicateSymbol { name: "main".into() }.to_string(),
        "symbol `main` is defined by more than one object"
    );
    assert_eq!(
        LinkError::UndefinedSymbol { name: "puts".into(), object: "a".into() }.to_string(),
        "object `a` references symbol `puts`, which no object defines"
    );
    assert_eq!(
        LinkError::UndefinedEntry { name: "_start".into() }.to_string(),
        "entry point `_start` is not defined by any object"
    );
    assert_eq!(
        LinkError::InvalidSection { object: "a".into(), section: ".txet".into() }.to_string(),
        "object `a` names section `.txet`, which it never created"
    );
    assert_eq!(
        LinkError::RelocationOutOfRange { object: "a".into(), section: ".data".into(), offset: 1203 }
            .to_string(),
        "relocation at offset 1203 in section `.data` of object `a` runs past the end of the section"
    );
    assert_eq!(
        LinkError::RelocationOverflow { target: "big".into(), width: Width::U64 }.to_string(),
        "the resolved address of `big` does not fit in 8 bytes"
    );
    assert_eq!(
        LinkError::LayoutOverflow.to_string(),
        "the laid-out image would exceed the 64-bit address space"
    );
}

#[test]
fn test_offset_zero_and_large_offsets_render_in_decimal() {
    let zero = LinkError::RelocationOutOfRange { object: "o".into(), section: ".s".into(), offset: 0 };
    assert!(zero.to_string().contains("offset 0 in"));
    let max = LinkError::RelocationOutOfRange { object: "o".into(), section: ".s".into(), offset: u64::MAX };
    assert!(max.to_string().contains("offset 18446744073709551615 in"));
}
