//! Generated links checked against an independent computation of where everything lands.

use linker_lang::{link, Object, Width};

/// A small deterministic generator, so every run checks the same cases.
struct Rng(u64);

impl Rng {
    fn next(&mut self) -> u64 {
        self.0 = self.0.wrapping_mul(6364136223846793005).wrapping_add(1442695040888963407);
        self.0 >> 33
    }

    fn below(&mut self, n: u64) -> u64 {
        self.next() % n
    }
}

/// One code object per size, each a `.text` section with a symbol at its start, then a
/// loader whose `.data` holds one 8-byte slot per table entry.
fn build(text_sizes: &[usize], table: &[(usize, u8)]) -> Vec<Object> {
    let n = text_sizes.len();
    let mut objects = Vec::with_capacity(n + 1);
    for (i, &size) in text_sizes.iter().enumerate() {
        let name = format!("f{i}");
        let mut object = Object::new(&name);
        object.section(".text", &vec![0u8; size]);
        object.define(&name, ".text", 0);
        objects.push(object);
    }
    let mut loader = Object::new("loader");
    loader.section(".data", &vec![0u8; table.len() * 8]);
    for (slot, &(raw, addend)) in table.iter().enumerate() {
        let target = raw % n;
        loader.relocate(".data", (slot * 8) as u64, &format!("f{target}"), Width::U64, i64::from(addend));
    }
    objects.push(loader);
    objects
}

fn cases() -> Vec<(Vec<usize>, Vec<(usize, u8)>)> {
    let mut rng = Rng(7);
    (0..200)
        .map(|_| {
            let sizes = (0..1 + rng.below(5)).map(|_| 1 + rng.below(64) as usize).collect();
            let table = (0..rng.below(6)).map(|_| (rng.next() as usize, rng.below(17) as u8)).collect();
            (sizes, table)
        })
        .collect()
}

#[test]
fn test_symbols_resolve_to_the_running_section_offset() {
    for (sizes, table) in cases() {
        let image = link(&build(&sizes, &table)).unwrap();
        let total: usize = sizes.iter().sum();
        assert_eq!(image.section(".text").unwrap().len(), total);
        let mut offset = 0u64;
        for (i, &size) in sizes.iter().enumerate() {
            assert_eq!(image.symbol(&format!("f{i}")), Some(offset));
            offset += size as u64;
        }
        // `.data` follows `.text`.
        assert_eq!(image.section(".data").unwrap().address(), total as u64);
    }
}

#[test]
fn test_every_slot_is_patched_with_its_resolved_target() {
    for (sizes, table) in cases() {
        let image = link(&build(&sizes, &table)).unwrap();
        let data = image.section(".data").unwrap().data();
        let n = sizes.len();
        for (slot, &(raw, addend)) in table.iter().enumerate() {
            let expected = image.symbol(&format!("f{}", raw % n)).unwrap() + u64::from(addend);
            assert_eq!(u64::from_le_bytes(data[slot * 8..slot * 8 + 8].try_into().unwrap()), expected);
        }
    }
}

#[test]
fn test_linking_is_deterministic() {
    for (sizes, table) in cases() {
        assert_eq!(link(&build(&sizes, &table)).unwrap(), link(&build(&sizes, &table)).unwrap());
    }
}

#[test]
fn test_contributions_land_at_their_offsets_in_merged_sections() {
    let mut a = Object::new("a");
    a.section(".data", &[1, 2, 3]);
    a.section(".text", &[10]);
    let mut b = Object::new("b");
    b.section(".text", &[20, 21]);
    b.section(".data", &[4]);
    b.define("b_data", ".data", 0);
    b.define("b_text", ".text", 1);
    let image = link(&[a, b]).unwrap();
    // Output sections come in the order names first appear: `.data`, then `.text`.
    let names: Vec<&str> = image.sections().iter().map(|s| s.name()).collect();
    assert_eq!(names, [".data", ".text"]);
    assert_eq!(image.section(".data").unwrap().data(), &[1, 2, 3, 4]);
    assert_eq!(image.section(".text").unwrap().data(), &[10, 20, 21]);
    assert_eq!(image.section(".text").unwrap().address(), 4);
    assert_eq!(image.symbol("b_data"), Some(3));
    assert_eq!(image.symbol("b_text"), Some(4 + 1 + 1));
}
