use keyboard_drums::bank::BankCell;
use keyboard_drums::samples::{SampleBank, SampleData};
use std::sync::Arc;

fn bank_named(kit: &str) -> SampleBank {
    SampleBank {
        samples: vec![Arc::new(SampleData::silent())],
        sample_gains: vec![1.0f32.to_bits()],
        kit_name: kit.to_string(),
        variant_name: "v1".to_string(),
    }
}

#[test]
fn a_load_returns_the_bank_that_was_stored() {
    let mut cell = BankCell::new(bank_named("first"));
    assert_eq!(cell.load().kit_name, "first");
    for name in ["second", "third", "fourth"] {
        let bank = Arc::new(bank_named(name));
        cell.store(Arc::clone(&bank));
        assert!(Arc::ptr_eq(&cell.load(), &bank));
        assert!(Arc::ptr_eq(&cell.load(), &bank));
    }
}

#[test]
fn a_reader_sees_what_the_cell_holds_and_keeps_what_it_loaded() {
    let mut cell = BankCell::new(bank_named("first"));
    let reader = cell.reader();
    let held = reader.load();
    assert_eq!(held.kit_name, "first");

    let second = Arc::new(bank_named("second"));
    cell.store(Arc::clone(&second));

    assert_eq!(held.kit_name, "first");
    assert!(Arc::ptr_eq(&reader.load(), &second));
}
