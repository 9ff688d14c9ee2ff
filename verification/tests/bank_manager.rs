use openhome_core::bank::Bank;
use openhome_core::bank_manager::BankManager;
use openhome_core::digest::Reference;
use openhome_core::error::{Damaged, Error, Missing};

#[test]
fn load_of_a_bank_that_does_not_exist_is_not_found() {
    let manager = BankManager::new();
    assert_eq!(
        manager.load("BANK1"),
        Err(Error::NotFound(Missing::Bank("BANK1".to_string())))
    );
    assert!(!manager.has_bank("BANK1"));
    assert_eq!(manager.manifest("BANK1"), None);
}

#[test]
fn empty_bank_exists_and_loads() {
    let mut manager = BankManager::new();
    let bank = Bank::new(2, 3).unwrap();
    manager.save("BANK1", &bank);
    assert!(manager.has_bank("BANK1"));
    assert_eq!(manager.load("BANK1"), Ok(bank));
    assert_eq!(
        manager.load("BANK2"),
        Err(Error::NotFound(Missing::Bank("BANK2".to_string())))
    );
}

#[test]
fn manifest_that_does_not_parse_is_corrupt() {
    let mut manager = BankManager::new();
    manager.install("BANK1", b"not a manifest");
    assert!(manager.has_bank("BANK1"));
    assert_eq!(
        manager.load("BANK1"),
        Err(Error::Corrupt(Damaged::Manifest("BANK1".to_string())))
    );
}

#[test]
fn save_of_what_was_loaded_changes_nothing() {
    let mut manager = BankManager::new();
    let mut bank = Bank::new(2, 2).unwrap();
    bank.set_slot(1, 0, Some(Reference { digest: 77 })).unwrap();
    manager.save("BANK1", &bank);
    let original = manager.manifest("BANK1").unwrap().clone();
    let loaded = manager.load("BANK1").unwrap();
    manager.save("BANK1", &loaded);
    assert_eq!(manager.manifest("BANK1").unwrap(), &original);
    assert_eq!(manager.load("BANK1"), Ok(bank));
    assert_eq!(manager.bank_names(), vec!["BANK1".to_string()]);
}

#[test]
fn save_replaces_one_bank_and_leaves_the_others() {
    let mut manager = BankManager::new();
    let empty = Bank::new(1, 1).unwrap();
    let mut full = Bank::new(1, 1).unwrap();
    full.set_slot(0, 0, Some(Reference { digest: 5 })).unwrap();
    manager.save("A", &empty);
    manager.save("B", &empty);
    manager.save("A", &full);
    assert_eq!(manager.load("A"), Ok(full));
    assert_eq!(manager.load("B"), Ok(empty));
    assert_eq!(manager.bank_names(), vec!["A".to_string(), "B".to_string()]);
    assert_eq!(BankManager::new().bank_names(), Vec::<String>::new());
}

#[test]
fn bank_names_are_told_apart_exactly() {
    let mut manager = BankManager::new();
    manager.save("BANK1", &Bank::new(1, 1).unwrap());
    assert!(!manager.has_bank("bank1"));
    assert!(!manager.has_bank("BANK"));
    assert!(!manager.has_bank("BANK11"));
    assert!(!manager.has_bank(""));
    manager.save("", &Bank::new(0, 0).unwrap());
    assert!(manager.has_bank(""));
}

#[test]
fn named_references_are_those_of_the_manifests_that_parse() {
    let mut manager = BankManager::new();
    let mut a = Bank::new(1, 2).unwrap();
    a.set_slot(0, 0, Some(Reference { digest: 1 })).unwrap();
    a.set_slot(0, 1, Some(Reference { digest: 2 })).unwrap();
    let mut b = Bank::new(1, 1).unwrap();
    b.set_slot(0, 0, Some(Reference { digest: 2 })).unwrap();
    manager.save("A", &a);
    manager.save("B", &b);
    manager.install("C", b"garbage");
    let mut named: Vec<u64> = manager.named_references().iter().map(|r| r.digest).collect();
    named.sort();
    named.dedup();
    assert_eq!(named, vec![1, 2]);
    assert_eq!(BankManager::new().named_references(), Vec::<Reference>::new());
}
