use orpheus::accounts::{AccountError, AccountRecord, AccountsManager, LoginCode};
use orpheus::codec::DecodeError;
use std::time::Instant;

#[test]
fn register_rejects_existing_username() {
    let mut store = AccountsManager::new();
    assert!(store
        .register(String::from("alice"), String::from("secret"), false)
        .is_ok());
    let second = store.register(String::from("alice"), String::from("other"), true);
    assert_eq!(second, Err(AccountError::AlreadyExists));
}

#[test]
fn login_outcomes() {
    let mut store = AccountsManager::new();
    store
        .register(String::from("alice"), String::from("secret"), false)
        .unwrap();
    match store.login("alice", "secret") {
        LoginCode::Success(record) => {
            assert_eq!(record.username(), "alice");
            assert_eq!(*record.is_admin(), false);
        }
        _ => panic!("expected a successful login"),
    }
    assert!(matches!(
        store.login("alice", "wrong"),
        LoginCode::InvalidPassword
    ));
    assert!(matches!(
        store.login("nobody", "secret"),
        LoginCode::AccountNotFound
    ));
}

#[test]
fn save_then_open_reconstructs_the_store() {
    let mut store = AccountsManager::new();
    store
        .register(String::from("alice"), String::from("secret"), false)
        .unwrap();
    store
        .register(String::from("bob"), String::from("hunter2"), true)
        .unwrap();
    let bytes = store.save();
    let reopened = AccountsManager::from_bytes(bytes.as_slice()).unwrap();
    assert!(!reopened.is_dirty());
    assert_eq!(reopened.accounts.len(), 2);
    for (before, after) in store.accounts.iter().zip(reopened.accounts.iter()) {
        assert_eq!(before.username(), after.username());
        assert_eq!(before.password_hash(), after.password_hash());
        assert_eq!(*before.is_admin(), *after.is_admin());
    }
    match reopened.login("alice", "secret") {
        LoginCode::Success(record) => assert_eq!(record.username(), "alice"),
        _ => panic!("reopened store must accept the original password"),
    }
}

#[test]
fn empty_store_round_trips() {
    let mut store = AccountsManager::new();
    let bytes = store.save();
    let reopened = AccountsManager::from_bytes(bytes.as_slice()).unwrap();
    assert!(reopened.accounts.is_empty());
    assert!(!reopened.is_dirty());
    assert!(matches!(
        reopened.login("alice", "secret"),
        LoginCode::AccountNotFound
    ));
}

#[test]
fn empty_username_and_password_are_ordinary_values() {
    let mut store = AccountsManager::new();
    store.register(String::new(), String::new(), false).unwrap();
    assert!(matches!(store.login("", ""), LoginCode::Success(_)));
    assert!(matches!(store.login("", "x"), LoginCode::InvalidPassword));
    let bytes = store.save();
    let reopened = AccountsManager::from_bytes(bytes.as_slice()).unwrap();
    assert!(matches!(reopened.login("", ""), LoginCode::Success(_)));
}

#[test]
fn truncated_file_is_corrupt() {
    assert_eq!(
        AccountsManager::from_bytes(&[1, 2, 3]).err(),
        Some(DecodeError::Corrupt)
    );
}

#[test]
fn invalid_utf8_is_corrupt() {
    // One record whose username is a single 0xff byte: not UTF-8.
    let mut bytes: Vec<u8> = Vec::new();
    bytes.extend_from_slice(&1u64.to_le_bytes());
    bytes.extend_from_slice(&1u64.to_le_bytes());
    bytes.push(0xff);
    bytes.extend_from_slice(&0u64.to_le_bytes());
    bytes.push(0);
    assert_eq!(
        AccountsManager::from_bytes(bytes.as_slice()).err(),
        Some(DecodeError::Corrupt)
    );
}

#[test]
fn bad_admin_byte_is_corrupt() {
    let mut store = AccountsManager::new();
    store
        .register(String::from("alice"), String::from("secret"), false)
        .unwrap();
    let mut bytes = store.save();
    let last = bytes.len() - 1;
    bytes[last] = 7;
    assert_eq!(
        AccountsManager::from_bytes(bytes.as_slice()).err(),
        Some(DecodeError::Corrupt)
    );
}

#[test]
fn duplicate_username_in_file_is_corrupt() {
    let mut store = AccountsManager::new();
    store
        .register(String::from("alice"), String::from("secret"), false)
        .unwrap();
    let bytes = store.save();
    // Splice the single record in twice under a count of two.
    let mut doubled: Vec<u8> = Vec::new();
    doubled.extend_from_slice(&2u64.to_le_bytes());
    doubled.extend_from_slice(&bytes[8..]);
    doubled.extend_from_slice(&bytes[8..]);
    assert_eq!(
        AccountsManager::from_bytes(doubled.as_slice()).err(),
        Some(DecodeError::Corrupt)
    );
}

#[test]
fn create_rejects_duplicates_and_keeps_records() {
    let mut store = AccountsManager::new();
    store
        .register(String::from("alice"), String::from("secret"), true)
        .unwrap();
    let stored = match store.login("alice", "secret") {
        LoginCode::Success(record) => record,
        _ => panic!("expected a successful login"),
    };
    let copy = AccountRecord::new(
        String::from("alice"),
        String::from(stored.password_hash()),
        true,
    );
    let dup = AccountRecord::new(
        String::from("alice"),
        String::from(stored.password_hash()),
        false,
    );
    let err = AccountsManager::create(vec![copy, dup]);
    assert_eq!(err.err(), Some(AccountError::AlreadyExists));

    let single = AccountRecord::new(
        String::from("alice"),
        String::from(stored.password_hash()),
        true,
    );
    let rebuilt = AccountsManager::create(vec![single]).unwrap();
    assert!(!rebuilt.is_dirty());
    assert!(matches!(
        rebuilt.login("alice", "secret"),
        LoginCode::Success(_)
    ));
}

#[test]
fn create_rejects_a_corrupt_hash() {
    let broken = AccountRecord::new(
        String::from("alice"),
        String::from("not a hash record"),
        false,
    );
    assert!(AccountsManager::create(vec![broken]).is_err());
}

#[test]
fn register_from_record_checks_the_stored_hash() {
    let mut store = AccountsManager::new();
    let broken = AccountRecord::new(
        String::from("alice"),
        String::from("not a hash record"),
        false,
    );
    assert!(store.register_from_record(broken).is_err());
    assert!(matches!(
        store.login("alice", "anything"),
        LoginCode::AccountNotFound
    ));
}

#[test]
fn dirty_tracks_divergence_from_the_snapshot() {
    let mut store = AccountsManager::new();
    assert!(!store.is_dirty());
    store
        .register(String::from("alice"), String::from("secret"), false)
        .unwrap();
    assert!(store.is_dirty());
    let _bytes = store.save();
    assert!(!store.is_dirty());
    store.mark_dirty();
    assert!(store.is_dirty());
}

#[test]
fn bench_saving_accounts() {
    let mut store = AccountsManager::new();
    store.verify();
    store
        .register(String::from("alice"), String::from("secret"), false)
        .unwrap();
    let t: Instant = Instant::now();
    let _bytes = store.save();
    println!("{:?}", t.elapsed());
}
