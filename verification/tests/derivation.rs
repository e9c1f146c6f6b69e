use parami_magic::account::{account_eq, clone_account, derive_stash};
use parami_magic::index::{AccountIndex, DelegationRecord};
use parami_magic::pallet::Error;

fn acct(bytes: &[u8]) -> Vec<u8> {
    bytes.to_vec()
}

#[test]
fn derive_stash_layout_is_plane_magic_height() {
    let stash = derive_stash(&acct(&[9]), 1);
    assert_eq!(
        stash,
        vec![0x70, 0x6c, 0x61, 0x6e, 0x65, 0x2f, 0x6d, 0x61, 9, 1, 0, 0, 0, 0, 0, 0, 0]
    );
}

#[test]
fn derive_stash_separates_magic_and_height() {
    let m1 = acct(b"magic-1");
    let m2 = acct(b"magic-2");
    assert_ne!(derive_stash(&m1, 1), derive_stash(&m2, 1));
    assert_ne!(derive_stash(&m1, 1), derive_stash(&m1, 2));
    assert_eq!(derive_stash(&m1, 1), derive_stash(&m1, 1));
}

#[test]
fn account_eq_compares_bytes() {
    let a = acct(b"abc");
    let b = acct(b"abc");
    let c = acct(b"abd");
    let d = acct(b"ab");
    assert!(account_eq(&a, &b));
    assert!(!account_eq(&a, &c));
    assert!(!account_eq(&a, &d));
    assert_eq!(clone_account(&a), a);
}

fn record(stash: &[u8], controller: &[u8], magic: &[u8]) -> DelegationRecord {
    DelegationRecord {
        stash: acct(stash),
        controller: acct(controller),
        magic: acct(magic),
        created: 3,
    }
}

#[test]
fn index_insert_checks_all_preconditions_at_once() {
    let mut index = AccountIndex::new();
    index.insert(record(b"s1", b"c1", b"m1")).unwrap();

    let r = index.insert(record(b"s2", b"x", b"x"));
    assert_eq!(r.unwrap_err(), Error::ControllerEqualToMagic);
    let r = index.insert(record(b"s2", b"c2", b"m1"));
    assert_eq!(r.unwrap_err(), Error::MagicAccountUsed);
    let r = index.insert(record(b"s2", b"m1", b"m2"));
    assert_eq!(r.unwrap_err(), Error::ControllerAccountUsed);
    let r = index.insert(record(b"s2", b"c1", b"m2"));
    assert_eq!(r.unwrap_err(), Error::ControllerAccountUsed);
    let r = index.insert(record(b"s2", b"c2", b"c1"));
    assert_eq!(r.unwrap_err(), Error::MagicAccountUsed);

    // The refused inserts left the index unchanged.
    assert!(index.find_by_controller(&acct(b"c2")).is_none());
    assert_eq!(
        index.find_controller_by_magic(&acct(b"m1")).unwrap(),
        &acct(b"c1")
    );
}

#[test]
fn index_rekey_repoints_all_three_tables() {
    let mut index = AccountIndex::new();
    index.insert(record(b"s1", b"c1", b"m1")).unwrap();
    index.rekey(&acct(b"c1"), &acct(b"c9"));
    assert!(index.find_by_controller(&acct(b"c1")).is_none());
    let rec = index.find_by_controller(&acct(b"c9")).unwrap();
    assert_eq!(rec.stash, acct(b"s1"));
    assert_eq!(rec.magic, acct(b"m1"));
    assert_eq!(index.find_controller_by_magic(&acct(b"m1")).unwrap(), &acct(b"c9"));
    assert_eq!(index.find_controller_by_stash(&acct(b"s1")).unwrap(), &acct(b"c9"));
}
