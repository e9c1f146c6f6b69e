use parami_magic::pallet::GenesisConfig;

fn acct(bytes: &[u8]) -> Vec<u8> {
    bytes.to_vec()
}

#[test]
fn genesis_populates_all_three_indices() {
    let genesis = GenesisConfig {
        accounts: vec![
            (acct(b"magic-1"), acct(b"stash-1"), acct(b"ctrl-1")),
            (acct(b"magic-2"), acct(b"stash-2"), acct(b"ctrl-2")),
        ],
    };
    let pallet = genesis.build();
    let record = pallet.stable_of(&acct(b"ctrl-1")).unwrap();
    assert_eq!(record.stash, acct(b"stash-1"));
    assert_eq!(record.magic, acct(b"magic-1"));
    assert_eq!(record.created, 0);
    assert_eq!(pallet.controller_of(&acct(b"magic-2")).unwrap(), &acct(b"ctrl-2"));
    assert_eq!(pallet.controller(&acct(b"stash-2")).unwrap(), &acct(b"ctrl-2"));
    assert!(pallet.stable_of(&acct(b"ctrl-3")).is_none());
}

#[test]
fn migration_rebuilds_once_and_then_rests() {
    let genesis = GenesisConfig {
        accounts: vec![
            (acct(b"magic-1"), acct(b"stash-1"), acct(b"ctrl-1")),
            (acct(b"magic-2"), acct(b"stash-2"), acct(b"ctrl-2")),
        ],
    };
    let mut pallet = genesis.build();

    // The first run walks every record; the second is a no-op.
    assert_eq!(pallet.on_runtime_upgrade(), 2);
    assert_eq!(pallet.controller(&acct(b"stash-1")).unwrap(), &acct(b"ctrl-1"));
    assert_eq!(pallet.controller(&acct(b"stash-2")).unwrap(), &acct(b"ctrl-2"));
    assert_eq!(pallet.on_runtime_upgrade(), 0);
    assert_eq!(pallet.controller(&acct(b"stash-1")).unwrap(), &acct(b"ctrl-1"));
}

#[test]
fn migration_on_empty_plane() {
    let genesis = GenesisConfig { accounts: vec![] };
    let mut pallet = genesis.build();
    assert_eq!(pallet.on_runtime_upgrade(), 0);
    assert_eq!(pallet.on_runtime_upgrade(), 0);
}
