use parami_magic::account::derive_stash;
use parami_magic::ledger::Ledger;
use parami_magic::pallet::{Call, DispatchError, Error, Event, Pallet};

fn acct(bytes: &[u8]) -> Vec<u8> {
    bytes.to_vec()
}

#[test]
fn create_stable_account_moves_deposit_and_stash() {
    let mut pallet = Pallet::new();
    let mut ledger = Ledger::new(1);
    let controller = acct(b"controller");
    let magic = acct(b"magic");
    ledger.issue(&controller, 1000).unwrap();

    let ev = pallet
        .create_stable_account(&mut ledger, 7, &controller, &magic, 100)
        .unwrap();
    let expected_stash = derive_stash(&magic, 7);
    match ev {
        Event::Created(stash, ctrl) => {
            assert_eq!(stash, expected_stash);
            assert_eq!(ctrl, controller);
        }
        other => panic!("unexpected event {:?}", other),
    }

    // deposit = 50 * minimum = 50; stashed = 100
    assert_eq!(ledger.free_balance(&controller), 850);
    assert_eq!(ledger.free_balance(&magic), 50);
    assert_eq!(ledger.free_balance(&expected_stash), 100);

    let record = pallet.stable_of(&controller).unwrap();
    assert_eq!(record.stash, expected_stash);
    assert_eq!(record.controller, controller);
    assert_eq!(record.magic, magic);
    assert_eq!(record.created, 7);
    assert_eq!(pallet.controller_of(&magic).unwrap(), &controller);
    assert_eq!(pallet.controller(&expected_stash).unwrap(), &controller);
}

#[test]
fn reusing_magic_or_controller_fails() {
    let mut pallet = Pallet::new();
    let mut ledger = Ledger::new(1);
    let controller = acct(b"controller");
    let magic = acct(b"magic");
    let other = acct(b"someone-else");
    ledger.issue(&controller, 1000).unwrap();
    ledger.issue(&other, 1000).unwrap();
    pallet
        .create_stable_account(&mut ledger, 7, &controller, &magic, 100)
        .unwrap();

    let r = pallet.create_stable_account(&mut ledger, 8, &other, &magic, 10);
    assert_eq!(r.unwrap_err(), Error::MagicAccountUsed);
    let r = pallet.create_stable_account(&mut ledger, 8, &controller, &other, 10);
    assert_eq!(r.unwrap_err(), Error::ControllerAccountUsed);
    // A registered magic key cannot come back as a controller, nor a
    // registered controller as a magic key.
    let r = pallet.create_stable_account(&mut ledger, 8, &magic, &other, 10);
    assert_eq!(r.unwrap_err(), Error::ControllerAccountUsed);
    let r = pallet.create_stable_account(&mut ledger, 8, &other, &controller, 10);
    assert_eq!(r.unwrap_err(), Error::MagicAccountUsed);

    // Nothing moved for any refused call.
    assert_eq!(ledger.free_balance(&other), 1000);
}

#[test]
fn controller_equal_to_magic_is_rejected() {
    let mut pallet = Pallet::new();
    let mut ledger = Ledger::new(1);
    let id = acct(b"same-key");
    ledger.issue(&id, 1000).unwrap();

    let r = pallet.create_stable_account(&mut ledger, 1, &id, &id, 10);
    assert_eq!(r.unwrap_err(), Error::ControllerEqualToMagic);
    assert_eq!(ledger.free_balance(&id), 1000);
    assert!(pallet.stable_of(&id).is_none());
}

#[test]
fn underfunded_creation_is_rejected_without_transfers() {
    let mut pallet = Pallet::new();
    let mut ledger = Ledger::new(1);
    let controller = acct(b"controller");
    let magic = acct(b"magic");
    ledger.issue(&controller, 150).unwrap();

    // Needs minimum + 50 * minimum + stashed = 1 + 50 + 100 = 151.
    let r = pallet.create_stable_account(&mut ledger, 1, &controller, &magic, 100);
    assert_eq!(r.unwrap_err(), Error::InsufficientBalance);
    assert_eq!(ledger.free_balance(&controller), 150);
    assert_eq!(ledger.free_balance(&magic), 0);
    assert!(pallet.stable_of(&controller).is_none());

    // One more unit is exactly enough.
    ledger.issue(&controller, 1).unwrap();
    assert!(pallet
        .create_stable_account(&mut ledger, 1, &controller, &magic, 100)
        .is_ok());
    assert_eq!(ledger.free_balance(&controller), 1);
}

#[test]
fn change_controller_rekeys_and_moves_balance() {
    let mut pallet = Pallet::new();
    let mut ledger = Ledger::new(1);
    let controller = acct(b"controller");
    let magic = acct(b"magic");
    let newer = acct(b"new-controller");
    ledger.issue(&controller, 1000).unwrap();
    pallet
        .create_stable_account(&mut ledger, 7, &controller, &magic, 100)
        .unwrap();
    let stash = derive_stash(&magic, 7);

    let ev = pallet
        .change_controller(&mut ledger, &magic, &newer)
        .unwrap();
    match ev {
        Event::Changed(st, ctrl) => {
            assert_eq!(st, stash);
            assert_eq!(ctrl, newer);
        }
        other => panic!("unexpected event {:?}", other),
    }

    // The old controller is gone from the index; the new one resolves.
    assert!(pallet.stable_of(&controller).is_none());
    let record = pallet.stable_of(&newer).unwrap();
    assert_eq!(record.stash, stash);
    assert_eq!(record.magic, magic);
    assert_eq!(record.created, 7);
    assert_eq!(pallet.controller_of(&magic).unwrap(), &newer);
    assert_eq!(pallet.controller(&stash).unwrap(), &newer);

    // The old controller's whole balance moved; the deposit refund
    // (50 units, stash -> magic) went through: 100 >= 50 + minimum.
    assert_eq!(ledger.free_balance(&controller), 0);
    assert_eq!(ledger.free_balance(&newer), 850);
    assert_eq!(ledger.free_balance(&stash), 50);
    assert_eq!(ledger.free_balance(&magic), 100);
}

#[test]
fn change_controller_tolerates_failed_refund() {
    let mut pallet = Pallet::new();
    let mut ledger = Ledger::new(1);
    let controller = acct(b"controller");
    let magic = acct(b"magic");
    let newer = acct(b"new-controller");
    ledger.issue(&controller, 1000).unwrap();
    // Nothing stashed: the stash cannot repay the 50-unit deposit.
    pallet
        .create_stable_account(&mut ledger, 7, &controller, &magic, 0)
        .unwrap();
    let stash = derive_stash(&magic, 7);

    assert!(pallet
        .change_controller(&mut ledger, &magic, &newer)
        .is_ok());
    assert_eq!(ledger.free_balance(&stash), 0);
    assert_eq!(ledger.free_balance(&magic), 50);
    assert_eq!(ledger.free_balance(&newer), 950);
    assert_eq!(pallet.controller_of(&magic).unwrap(), &newer);
}

#[test]
fn change_controller_guards() {
    let mut pallet = Pallet::new();
    let mut ledger = Ledger::new(1);
    let controller = acct(b"controller");
    let magic = acct(b"magic");
    ledger.issue(&controller, 1000).unwrap();
    pallet
        .create_stable_account(&mut ledger, 7, &controller, &magic, 100)
        .unwrap();

    let r = pallet.change_controller(&mut ledger, &magic, &magic);
    assert_eq!(r.unwrap_err(), Error::ControllerEqualToMagic);
    let r = pallet.change_controller(&mut ledger, &magic, &controller);
    assert_eq!(r.unwrap_err(), Error::ControllerAccountUsed);
    let unknown = acct(b"unknown-magic");
    let newer = acct(b"new-controller");
    let r = pallet.change_controller(&mut ledger, &unknown, &newer);
    assert_eq!(r.unwrap_err(), Error::ObsoletedMagicAccount);
}

#[test]
fn codo_filters_control_plane_calls() {
    let mut pallet = Pallet::new();
    let mut ledger = Ledger::new(1);
    let controller = acct(b"controller");
    let magic = acct(b"magic");
    ledger.issue(&controller, 1000).unwrap();
    pallet
        .create_stable_account(&mut ledger, 7, &controller, &magic, 100)
        .unwrap();
    let balance_before = ledger.free_balance(&controller);

    let filtered = [
        Call::CreateStableAccount {
            magic_account: acct(b"inner-magic"),
            stashed: 1,
        },
        Call::ChangeController {
            new_controller: acct(b"inner-controller"),
        },
        Call::Codo {
            call: Box::new(Call::Other { tag: 3 }),
        },
    ];
    for call in filtered {
        let ev = pallet
            .codo(&mut ledger, 8, &controller, &call)
            .unwrap();
        match ev {
            Event::Codo(outcome) => assert_eq!(outcome, Err(DispatchError::Filtered)),
            other => panic!("unexpected event {:?}", other),
        }
    }

    // The filtered operations executed nothing and mutated nothing.
    assert_eq!(ledger.free_balance(&controller), balance_before);
    assert!(pallet.stable_of(&acct(b"inner-controller")).is_none());
    assert!(pallet.controller_of(&acct(b"inner-magic")).is_none());
}

#[test]
fn codo_runs_opaque_calls_and_reports_success() {
    let mut pallet = Pallet::new();
    let mut ledger = Ledger::new(1);
    let controller = acct(b"controller");
    let magic = acct(b"magic");
    ledger.issue(&controller, 1000).unwrap();
    pallet
        .create_stable_account(&mut ledger, 7, &controller, &magic, 100)
        .unwrap();

    let ev = pallet
        .codo(&mut ledger, 8, &controller, &Call::Other { tag: 42 })
        .unwrap();
    match ev {
        Event::Codo(outcome) => assert_eq!(outcome, Ok(())),
        other => panic!("unexpected event {:?}", other),
    }
}

#[test]
fn codo_requires_a_registered_controller() {
    let mut pallet = Pallet::new();
    let mut ledger = Ledger::new(1);
    let stranger = acct(b"stranger");
    let r = pallet.codo(&mut ledger, 1, &stranger, &Call::Other { tag: 0 });
    assert_eq!(r.unwrap_err(), Error::StableAccountNotFound);
}

#[test]
fn dispatch_executes_unfiltered_control_calls() {
    let mut pallet = Pallet::new();
    let mut ledger = Ledger::new(1);
    let controller = acct(b"controller");
    let magic = acct(b"magic");
    ledger.issue(&controller, 1000).unwrap();

    let call = Call::CreateStableAccount {
        magic_account: magic.clone(),
        stashed: 100,
    };
    let r = pallet
        .dispatch(&mut ledger, 7, &controller, false, &call)
        .unwrap();
    match r {
        Some(Event::Created(stash, ctrl)) => {
            assert_eq!(stash, derive_stash(&magic, 7));
            assert_eq!(ctrl, controller);
        }
        other => panic!("unexpected outcome {:?}", other),
    }
    assert!(pallet.stable_of(&controller).is_some());

    // A refused inner call surfaces as a module error.
    let r = pallet.dispatch(&mut ledger, 8, &controller, false, &call);
    assert_eq!(
        r.unwrap_err(),
        DispatchError::Module(Error::MagicAccountUsed)
    );
}
