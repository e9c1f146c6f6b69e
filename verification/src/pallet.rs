//! The delegation control plane: creating and re-keying delegation
//! records, the filtered proxy, and the one-shot index migration.
//!
//! Every operation checks its guards before it touches any state, so a
//! refused operation leaves the index and the ledger exactly as they were.

use vstd::prelude::*;

use crate::account::{
    account_eq, clone_account, derive_seq, derive_stash, is_derived, lemma_derive_injective,
    lemma_derived_shape, AccountId,
};
use crate::index::{
    index_inv, insert_guard, inserted, lemma_insert_preserves_inv, lemma_rekey_preserves_inv,
    rekeyed, AccountIndex, DelegationRecord, IndexView, RecordView,
};
use crate::ledger::{can_transfer, transfer_map, Ledger, LedgerView};
use crate::table::{lemma_map_of_contains, lemma_map_of_index, lemma_map_of_len};

verus! {

/// Why a control-plane operation was refused.
#[derive(Clone, Copy, Debug, PartialEq, Eq, Structural)]
pub enum Error {
    /// The identity is already registered as a controller.
    ControllerAccountUsed,
    /// Controller and magic identity coincide.
    ControllerEqualToMagic,
    /// The controller cannot cover deposit, stash and minimum balance.
    InsufficientBalance,
    /// The identity is already registered as a magic key.
    MagicAccountUsed,
    /// The calling magic key resolves to no controller.
    ObsoletedMagicAccount,
    /// The controller resolves to no delegation record.
    StableAccountNotFound,
}

/// The schema version of the stash index.
#[derive(Clone, Copy, Debug, PartialEq, Eq, Structural)]
pub enum Releases {
    /// The stash-to-controller index may not have been backfilled.
    V0,
    /// The stash-to-controller index is current.
    V1,
}

/// An operation submitted for dispatch: the control plane's own calls,
/// or an opaque host operation known only by its tag.
#[derive(Debug)]
pub enum Call {
    CreateStableAccount { magic_account: AccountId, stashed: u128 },
    ChangeController { new_controller: AccountId },
    Codo { call: Box<Call> },
    Other { tag: u64 },
}

/// Whether a call is one of the control plane's own operations.
pub open spec fn is_control_plane(c: Call) -> bool {
    c is CreateStableAccount || c is ChangeController || c is Codo
}

/// How deeply proxy calls are nested in a call.
pub open spec fn call_depth(c: Call) -> nat
    decreases c,
{
    match c {
        Call::Codo { call } => 1 + call_depth(*call),
        _ => 0,
    }
}

/// The proxy's filter: a static predicate on the operation's tag that
/// rejects every control-plane operation.
pub fn filter_allows(call: &Call) -> (r: bool)
    ensures
        r == !is_control_plane(*call),
{
    match call {
        Call::Other { .. } => true,
        _ => false,
    }
}

/// How dispatching an operation failed.
#[derive(Clone, Copy, Debug, PartialEq, Eq, Structural)]
pub enum DispatchError {
    /// The attached filter rejected the operation before any logic ran.
    Filtered,
    /// The operation itself was refused.
    Module(Error),
}

/// A notification the control plane emits.
#[derive(Debug)]
pub enum Event {
    /// A stable account was created: stash, controller.
    Created(AccountId, AccountId),
    /// A record was re-keyed: stash, new controller.
    Changed(AccountId, AccountId),
    /// The proxy ran: the wrapped operation's outcome.
    Codo(Result<(), DispatchError>),
}

/// The event is `Created(stash, controller)`.
pub open spec fn created_event(ev: Event, stash: Seq<u8>, controller: Seq<u8>) -> bool {
    ev matches Event::Created(s, c) && s@ == stash && c@ == controller
}

/// The event is `Changed(stash, controller)`.
pub open spec fn changed_event(ev: Event, stash: Seq<u8>, controller: Seq<u8>) -> bool {
    ev matches Event::Changed(s, c) && s@ == stash && c@ == controller
}

/// The event is `Codo(outcome)`.
pub open spec fn codo_event(ev: Event, outcome: Result<(), DispatchError>) -> bool {
    ev matches Event::Codo(o) && o == outcome
}

/// The control plane's mathematical state.
#[verifier::ext_equal]
pub ghost struct PalletView {
    pub ix: IndexView,
    pub version: Releases,
}

/// The control plane: the account index and the schema version.
pub struct Pallet {
    pub index: AccountIndex,
    pub version: Releases,
}

impl View for Pallet {
    type V = PalletView;

    open spec fn view(&self) -> PalletView {
        PalletView { ix: self.index@, version: self.version }
    }
}

/// The bonding deposit: a fixed multiple of the minimum balance.
pub open spec fn deposit_of(minimum: u128) -> int {
    50 * minimum
}

/// The bonding deposit as the ledger computes it, saturating at the
/// balance bound.
pub open spec fn deposit_clipped(minimum: u128) -> u128 {
    if deposit_of(minimum) > u128::MAX {
        u128::MAX
    } else {
        deposit_of(minimum) as u128
    }
}

/// The first violated precondition of `create_stable_account`, if any.
pub open spec fn create_guard(
    ix: IndexView,
    lv: LedgerView,
    controller: Seq<u8>,
    magic: Seq<u8>,
    stashed: u128,
) -> Option<Error> {
    match insert_guard(ix, controller, magic) {
        Some(e) => Some(e),
        None => if lv.balances[controller] - lv.minimum < deposit_of(lv.minimum) + stashed {
            Some(Error::InsufficientBalance)
        } else {
            None
        },
    }
}

/// The state after a successful `create_stable_account`: the deposit moves
/// from controller to magic, the stashed amount from controller to the
/// derived stash, and the record enters all three tables.
pub open spec fn create_effects(
    ix: IndexView,
    lv: LedgerView,
    controller: Seq<u8>,
    magic: Seq<u8>,
    stashed: u128,
    height: u64,
    post_ix: IndexView,
    post_lv: LedgerView,
) -> bool {
    let stash = derive_seq(magic, height);
    let dep = deposit_of(lv.minimum) as u128;
    let l1 = transfer_map(lv.balances, lv.minimum, controller, magic, dep, true);
    let l2 = transfer_map(l1, lv.minimum, controller, stash, stashed, true);
    &&& post_ix == inserted(
        ix,
        RecordView { stash, controller, magic, created: height },
    )
    &&& post_lv.balances == l2
    &&& post_lv.minimum == lv.minimum
    &&& post_lv.issued == lv.issued
}

/// The full contract of `create_stable_account`.
pub open spec fn create_rel(
    pre_p: PalletView,
    pre_l: LedgerView,
    controller: Seq<u8>,
    magic: Seq<u8>,
    stashed: u128,
    height: u64,
    post_p: PalletView,
    post_l: LedgerView,
    r: Result<Event, Error>,
) -> bool {
    &&& post_p.version == pre_p.version
    &&& match create_guard(pre_p.ix, pre_l, controller, magic, stashed) {
        Some(e) => (r matches Err(e2) && e2 == e) && post_p == pre_p && post_l == pre_l,
        None => {
            &&& r matches Ok(ev) && created_event(ev, derive_seq(magic, height), controller)
            &&& create_effects(pre_p.ix, pre_l, controller, magic, stashed, height, post_p.ix, post_l)
        },
    }
}

/// The first violated precondition of `change_controller`, if any.
pub open spec fn change_guard(ix: IndexView, new_controller: Seq<u8>, magic: Seq<u8>) -> Option<
    Error,
> {
    if new_controller == magic {
        Some(Error::ControllerEqualToMagic)
    } else if ix.magics.contains_key(new_controller) {
        Some(Error::ControllerAccountUsed)
    } else if ix.stable.contains_key(new_controller) {
        Some(Error::ControllerAccountUsed)
    } else if !ix.magics.contains_key(magic) {
        Some(Error::ObsoletedMagicAccount)
    } else if !ix.stable.contains_key(ix.magics[magic]) {
        Some(Error::StableAccountNotFound)
    } else {
        None
    }
}

/// The state after a successful `change_controller`: the old controller's
/// whole balance moves to the new controller (the old account may vanish),
/// the deposit refund from stash to magic is attempted and its failure
/// tolerated, and the record is re-keyed.
pub open spec fn change_effects(
    ix: IndexView,
    lv: LedgerView,
    magic: Seq<u8>,
    nc: Seq<u8>,
    post_ix: IndexView,
    post_lv: LedgerView,
) -> bool {
    let oc = ix.magics[magic];
    let stash = ix.stable[oc].stash;
    let dep = deposit_clipped(lv.minimum);
    let l1 = transfer_map(lv.balances, lv.minimum, oc, nc, lv.balances[oc], false);
    let refund_ok = can_transfer(l1, lv.minimum, stash, magic, dep, true);
    let l2 = if refund_ok {
        transfer_map(l1, lv.minimum, stash, magic, dep, true)
    } else {
        l1
    };
    &&& post_ix == rekeyed(ix, oc, nc)
    &&& post_lv.balances == l2
    &&& post_lv.minimum == lv.minimum
    &&& post_lv.issued == lv.issued
}

/// The full contract of `change_controller`.
pub open spec fn change_rel(
    pre_p: PalletView,
    pre_l: LedgerView,
    magic: Seq<u8>,
    nc: Seq<u8>,
    post_p: PalletView,
    post_l: LedgerView,
    r: Result<Event, Error>,
) -> bool {
    &&& post_p.version == pre_p.version
    &&& match change_guard(pre_p.ix, nc, magic) {
        Some(e) => (r matches Err(e2) && e2 == e) && post_p == pre_p && post_l == pre_l,
        None => {
            &&& r matches Ok(ev) && changed_event(
                ev,
                pre_p.ix.stable[pre_p.ix.magics[magic]].stash,
                nc,
            )
            &&& change_effects(pre_p.ix, pre_l, magic, nc, post_p.ix, post_l)
        },
    }
}

/// No record's stash equals a stash derived from an unregistered magic key.
pub proof fn lemma_stash_fresh(ix: IndexView, magic: Seq<u8>, height: u64)
    requires
        index_inv(ix),
        !ix.magics.contains_key(magic),
    ensures
        forall|c: Seq<u8>| #[trigger]
            ix.stable.contains_key(c) ==> ix.stable[c].stash != derive_seq(magic, height),
{
    let st = derive_seq(magic, height);
    lemma_derived_shape(magic, height);
    assert forall|c: Seq<u8>| #[trigger]
        ix.stable.contains_key(c) implies ix.stable[c].stash != st by {
        if ix.stable[c].stash == st {
            assert(is_derived(ix.stable[c].stash));
            lemma_derive_injective(ix.stable[c].magic, ix.stable[c].created, magic, height);
            assert(ix.magics.contains_key(ix.stable[c].magic));
        }
    }
}

impl Pallet {
    /// The tables are well formed and the index invariants hold.
    pub open spec fn wf(self) -> bool {
        self.index.wf() && index_inv(self@.ix)
    }

    /// An empty control plane at schema version `V0`.
    pub fn new() -> (r: Self)
        ensures
            r.wf(),
            r@.version == Releases::V0,
            r@.ix.stable == Map::<Seq<u8>, RecordView>::empty(),
            r@.ix.magics == Map::<Seq<u8>, Seq<u8>>::empty(),
            r@.ix.stashes == Map::<Seq<u8>, Seq<u8>>::empty(),
    {
        Pallet { index: AccountIndex::new(), version: Releases::V0 }
    }

    /// The record a controller manages, if any.
    pub fn stable_of<'a>(&'a self, controller: &AccountId) -> (r: Option<&'a DelegationRecord>)
        requires
            self.wf(),
        ensures
            match r {
                Some(rec) => self@.ix.stable.contains_key(controller@) && rec@
                    == self@.ix.stable[controller@],
                None => !self@.ix.stable.contains_key(controller@),
            },
    {
        self.index.find_by_controller(controller)
    }

    /// The controller a magic key authorized, if any.
    pub fn controller_of<'a>(&'a self, magic: &AccountId) -> (r: Option<&'a AccountId>)
        requires
            self.wf(),
        ensures
            match r {
                Some(c) => self@.ix.magics.contains_key(magic@) && c@ == self@.ix.magics[magic@],
                None => !self@.ix.magics.contains_key(magic@),
            },
    {
        self.index.find_controller_by_magic(magic)
    }

    /// The controller of a stash account, if any.
    pub fn controller<'a>(&'a self, stash: &AccountId) -> (r: Option<&'a AccountId>)
        requires
            self.wf(),
        ensures
            match r {
                Some(c) => self@.ix.stashes.contains_key(stash@) && c@ == self@.ix.stashes[stash@],
                None => !self@.ix.stashes.contains_key(stash@),
            },
    {
        self.index.find_controller_by_stash(stash)
    }

    /// Creates a delegation: the controller bonds a deposit at the magic
    /// key, funds the derived stash, and the record enters the index.
    pub fn create_stable_account(
        &mut self,
        ledger: &mut Ledger,
        height: u64,
        controller: &AccountId,
        magic_account: &AccountId,
        stashed: u128,
    ) -> (r: Result<Event, Error>)
        requires
            old(self).wf(),
            old(ledger).wf(),
        ensures
            final(self).wf(),
            final(ledger).wf(),
            create_rel(
                old(self)@,
                old(ledger)@,
                controller@,
                magic_account@,
                stashed,
                height,
                final(self)@,
                final(ledger)@,
                r,
            ),
    {
        if account_eq(controller, magic_account) {
            return Err(Error::ControllerEqualToMagic);
        }
        if self.index.magics.contains(magic_account) {
            return Err(Error::MagicAccountUsed);
        }
        if self.index.magics.contains(controller) {
            return Err(Error::ControllerAccountUsed);
        }
        if self.index.stable.contains(controller) {
            return Err(Error::ControllerAccountUsed);
        }
        if self.index.stable.contains(magic_account) {
            return Err(Error::MagicAccountUsed);
        }
        let minimum = ledger.minimum_balance();
        let free = ledger.free_balance(controller);
        let (enough, deposit): (bool, u128) = match minimum.checked_mul(50) {
            None => (false, 0),
            Some(dep) => match dep.checked_add(stashed) {
                None => (false, 0),
                Some(t) => match t.checked_add(minimum) {
                    None => (false, 0),
                    Some(need) => (free >= need, dep),
                },
            },
        };
        if !enough {
            proof {
                assert(free - minimum < deposit_of(minimum) + stashed);
            }
            return Err(Error::InsufficientBalance);
        }
        let stash_account = derive_stash(magic_account, height);
        proof {
            lemma_derived_shape(magic_account@, height);
            lemma_stash_fresh(self@.ix, magic_account@, height);
        }
        let r1 = ledger.transfer(controller, magic_account, deposit, true);
        proof {
            assert(r1 is Ok);
        }
        let r2 = ledger.transfer(controller, &stash_account, stashed, true);
        proof {
            assert(r2 is Ok);
        }
        let record = DelegationRecord {
            stash: clone_account(&stash_account),
            controller: clone_account(controller),
            magic: clone_account(magic_account),
            created: height,
        };
        proof {
            assert(record@ =~= RecordView {
                stash: derive_seq(magic_account@, height),
                controller: controller@,
                magic: magic_account@,
                created: height,
            });
            lemma_insert_preserves_inv(old(self)@.ix, record@);
        }
        let ins = self.index.insert(record);
        proof {
            assert(ins is Ok);
        }
        Ok(Event::Created(stash_account, clone_account(controller)))
    }

    /// Re-keys the delegation of the calling magic key to a new controller:
    /// the old controller's whole balance moves to the new controller, the
    /// deposit refund from stash to magic is attempted (failure tolerated),
    /// and the record is re-keyed.
    pub fn change_controller(
        &mut self,
        ledger: &mut Ledger,
        magic_account: &AccountId,
        new_controller: &AccountId,
    ) -> (r: Result<Event, Error>)
        requires
            old(self).wf(),
            old(ledger).wf(),
        ensures
            final(self).wf(),
            final(ledger).wf(),
            change_rel(
                old(self)@,
                old(ledger)@,
                magic_account@,
                new_controller@,
                final(self)@,
                final(ledger)@,
                r,
            ),
    {
        if account_eq(new_controller, magic_account) {
            return Err(Error::ControllerEqualToMagic);
        }
        if self.index.magics.contains(new_controller) {
            return Err(Error::ControllerAccountUsed);
        }
        if self.index.stable.contains(new_controller) {
            return Err(Error::ControllerAccountUsed);
        }
        let old_controller = match self.index.magics.get(magic_account) {
            Some(c) => clone_account(c),
            None => {
                return Err(Error::ObsoletedMagicAccount);
            },
        };
        let rec = match self.index.stable.get(&old_controller) {
            Some(rec) => rec.duplicate(),
            None => {
                return Err(Error::StableAccountNotFound);
            },
        };
        let free = ledger.free_balance(&old_controller);
        let moved = ledger.transfer(&old_controller, new_controller, free, false);
        proof {
            assert(moved is Ok);
        }
        let minimum = ledger.minimum_balance();
        let deposit = match minimum.checked_mul(50) {
            Some(d) => d,
            None => u128::MAX,
        };
        // Best effort: a failed refund does not abort the re-key.
        let _refund = ledger.transfer(&rec.stash, magic_account, deposit, true);
        proof {
            lemma_rekey_preserves_inv(old(self)@.ix, old_controller@, new_controller@);
        }
        self.index.rekey(&old_controller, new_controller);
        Ok(Event::Changed(clone_account(&rec.stash), clone_account(new_controller)))
    }
}


/// The full contract of `codo`: the plane's own state never changes, the
/// caller must be a controller, and the wrapped operation's outcome is a
/// filter rejection exactly when the operation is a control-plane call.
pub open spec fn codo_rel(
    pre_p: PalletView,
    pre_l: LedgerView,
    controller: Seq<u8>,
    call: Call,
    post_p: PalletView,
    post_l: LedgerView,
    r: Result<Event, Error>,
) -> bool {
    &&& post_p == pre_p
    &&& post_l == pre_l
    &&& if !pre_p.ix.stable.contains_key(controller) {
        r matches Err(e) && e == Error::StableAccountNotFound
    } else {
        r matches Ok(ev) && codo_event(
            ev,
            if is_control_plane(call) {
                Err(DispatchError::Filtered)
            } else {
                Ok(())
            },
        )
    }
}

/// The full contract of `dispatch`: with the filter on, a control-plane
/// call is rejected before any logic runs; otherwise the call's own
/// contract governs the outcome, and an opaque host operation changes
/// nothing in this plane.
pub open spec fn dispatch_rel(
    pre_p: PalletView,
    pre_l: LedgerView,
    height: u64,
    origin: Seq<u8>,
    filtered: bool,
    call: Call,
    post_p: PalletView,
    post_l: LedgerView,
    r: Result<Option<Event>, DispatchError>,
) -> bool {
    if filtered && is_control_plane(call) {
        &&& r matches Err(de) && de == DispatchError::Filtered
        &&& post_p == pre_p
        &&& post_l == pre_l
    } else {
        match call {
            Call::CreateStableAccount { magic_account, stashed } => {
                &&& (r matches Ok(o) ==> o matches Some(ev) && create_rel(
                    pre_p,
                    pre_l,
                    origin,
                    magic_account@,
                    stashed,
                    height,
                    post_p,
                    post_l,
                    Ok(ev),
                ))
                &&& (r matches Err(de) ==> de matches DispatchError::Module(e) && create_rel(
                    pre_p,
                    pre_l,
                    origin,
                    magic_account@,
                    stashed,
                    height,
                    post_p,
                    post_l,
                    Err(e),
                ))
            },
            Call::ChangeController { new_controller } => {
                &&& (r matches Ok(o) ==> o matches Some(ev) && change_rel(
                    pre_p,
                    pre_l,
                    origin,
                    new_controller@,
                    post_p,
                    post_l,
                    Ok(ev),
                ))
                &&& (r matches Err(de) ==> de matches DispatchError::Module(e) && change_rel(
                    pre_p,
                    pre_l,
                    origin,
                    new_controller@,
                    post_p,
                    post_l,
                    Err(e),
                ))
            },
            Call::Codo { call: inner } => {
                &&& (r matches Ok(o) ==> o matches Some(ev) && codo_rel(
                    pre_p,
                    pre_l,
                    origin,
                    *inner,
                    post_p,
                    post_l,
                    Ok(ev),
                ))
                &&& (r matches Err(de) ==> de matches DispatchError::Module(e) && codo_rel(
                    pre_p,
                    pre_l,
                    origin,
                    *inner,
                    post_p,
                    post_l,
                    Err(e),
                ))
            },
            Call::Other { .. } => {
                &&& r matches Ok(o) && o is None
                &&& post_p == pre_p
                &&& post_l == pre_l
            },
        }
    }
}

/// A stash identity some record owns.
pub open spec fn stash_owned(ix: IndexView, s: Seq<u8>) -> bool {
    exists|c: Seq<u8>| #[trigger] ix.stable.contains_key(c) && ix.stable[c].stash == s
}

/// The full contract of `on_runtime_upgrade`: at the current version it
/// does nothing; otherwise it backfills the stash index from the record
/// table, touches nothing else, and advances the version.
pub open spec fn migrate_rel(pre: PalletView, post: PalletView, count: usize) -> bool {
    if pre.version == Releases::V1 {
        post == pre && count == 0
    } else {
        &&& post.version == Releases::V1
        &&& post.ix.stable == pre.ix.stable
        &&& post.ix.magics == pre.ix.magics
        &&& (forall|c: Seq<u8>| #[trigger]
            pre.ix.stable.contains_key(c) ==> post.ix.stashes.contains_key(pre.ix.stable[c].stash)
                && post.ix.stashes[pre.ix.stable[c].stash] == c)
        &&& (forall|s: Seq<u8>| #[trigger]
            post.ix.stashes.contains_key(s) ==> pre.ix.stashes.contains_key(s) || stash_owned(
                pre.ix,
                s,
            ))
        &&& (forall|s: Seq<u8>| #[trigger]
            pre.ix.stashes.contains_key(s) ==> post.ix.stashes.contains_key(s))
        &&& (forall|s: Seq<u8>| #[trigger]
            pre.ix.stashes.contains_key(s) && !stash_owned(pre.ix, s) ==> post.ix.stashes[s]
                == pre.ix.stashes[s])
        &&& count == pre.ix.stable.len()
    }
}

/// Well-formed bootstrap triples `(magic, stash, controller)`: identities
/// pairwise distinct within their role, magic and controller roles
/// disjoint, and no stash carrying the derived shape.
pub open spec fn genesis_wf(s: Seq<(AccountId, AccountId, AccountId)>) -> bool {
    &&& (forall|i: int| #![trigger s[i]]
        0 <= i < s.len() ==> s[i].0@ != s[i].2@ && !is_derived(s[i].1@))
    &&& (forall|i: int, j: int| #![trigger s[i], s[j]]
        0 <= i < s.len() && 0 <= j < s.len() && i != j ==> s[i].0@ != s[j].0@ && s[i].1@
            != s[j].1@ && s[i].2@ != s[j].2@)
    &&& (forall|i: int, j: int| #![trigger s[i], s[j]]
        0 <= i < s.len() && 0 <= j < s.len() ==> s[i].0@ != s[j].2@)
}

impl Pallet {
    /// Dispatches an operation under `origin`; with `filtered` set, the
    /// control plane's own operations are rejected before any logic runs.
    pub fn dispatch(
        &mut self,
        ledger: &mut Ledger,
        height: u64,
        origin: &AccountId,
        filtered: bool,
        call: &Call,
    ) -> (r: Result<Option<Event>, DispatchError>)
        requires
            old(self).wf(),
            old(ledger).wf(),
        ensures
            final(self).wf(),
            final(ledger).wf(),
            dispatch_rel(
                old(self)@,
                old(ledger)@,
                height,
                origin@,
                filtered,
                *call,
                final(self)@,
                final(ledger)@,
                r,
            ),
        decreases call_depth(*call), 0int,
    {
        if filtered && !filter_allows(call) {
            return Err(DispatchError::Filtered);
        }
        match call {
            Call::CreateStableAccount { magic_account, stashed } => {
                match self.create_stable_account(ledger, height, origin, magic_account, *stashed) {
                    Ok(ev) => Ok(Some(ev)),
                    Err(e) => Err(DispatchError::Module(e)),
                }
            },
            Call::ChangeController { new_controller } => {
                match self.change_controller(ledger, origin, new_controller) {
                    Ok(ev) => Ok(Some(ev)),
                    Err(e) => Err(DispatchError::Module(e)),
                }
            },
            Call::Codo { call: inner } => {
                match self.codo(ledger, height, origin, &**inner) {
                    Ok(ev) => Ok(Some(ev)),
                    Err(e) => Err(DispatchError::Module(e)),
                }
            },
            Call::Other { .. } => Ok(None),
        }
    }

    /// Runs an operation as the caller's stash identity, under the filter.
    ///
    /// The wrapped operation's outcome, including a filter rejection, is
    /// captured in the `Codo` event and never fails the call itself.
    pub fn codo(
        &mut self,
        ledger: &mut Ledger,
        height: u64,
        controller: &AccountId,
        call: &Call,
    ) -> (r: Result<Event, Error>)
        requires
            old(self).wf(),
            old(ledger).wf(),
        ensures
            final(self).wf(),
            final(ledger).wf(),
            codo_rel(
                old(self)@,
                old(ledger)@,
                controller@,
                *call,
                final(self)@,
                final(ledger)@,
                r,
            ),
        decreases call_depth(*call), 1int,
    {
        let stash_identity = match self.index.find_by_controller(controller) {
            Some(rec) => clone_account(&rec.stash),
            None => {
                return Err(Error::StableAccountNotFound);
            },
        };
        let inner = self.dispatch(ledger, height, &stash_identity, true, call);
        let outcome: Result<(), DispatchError> = match inner {
            Ok(_) => Ok(()),
            Err(e) => Err(e),
        };
        Ok(Event::Codo(outcome))
    }

    /// Rebuilds the stash-to-controller index from the record table once,
    /// when the stored schema version is stale; idempotent.
    pub fn on_runtime_upgrade(&mut self) -> (count: usize)
        requires
            old(self).wf(),
        ensures
            final(self).wf(),
            migrate_rel(old(self)@, final(self)@, count),
    {
        if self.version == Releases::V1 {
            return 0;
        }
        let ghost es = self.index.stable.entries@;
        let n = self.index.stable.len();
        let mut i: usize = 0;
        while i < n
            invariant
                old(self).wf(),
                self.index.stable == old(self).index.stable,
                self.index.magics == old(self).index.magics,
                self.version == old(self).version,
                es == old(self).index.stable.entries@,
                self.index.stashes.wf(),
                n == es.len(),
                i <= n,
                forall|j: int|
                    0 <= j < i ==> self.index.stashes@.contains_key(
                        #[trigger] es[j].1@.stash,
                    ) && self.index.stashes@[es[j].1@.stash] == es[j].1@.controller,
                forall|s: Seq<u8>| #[trigger]
                    self.index.stashes@.contains_key(s) ==> old(
                        self,
                    ).index.stashes@.contains_key(s) || exists|j: int|
                        0 <= j < i && (#[trigger] es[j].1@.stash) == s,
                forall|s: Seq<u8>| #[trigger]
                    old(self).index.stashes@.contains_key(s)
                        ==> self.index.stashes@.contains_key(s),
                forall|s: Seq<u8>|
                    old(self).index.stashes@.contains_key(s) && !(exists|j: int|
                        0 <= j < i && (#[trigger] es[j].1@.stash) == s)
                        ==> #[trigger] self.index.stashes@[s] == old(self).index.stashes@[s],
            decreases n - i,
        {
            proof {
                lemma_map_of_index(es, i as int);
                assert forall|j: int| 0 <= j < i implies es[j].1@.stash != es[i as int].1@.stash by {
                    lemma_map_of_index(es, j);
                    assert(es[j].0@ != es[i as int].0@);
                    assert(old(self)@.ix.stable[es[j].0@].stash == es[j].1@.stash);
                    assert(old(self)@.ix.stable[es[i as int].0@].stash == es[i as int].1@.stash);
                }
            }
            let rec = self.index.stable.value_at(i);
            let st = clone_account(&rec.stash);
            let ct = clone_account(&rec.controller);
            proof {
                assert(st@ == es[i as int].1@.stash);
                assert(ct@ == es[i as int].1@.controller);
            }
            let ghost pre_st = self.index.stashes@;
            self.index.stashes.insert(st, ct);
            proof {
                assert forall|s: Seq<u8>| #[trigger]
                    self.index.stashes@.contains_key(s) implies old(
                    self,
                ).index.stashes@.contains_key(s) || exists|j: int|
                    0 <= j < i + 1 && (#[trigger] es[j].1@.stash) == s by {
                    if s == es[i as int].1@.stash {
                        assert(0 <= i as int && (i as int) < i + 1 && es[i as int].1@.stash == s);
                    } else {
                        assert(pre_st.contains_key(s));
                        if !old(self).index.stashes@.contains_key(s) {
                            let j = choose|j: int|
                                0 <= j < i && (#[trigger] es[j].1@.stash) == s;
                            assert(0 <= j && j < i + 1 && es[j].1@.stash == s);
                        }
                    }
                }
                assert forall|s: Seq<u8>|
                    old(self).index.stashes@.contains_key(s) && !(exists|j: int|
                        0 <= j < i + 1 && (#[trigger] es[j].1@.stash) == s)
                        implies #[trigger] self.index.stashes@[s] == old(
                    self,
                ).index.stashes@[s] by {
                    assert(s != es[i as int].1@.stash);
                    if exists|j: int| 0 <= j < i && (#[trigger] es[j].1@.stash) == s {
                        let j = choose|j: int| 0 <= j < i && (#[trigger] es[j].1@.stash) == s;
                        assert(0 <= j && j < i + 1 && es[j].1@.stash == s);
                        assert(false);
                    }
                }
            }
            i = i + 1;
        }
        self.version = Releases::V1;
        proof {
            let pre = old(self)@;
            let post = self@;
            lemma_map_of_len(es);
            assert forall|c: Seq<u8>| #[trigger]
                pre.ix.stable.contains_key(c) implies post.ix.stashes.contains_key(
                pre.ix.stable[c].stash,
            ) && post.ix.stashes[pre.ix.stable[c].stash] == c by {
                lemma_map_of_contains(es, c);
                let j = choose|j: int| 0 <= j < es.len() && es[j].0@ == c;
                lemma_map_of_index(es, j);
            }
            assert forall|s: Seq<u8>| #[trigger]
                post.ix.stashes.contains_key(s) && !pre.ix.stashes.contains_key(
                s,
            ) implies stash_owned(pre.ix, s) by {
                let j = choose|j: int| 0 <= j < n && (#[trigger] es[j].1@.stash) == s;
                lemma_map_of_index(es, j);
                assert(pre.ix.stable.contains_key(es[j].0@) && pre.ix.stable[es[j].0@].stash == s);
            }
            assert forall|s: Seq<u8>|
                pre.ix.stashes.contains_key(s) && !stash_owned(pre.ix, s) implies #[trigger]
                post.ix.stashes[s] == pre.ix.stashes[s] by {
                assert forall|j: int| 0 <= j < n implies es[j].1@.stash != s by {
                    lemma_map_of_index(es, j);
                    assert(pre.ix.stable.contains_key(es[j].0@));
                }
            }
            // The rebuilt cache still satisfies the index invariants.
            assert(post.ix.stable == pre.ix.stable);
            assert(post.ix.magics == pre.ix.magics);
            assert forall|c: Seq<u8>| #[trigger]
                post.ix.stable.contains_key(c) implies post.ix.stable[c].controller == c
                && post.ix.stable[c].magic != c && post.ix.magics.contains_key(
                post.ix.stable[c].magic,
            ) && post.ix.magics[post.ix.stable[c].magic] == c && !post.ix.magics.contains_key(c)
                && (is_derived(post.ix.stable[c].stash) ==> post.ix.stable[c].stash == derive_seq(
                post.ix.stable[c].magic,
                post.ix.stable[c].created,
            )) by {
                assert(pre.ix.stable.contains_key(c));
            }
            assert forall|m: Seq<u8>| #[trigger]
                post.ix.magics.contains_key(m) implies post.ix.stable.contains_key(
                post.ix.magics[m],
            ) && post.ix.stable[post.ix.magics[m]].magic == m by {
                assert(pre.ix.magics.contains_key(m));
            }
            assert forall|c1: Seq<u8>, c2: Seq<u8>|
                #![trigger post.ix.stable[c1].stash, post.ix.stable[c2].stash]
                post.ix.stable.contains_key(c1) && post.ix.stable.contains_key(c2) && c1
                    != c2 implies post.ix.stable[c1].stash != post.ix.stable[c2].stash by {
                if post.ix.stable.contains_key(c1) && post.ix.stable.contains_key(c2) && c1 != c2 {
                    assert(pre.ix.stable.contains_key(c1) && pre.ix.stable.contains_key(c2));
                    assert(pre.ix.stable[c1].stash != pre.ix.stable[c2].stash);
                }
            }
            assert forall|c: Seq<u8>| #[trigger]
                post.ix.stable.contains_key(c) implies post.ix.stashes.contains_key(
                post.ix.stable[c].stash,
            ) && post.ix.stashes[post.ix.stable[c].stash] == c by {
                assert(pre.ix.stable.contains_key(c));
            }
            assert forall|s: Seq<u8>| #[trigger]
                post.ix.stashes.contains_key(s) implies post.ix.stable.contains_key(
                post.ix.stashes[s],
            ) && post.ix.stable[post.ix.stashes[s]].stash == s by {
                if stash_owned(pre.ix, s) {
                    let c = choose|c: Seq<u8>|
                        pre.ix.stable.contains_key(c) && pre.ix.stable[c].stash == s;
                    assert(post.ix.stashes[s] == c);
                } else {
                    assert(pre.ix.stashes.contains_key(s));
                    assert(pre.ix.stable.contains_key(pre.ix.stashes[s])
                        && pre.ix.stable[pre.ix.stashes[s]].stash == s);
                    assert(stash_owned(pre.ix, s));
                }
            }
        }
        n
    }
}

/// The bootstrap list: `(magic, stash, controller)` triples that populate
/// all three tables directly, bypassing fund transfers.
pub struct GenesisConfig {
    pub accounts: Vec<(AccountId, AccountId, AccountId)>,
}

impl Default for GenesisConfig {
    /// An empty bootstrap list.
    fn default() -> (r: Self)
        ensures
            r.accounts@.len() == 0,
    {
        GenesisConfig { accounts: Vec::new() }
    }
}

impl GenesisConfig {
    /// Builds a control plane holding exactly the given delegations, each
    /// recorded at height zero.
    pub fn build(&self) -> (p: Pallet)
        requires
            genesis_wf(self.accounts@),
        ensures
            p.wf(),
            p@.version == Releases::V0,
            forall|i: int| #![trigger self.accounts@[i]]
                0 <= i < self.accounts@.len() ==> {
                    let t = self.accounts@[i];
                    &&& p@.ix.stable.contains_key(t.2@)
                    &&& p@.ix.stable[t.2@] == (RecordView {
                        stash: t.1@,
                        controller: t.2@,
                        magic: t.0@,
                        created: 0u64,
                    })
                    &&& p@.ix.magics.contains_key(t.0@) && p@.ix.magics[t.0@] == t.2@
                    &&& p@.ix.stashes.contains_key(t.1@) && p@.ix.stashes[t.1@] == t.2@
                },
            forall|c: Seq<u8>| #[trigger]
                p@.ix.stable.contains_key(c) ==> exists|i: int|
                    0 <= i < self.accounts@.len() && c == (#[trigger] self.accounts@[i]).2@,
            forall|m: Seq<u8>| #[trigger]
                p@.ix.magics.contains_key(m) ==> exists|i: int|
                    0 <= i < self.accounts@.len() && m == (#[trigger] self.accounts@[i]).0@,
            forall|st: Seq<u8>| #[trigger]
                p@.ix.stashes.contains_key(st) ==> exists|i: int|
                    0 <= i < self.accounts@.len() && st == (#[trigger] self.accounts@[i]).1@,
    {
        let ghost s = self.accounts@;
        let mut p = Pallet::new();
        let n = self.accounts.len();
        let mut i: usize = 0;
        while i < n
            invariant
                genesis_wf(s),
                s == self.accounts@,
                n == s.len(),
                i <= n,
                p.wf(),
                p@.version == Releases::V0,
                forall|j: int| #![trigger s[j]]
                    0 <= j < i ==> p@.ix.stable.contains_key(s[j].2@) && p@.ix.stable[s[j].2@]
                        == (RecordView {
                        stash: s[j].1@,
                        controller: s[j].2@,
                        magic: s[j].0@,
                        created: 0u64,
                    }) && p@.ix.magics.contains_key(s[j].0@) && p@.ix.magics[s[j].0@] == s[j].2@
                        && p@.ix.stashes.contains_key(s[j].1@) && p@.ix.stashes[s[j].1@] == s[j].2@,
                forall|c: Seq<u8>| #[trigger]
                    p@.ix.stable.contains_key(c) ==> exists|j: int|
                        0 <= j < i && c == (#[trigger] s[j]).2@,
                forall|m: Seq<u8>| #[trigger]
                    p@.ix.magics.contains_key(m) ==> exists|j: int|
                        0 <= j < i && m == (#[trigger] s[j]).0@,
                forall|st: Seq<u8>| #[trigger]
                    p@.ix.stashes.contains_key(st) ==> exists|j: int|
                        0 <= j < i && st == (#[trigger] s[j]).1@,
            decreases n - i,
        {
            let t = &self.accounts[i];
            let record = DelegationRecord {
                stash: clone_account(&t.1),
                controller: clone_account(&t.2),
                magic: clone_account(&t.0),
                created: 0,
            };
            proof {
                assert(record@ =~= RecordView {
                    stash: s[i as int].1@,
                    controller: s[i as int].2@,
                    magic: s[i as int].0@,
                    created: 0u64,
                });
                assert(insert_guard(p@.ix, record@.controller, record@.magic) is None);
                assert forall|c: Seq<u8>| #[trigger]
                    p@.ix.stable.contains_key(c) implies p@.ix.stable[c].stash
                    != record@.stash by {
                    let j = choose|j: int| 0 <= j < i && c == (#[trigger] s[j]).2@;
                    assert(s[j].1@ != s[i as int].1@);
                }
                lemma_insert_preserves_inv(p@.ix, record@);
            }
            let ghost pre = p@.ix;
            let ins = p.index.insert(record);
            proof {
                assert(ins is Ok);
                assert forall|c: Seq<u8>| #[trigger]
                    p@.ix.stable.contains_key(c) implies exists|j: int|
                    0 <= j < i + 1 && c == (#[trigger] s[j]).2@ by {
                    if c == s[i as int].2@ {
                        assert(0 <= i as int && (i as int) < i + 1 && c == s[i as int].2@);
                    } else {
                        assert(pre.stable.contains_key(c));
                    }
                }
                assert forall|m: Seq<u8>| #[trigger]
                    p@.ix.magics.contains_key(m) implies exists|j: int|
                    0 <= j < i + 1 && m == (#[trigger] s[j]).0@ by {
                    if m == s[i as int].0@ {
                        assert(0 <= i as int && (i as int) < i + 1 && m == s[i as int].0@);
                    } else {
                        assert(pre.magics.contains_key(m));
                    }
                }
                assert forall|st: Seq<u8>| #[trigger]
                    p@.ix.stashes.contains_key(st) implies exists|j: int|
                    0 <= j < i + 1 && st == (#[trigger] s[j]).1@ by {
                    if st == s[i as int].1@ {
                        assert(0 <= i as int && (i as int) < i + 1 && st == s[i as int].1@);
                    } else {
                        assert(pre.stashes.contains_key(st));
                    }
                }
            }
            i = i + 1;
        }
        p
    }
}

} // verus!
