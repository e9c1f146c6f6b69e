//! The plane-wide laws: statements that relate several operations or all
//! reachable states, proved from the operations' contracts alone.

use vstd::prelude::*;

use crate::index::{index_inv, insert_guard, IndexView};
use crate::ledger::LedgerView;
use crate::pallet::{
    change_rel, codo_event, codo_rel, create_guard, create_rel, deposit_of, is_control_plane,
    migrate_rel, Call, DispatchError, Error, Event, PalletView, Releases,
};

verus! {

/// Uniqueness: two active records never share a controller key (they are
/// the index's keys), a magic key, or a stash.
pub proof fn lemma_active_identities_unique(ix: IndexView, c1: Seq<u8>, c2: Seq<u8>)
    requires
        index_inv(ix),
        ix.stable.contains_key(c1),
        ix.stable.contains_key(c2),
        c1 != c2,
    ensures
        ix.stable[c1].magic != ix.stable[c2].magic,
        ix.stable[c1].stash != ix.stable[c2].stash,
{
    if ix.stable[c1].magic == ix.stable[c2].magic {
        assert(ix.magics[ix.stable[c1].magic] == c1);
        assert(ix.magics[ix.stable[c2].magic] == c2);
    }
}

/// Uniqueness: after a successful creation, reusing its magic key, or its
/// controller key, in a second creation fails with the matching error.
pub proof fn lemma_creation_reuse_fails(
    pre_p: PalletView,
    pre_l: LedgerView,
    c1: Seq<u8>,
    m1: Seq<u8>,
    stashed: u128,
    height: u64,
    post_p: PalletView,
    post_l: LedgerView,
    r: Result<Event, Error>,
    c2: Seq<u8>,
    m2: Seq<u8>,
    stashed2: u128,
)
    requires
        create_rel(pre_p, pre_l, c1, m1, stashed, height, post_p, post_l, r),
        r is Ok,
        c2 != m2,
    ensures
        m2 == m1 ==> (create_guard(post_p.ix, post_l, c2, m2, stashed2) == Some(
            Error::MagicAccountUsed,
        )),
        c2 == c1 && !post_p.ix.magics.contains_key(m2) ==> (create_guard(
            post_p.ix,
            post_l,
            c2,
            m2,
            stashed2,
        ) == Some(Error::ControllerAccountUsed)),
{
}

/// A refused creation changes neither the index nor the ledger.
pub proof fn lemma_failed_creation_changes_nothing(
    pre_p: PalletView,
    pre_l: LedgerView,
    controller: Seq<u8>,
    magic: Seq<u8>,
    stashed: u128,
    height: u64,
    post_p: PalletView,
    post_l: LedgerView,
    r: Result<Event, Error>,
)
    requires
        create_rel(pre_p, pre_l, controller, magic, stashed, height, post_p, post_l, r),
        r is Err,
    ensures
        post_p == pre_p,
        post_l == pre_l,
{
}

/// Distinctness: a creation whose controller equals its magic key is
/// always refused as such, with no effect.
pub proof fn lemma_controller_equal_magic_rejected(
    pre_p: PalletView,
    pre_l: LedgerView,
    id: Seq<u8>,
    stashed: u128,
    height: u64,
    post_p: PalletView,
    post_l: LedgerView,
    r: Result<Event, Error>,
)
    requires
        create_rel(pre_p, pre_l, id, id, stashed, height, post_p, post_l, r),
    ensures
        r matches Err(e) && e == Error::ControllerEqualToMagic,
        post_p == pre_p,
        post_l == pre_l,
{
}

/// Funding: a creation whose controller cannot cover minimum, deposit and
/// stash together is refused as underfunded, and no transfer occurs.
pub proof fn lemma_underfunded_creation_rejected(
    pre_p: PalletView,
    pre_l: LedgerView,
    controller: Seq<u8>,
    magic: Seq<u8>,
    stashed: u128,
    height: u64,
    post_p: PalletView,
    post_l: LedgerView,
    r: Result<Event, Error>,
)
    requires
        create_rel(pre_p, pre_l, controller, magic, stashed, height, post_p, post_l, r),
        insert_guard(pre_p.ix, controller, magic) is None,
        pre_l.balances[controller] - pre_l.minimum < deposit_of(pre_l.minimum) + stashed,
    ensures
        r matches Err(e) && e == Error::InsufficientBalance,
        post_p == pre_p,
        post_l == pre_l,
{
}

/// Re-keying: after a successful `change_controller`, the old controller
/// no longer resolves, the new one does, stash and magic are unchanged,
/// and the old controller's whole balance now belongs to the new
/// controller.  The balance clause assumes the record's stash is not the
/// new controller itself, so the attempted deposit refund cannot touch
/// the new controller's account.
pub proof fn lemma_rekey_effects(
    pre_p: PalletView,
    pre_l: LedgerView,
    magic: Seq<u8>,
    nc: Seq<u8>,
    post_p: PalletView,
    post_l: LedgerView,
    r: Result<Event, Error>,
)
    requires
        index_inv(pre_p.ix),
        change_rel(pre_p, pre_l, magic, nc, post_p, post_l, r),
        r is Ok,
        pre_p.ix.stable[pre_p.ix.magics[magic]].stash != nc,
        pre_l.balances[nc] + pre_l.balances[pre_p.ix.magics[magic]] <= u128::MAX,
    ensures
        !post_p.ix.stable.contains_key(pre_p.ix.magics[magic]),
        post_p.ix.stable.contains_key(nc),
        post_p.ix.stable[nc].stash == pre_p.ix.stable[pre_p.ix.magics[magic]].stash,
        post_p.ix.stable[nc].magic == pre_p.ix.stable[pre_p.ix.magics[magic]].magic,
        post_l.balances[pre_p.ix.magics[magic]] == 0,
        post_l.balances[nc] == pre_l.balances[nc] + pre_l.balances[pre_p.ix.magics[magic]],
{
    let oc = pre_p.ix.magics[magic];
    assert(pre_p.ix.stable.contains_key(oc));
    assert(!pre_p.ix.stable.contains_key(nc));
    assert(oc != nc);
    assert(nc != magic);
    assert(magic != oc);
    let min = pre_l.minimum;
    let l1 = crate::ledger::transfer_map(pre_l.balances, min, oc, nc, pre_l.balances[oc], false);
    assert(l1[nc] == pre_l.balances[nc] + pre_l.balances[oc]);
    assert(l1[oc] == 0);
}

/// The filter: a control-plane operation dispatched through the proxy is
/// always rejected by the filter, never executes, and mutates nothing.
pub proof fn lemma_filter_blocks_control_plane(
    pre_p: PalletView,
    pre_l: LedgerView,
    controller: Seq<u8>,
    call: Call,
    post_p: PalletView,
    post_l: LedgerView,
    r: Result<Event, Error>,
)
    requires
        codo_rel(pre_p, pre_l, controller, call, post_p, post_l, r),
        is_control_plane(call),
    ensures
        post_p == pre_p,
        post_l == pre_l,
        pre_p.ix.stable.contains_key(controller) ==> (r matches Ok(ev) && codo_event(
            ev,
            Err(DispatchError::Filtered),
        )),
{
}

/// Idempotence: running the migration twice leaves the same state as
/// running it once, and the second run performs no mutation.
pub proof fn lemma_migration_idempotent(
    a: PalletView,
    b: PalletView,
    c: PalletView,
    n1: usize,
    n2: usize,
)
    requires
        migrate_rel(a, b, n1),
        migrate_rel(b, c, n2),
    ensures
        c == b,
        n2 == 0,
{
    assert(b.version == Releases::V1);
}

/// On a plane whose invariants hold, the migration's rebuild is invisible:
/// only the schema version can change.
pub proof fn lemma_migration_preserves_consistent_index(
    pre: PalletView,
    post: PalletView,
    n: usize,
)
    requires
        index_inv(pre.ix),
        index_inv(post.ix),
        migrate_rel(pre, post, n),
    ensures
        post.ix == pre.ix,
{
    if pre.version != Releases::V1 {
        lemma_stash_index_rebuildable(pre.ix, post.ix);
    }
    assert(post.ix =~= pre.ix);
}

/// The stash index is a cache: it is determined by the record table alone,
/// so it can always be rebuilt from it.
pub proof fn lemma_stash_index_rebuildable(ix1: IndexView, ix2: IndexView)
    requires
        index_inv(ix1),
        index_inv(ix2),
        ix1.stable == ix2.stable,
    ensures
        ix1.stashes == ix2.stashes,
{
    assert forall|s: Seq<u8>| #[trigger]
        ix1.stashes.contains_key(s) implies ix2.stashes.contains_key(s) && ix2.stashes[s]
        == ix1.stashes[s] by {
        let c = ix1.stashes[s];
        assert(ix1.stable.contains_key(c) && ix1.stable[c].stash == s);
        assert(ix2.stable.contains_key(c));
        assert(ix2.stashes.contains_key(ix2.stable[c].stash) && ix2.stashes[ix2.stable[c].stash]
            == c);
    }
    assert forall|s: Seq<u8>| #[trigger]
        ix2.stashes.contains_key(s) implies ix1.stashes.contains_key(s) by {
        let c = ix2.stashes[s];
        assert(ix2.stable.contains_key(c) && ix2.stable[c].stash == s);
        assert(ix1.stable.contains_key(c));
        assert(ix1.stashes.contains_key(ix1.stable[c].stash));
    }
    assert(ix1.stashes =~= ix2.stashes);
}

} // verus!
