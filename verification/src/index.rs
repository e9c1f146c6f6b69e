//! The account index: three mutually consistent lookup tables relating
//! magic, controller and stash identities.

use vstd::prelude::*;

use crate::account::{account_eq, clone_account, derive_seq, is_derived, AccountId};
use crate::pallet::Error;
use crate::table::Table;

verus! {

/// A delegation record: the three identities and the creation height.
pub struct DelegationRecord {
    /// The custodial account, derived at creation, never reassigned.
    pub stash: AccountId,
    /// The identity currently authorized to manage the record.
    pub controller: AccountId,
    /// The identity that originated the delegation; immutable.
    pub magic: AccountId,
    /// Block height at creation; immutable.
    pub created: u64,
}

/// The mathematical content of a delegation record.
#[verifier::ext_equal]
pub ghost struct RecordView {
    pub stash: Seq<u8>,
    pub controller: Seq<u8>,
    pub magic: Seq<u8>,
    pub created: u64,
}

impl View for DelegationRecord {
    type V = RecordView;

    open spec fn view(&self) -> RecordView {
        RecordView {
            stash: self.stash@,
            controller: self.controller@,
            magic: self.magic@,
            created: self.created,
        }
    }
}

impl DelegationRecord {
    /// An owned copy of the record.
    pub fn duplicate(&self) -> (r: Self)
        ensures
            r@ == self@,
    {
        let r = DelegationRecord {
            stash: clone_account(&self.stash),
            controller: clone_account(&self.controller),
            magic: clone_account(&self.magic),
            created: self.created,
        };
        proof {
            assert(r@ =~= self@);
        }
        r
    }
}

/// The three lookup tables, as maps over identity bytes.
#[verifier::ext_equal]
pub ghost struct IndexView {
    /// controller -> record
    pub stable: Map<Seq<u8>, RecordView>,
    /// magic -> controller
    pub magics: Map<Seq<u8>, Seq<u8>>,
    /// stash -> controller
    pub stashes: Map<Seq<u8>, Seq<u8>>,
}

/// The record and magic tables agree: each record sits under its own
/// controller, controller and magic determine each other, no identity is
/// both, stashes are unique, and a derived-shaped stash really is the
/// derivation of its record's magic and height.
pub open spec fn inv_core(ix: IndexView) -> bool {
    &&& (forall|c: Seq<u8>| #[trigger]
        ix.stable.contains_key(c) ==> ix.stable[c].controller == c && ix.stable[c].magic != c
            && ix.magics.contains_key(ix.stable[c].magic) && ix.magics[ix.stable[c].magic] == c
            && !ix.magics.contains_key(c) && (is_derived(ix.stable[c].stash)
            ==> ix.stable[c].stash == derive_seq(ix.stable[c].magic, ix.stable[c].created)))
    &&& (forall|m: Seq<u8>| #[trigger]
        ix.magics.contains_key(m) ==> ix.stable.contains_key(ix.magics[m])
            && ix.stable[ix.magics[m]].magic == m)
    &&& (forall|c1: Seq<u8>, c2: Seq<u8>|
        #![trigger ix.stable[c1].stash, ix.stable[c2].stash]
        ix.stable.contains_key(c1) && ix.stable.contains_key(c2) && c1 != c2
            ==> ix.stable[c1].stash != ix.stable[c2].stash)
}

/// The stash table is exactly the stash-to-controller relation of the
/// record table: the cache is consistent and rebuildable.
pub open spec fn stash_consistent(ix: IndexView) -> bool {
    &&& (forall|c: Seq<u8>| #[trigger]
        ix.stable.contains_key(c) ==> ix.stashes.contains_key(ix.stable[c].stash)
            && ix.stashes[ix.stable[c].stash] == c)
    &&& (forall|s: Seq<u8>| #[trigger]
        ix.stashes.contains_key(s) ==> ix.stable.contains_key(ix.stashes[s])
            && ix.stable[ix.stashes[s]].stash == s)
}

/// All index invariants together.
pub open spec fn index_inv(ix: IndexView) -> bool {
    inv_core(ix) && stash_consistent(ix)
}

/// The first violated precondition of inserting a record, if any.
pub open spec fn insert_guard(ix: IndexView, controller: Seq<u8>, magic: Seq<u8>) -> Option<
    Error,
> {
    if controller == magic {
        Some(Error::ControllerEqualToMagic)
    } else if ix.magics.contains_key(magic) {
        Some(Error::MagicAccountUsed)
    } else if ix.magics.contains_key(controller) {
        Some(Error::ControllerAccountUsed)
    } else if ix.stable.contains_key(controller) {
        Some(Error::ControllerAccountUsed)
    } else if ix.stable.contains_key(magic) {
        Some(Error::MagicAccountUsed)
    } else {
        None
    }
}

/// The index after inserting a record.
pub open spec fn inserted(ix: IndexView, r: RecordView) -> IndexView {
    IndexView {
        stable: ix.stable.insert(r.controller, r),
        magics: ix.magics.insert(r.magic, r.controller),
        stashes: ix.stashes.insert(r.stash, r.controller),
    }
}

/// The index after re-keying the record of `oc` to `nc`.
pub open spec fn rekeyed(ix: IndexView, oc: Seq<u8>, nc: Seq<u8>) -> IndexView {
    let r = ix.stable[oc];
    IndexView {
        stable: ix.stable.remove(oc).insert(
            nc,
            RecordView { stash: r.stash, controller: nc, magic: r.magic, created: r.created },
        ),
        magics: ix.magics.insert(r.magic, nc),
        stashes: ix.stashes.insert(r.stash, nc),
    }
}

/// Inserting a record with fresh identities and a fresh stash preserves
/// the index invariants.
pub proof fn lemma_insert_preserves_inv(ix: IndexView, r: RecordView)
    requires
        index_inv(ix),
        insert_guard(ix, r.controller, r.magic) is None,
        is_derived(r.stash) ==> r.stash == derive_seq(r.magic, r.created),
        forall|c: Seq<u8>| #[trigger]
            ix.stable.contains_key(c) ==> ix.stable[c].stash != r.stash,
    ensures
        index_inv(inserted(ix, r)),
{
    let post = inserted(ix, r);
    assert forall|c: Seq<u8>| #[trigger]
        post.stable.contains_key(c) implies post.stable[c].controller == c
        && post.stable[c].magic != c && post.magics.contains_key(post.stable[c].magic)
        && post.magics[post.stable[c].magic] == c && !post.magics.contains_key(c) && (is_derived(
        post.stable[c].stash,
    ) ==> post.stable[c].stash == derive_seq(post.stable[c].magic, post.stable[c].created)) by {
        if c != r.controller {
            assert(ix.stable.contains_key(c));
            assert(ix.stable[c].magic != r.magic);
            assert(c != r.magic);
        }
    }
    assert forall|m: Seq<u8>| #[trigger]
        post.magics.contains_key(m) implies post.stable.contains_key(post.magics[m])
        && post.stable[post.magics[m]].magic == m by {
        if m != r.magic {
            assert(ix.magics.contains_key(m));
            assert(ix.magics[m] != r.controller);
        }
    }
    assert forall|c1: Seq<u8>, c2: Seq<u8>|
        #![trigger post.stable[c1].stash, post.stable[c2].stash]
        post.stable.contains_key(c1) && post.stable.contains_key(c2) && c1
            != c2 implies post.stable[c1].stash != post.stable[c2].stash by {
        if c1 == r.controller {
            assert(ix.stable.contains_key(c2));
        } else if c2 == r.controller {
            assert(ix.stable.contains_key(c1));
        }
    }
    assert forall|c: Seq<u8>| #[trigger]
        post.stable.contains_key(c) implies post.stashes.contains_key(post.stable[c].stash)
        && post.stashes[post.stable[c].stash] == c by {
        if c != r.controller {
            assert(ix.stable.contains_key(c));
            assert(ix.stable[c].stash != r.stash);
        }
    }
    assert forall|s: Seq<u8>| #[trigger]
        post.stashes.contains_key(s) implies post.stable.contains_key(post.stashes[s])
        && post.stable[post.stashes[s]].stash == s by {
        if s != r.stash {
            assert(ix.stashes.contains_key(s));
            assert(ix.stable.contains_key(ix.stashes[s]));
            assert(ix.stashes[s] != r.controller);
        }
    }
}

/// Re-keying a record to a fresh controller preserves the index invariants.
pub proof fn lemma_rekey_preserves_inv(ix: IndexView, oc: Seq<u8>, nc: Seq<u8>)
    requires
        index_inv(ix),
        ix.stable.contains_key(oc),
        !ix.magics.contains_key(nc),
        !ix.stable.contains_key(nc),
        nc != ix.stable[oc].magic,
    ensures
        index_inv(rekeyed(ix, oc, nc)),
{
    let r = ix.stable[oc];
    let post = rekeyed(ix, oc, nc);
    assert(nc != oc);
    assert forall|c: Seq<u8>| #[trigger]
        post.stable.contains_key(c) implies post.stable[c].controller == c
        && post.stable[c].magic != c && post.magics.contains_key(post.stable[c].magic)
        && post.magics[post.stable[c].magic] == c && !post.magics.contains_key(c) && (is_derived(
        post.stable[c].stash,
    ) ==> post.stable[c].stash == derive_seq(post.stable[c].magic, post.stable[c].created)) by {
        if c != nc {
            assert(ix.stable.contains_key(c));
            assert(ix.stable[c].magic != r.magic) by {
                if ix.stable[c].magic == r.magic {
                    assert(ix.magics[r.magic] == c);
                    assert(ix.magics[r.magic] == oc);
                }
            }
            assert(c != r.magic);
        }
    }
    assert forall|m: Seq<u8>| #[trigger]
        post.magics.contains_key(m) implies post.stable.contains_key(post.magics[m])
        && post.stable[post.magics[m]].magic == m by {
        if m != r.magic {
            assert(ix.magics.contains_key(m));
            assert(ix.magics[m] != oc) by {
                if ix.magics[m] == oc {
                    assert(ix.stable[oc].magic == m);
                }
            }
            assert(ix.magics[m] != nc);
        }
    }
    assert forall|c1: Seq<u8>, c2: Seq<u8>|
        #![trigger post.stable[c1].stash, post.stable[c2].stash]
        post.stable.contains_key(c1) && post.stable.contains_key(c2) && c1
            != c2 implies post.stable[c1].stash != post.stable[c2].stash by {
        if c1 == nc {
            assert(ix.stable.contains_key(c2) && c2 != oc);
            assert(ix.stable[oc].stash != ix.stable[c2].stash);
        } else if c2 == nc {
            assert(ix.stable.contains_key(c1) && c1 != oc);
            assert(ix.stable[oc].stash != ix.stable[c1].stash);
        }
    }
    assert forall|c: Seq<u8>| #[trigger]
        post.stable.contains_key(c) implies post.stashes.contains_key(post.stable[c].stash)
        && post.stashes[post.stable[c].stash] == c by {
        if c != nc {
            assert(ix.stable.contains_key(c) && c != oc);
            assert(ix.stable[c].stash != r.stash);
        }
    }
    assert forall|s: Seq<u8>| #[trigger]
        post.stashes.contains_key(s) implies post.stable.contains_key(post.stashes[s])
        && post.stable[post.stashes[s]].stash == s by {
        if s != r.stash {
            assert(ix.stashes.contains_key(s));
            let c3 = ix.stashes[s];
            assert(ix.stable.contains_key(c3));
            assert(c3 != oc) by {
                if c3 == oc {
                    assert(ix.stable[oc].stash == s);
                }
            }
            assert(c3 != nc);
        }
    }
}

/// The three lookup tables.
pub struct AccountIndex {
    pub stable: Table<DelegationRecord>,
    pub magics: Table<AccountId>,
    pub stashes: Table<AccountId>,
}

impl View for AccountIndex {
    type V = IndexView;

    open spec fn view(&self) -> IndexView {
        IndexView { stable: self.stable@, magics: self.magics@, stashes: self.stashes@ }
    }
}

impl AccountIndex {
    /// The tables are well formed.
    pub open spec fn wf(self) -> bool {
        self.stable.wf() && self.magics.wf() && self.stashes.wf()
    }

    /// An empty index.
    pub fn new() -> (r: Self)
        ensures
            r.wf(),
            r@.stable == Map::<Seq<u8>, RecordView>::empty(),
            r@.magics == Map::<Seq<u8>, Seq<u8>>::empty(),
            r@.stashes == Map::<Seq<u8>, Seq<u8>>::empty(),
            index_inv(r@),
    {
        AccountIndex { stable: Table::new(), magics: Table::new(), stashes: Table::new() }
    }

    /// The record a controller manages, if any.
    pub fn find_by_controller<'a>(&'a self, controller: &AccountId) -> (r: Option<
        &'a DelegationRecord,
    >)
        requires
            self.wf(),
        ensures
            match r {
                Some(rec) => self@.stable.contains_key(controller@) && rec@
                    == self@.stable[controller@],
                None => !self@.stable.contains_key(controller@),
            },
    {
        self.stable.get(controller)
    }

    /// The controller a magic key authorized, if any.
    pub fn find_controller_by_magic<'a>(&'a self, magic: &AccountId) -> (r: Option<&'a AccountId>)
        requires
            self.wf(),
        ensures
            match r {
                Some(c) => self@.magics.contains_key(magic@) && c@ == self@.magics[magic@],
                None => !self@.magics.contains_key(magic@),
            },
    {
        self.magics.get(magic)
    }

    /// The controller of a stash account, if any.
    pub fn find_controller_by_stash<'a>(&'a self, stash: &AccountId) -> (r: Option<&'a AccountId>)
        requires
            self.wf(),
        ensures
            match r {
                Some(c) => self@.stashes.contains_key(stash@) && c@ == self@.stashes[stash@],
                None => !self@.stashes.contains_key(stash@),
            },
    {
        self.stashes.get(stash)
    }

    /// Inserts a record into all three tables after one pre-flight pass
    /// over the uniqueness and distinctness preconditions.
    pub fn insert(&mut self, record: DelegationRecord) -> (r: Result<(), Error>)
        requires
            old(self).wf(),
        ensures
            final(self).wf(),
            match r {
                Ok(_) => insert_guard(old(self)@, record.controller@, record.magic@) is None
                    && final(self)@ == inserted(old(self)@, record@),
                Err(e) => insert_guard(old(self)@, record.controller@, record.magic@) == Some(e)
                    && final(self)@ == old(self)@,
            },
    {
        if account_eq(&record.controller, &record.magic) {
            return Err(Error::ControllerEqualToMagic);
        }
        if self.magics.contains(&record.magic) {
            return Err(Error::MagicAccountUsed);
        }
        if self.magics.contains(&record.controller) {
            return Err(Error::ControllerAccountUsed);
        }
        if self.stable.contains(&record.controller) {
            return Err(Error::ControllerAccountUsed);
        }
        if self.stable.contains(&record.magic) {
            return Err(Error::MagicAccountUsed);
        }
        self.magics.insert(clone_account(&record.magic), clone_account(&record.controller));
        self.stashes.insert(clone_account(&record.stash), clone_account(&record.controller));
        self.stable.insert(clone_account(&record.controller), record);
        proof {
            assert(final(self)@ =~= inserted(old(self)@, record@));
        }
        Ok(())
    }

    /// Moves the record of `old_controller` under `new_controller` and
    /// repoints the magic and stash entries at the new controller.
    pub fn rekey(&mut self, old_controller: &AccountId, new_controller: &AccountId)
        requires
            old(self).wf(),
            old(self)@.stable.contains_key(old_controller@),
        ensures
            final(self).wf(),
            final(self)@ == rekeyed(old(self)@, old_controller@, new_controller@),
    {
        let rec = match self.stable.get(old_controller) {
            Some(rec) => rec.duplicate(),
            None => {
                proof {
                    assert(false);
                }
                return ;
            },
        };
        self.stable.remove(old_controller);
        let new_rec = DelegationRecord {
            stash: clone_account(&rec.stash),
            controller: clone_account(new_controller),
            magic: clone_account(&rec.magic),
            created: rec.created,
        };
        self.stable.insert(clone_account(new_controller), new_rec);
        self.magics.insert(clone_account(&rec.magic), clone_account(new_controller));
        self.stashes.insert(clone_account(&rec.stash), clone_account(new_controller));
        proof {
            assert(final(self)@ =~= rekeyed(old(self)@, old_controller@, new_controller@));
        }
    }
}

} // verus!
