//! A small key-value table keyed by account identities.
//!
//! The table is a vector of entries with pairwise distinct keys; its view is
//! the mathematical map from key bytes to the view of the stored value.

use vstd::prelude::*;

use crate::account::{account_eq, AccountId};

verus! {

/// The map described by a sequence of entries; later entries win.
pub open spec fn map_of<V: View>(s: Seq<(AccountId, V)>) -> Map<Seq<u8>, <V as View>::V>
    decreases s.len(),
{
    if s.len() == 0 {
        Map::empty()
    } else {
        map_of(s.drop_last()).insert(s.last().0@, s.last().1@)
    }
}

/// Pairwise distinct keys.
pub open spec fn distinct_keys<V>(s: Seq<(AccountId, V)>) -> bool {
    forall|i: int, j: int| 0 <= i < j < s.len() ==> s[i].0@ != s[j].0@
}

/// A key is in the map exactly when some entry carries it.
pub proof fn lemma_map_of_contains<V: View>(s: Seq<(AccountId, V)>, k: Seq<u8>)
    ensures
        map_of(s).contains_key(k) <==> (exists|i: int| 0 <= i < s.len() && s[i].0@ == k),
    decreases s.len(),
{
    if s.len() > 0 {
        let dl = s.drop_last();
        lemma_map_of_contains(dl, k);
        if s.last().0@ == k {
            assert(s[s.len() - 1].0@ == k);
        } else {
            if exists|i: int| 0 <= i < s.len() && s[i].0@ == k {
                let i = choose|i: int| 0 <= i < s.len() && s[i].0@ == k;
                assert(dl[i].0@ == k);
            }
        }
    }
}

/// With distinct keys, the map sends each entry's key to that entry's value.
pub proof fn lemma_map_of_index<V: View>(s: Seq<(AccountId, V)>, i: int)
    requires
        distinct_keys(s),
        0 <= i < s.len(),
    ensures
        map_of(s).contains_key(s[i].0@),
        map_of(s)[s[i].0@] == s[i].1@,
    decreases s.len(),
{
    let dl = s.drop_last();
    if i < s.len() - 1 {
        assert(distinct_keys(dl));
        lemma_map_of_index(dl, i);
        assert(s.last().0@ != s[i].0@);
    }
}

/// Replacing the value of entry `i` with an equal-keyed pair updates the map.
pub proof fn lemma_map_of_update<V: View>(s: Seq<(AccountId, V)>, i: int, p: (AccountId, V))
    requires
        distinct_keys(s),
        0 <= i < s.len(),
        p.0@ == s[i].0@,
    ensures
        map_of(s.update(i, p)) == map_of(s).insert(p.0@, p.1@),
    decreases s.len(),
{
    let t = s.update(i, p);
    let dl = s.drop_last();
    let k = p.0@;
    if i == s.len() - 1 {
        assert(t.drop_last() =~= dl);
        assert(t.last() == p);
        assert(map_of(dl).insert(k, s.last().1@).insert(k, p.1@) =~= map_of(dl).insert(k, p.1@));
    } else {
        assert(distinct_keys(dl));
        lemma_map_of_update(dl, i, p);
        assert(t.drop_last() =~= dl.update(i, p));
        assert(t.last() == s.last());
        let lk = s.last().0@;
        assert(lk != k);
        assert(map_of(dl).insert(k, p.1@).insert(lk, s.last().1@) =~= map_of(dl).insert(
            lk,
            s.last().1@,
        ).insert(k, p.1@));
    }
}

/// Removing entry `i` removes its key from the map.
pub proof fn lemma_map_of_remove<V: View>(s: Seq<(AccountId, V)>, i: int)
    requires
        distinct_keys(s),
        0 <= i < s.len(),
    ensures
        map_of(s.remove(i)) == map_of(s).remove(s[i].0@),
    decreases s.len(),
{
    let t = s.remove(i);
    let dl = s.drop_last();
    let k = s[i].0@;
    if i == s.len() - 1 {
        assert(t =~= dl);
        assert(distinct_keys(dl));
        lemma_map_of_contains(dl, k);
        assert(forall|j: int| 0 <= j < dl.len() ==> dl[j].0@ != k);
        assert(!map_of(dl).contains_key(k));
        assert(map_of(dl).insert(k, s.last().1@).remove(k) =~= map_of(dl));
    } else {
        assert(distinct_keys(dl));
        lemma_map_of_remove(dl, i);
        assert(t.drop_last() =~= dl.remove(i));
        assert(t.last() == s.last());
        let lk = s.last().0@;
        assert(lk != k);
        assert(map_of(dl).remove(k).insert(lk, s.last().1@) =~= map_of(dl).insert(
            lk,
            s.last().1@,
        ).remove(k));
    }
}

/// With distinct keys, the map has exactly one member per entry.
pub proof fn lemma_map_of_len<V: View>(s: Seq<(AccountId, V)>)
    requires
        distinct_keys(s),
    ensures
        map_of(s).dom().finite(),
        map_of(s).len() == s.len(),
    decreases s.len(),
{
    if s.len() > 0 {
        let dl = s.drop_last();
        assert(distinct_keys(dl));
        lemma_map_of_len(dl);
        lemma_map_of_contains(dl, s.last().0@);
        assert(forall|j: int| 0 <= j < dl.len() ==> dl[j].0@ != s.last().0@);
        assert(!map_of(dl).contains_key(s.last().0@));
        assert(map_of(s).dom() =~= map_of(dl).dom().insert(s.last().0@));
        vstd::set::axiom_set_insert_len(map_of(dl).dom(), s.last().0@);
        vstd::set::axiom_set_insert_finite(map_of(dl).dom(), s.last().0@);
    }
}

/// A key-value table with account-identity keys.
pub struct Table<V> {
    pub entries: Vec<(AccountId, V)>,
}

impl<V: View> View for Table<V> {
    type V = Map<Seq<u8>, <V as View>::V>;

    open spec fn view(&self) -> Map<Seq<u8>, <V as View>::V> {
        map_of(self.entries@)
    }
}

impl<V: View> Table<V> {
    /// Keys are pairwise distinct.
    pub open spec fn wf(self) -> bool {
        distinct_keys(self.entries@)
    }

    /// An empty table.
    pub fn new() -> (r: Self)
        ensures
            r.wf(),
            r@ == Map::<Seq<u8>, <V as View>::V>::empty(),
            r.entries@.len() == 0,
    {
        Table { entries: Vec::new() }
    }

    /// How many entries the table holds.
    pub fn len(&self) -> (n: usize)
        ensures
            n == self.entries@.len(),
    {
        self.entries.len()
    }

    /// The value of entry `i`.
    pub fn value_at(&self, i: usize) -> (v: &V)
        requires
            i < self.entries@.len(),
        ensures
            *v == self.entries@[i as int].1,
    {
        &self.entries[i].1
    }

    /// Looks a key up.
    pub fn get<'a>(&'a self, key: &AccountId) -> (r: Option<&'a V>)
        requires
            self.wf(),
        ensures
            match r {
                Some(v) => self@.contains_key(key@) && v@ == self@[key@],
                None => !self@.contains_key(key@),
            },
    {
        let n = self.entries.len();
        let mut i: usize = 0;
        while i < n
            invariant
                self.wf(),
                n == self.entries@.len(),
                i <= n,
                forall|j: int| 0 <= j < i ==> self.entries@[j].0@ != key@,
            decreases n - i,
        {
            let p = &self.entries[i];
            if account_eq(&p.0, key) {
                proof {
                    lemma_map_of_index(self.entries@, i as int);
                }
                return Some(&p.1);
            }
            i = i + 1;
        }
        proof {
            lemma_map_of_contains(self.entries@, key@);
        }
        None
    }

    /// Whether a key is present.
    pub fn contains(&self, key: &AccountId) -> (r: bool)
        requires
            self.wf(),
        ensures
            r == self@.contains_key(key@),
    {
        match self.get(key) {
            Some(_) => true,
            None => false,
        }
    }

    /// Binds a key to a value, replacing any earlier binding.
    pub fn insert(&mut self, key: AccountId, value: V)
        requires
            old(self).wf(),
        ensures
            final(self).wf(),
            final(self)@ == old(self)@.insert(key@, value@),
    {
        let ghost s = self.entries@;
        let n = self.entries.len();
        let mut i: usize = 0;
        while i < n
            invariant
                s == self.entries@,
                s == old(self).entries@,
                distinct_keys(s),
                n == s.len(),
                i <= n,
                forall|j: int| 0 <= j < i ==> s[j].0@ != key@,
            decreases n - i,
        {
            let hit = account_eq(&self.entries[i].0, &key);
            if hit {
                proof {
                    lemma_map_of_update(s, i as int, (key, value));
                }
                self.entries.set(i, (key, value));
                proof {
                    assert(distinct_keys(self.entries@));
                }
                return ;
            }
            i = i + 1;
        }
        self.entries.push((key, value));
        proof {
            let t = self.entries@;
            assert(t.drop_last() =~= s);
            assert(t.last() == (key, value));
            assert(distinct_keys(t));
        }
    }

    /// Drops a key's binding, if any.
    pub fn remove(&mut self, key: &AccountId)
        requires
            old(self).wf(),
        ensures
            final(self).wf(),
            final(self)@ == old(self)@.remove(key@),
    {
        let ghost s = self.entries@;
        let n = self.entries.len();
        let mut i: usize = 0;
        while i < n
            invariant
                s == self.entries@,
                s == old(self).entries@,
                distinct_keys(s),
                n == s.len(),
                i <= n,
                forall|j: int| 0 <= j < i ==> s[j].0@ != key@,
            decreases n - i,
        {
            let hit = account_eq(&self.entries[i].0, key);
            if hit {
                proof {
                    lemma_map_of_remove(s, i as int);
                    assert(s[i as int].0@ == key@);
                }
                self.entries.remove(i);
                proof {
                    let t = self.entries@;
                    assert(t =~= s.remove(i as int));
                    assert forall|a: int, b: int| 0 <= a < b < t.len() implies t[a].0@ != t[b].0@ by {
                        if b < i {
                            assert(t[a] == s[a] && t[b] == s[b]);
                        } else if a < i {
                            assert(t[a] == s[a] && t[b] == s[b + 1]);
                        } else {
                            assert(t[a] == s[a + 1] && t[b] == s[b + 1]);
                        }
                    }
                }
                return ;
            }
            i = i + 1;
        }
        proof {
            lemma_map_of_contains(s, key@);
            assert(map_of(s).remove(key@) =~= map_of(s));
        }
    }
}

} // verus!
