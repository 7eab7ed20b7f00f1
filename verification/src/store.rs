//! The pre-key bundle store: a capacity-bounded list of opaque bundles per
//! device key, with strict last-in-first-out removal.

use vstd::prelude::*;

use crate::AccountId;
use crate::DeviceId;
use crate::Error;
use crate::PreKeyBundle;

verus! {

/// Upper bound on the number of bundles stored for one device key.
pub const MAX_PKBS: usize = 50;

/// Composite identifier of one device: the owning account and the device id.
#[derive(Clone, Copy, Debug, PartialEq, Eq, Structural)]
pub struct DeviceKey {
    pub account: AccountId,
    pub device: DeviceId,
}

/// One slot of the store: the bundles currently pending for one device key.
pub struct StoreEntry {
    pub key: DeviceKey,
    pub bundles: Vec<PreKeyBundle>,
}

/// Maps each device key to its ordered list of pending pre-key bundles.
///
/// An absent key and an empty list are equivalent: both mean "no bundles".
pub struct BundleStore {
    pub entries: Vec<StoreEntry>,
}

/// The mathematical value of a list of byte vectors.
pub open spec fn bytes_view(v: Seq<Vec<u8>>) -> Seq<Seq<u8>> {
    v.map_values(|b: Vec<u8>| b@)
}

/// Index of the first entry with key `k`, or `-1` if there is none.
pub open spec fn find_key(s: Seq<StoreEntry>, k: DeviceKey) -> int
    decreases s.len(),
{
    if s.len() == 0 {
        -1
    } else if s[0].key == k {
        0
    } else {
        let r = find_key(s.drop_first(), k);
        if r < 0 {
            -1
        } else {
            r + 1
        }
    }
}

/// `find_key` returns `-1` exactly when no entry matches, and otherwise
/// the first matching index.
pub proof fn lemma_find_key(s: Seq<StoreEntry>, k: DeviceKey)
    ensures
        find_key(s, k) == -1 ==> forall|i: int| 0 <= i < s.len() ==> s[i].key != k,
        find_key(s, k) != -1 ==> {
            &&& 0 <= find_key(s, k) < s.len()
            &&& s[find_key(s, k)].key == k
            &&& forall|i: int| 0 <= i < find_key(s, k) ==> s[i].key != k
        },
    decreases s.len(),
{
    if s.len() > 0 && s[0].key != k {
        let t = s.drop_first();
        lemma_find_key(t, k);
        let r = find_key(t, k);
        if r < 0 {
            assert forall|i: int| 0 <= i < s.len() implies s[i].key != k by {
                if i > 0 {
                    assert(t[i - 1] == s[i]);
                }
            }
        } else {
            assert(s[r + 1] == t[r]);
            assert forall|i: int| 0 <= i < r + 1 implies s[i].key != k by {
                if i > 0 {
                    assert(t[i - 1] == s[i]);
                }
            }
        }
    }
}

/// `find_key` is determined by any witness of a first match.
pub proof fn lemma_find_key_is_first(s: Seq<StoreEntry>, k: DeviceKey, i: int)
    requires
        0 <= i < s.len(),
        s[i].key == k,
        forall|j: int| 0 <= j < i ==> s[j].key != k,
    ensures
        find_key(s, k) == i,
{
    lemma_find_key(s, k);
}

/// `find_key` reports absence when no entry matches.
pub proof fn lemma_find_key_none(s: Seq<StoreEntry>, k: DeviceKey)
    requires
        forall|i: int| 0 <= i < s.len() ==> s[i].key != k,
    ensures
        find_key(s, k) == -1,
{
    lemma_find_key(s, k);
}

/// Copies a byte vector element by element.
pub fn clone_bytes(v: &Vec<u8>) -> (r: Vec<u8>)
    ensures
        r@ == v@,
{
    let mut r: Vec<u8> = Vec::new();
    let mut j: usize = 0;
    while j < v.len()
        invariant
            j <= v@.len(),
            r@ == v@.take(j as int),
        decreases v@.len() - j,
    {
        r.push(v[j]);
        proof {
            assert(r@ =~= v@.take(j as int + 1));
        }
        j += 1;
    }
    proof {
        assert(v@.take(v@.len() as int) =~= v@);
    }
    r
}

/// Compares two byte vectors by value.
pub fn eq_bytes(a: &Vec<u8>, b: &Vec<u8>) -> (r: bool)
    ensures
        r == (a@ == b@),
{
    if a.len() != b.len() {
        return false;
    }
    let mut j: usize = 0;
    while j < a.len()
        invariant
            j <= a@.len(),
            a@.len() == b@.len(),
            forall|t: int| 0 <= t < j ==> a@[t] == b@[t],
        decreases a@.len() - j,
    {
        if a[j] != b[j] {
            return false;
        }
        j += 1;
    }
    proof {
        assert(a@ =~= b@);
    }
    true
}

/// The mathematical value of an optional popped bundle.
pub open spec fn opt_bytes_view(r: Option<PreKeyBundle>) -> Option<Seq<u8>> {
    match r {
        Some(b) => Some(b@),
        None => None,
    }
}

/// What one `pop` call does: on an empty (or absent) list it returns
/// nothing and changes nothing; otherwise it removes and returns the most
/// recently inserted bundle of `k` and leaves every other key alone.
pub open spec fn pop_transition(
    pre: BundleStore,
    post: BundleStore,
    k: DeviceKey,
    r: Option<Seq<u8>>,
) -> bool {
    if pre.bundles_of(k).len() == 0 {
        &&& r is None
        &&& post == pre
    } else {
        &&& r == Some(pre.bundles_of(k).last())
        &&& post.bundles_of(k) == pre.bundles_of(k).drop_last()
        &&& forall|k2: DeviceKey| k2 != k ==> #[trigger] post.bundles_of(k2) == pre.bundles_of(k2)
    }
}

/// What one `store` call does: it rejects the whole batch when it would
/// push the list of `k` past `MAX_PKBS`, and otherwise appends all of `bs`
/// to the end of that list, leaving every other key alone.
pub open spec fn store_transition(
    pre: BundleStore,
    post: BundleStore,
    k: DeviceKey,
    bs: Seq<Seq<u8>>,
    r: Result<(), Error>,
) -> bool {
    if pre.bundles_of(k).len() + bs.len() > MAX_PKBS {
        &&& r == Err::<(), Error>(Error::CapacityExceeded)
        &&& post == pre
    } else {
        &&& r == Ok::<(), Error>(())
        &&& post.bundles_of(k) == pre.bundles_of(k) + bs
        &&& forall|k2: DeviceKey| k2 != k ==> #[trigger] post.bundles_of(k2) == pre.bundles_of(k2)
    }
}

/// Entries with pointwise equal keys are searched identically.
pub proof fn lemma_find_key_same_keys(s1: Seq<StoreEntry>, s2: Seq<StoreEntry>, k: DeviceKey)
    requires
        s1.len() == s2.len(),
        forall|i: int| 0 <= i < s1.len() ==> s1[i].key == s2[i].key,
    ensures
        find_key(s1, k) == find_key(s2, k),
{
    lemma_find_key(s1, k);
    let r = find_key(s1, k);
    if r == -1 {
        lemma_find_key_none(s2, k);
    } else {
        lemma_find_key_is_first(s2, k, r);
    }
}

impl BundleStore {
    /// The bundle list of `k`: empty when the key is absent.
    pub open spec fn bundles_of(self, k: DeviceKey) -> Seq<Seq<u8>> {
        let i = find_key(self.entries@, k);
        if i < 0 {
            Seq::empty()
        } else {
            bytes_view(self.entries@[i].bundles@)
        }
    }

    /// Well-formedness: keys are unique and every list respects the
    /// capacity bound.
    pub open spec fn wf(self) -> bool {
        &&& forall|i: int, j: int|
            0 <= i < j < self.entries@.len() ==> self.entries@[i].key != self.entries@[j].key
        &&& forall|i: int|
            0 <= i < self.entries@.len() ==> #[trigger] self.entries@[i].bundles@.len()
                <= MAX_PKBS
    }

    /// A well-formed store never holds more than `MAX_PKBS` bundles for any
    /// key.
    pub proof fn lemma_capacity_bound(self, k: DeviceKey)
        requires
            self.wf(),
        ensures
            self.bundles_of(k).len() <= MAX_PKBS,
    {
        lemma_find_key(self.entries@, k);
    }

    /// An empty store.
    pub fn new() -> (r: BundleStore)
        ensures
            r.wf(),
            forall|k: DeviceKey| r.bundles_of(k) == Seq::<Seq<u8>>::empty(),
    {
        BundleStore { entries: Vec::new() }
    }

    /// Position of the entry for `key`, if the store has one.
    fn find_idx(&self, key: DeviceKey) -> (r: Option<usize>)
        ensures
            match r {
                Some(i) => i < self.entries@.len() && find_key(self.entries@, key) == i,
                None => find_key(self.entries@, key) == -1,
            },
    {
        let mut i: usize = 0;
        while i < self.entries.len()
            invariant
                i <= self.entries@.len(),
                forall|j: int| 0 <= j < i ==> self.entries@[j].key != key,
            decreases self.entries@.len() - i,
        {
            if self.entries[i].key == key {
                proof {
                    lemma_find_key_is_first(self.entries@, key, i as int);
                }
                return Some(i);
            }
            i += 1;
        }
        proof {
            lemma_find_key_none(self.entries@, key);
        }
        None
    }

    /// Removes and returns the most recently inserted bundle for `key`,
    /// or nothing when the list is absent or empty.
    pub fn pop(&mut self, key: DeviceKey) -> (r: Option<PreKeyBundle>)
        requires
            old(self).wf(),
        ensures
            final(self).wf(),
            pop_transition(*old(self), *final(self), key, opt_bytes_view(r)),
    {
        match self.find_idx(key) {
            None => None,
            Some(i) => {
                if self.entries[i].bundles.len() == 0 {
                    None
                } else {
                    let ghost pre = self.entries@;
                    let b = self.entries[i].bundles.pop();
                    proof {
                        assert(self.entries@ =~= pre.update(
                            i as int,
                            self.entries@[i as int],
                        ));
                        assert forall|jj: int| 0 <= jj < pre.len() implies pre[jj].key
                            == self.entries@[jj].key by {}
                        lemma_find_key_same_keys(pre, self.entries@, key);
                        assert(bytes_view(self.entries@[i as int].bundles@) =~= bytes_view(
                            pre[i as int].bundles@,
                        ).drop_last());
                        assert forall|k2: DeviceKey| k2 != key implies self.bundles_of(k2)
                            == old(self).bundles_of(k2) by {
                            lemma_find_key(pre, key);
                            lemma_find_key(pre, k2);
                            lemma_find_key_same_keys(pre, self.entries@, k2);
                        }
                    }
                    match b {
                        Some(x) => Some(x),
                        None => None,
                    }
                }
            },
        }
    }

    /// Appends all of `bundles` to the list for `key`, atomically: when the
    /// result would exceed `MAX_PKBS`, nothing is added and the call fails
    /// with `CapacityExceeded`.
    pub fn store(&mut self, key: DeviceKey, bundles: Vec<PreKeyBundle>) -> (r: Result<(), Error>)
        requires
            old(self).wf(),
        ensures
            final(self).wf(),
            store_transition(*old(self), *final(self), key, bytes_view(bundles@), r),
    {
        let c = self.count(key);
        proof {
            self.lemma_capacity_bound(key);
        }
        if bundles.len() > MAX_PKBS - c {
            return Err(Error::CapacityExceeded);
        }
        match self.find_idx(key) {
            Some(i) => {
                let ghost pre = self.entries@;
                let mut more = bundles;
                self.entries[i].bundles.append(&mut more);
                proof {
                    assert(self.entries@ =~= pre.update(i as int, self.entries@[i as int]));
                    lemma_find_key_same_keys(pre, self.entries@, key);
                    assert(bytes_view(self.entries@[i as int].bundles@) =~= bytes_view(
                        pre[i as int].bundles@,
                    ) + bytes_view(bundles@));
                    assert forall|k2: DeviceKey| k2 != key implies self.bundles_of(k2)
                        == old(self).bundles_of(k2) by {
                        lemma_find_key(pre, key);
                        lemma_find_key(pre, k2);
                        lemma_find_key_same_keys(pre, self.entries@, k2);
                    }
                }
                Ok(())
            },
            None => {
                let ghost pre = self.entries@;
                proof {
                    lemma_find_key(pre, key);
                }
                self.entries.push(StoreEntry { key, bundles });
                proof {
                    lemma_find_key_is_first(self.entries@, key, pre.len() as int);
                    assert(old(self).bundles_of(key) + bytes_view(bundles@) =~= bytes_view(
                        bundles@,
                    ));
                    assert forall|k2: DeviceKey| k2 != key implies self.bundles_of(k2)
                        == old(self).bundles_of(k2) by {
                        lemma_find_key(pre, k2);
                        let r2 = find_key(pre, k2);
                        if r2 == -1 {
                            lemma_find_key_none(self.entries@, k2);
                        } else {
                            lemma_find_key_is_first(self.entries@, k2, r2);
                        }
                    }
                }
                Ok(())
            },
        }
    }

    /// A copy of the bundle list currently pending for `key`.
    pub fn bundles_vec(&self, key: DeviceKey) -> (r: Vec<PreKeyBundle>)
        ensures
            bytes_view(r@) == self.bundles_of(key),
    {
        match self.find_idx(key) {
            None => {
                let r: Vec<PreKeyBundle> = Vec::new();
                proof {
                    assert(bytes_view(r@) =~= Seq::<Seq<u8>>::empty());
                }
                r
            },
            Some(i) => {
                let src = &self.entries[i].bundles;
                let mut r: Vec<PreKeyBundle> = Vec::new();
                let mut j: usize = 0;
                while j < src.len()
                    invariant
                        j <= src@.len(),
                        r@.len() == j,
                        forall|t: int| 0 <= t < j ==> #[trigger] r@[t]@ == src@[t]@,
                    decreases src@.len() - j,
                {
                    let b = clone_bytes(&src[j]);
                    r.push(b);
                    j += 1;
                }
                proof {
                    assert(bytes_view(r@) =~= bytes_view(src@));
                }
                r
            },
        }
    }

    /// Number of bundles currently pending for `key` (0 when absent).
    pub fn count(&self, key: DeviceKey) -> (r: usize)
        ensures
            r == self.bundles_of(key).len(),
    {
        match self.find_idx(key) {
            Some(i) => self.entries[i].bundles.len(),
            None => 0,
        }
    }
}

} // verus!
