//! The library's laws: properties that hold across several operations,
//! stated over the same spec functions the operations' contracts use.

use vstd::prelude::*;

use crate::e2ee::acquired_upto;
use crate::e2ee::devices_in;
use crate::e2ee::fan_out;
use crate::e2ee::member_devices_in;
use crate::e2ee::occ;
use crate::e2ee::register_ok;
use crate::e2ee::Module;
use crate::store::pop_transition;
use crate::store::store_transition;
use crate::store::BundleStore;
use crate::store::DeviceKey;
use crate::store::MAX_PKBS;
use crate::AccountId;
use crate::DeviceId;
use crate::Error;
use crate::GroupId;

verus! {

/// Capacity invariant: once the list of a key holds `MAX_PKBS` bundles,
/// any store of at least one more bundle fails with `CapacityExceeded`
/// and leaves the whole store unchanged.
pub proof fn lemma_capacity_invariant(
    pre: BundleStore,
    post: BundleStore,
    k: DeviceKey,
    bs: Seq<Seq<u8>>,
    r: Result<(), Error>,
)
    requires
        pre.bundles_of(k).len() == MAX_PKBS,
        bs.len() >= 1,
        store_transition(pre, post, k, bs, r),
    ensures
        r == Err::<(), Error>(Error::CapacityExceeded),
        post == pre,
{
}

/// One-time use: two pops in sequence on the same key that both succeed
/// return the bundles of two distinct insertion positions (the last and
/// the one before it), and each pop strictly decreases the list length
/// by one.
pub proof fn lemma_one_time_use(
    s0: BundleStore,
    s1: BundleStore,
    s2: BundleStore,
    k: DeviceKey,
    r1: Option<Seq<u8>>,
    r2: Option<Seq<u8>>,
)
    requires
        pop_transition(s0, s1, k, r1),
        pop_transition(s1, s2, k, r2),
        r1 is Some,
        r2 is Some,
    ensures
        s0.bundles_of(k).len() >= 2,
        s1.bundles_of(k).len() == s0.bundles_of(k).len() - 1,
        s2.bundles_of(k).len() == s0.bundles_of(k).len() - 2,
        r1 == Some(s0.bundles_of(k)[s0.bundles_of(k).len() - 1]),
        r2 == Some(s0.bundles_of(k)[s0.bundles_of(k).len() - 2]),
{
}

/// Last-in-first-out order: after storing `[b1, b2, b3]`, three pops
/// return `b3`, `b2`, `b1` in that order and leave the list as it was
/// before the store.
pub proof fn lemma_lifo_order(
    s0: BundleStore,
    s1: BundleStore,
    s2: BundleStore,
    s3: BundleStore,
    s4: BundleStore,
    k: DeviceKey,
    b1: Seq<u8>,
    b2: Seq<u8>,
    b3: Seq<u8>,
    r1: Option<Seq<u8>>,
    r2: Option<Seq<u8>>,
    r3: Option<Seq<u8>>,
)
    requires
        store_transition(s0, s1, k, seq![b1, b2, b3], Ok::<(), Error>(())),
        pop_transition(s1, s2, k, r1),
        pop_transition(s2, s3, k, r2),
        pop_transition(s3, s4, k, r3),
    ensures
        r1 == Some(b3),
        r2 == Some(b2),
        r3 == Some(b1),
        s4.bundles_of(k) == s0.bundles_of(k),
{
    let l = s0.bundles_of(k);
    let l3 = l + seq![b1, b2, b3];
    assert(s1.bundles_of(k) == l3);
    assert(l3.last() == b3);
    assert(l3.drop_last() =~= l + seq![b1, b2]);
    assert((l + seq![b1, b2]).last() == b2);
    assert((l + seq![b1, b2]).drop_last() =~= l + seq![b1]);
    assert((l + seq![b1]).last() == b1);
    assert((l + seq![b1]).drop_last() =~= l);
}

/// Partial-success batching: for keys `[(a, 0), (b, 0)]` where `(a, 0)`
/// holds exactly one bundle and `(b, 0)` holds none, the collected
/// withdrawal result is exactly one triple, for `(a, 0)`.
pub proof fn lemma_partial_success(s: BundleStore, a: AccountId, b: AccountId)
    requires
        s.bundles_of(DeviceKey { account: a, device: 0 }).len() == 1,
        s.bundles_of(DeviceKey { account: b, device: 0 }).len() == 0,
    ensures
        acquired_upto(
            s,
            seq![DeviceKey { account: a, device: 0 }, DeviceKey { account: b, device: 0 }],
            2,
        ) == seq![(a, 0u32, s.bundles_of(DeviceKey { account: a, device: 0 })[0])],
{
    let ka = DeviceKey { account: a, device: 0 };
    let kb = DeviceKey { account: b, device: 0 };
    let keys = seq![ka, kb];
    assert(keys[0] == ka);
    assert(keys[1] == kb);
    assert(ka != kb);
    assert(occ(keys, 0, ka) == 0);
    assert(occ(keys, 0, kb) == 0);
    assert(occ(keys, 1, kb) == 0);
    assert(acquired_upto(s, keys, 0) == Seq::<(AccountId, DeviceId, Seq<u8>)>::empty());
    assert(acquired_upto(s, keys, 1) == acquired_upto(s, keys, 0).push(
        (a, 0u32, s.bundles_of(ka)[0]),
    ));
    assert(acquired_upto(s, keys, 2) == acquired_upto(s, keys, 1));
    assert(acquired_upto(s, keys, 2) =~= seq![(a, 0u32, s.bundles_of(ka)[0])]);
}

/// Number of occurrences of `d` in a device list.
pub open spec fn count_in(s: Seq<DeviceId>, d: DeviceId) -> nat
    decreases s.len(),
{
    if s.len() == 0 {
        0
    } else {
        count_in(s.drop_last(), d) + if s.last() == d {
            1nat
        } else {
            0nat
        }
    }
}

/// A device list counts `d` zero times exactly when it does not contain
/// `d`.
pub proof fn lemma_count_in_zero(s: Seq<DeviceId>, d: DeviceId)
    ensures
        (count_in(s, d) == 0) <==> !s.contains(d),
    decreases s.len(),
{
    if s.len() > 0 {
        let t = s.drop_last();
        lemma_count_in_zero(t, d);
        if s.contains(d) {
            let idx = choose|idx: int| 0 <= idx < s.len() && s[idx] == d;
            if idx < s.len() - 1 {
                assert(t[idx] == d);
                assert(t.contains(d));
            }
        }
        if t.contains(d) {
            let idx = choose|idx: int| 0 <= idx < t.len() && t[idx] == d;
            assert(s[idx] == d);
        }
    }
}

/// Membership in an account's device list mirrors membership in the
/// device log.
pub proof fn lemma_devices_in_contains(
    log: Seq<(AccountId, DeviceId)>,
    a: AccountId,
    d: DeviceId,
)
    ensures
        devices_in(log, a).contains(d) <==> log.contains((a, d)),
    decreases log.len(),
{
    if log.len() > 0 {
        let t = log.drop_last();
        lemma_devices_in_contains(t, a, d);
        let p = devices_in(t, a);
        let dl = devices_in(log, a);
        if dl.contains(d) {
            let idx = choose|idx: int| 0 <= idx < dl.len() && dl[idx] == d;
            if log.last().0 == a && idx == dl.len() - 1 {
                assert(log[log.len() - 1] == (a, d));
                assert(log.contains((a, d)));
            } else {
                assert(p[idx] == d);
                assert(p.contains(d));
                let j = choose|j: int| 0 <= j < t.len() && t[j] == (a, d);
                assert(log[j] == (a, d));
                assert(log.contains((a, d)));
            }
        }
        if log.contains((a, d)) {
            let idx = choose|idx: int| 0 <= idx < log.len() && log[idx] == (a, d);
            if idx == log.len() - 1 {
                assert(dl.last() == d);
                assert(dl.contains(d));
            } else {
                assert(t[idx] == (a, d));
                assert(t.contains((a, d)));
                let j = choose|j: int| 0 <= j < p.len() && p[j] == d;
                assert(dl[j] == d);
                assert(dl.contains(d));
            }
        }
    }
}

/// Reading a group out of two logs laid end to end reads each in turn.
pub proof fn lemma_member_devices_in_add(
    log1: Seq<(GroupId, AccountId, DeviceId)>,
    log2: Seq<(GroupId, AccountId, DeviceId)>,
    g: GroupId,
)
    ensures
        member_devices_in(log1 + log2, g) == member_devices_in(log1, g) + member_devices_in(
            log2,
            g,
        ),
    decreases log2.len(),
{
    if log2.len() == 0 {
        assert(log1 + log2 =~= log1);
        assert(member_devices_in(log1, g) + member_devices_in(log2, g) =~= member_devices_in(
            log1,
            g,
        ));
    } else {
        let t = log2.drop_last();
        lemma_member_devices_in_add(log1, t, g);
        assert((log1 + log2).drop_last() =~= log1 + t);
        assert((log1 + log2).last() == log2.last());
        if log2.last().0 == g {
            assert(member_devices_in(log1, g) + member_devices_in(log2, g)
                =~= (member_devices_in(log1, g) + member_devices_in(t, g)).push(
                (log2.last().1, log2.last().2),
            ));
        } else {
            assert(member_devices_in(log2, g) == member_devices_in(t, g));
        }
    }
}

/// Fan-out reaches every group of the list: the fanned-out device is a
/// member device of each of them.
pub proof fn lemma_fan_out_member(groups: Seq<GroupId>, a: AccountId, d: DeviceId, g: GroupId)
    requires
        groups.contains(g),
    ensures
        member_devices_in(fan_out(groups, a, d), g).contains((a, d)),
    decreases groups.len(),
{
    let f = fan_out(groups, a, d);
    let t = groups.drop_last();
    assert(f.drop_last() =~= fan_out(t, a, d));
    if groups.last() == g {
        let m = member_devices_in(f, g);
        assert(m.last() == (a, d));
        assert(m.contains((a, d)));
    } else {
        let idx = choose|idx: int| 0 <= idx < groups.len() && groups[idx] == g;
        assert(t[idx] == g);
        assert(t.contains(g));
        lemma_fan_out_member(t, a, d, g);
        let p = member_devices_in(fan_out(t, a, d), g);
        let idx2 = choose|idx2: int| 0 <= idx2 < p.len() && p[idx2] == (a, d);
        assert(member_devices_in(f, g)[idx2] == (a, d));
    }
}

/// Registration fan-out: after a successful registration of a fresh
/// device, the device stands in the owner's device list exactly once, at
/// the end, and is a member device of every group the owner belonged to.
pub proof fn lemma_registration_fan_out(
    pre: Module,
    post: Module,
    owner: AccountId,
    device_id: DeviceId,
    pkbs: Seq<Seq<u8>>,
)
    requires
        register_ok(pre, post, owner, device_id, pkbs),
    ensures
        post.devices_of(owner) == pre.devices_of(owner).push(device_id),
        count_in(post.devices_of(owner), device_id) == 1,
        forall|g: GroupId|
            pre.groups_of(owner).contains(g) ==> #[trigger] post.member_devices_of(g).contains(
                (owner, device_id),
            ),
{
    crate::e2ee::lemma_devices_in_push(pre.devices@, (owner, device_id), owner);
    lemma_devices_in_contains(pre.devices@, owner, device_id);
    lemma_count_in_zero(pre.devices_of(owner), device_id);
    assert(post.devices_of(owner).drop_last() =~= pre.devices_of(owner));
    assert forall|g: GroupId|
        pre.groups_of(owner).contains(g) implies #[trigger] post.member_devices_of(g).contains(
        (owner, device_id),
    ) by {
        lemma_member_devices_in_add(
            pre.member_devices@,
            fan_out(pre.groups_of(owner), owner, device_id),
            g,
        );
        lemma_fan_out_member(pre.groups_of(owner), owner, device_id, g);
        let p1 = member_devices_in(pre.member_devices@, g);
        let p2 = member_devices_in(fan_out(pre.groups_of(owner), owner, device_id), g);
        let idx = choose|idx: int| 0 <= idx < p2.len() && p2[idx] == (owner, device_id);
        assert((p1 + p2)[p1.len() + idx] == (owner, device_id));
    }
}

} // verus!

