//! The end-to-end-encryption module state: the bundle store together with
//! the device registry, group membership, group member-device fan-out and
//! the response mailbox, and the three caller-invocable operations
//! `register_device`, `replenish_pkbs` and `withdraw_pkbs`.

use vstd::prelude::*;

use crate::store::BundleStore;
use crate::store::DeviceKey;
use crate::store::MAX_PKBS;
use crate::store::bytes_view;
use crate::store::store_transition;
use crate::AccountId;
use crate::DeviceId;
use crate::Error;
use crate::GroupId;
use crate::PreKeyBundle;
use crate::RequestId;

verus! {

/// Upper bound on the number of keys in one withdrawal request.
pub const WITHDRAW_LIST_MAX_LEN: usize = 50;

/// One delivered withdrawal response, kept in the mailbox under the
/// requester's identity and the caller-chosen request identifier.
pub struct ResponseEntry {
    pub requester: AccountId,
    pub request_id: RequestId,
    pub result: Vec<(AccountId, DeviceId, PreKeyBundle)>,
}

/// The whole module state.
///
/// The registry, membership and fan-out relations are kept as append-only
/// logs; the spec functions below read them as the relations they encode.
pub struct Module {
    /// Pending pre-key bundles per device key.
    pub bundles: BundleStore,
    /// Log of registered devices: one `(owner, device)` pair per success.
    pub devices: Vec<(AccountId, DeviceId)>,
    /// Log of group memberships: `(account, group)` pairs.
    pub memberships: Vec<(AccountId, GroupId)>,
    /// Log of group member devices: `(group, owner, device)` triples.
    pub member_devices: Vec<(GroupId, AccountId, DeviceId)>,
    /// Response mailbox; for one `(requester, request id)` pair the latest
    /// entry wins.
    pub responses: Vec<ResponseEntry>,
}

/// The devices registered for `a`, in registration order.
pub open spec fn devices_in(log: Seq<(AccountId, DeviceId)>, a: AccountId) -> Seq<DeviceId>
    decreases log.len(),
{
    if log.len() == 0 {
        Seq::empty()
    } else {
        let p = devices_in(log.drop_last(), a);
        if log.last().0 == a {
            p.push(log.last().1)
        } else {
            p
        }
    }
}

/// The groups `a` belongs to, in joining order.
pub open spec fn groups_in(log: Seq<(AccountId, GroupId)>, a: AccountId) -> Seq<GroupId>
    decreases log.len(),
{
    if log.len() == 0 {
        Seq::empty()
    } else {
        let p = groups_in(log.drop_last(), a);
        if log.last().0 == a {
            p.push(log.last().1)
        } else {
            p
        }
    }
}

/// The member devices of group `g`, in fan-out order.
pub open spec fn member_devices_in(
    log: Seq<(GroupId, AccountId, DeviceId)>,
    g: GroupId,
) -> Seq<(AccountId, DeviceId)>
    decreases log.len(),
{
    if log.len() == 0 {
        Seq::empty()
    } else {
        let p = member_devices_in(log.drop_last(), g);
        if log.last().0 == g {
            p.push((log.last().1, log.last().2))
        } else {
            p
        }
    }
}

/// The mathematical value of a withdrawal result list.
pub open spec fn result_view(
    s: Seq<(AccountId, DeviceId, PreKeyBundle)>,
) -> Seq<(AccountId, DeviceId, Seq<u8>)> {
    s.map_values(|e: (AccountId, DeviceId, PreKeyBundle)| (e.0, e.1, e.2@))
}

/// The response currently readable for `(a, rid)`: the latest delivery
/// wins; `None` when none was ever delivered.
pub open spec fn response_in(
    log: Seq<ResponseEntry>,
    a: AccountId,
    rid: Seq<u8>,
) -> Option<Seq<(AccountId, DeviceId, Seq<u8>)>>
    decreases log.len(),
{
    if log.len() == 0 {
        None
    } else if log.last().requester == a && log.last().request_id@ == rid {
        Some(result_view(log.last().result@))
    } else {
        response_in(log.drop_last(), a, rid)
    }
}

/// The member-device records that registering `d` for `a` appends, one per
/// group of `groups`, in order.
pub open spec fn fan_out(
    groups: Seq<GroupId>,
    a: AccountId,
    d: DeviceId,
) -> Seq<(GroupId, AccountId, DeviceId)>
    decreases groups.len(),
{
    if groups.len() == 0 {
        Seq::empty()
    } else {
        fan_out(groups.drop_last(), a, d).push((groups.last(), a, d))
    }
}

/// Appending to the device log extends exactly the owner's device list.
pub proof fn lemma_devices_in_push(
    log: Seq<(AccountId, DeviceId)>,
    e: (AccountId, DeviceId),
    a: AccountId,
)
    ensures
        devices_in(log.push(e), a) == if e.0 == a {
            devices_in(log, a).push(e.1)
        } else {
            devices_in(log, a)
        },
{
    assert(log.push(e).drop_last() =~= log);
}

/// Appending to the membership log extends exactly the account's groups.
pub proof fn lemma_groups_in_push(
    log: Seq<(AccountId, GroupId)>,
    e: (AccountId, GroupId),
    a: AccountId,
)
    ensures
        groups_in(log.push(e), a) == if e.0 == a {
            groups_in(log, a).push(e.1)
        } else {
            groups_in(log, a)
        },
{
    assert(log.push(e).drop_last() =~= log);
}

/// Appending to the fan-out log extends exactly that group's member list.
pub proof fn lemma_member_devices_in_push(
    log: Seq<(GroupId, AccountId, DeviceId)>,
    e: (GroupId, AccountId, DeviceId),
    g: GroupId,
)
    ensures
        member_devices_in(log.push(e), g) == if e.0 == g {
            member_devices_in(log, g).push((e.1, e.2))
        } else {
            member_devices_in(log, g)
        },
{
    assert(log.push(e).drop_last() =~= log);
}

/// A delivery overwrites exactly its own mailbox slot.
pub proof fn lemma_response_in_push(log: Seq<ResponseEntry>, e: ResponseEntry, a: AccountId, rid: Seq<u8>)
    ensures
        response_in(log.push(e), a, rid) == if e.requester == a && e.request_id@ == rid {
            Some(result_view(e.result@))
        } else {
            response_in(log, a, rid)
        },
{
    assert(log.push(e).drop_last() =~= log);
}

/// How many of the first `i` requested keys equal `k`: the number of pops
/// already attempted on `k` when the batch reaches position `i`.
pub open spec fn occ(keys: Seq<DeviceKey>, i: int, k: DeviceKey) -> nat
    decreases i,
{
    if i <= 0 {
        0
    } else {
        occ(keys, i - 1, k) + if keys[i - 1] == k {
            1nat
        } else {
            0nat
        }
    }
}

/// Length of a list of original length `l0` after `pops` attempted pops:
/// each pop on a non-empty list removes one bundle, pops on an empty list
/// do nothing.
pub open spec fn remaining_len(l0: int, pops: int) -> int {
    if pops >= l0 {
        0
    } else {
        l0 - pops
    }
}

/// The withdrawal result collected over the first `i` requested keys, in
/// request order: one `(account, device, bundle)` triple for every pop
/// that found a bundle, counted against the lists as they stood in `s0`.
pub open spec fn acquired_upto(
    s0: BundleStore,
    keys: Seq<DeviceKey>,
    i: int,
) -> Seq<(AccountId, DeviceId, Seq<u8>)>
    decreases i,
{
    if i <= 0 {
        Seq::empty()
    } else {
        let p = acquired_upto(s0, keys, i - 1);
        let k = keys[i - 1];
        let l0 = s0.bundles_of(k);
        let before = occ(keys, i - 1, k);
        if before < l0.len() {
            p.push((k.account, k.device, l0[l0.len() - 1 - before]))
        } else {
            p
        }
    }
}

/// What a successful `withdraw_pkbs` call does: every requested key is
/// popped once, in request order; the collected triples are delivered to
/// the mailbox slot `(sender, rid)` exactly once; nothing else changes.
pub open spec fn withdraw_ok(
    pre: Module,
    post: Module,
    sender: AccountId,
    rid: Seq<u8>,
    keys: Seq<DeviceKey>,
) -> bool {
    &&& keys.len() <= WITHDRAW_LIST_MAX_LEN
    &&& forall|k: DeviceKey|
        #[trigger] post.pkbs_of(k) == pre.pkbs_of(k).take(
            remaining_len(pre.pkbs_of(k).len() as int, occ(keys, keys.len() as int, k) as int),
        )
    &&& post.responses@.len() == pre.responses@.len() + 1
    &&& post.responses@.drop_last() == pre.responses@
    &&& post.responses@.last().requester == sender
    &&& post.responses@.last().request_id@ == rid
    &&& result_view(post.responses@.last().result@) == acquired_upto(
        pre.bundles,
        keys,
        keys.len() as int,
    )
    &&& post.response_of(sender, rid) == Some(
        acquired_upto(pre.bundles, keys, keys.len() as int),
    )
    &&& forall|a2: AccountId, rid2: Seq<u8>|
        !(a2 == sender && rid2 == rid) ==> #[trigger] post.response_of(a2, rid2)
            == pre.response_of(a2, rid2)
    &&& post.devices == pre.devices
    &&& post.memberships == pre.memberships
    &&& post.member_devices == pre.member_devices
}

/// What a successful `register_device` call does: the device is fresh and
/// within capacity, it is appended to the owner's device list, fanned out
/// into every group the owner belongs to (in order), and its initial
/// bundles are stored; nothing else changes.
pub open spec fn register_ok(
    pre: Module,
    post: Module,
    owner: AccountId,
    device_id: DeviceId,
    pkbs: Seq<Seq<u8>>,
) -> bool {
    let key = DeviceKey { account: owner, device: device_id };
    &&& pre.pkbs_of(key).len() + pkbs.len() <= MAX_PKBS
    &&& !pre.devices@.contains((owner, device_id))
    &&& post.devices@ == pre.devices@.push((owner, device_id))
    &&& post.member_devices@ == pre.member_devices@ + fan_out(
        pre.groups_of(owner),
        owner,
        device_id,
    )
    &&& post.memberships == pre.memberships
    &&& post.responses == pre.responses
    &&& post.pkbs_of(key) == pre.pkbs_of(key) + pkbs
    &&& forall|k2: DeviceKey|
        k2 != key ==> #[trigger] post.pkbs_of(k2) == pre.pkbs_of(k2)
}

impl Module {
    /// Well-formedness of the whole state.
    pub open spec fn wf(self) -> bool {
        self.bundles.wf()
    }

    /// The bundle list currently pending for `k`.
    pub open spec fn pkbs_of(self, k: DeviceKey) -> Seq<Seq<u8>> {
        self.bundles.bundles_of(k)
    }

    /// The devices registered for `a`, in registration order.
    pub open spec fn devices_of(self, a: AccountId) -> Seq<DeviceId> {
        devices_in(self.devices@, a)
    }

    /// The groups `a` belongs to, in joining order.
    pub open spec fn groups_of(self, a: AccountId) -> Seq<GroupId> {
        groups_in(self.memberships@, a)
    }

    /// The member devices of group `g`, in fan-out order.
    pub open spec fn member_devices_of(self, g: GroupId) -> Seq<(AccountId, DeviceId)> {
        member_devices_in(self.member_devices@, g)
    }

    /// The response currently readable for `(a, rid)`.
    pub open spec fn response_of(
        self,
        a: AccountId,
        rid: Seq<u8>,
    ) -> Option<Seq<(AccountId, DeviceId, Seq<u8>)>> {
        response_in(self.responses@, a, rid)
    }

    /// A fresh module state: nothing registered, nothing stored, nothing
    /// delivered.
    pub fn new() -> (r: Module)
        ensures
            r.wf(),
            r.devices@ == Seq::<(AccountId, DeviceId)>::empty(),
            r.memberships@ == Seq::<(AccountId, GroupId)>::empty(),
            r.member_devices@ == Seq::<(GroupId, AccountId, DeviceId)>::empty(),
            r.responses@.len() == 0,
            forall|k: DeviceKey| r.pkbs_of(k) == Seq::<Seq<u8>>::empty(),
            forall|a: AccountId, rid: Seq<u8>| r.response_of(a, rid) is None,
    {
        Module {
            bundles: BundleStore::new(),
            devices: Vec::new(),
            memberships: Vec::new(),
            member_devices: Vec::new(),
            responses: Vec::new(),
        }
    }

    /// True when the list for `(sender_id, device_id)` can still take
    /// `pkbs_count` more bundles without exceeding `MAX_PKBS`.
    pub fn check_total_pkbs(
        &self,
        sender_id: &AccountId,
        device_id: DeviceId,
        pkbs_count: usize,
    ) -> (r: bool)
        requires
            self.wf(),
        ensures
            r == (self.pkbs_of(DeviceKey { account: *sender_id, device: device_id }).len()
                + pkbs_count <= MAX_PKBS),
    {
        let key = DeviceKey { account: *sender_id, device: device_id };
        let c = self.bundles.count(key);
        proof {
            self.bundles.lemma_capacity_bound(key);
        }
        pkbs_count <= MAX_PKBS && c + pkbs_count <= MAX_PKBS
    }

    /// Records `device_id` as a device of `owner`; fails when that exact
    /// device is already registered.
    pub fn append_device(&mut self, owner: AccountId, device_id: DeviceId) -> (r: Result<
        (),
        Error,
    >)
        requires
            old(self).wf(),
        ensures
            final(self).wf(),
            old(self).devices@.contains((owner, device_id)) ==> r == Err::<(), Error>(
                Error::DeviceAlreadyRegistered,
            ) && *final(self) == *old(self),
            !old(self).devices@.contains((owner, device_id)) ==> r == Ok::<(), Error>(())
                && final(self).devices@ == old(self).devices@.push((owner, device_id))
                && final(self).bundles == old(self).bundles
                && final(self).memberships == old(self).memberships
                && final(self).member_devices == old(self).member_devices
                && final(self).responses == old(self).responses,
    {
        let mut i: usize = 0;
        while i < self.devices.len()
            invariant
                *self == *old(self),
                old(self).wf(),
                i <= self.devices@.len(),
                forall|j: int| 0 <= j < i ==> self.devices@[j] != (owner, device_id),
            decreases self.devices@.len() - i,
        {
            if self.devices[i].0 == owner && self.devices[i].1 == device_id {
                proof {
                    assert(self.devices@[i as int] == (owner, device_id));
                }
                return Err(Error::DeviceAlreadyRegistered);
            }
            i += 1;
        }
        self.devices.push((owner, device_id));
        Ok(())
    }

    /// Records `(owner, device_id)` as a member device of `group_id`.
    pub fn append_member_device(
        &mut self,
        group_id: GroupId,
        owner: AccountId,
        device_id: DeviceId,
    )
        requires
            old(self).wf(),
        ensures
            final(self).wf(),
            final(self).member_devices@ == old(self).member_devices@.push(
                (group_id, owner, device_id),
            ),
            final(self).bundles == old(self).bundles,
            final(self).devices == old(self).devices,
            final(self).memberships == old(self).memberships,
            final(self).responses == old(self).responses,
    {
        self.member_devices.push((group_id, owner, device_id));
    }

    /// Records that `account` belongs to `group`; later registrations of
    /// the account's devices fan out into that group.
    pub fn add_group_membership(&mut self, account: AccountId, group: GroupId)
        requires
            old(self).wf(),
        ensures
            final(self).wf(),
            final(self).memberships@ == old(self).memberships@.push((account, group)),
            final(self).bundles == old(self).bundles,
            final(self).devices == old(self).devices,
            final(self).member_devices == old(self).member_devices,
            final(self).responses == old(self).responses,
    {
        self.memberships.push((account, group));
    }

    /// A copy of the bundle list currently pending for `key`.
    pub fn pkbs(&self, key: DeviceKey) -> (r: Vec<PreKeyBundle>)
        ensures
            bytes_view(r@) == self.pkbs_of(key),
    {
        self.bundles.bundles_vec(key)
    }

    /// The devices registered for `owner`, in registration order.
    pub fn devices(&self, owner: AccountId) -> (r: Vec<DeviceId>)
        ensures
            r@ == self.devices_of(owner),
    {
        let mut r: Vec<DeviceId> = Vec::new();
        let mut i: usize = 0;
        proof {
            assert(self.devices@.take(0) =~= Seq::<(AccountId, DeviceId)>::empty());
        }
        while i < self.devices.len()
            invariant
                i <= self.devices@.len(),
                r@ == devices_in(self.devices@.take(i as int), owner),
            decreases self.devices@.len() - i,
        {
            proof {
                assert(self.devices@.take(i as int + 1) =~= self.devices@.take(i as int).push(
                    self.devices@[i as int],
                ));
                lemma_devices_in_push(
                    self.devices@.take(i as int),
                    self.devices@[i as int],
                    owner,
                );
            }
            if self.devices[i].0 == owner {
                r.push(self.devices[i].1);
            }
            i += 1;
        }
        proof {
            assert(self.devices@.take(self.devices@.len() as int) =~= self.devices@);
        }
        r
    }

    /// The groups `owner` belongs to, in joining order.
    pub fn groups(&self, owner: AccountId) -> (r: Vec<GroupId>)
        ensures
            r@ == self.groups_of(owner),
    {
        let mut r: Vec<GroupId> = Vec::new();
        let mut i: usize = 0;
        proof {
            assert(self.memberships@.take(0) =~= Seq::<(AccountId, GroupId)>::empty());
        }
        while i < self.memberships.len()
            invariant
                i <= self.memberships@.len(),
                r@ == groups_in(self.memberships@.take(i as int), owner),
            decreases self.memberships@.len() - i,
        {
            proof {
                assert(self.memberships@.take(i as int + 1) =~= self.memberships@.take(
                    i as int,
                ).push(self.memberships@[i as int]));
                lemma_groups_in_push(
                    self.memberships@.take(i as int),
                    self.memberships@[i as int],
                    owner,
                );
            }
            if self.memberships[i].0 == owner {
                r.push(self.memberships[i].1);
            }
            i += 1;
        }
        proof {
            assert(self.memberships@.take(self.memberships@.len() as int) =~= self.memberships@);
        }
        r
    }

    /// The member devices of `group`, in fan-out order.
    pub fn group_member_devices(&self, group: GroupId) -> (r: Vec<(AccountId, DeviceId)>)
        ensures
            r@ == self.member_devices_of(group),
    {
        let mut r: Vec<(AccountId, DeviceId)> = Vec::new();
        let mut i: usize = 0;
        proof {
            assert(self.member_devices@.take(0) =~= Seq::<(GroupId, AccountId, DeviceId)>::empty());
        }
        while i < self.member_devices.len()
            invariant
                i <= self.member_devices@.len(),
                r@ == member_devices_in(self.member_devices@.take(i as int), group),
            decreases self.member_devices@.len() - i,
        {
            proof {
                assert(self.member_devices@.take(i as int + 1) =~= self.member_devices@.take(
                    i as int,
                ).push(self.member_devices@[i as int]));
                lemma_member_devices_in_push(
                    self.member_devices@.take(i as int),
                    self.member_devices@[i as int],
                    group,
                );
            }
            if self.member_devices[i].0 == group {
                r.push((self.member_devices[i].1, self.member_devices[i].2));
            }
            i += 1;
        }
        proof {
            assert(self.member_devices@.take(self.member_devices@.len() as int)
                =~= self.member_devices@);
        }
        r
    }

    /// The response currently readable for `(requester, request_id)`, if
    /// any withdrawal was ever delivered under that pair.
    pub fn response(&self, requester: AccountId, request_id: &RequestId) -> (r: Option<
        Vec<(AccountId, DeviceId, PreKeyBundle)>,
    >)
        ensures
            match r {
                Some(v) => self.response_of(requester, request_id@) == Some(result_view(v@)),
                None => self.response_of(requester, request_id@) is None,
            },
    {
        let mut i: usize = self.responses.len();
        proof {
            assert(self.responses@.take(self.responses@.len() as int) =~= self.responses@);
        }
        while i > 0
            invariant
                i <= self.responses@.len(),
                response_in(self.responses@, requester, request_id@) == response_in(
                    self.responses@.take(i as int),
                    requester,
                    request_id@,
                ),
            decreases i,
        {
            proof {
                assert(self.responses@.take(i as int).drop_last() =~= self.responses@.take(
                    i as int - 1,
                ));
                assert(self.responses@.take(i as int).last() == self.responses@[i as int - 1]);
            }
            let matches_requester = self.responses[i - 1].requester == requester;
            let matches_id = crate::store::eq_bytes(&self.responses[i - 1].request_id, request_id);
            if matches_requester && matches_id {
                let src = &self.responses[i - 1].result;
                let mut out: Vec<(AccountId, DeviceId, PreKeyBundle)> = Vec::new();
                let mut j: usize = 0;
                while j < src.len()
                    invariant
                        j <= src@.len(),
                        out@.len() == j,
                        forall|t: int| 0 <= t < j ==> {
                            &&& #[trigger] out@[t].0 == src@[t].0
                            &&& out@[t].1 == src@[t].1
                            &&& out@[t].2@ == src@[t].2@
                        },
                    decreases src@.len() - j,
                {
                    let b = crate::store::clone_bytes(&src[j].2);
                    out.push((src[j].0, src[j].1, b));
                    j += 1;
                }
                proof {
                    assert(result_view(out@) =~= result_view(src@));
                }
                return Some(out);
            }
            i -= 1;
        }
        proof {
            assert(self.responses@.take(0) =~= Seq::<ResponseEntry>::empty());
        }
        None
    }

    /// Registers a new device for `owner`: checks capacity for the initial
    /// bundle batch, records the device, fans it out into every group the
    /// owner belongs to, and stores the batch. On any failure nothing is
    /// changed.
    pub fn register_device(
        &mut self,
        owner: AccountId,
        device_id: DeviceId,
        pkbs: Vec<PreKeyBundle>,
    ) -> (r: Result<(), Error>)
        requires
            old(self).wf(),
        ensures
            final(self).wf(),
            old(self).pkbs_of(DeviceKey { account: owner, device: device_id }).len() + pkbs@.len()
                > MAX_PKBS ==> r == Err::<(), Error>(Error::CapacityExceeded) && *final(self)
                == *old(self),
            old(self).pkbs_of(DeviceKey { account: owner, device: device_id }).len() + pkbs@.len()
                <= MAX_PKBS && old(self).devices@.contains((owner, device_id)) ==> r == Err::<
                (),
                Error,
            >(Error::DeviceAlreadyRegistered) && *final(self) == *old(self),
            old(self).pkbs_of(DeviceKey { account: owner, device: device_id }).len() + pkbs@.len()
                <= MAX_PKBS && !old(self).devices@.contains((owner, device_id)) ==> r == Ok::<
                (),
                Error,
            >(()) && register_ok(*old(self), *final(self), owner, device_id, bytes_view(pkbs@)),
    {
        let key = DeviceKey { account: owner, device: device_id };
        if !self.check_total_pkbs(&owner, device_id, pkbs.len()) {
            return Err(Error::CapacityExceeded);
        }
        match self.append_device(owner, device_id) {
            Err(e) => {
                return Err(e);
            },
            Ok(()) => {},
        }
        let user_groups = self.groups(owner);
        let ghost mid = *self;
        let mut gi: usize = 0;
        proof {
            assert(user_groups@.take(0) =~= Seq::<GroupId>::empty());
            assert(mid.member_devices@ + fan_out(user_groups@.take(0), owner, device_id)
                =~= mid.member_devices@);
        }
        while gi < user_groups.len()
            invariant
                gi <= user_groups@.len(),
                self.wf(),
                self.bundles == mid.bundles,
                self.devices == mid.devices,
                self.memberships == mid.memberships,
                self.responses == mid.responses,
                self.member_devices@ == mid.member_devices@ + fan_out(
                    user_groups@.take(gi as int),
                    owner,
                    device_id,
                ),
            decreases user_groups@.len() - gi,
        {
            self.append_member_device(user_groups[gi], owner, device_id);
            proof {
                assert(user_groups@.take(gi as int + 1).drop_last() =~= user_groups@.take(
                    gi as int,
                ));
                assert(user_groups@.take(gi as int + 1).last() == user_groups@[gi as int]);
                assert(self.member_devices@ =~= mid.member_devices@ + fan_out(
                    user_groups@.take(gi as int + 1),
                    owner,
                    device_id,
                ));
            }
            gi += 1;
        }
        proof {
            assert(user_groups@.take(user_groups@.len() as int) =~= user_groups@);
        }
        match self.bundles.store(key, pkbs) {
            Ok(()) => Ok(()),
            Err(e) => {
                proof {
                    assert(false);
                }
                Err(e)
            },
        }
    }

    /// Attempts one withdrawal per requested key, in request order, and
    /// delivers the collected bundles to the mailbox slot
    /// `(sender, request_id)`. Keys with no bundle are silently skipped; a
    /// request of more than `WITHDRAW_LIST_MAX_LEN` keys is rejected whole,
    /// before any pop.
    pub fn withdraw_pkbs(
        &mut self,
        sender: AccountId,
        request_id: RequestId,
        wanted_pkbs: Vec<DeviceKey>,
    ) -> (r: Result<(), Error>)
        requires
            old(self).wf(),
        ensures
            final(self).wf(),
            wanted_pkbs@.len() > WITHDRAW_LIST_MAX_LEN ==> r == Err::<(), Error>(
                Error::TooManyKeys,
            ) && *final(self) == *old(self),
            wanted_pkbs@.len() <= WITHDRAW_LIST_MAX_LEN ==> r == Ok::<(), Error>(())
                && withdraw_ok(*old(self), *final(self), sender, request_id@, wanted_pkbs@),
    {
        if wanted_pkbs.len() > WITHDRAW_LIST_MAX_LEN {
            return Err(Error::TooManyKeys);
        }
        let ghost s0 = self.bundles;
        let ghost keys = wanted_pkbs@;
        let mut acquired: Vec<(AccountId, DeviceId, PreKeyBundle)> = Vec::new();
        let mut i: usize = 0;
        proof {
            assert forall|k: DeviceKey| self.bundles.bundles_of(k) == s0.bundles_of(k).take(
                remaining_len(s0.bundles_of(k).len() as int, occ(keys, 0, k) as int),
            ) by {
                assert(s0.bundles_of(k).take(s0.bundles_of(k).len() as int) =~= s0.bundles_of(
                    k,
                ));
            }
            assert(result_view(acquired@) =~= acquired_upto(s0, keys, 0));
        }
        while i < wanted_pkbs.len()
            invariant
                i <= keys.len(),
                keys == wanted_pkbs@,
                s0 == old(self).bundles,
                s0.wf(),
                self.wf(),
                self.devices == old(self).devices,
                self.memberships == old(self).memberships,
                self.member_devices == old(self).member_devices,
                self.responses == old(self).responses,
                forall|k: DeviceKey|
                    #[trigger] self.bundles.bundles_of(k) == s0.bundles_of(k).take(
                        remaining_len(s0.bundles_of(k).len() as int, occ(keys, i as int, k) as int),
                    ),
                result_view(acquired@) == acquired_upto(s0, keys, i as int),
            decreases keys.len() - i,
        {
            let key = wanted_pkbs[i];
            let ghost l0 = s0.bundles_of(key);
            let ghost before = occ(keys, i as int, key);
            let ghost cur = self.bundles.bundles_of(key);
            let popped = self.bundles.pop(key);
            match popped {
                Some(b) => {
                    proof {
                        assert(cur.len() == remaining_len(l0.len() as int, before as int));
                        assert(before < l0.len());
                        assert(b@ == cur.last());
                        assert(cur.last() == l0[l0.len() - 1 - before]);
                        assert(l0.take((l0.len() - before) as int).drop_last() =~= l0.take(
                            remaining_len(l0.len() as int, before as int + 1),
                        ));
                    }
                    acquired.push((key.account, key.device, b));
                    proof {
                        assert(result_view(acquired@) =~= acquired_upto(
                            s0,
                            keys,
                            i as int + 1,
                        ));
                    }
                },
                None => {
                    proof {
                        assert(cur.len() == 0);
                        assert(remaining_len(l0.len() as int, before as int) == 0);
                        assert(before >= l0.len());
                        assert(l0.take(0) =~= cur);
                        assert(result_view(acquired@) =~= acquired_upto(
                            s0,
                            keys,
                            i as int + 1,
                        ));
                    }
                },
            }
            proof {
                assert forall|k2: DeviceKey| self.bundles.bundles_of(k2) == s0.bundles_of(
                    k2,
                ).take(
                    remaining_len(
                        s0.bundles_of(k2).len() as int,
                        occ(keys, i as int + 1, k2) as int,
                    ),
                ) by {
                    if k2 != key {
                        assert(occ(keys, i as int + 1, k2) == occ(keys, i as int, k2));
                    }
                }
            }
            i += 1;
        }
        let entry = ResponseEntry { requester: sender, request_id, result: acquired };
        self.responses.push(entry);
        proof {
            let log = old(self).responses@;
            let e = self.responses@.last();
            assert(self.responses@ == log.push(e));
            lemma_response_in_push(log, e, sender, request_id@);
            assert(self.responses@.drop_last() =~= log);
            assert(keys.take(keys.len() as int) =~= keys);
            assert forall|a2: AccountId, rid2: Seq<u8>|
                !(a2 == sender && rid2 == request_id@) implies self.response_of(a2, rid2)
                == old(self).response_of(a2, rid2) by {
                lemma_response_in_push(log, e, a2, rid2);
            }
        }
        Ok(())
    }

    /// Adds a batch of fresh pre-key bundles for `(owner, device_id)`,
    /// atomically: all of them, or none with `CapacityExceeded`.
    pub fn replenish_pkbs(
        &mut self,
        owner: AccountId,
        device_id: DeviceId,
        pkbs: Vec<PreKeyBundle>,
    ) -> (r: Result<(), Error>)
        requires
            old(self).wf(),
        ensures
            final(self).wf(),
            store_transition(
                old(self).bundles,
                final(self).bundles,
                DeviceKey { account: owner, device: device_id },
                bytes_view(pkbs@),
                r,
            ),
            final(self).devices == old(self).devices,
            final(self).memberships == old(self).memberships,
            final(self).member_devices == old(self).member_devices,
            final(self).responses == old(self).responses,
    {
        let key = DeviceKey { account: owner, device: device_id };
        self.bundles.store(key, pkbs)
    }
}

} // verus!
