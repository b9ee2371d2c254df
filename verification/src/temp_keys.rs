//! The temporary-key session registry.
//!
//! Temporary keys are a session mechanism for onboarding new anchors.
//! Onboarding keys track a session before its anchor exists; device-bound
//! keys stand in for a freshly registered device until its first real
//! interaction. Both expire after a fixed lifetime; every mutating or
//! checking call first runs a bounded, amortized sweep of the expiration
//! queue.

use vstd::prelude::*;
use std::collections::VecDeque;

verus! {

/// Nanoseconds in one minute.
pub const MINUTE_NS: u64 = 60_000_000_000;

/// Lifetime of a temporary key, the same as the front-end delegation
/// expiry.
pub const TEMP_KEY_EXPIRATION_NS: u64 = 10 * MINUTE_NS;

/// The ceiling on onboarding keys when no registration rate limit is
/// configured.
pub const DEFAULT_MAX_ONBOARDING_KEYS: u64 = 20_000;

/// The bound on queue records swept per call.
pub const MAX_TO_PRUNE: usize = 100;

/// A caller identity: the bytes of its principal.
pub type KeyId = Vec<u8>;

/// A device's public key bytes.
pub type DeviceKey = Vec<u8>;

/// A point in time, in nanoseconds.
pub type Timestamp = u64;

/// A stable long-term identity number.
pub type AnchorNumber = u64;

/// A temporary key attached to a device and a specific anchor.
pub struct DeviceBoundTempKey {
    /// The temp key principal.
    pub principal: KeyId,
    /// The anchor the temporary key is linked to.
    pub anchor: AnchorNumber,
    /// The expiration timestamp of the temp key.
    pub expiration: Timestamp,
}

/// A record of the expiration queue: which set an expiring key lives in,
/// and when it expires.
pub enum TempKeyExpiration {
    /// Expiration of a device-bound key.
    DeviceBound {
        /// The device key the temp key is linked to.
        device_key: DeviceKey,
        /// The expiration timestamp of the temp key.
        expiration: Timestamp,
    },
    /// Expiration of an onboarding key.
    Onboarding {
        /// The principal of the onboarding temp key.
        principal: KeyId,
        /// The expiration timestamp of the temp key.
        expiration: Timestamp,
    },
}

/// The expiration moment a queue record carries.
pub open spec fn exp_of(e: TempKeyExpiration) -> Timestamp {
    match e {
        TempKeyExpiration::DeviceBound { expiration, .. } => expiration,
        TempKeyExpiration::Onboarding { principal: _, expiration } => expiration,
    }
}

impl TempKeyExpiration {
    /// Reads the shared expiration time of either record kind.
    pub fn expiration(&self) -> (r: Timestamp)
        ensures
            r == exp_of(*self),
    {
        match self {
            TempKeyExpiration::DeviceBound { expiration, .. } => *expiration,
            TempKeyExpiration::Onboarding { expiration, .. } => *expiration,
        }
    }
}

/// The registry's mathematical state: plain sequences in place of the
/// executable containers.
pub struct RegistryView {
    /// Onboarding principals with their expirations.
    pub onboarding: Seq<(Seq<u8>, Timestamp)>,
    /// Device-bound records: (device key, principal, anchor, expiration).
    pub devices: Seq<(Seq<u8>, Seq<u8>, AnchorNumber, Timestamp)>,
    /// The expiration queue, oldest first.
    pub queue: Seq<QueueRec>,
}

/// A queue record, viewed.
pub enum QueueRec {
    /// Expiration of a device-bound key, by device key.
    Dev {
        /// The device key.
        dk: Seq<u8>,
        /// Its expiration.
        exp: Timestamp,
    },
    /// Expiration of an onboarding key, by principal.
    Onb {
        /// The principal.
        principal: Seq<u8>,
        /// Its expiration.
        exp: Timestamp,
    },
}

/// The expiration moment of a viewed queue record.
pub open spec fn rec_exp(r: QueueRec) -> Timestamp {
    match r {
        QueueRec::Dev { dk: _, exp } => exp,
        QueueRec::Onb { principal: _, exp } => exp,
    }
}

/// Whether an onboarding sequence carries the principal `k`.
pub open spec fn ov_has(s: Seq<(Seq<u8>, Timestamp)>, k: Seq<u8>) -> bool {
    exists|i: int| 0 <= i < s.len() && s[i].0 == k
}

/// The index at which `k` lies (unique under the registry invariant).
pub open spec fn ov_at(s: Seq<(Seq<u8>, Timestamp)>, k: Seq<u8>) -> int {
    choose|i: int| 0 <= i < s.len() && s[i].0 == k
}

/// The expiration stored for principal `k`.
pub open spec fn ov_exp(s: Seq<(Seq<u8>, Timestamp)>, k: Seq<u8>) -> Timestamp {
    s[ov_at(s, k)].1
}

/// The sequence without principal `k` (unchanged when absent).
pub open spec fn ov_remove(s: Seq<(Seq<u8>, Timestamp)>, k: Seq<u8>) -> Seq<(Seq<u8>, Timestamp)> {
    if ov_has(s, k) {
        s.remove(ov_at(s, k))
    } else {
        s
    }
}

/// Whether a device sequence carries the device key `dk`.
pub open spec fn dv_has(s: Seq<(Seq<u8>, Seq<u8>, AnchorNumber, Timestamp)>, dk: Seq<u8>) -> bool {
    exists|i: int| 0 <= i < s.len() && s[i].0 == dk
}

/// The index at which `dk` lies (unique under the registry invariant).
pub open spec fn dv_at(s: Seq<(Seq<u8>, Seq<u8>, AnchorNumber, Timestamp)>, dk: Seq<u8>) -> int {
    choose|i: int| 0 <= i < s.len() && s[i].0 == dk
}

/// The record stored for device key `dk`.
pub open spec fn dv_rec(s: Seq<(Seq<u8>, Seq<u8>, AnchorNumber, Timestamp)>, dk: Seq<u8>) -> (
    Seq<u8>,
    Seq<u8>,
    AnchorNumber,
    Timestamp,
) {
    s[dv_at(s, dk)]
}

/// The sequence without device key `dk` (unchanged when absent).
pub open spec fn dv_remove(s: Seq<(Seq<u8>, Seq<u8>, AnchorNumber, Timestamp)>, dk: Seq<u8>) -> Seq<
    (Seq<u8>, Seq<u8>, AnchorNumber, Timestamp),
> {
    if dv_has(s, dk) {
        s.remove(dv_at(s, dk))
    } else {
        s
    }
}

/// One sweep step: drop the queue's front record and remove the key it
/// names from its set.
pub open spec fn sweep_one(v: RegistryView) -> RegistryView {
    match v.queue[0] {
        QueueRec::Onb { principal, exp: _ } => RegistryView {
            onboarding: ov_remove(v.onboarding, principal),
            devices: v.devices,
            queue: v.queue.drop_first(),
        },
        QueueRec::Dev { dk, exp: _ } => RegistryView {
            onboarding: v.onboarding,
            devices: dv_remove(v.devices, dk),
            queue: v.queue.drop_first(),
        },
    }
}

/// The amortized sweep: pop expired records from the queue's front,
/// removing each named key, until the front outlives `now`, the queue
/// empties, or `fuel` steps have run.
pub open spec fn sweep(v: RegistryView, now: Timestamp, fuel: nat) -> RegistryView
    decreases fuel,
{
    if fuel == 0 || v.queue.len() == 0 || rec_exp(v.queue[0]) > now {
        v
    } else {
        sweep(sweep_one(v), now, (fuel - 1) as nat)
    }
}

/// The temporary-key session registry.
pub struct TempKeys {
    /// Principals that solved the anti-abuse challenge, with expirations;
    /// keys are unique.
    pub onboarding_keys: Vec<(KeyId, Timestamp)>,
    /// Temporary keys attached to devices and anchors; device keys are
    /// unique.
    pub device_bound_keys: Vec<(DeviceKey, DeviceBoundTempKey)>,
    /// Queue of expirations, oldest first, for amortized pruning.
    pub expirations: VecDeque<TempKeyExpiration>,
    /// The latest time any operation has seen; times never move backward.
    pub last_time: Timestamp,
}

/// The expiration queue as a view.
pub open spec fn queue_view(s: Seq<TempKeyExpiration>) -> Seq<QueueRec> {
    s.map(
        |i: int, e: TempKeyExpiration|
            match e {
                TempKeyExpiration::DeviceBound { device_key, expiration } => QueueRec::Dev {
                    dk: device_key@,
                    exp: expiration,
                },
                TempKeyExpiration::Onboarding { principal, expiration } => QueueRec::Onb {
                    principal: principal@,
                    exp: expiration,
                },
            },
    )
}

impl TempKeys {
    /// The registry state as plain sequences.
    pub open spec fn view_of(self) -> RegistryView {
        RegistryView {
            onboarding: onb_view(self.onboarding_keys@),
            devices: dev_view(self.device_bound_keys@),
            queue: queue_view(self.expirations@),
        }
    }

    /// The registry invariant: unique keys in each set, queue expirations
    /// never decreasing, and no queued expiration beyond one lifetime past
    /// the registry's clock.
    pub open spec fn wf(self) -> bool {
        let v = self.view_of();
        &&& forall|i: int, j: int|
            0 <= i < j < v.onboarding.len() ==> v.onboarding[i].0 != v.onboarding[j].0
        &&& forall|i: int, j: int| 0 <= i < j < v.devices.len() ==> v.devices[i].0 != v.devices[j].0
        &&& forall|i: int, j: int|
            0 <= i < j < v.queue.len() ==> rec_exp(v.queue[i]) <= rec_exp(v.queue[j])
        &&& forall|i: int|
            0 <= i < v.queue.len() ==> rec_exp(#[trigger] v.queue[i]) <= self.last_time
                + TEMP_KEY_EXPIRATION_NS
        &&& self.last_time + TEMP_KEY_EXPIRATION_NS <= u64::MAX
    }

    /// Creates an empty registry whose clock starts at zero.
    pub fn new() -> (r: Self)
        ensures
            r.wf(),
            r.view_of().onboarding.len() == 0,
            r.view_of().devices.len() == 0,
            r.view_of().queue.len() == 0,
            r.last_time == 0,
    {
        let r = TempKeys {
            onboarding_keys: Vec::new(),
            device_bound_keys: Vec::new(),
            expirations: VecDeque::new(),
            last_time: 0,
        };
        proof {
            assert(r.view_of().onboarding =~= Seq::<(Seq<u8>, Timestamp)>::empty());
            assert(r.view_of().devices =~= Seq::<(Seq<u8>, Seq<u8>, AnchorNumber, Timestamp)>::empty());
            assert(r.view_of().queue =~= Seq::<QueueRec>::empty());
        }
        r
    }

    /// Counts the device-bound temporary keys.
    pub fn num_temp_keys(&self) -> (r: usize)
        ensures
            r == self.view_of().devices.len(),
    {
        self.device_bound_keys.len()
    }
}

/// Unique principals in an onboarding view.
pub open spec fn ov_unique(s: Seq<(Seq<u8>, Timestamp)>) -> bool {
    forall|i: int, j: int| 0 <= i < j < s.len() ==> s[i].0 != s[j].0
}

/// Unique device keys in a device view.
pub open spec fn dv_unique(s: Seq<(Seq<u8>, Seq<u8>, AnchorNumber, Timestamp)>) -> bool {
    forall|i: int, j: int| 0 <= i < j < s.len() ==> s[i].0 != s[j].0
}

/// The onboarding vector as a view.
pub open spec fn onb_view(s: Seq<(KeyId, Timestamp)>) -> Seq<(Seq<u8>, Timestamp)> {
    s.map(|i: int, p: (KeyId, Timestamp)| (p.0@, p.1))
}

/// The device vector as a view.
pub open spec fn dev_view(s: Seq<(DeviceKey, DeviceBoundTempKey)>) -> Seq<
    (Seq<u8>, Seq<u8>, AnchorNumber, Timestamp),
> {
    s.map(
        |i: int, p: (DeviceKey, DeviceBoundTempKey)|
            (p.0@, p.1.principal@, p.1.anchor, p.1.expiration),
    )
}

/// Removes the onboarding entry for principal `k`, if present.
fn remove_onboarding_key(keys: &mut Vec<(KeyId, Timestamp)>, k: &Vec<u8>)
    requires
        ov_unique(onb_view(old(keys)@)),
    ensures
        onb_view(final(keys)@) == ov_remove(onb_view(old(keys)@), k@),
        ov_unique(onb_view(final(keys)@)),
{
    let ghost v0 = onb_view(old(keys)@);
    let n = keys.len();
    let mut i: usize = 0;
    while i < n
        invariant
            ov_unique(v0),
            v0 == onb_view(keys@),
            v0 == onb_view(old(keys)@),
            n == keys@.len(),
            i <= n,
            forall|j: int| 0 <= j < i ==> v0[j].0 != k@,
        decreases n - i,
    {
        if bytes_eq(&keys[i].0, k) {
            proof {
                assert(v0[i as int].0 == k@);
                assert(ov_has(v0, k@));
                let w = ov_at(v0, k@);
                if w != i {
                    assert(v0[w].0 == v0[i as int].0);
                    assert(false);
                }
            }
            let ghost old_raw = keys@;
            keys.remove(i);
            proof {
                old_raw.remove_ensures(i as int);
                v0.remove_ensures(i as int);
                assert(onb_view(keys@) =~= v0.remove(i as int));

                assert forall|a: int, b: int|
                    0 <= a < b < onb_view(keys@).len() implies onb_view(keys@)[a].0 != onb_view(
                    keys@,
                )[b].0 by {
                    let pa = if a < i { a } else { a + 1 };
                    let pb = if b < i { b } else { b + 1 };
                    assert(onb_view(keys@)[a] == v0[pa] && onb_view(keys@)[b] == v0[pb]);
                }
            }
            return;
        }
        i = i + 1;
    }
    proof {
        if ov_has(v0, k@) {
            let w = ov_at(v0, k@);
            assert(v0[w].0 != k@);
        }
    }
}

/// Removes the device-bound entry for device key `dk`, if present.
fn remove_device_key(keys: &mut Vec<(DeviceKey, DeviceBoundTempKey)>, dk: &Vec<u8>)
    requires
        dv_unique(dev_view(old(keys)@)),
    ensures
        dev_view(final(keys)@) == dv_remove(dev_view(old(keys)@), dk@),
        dv_unique(dev_view(final(keys)@)),
{
    let ghost v0 = dev_view(old(keys)@);
    let n = keys.len();
    let mut i: usize = 0;
    while i < n
        invariant
            dv_unique(v0),
            v0 == dev_view(keys@),
            v0 == dev_view(old(keys)@),
            n == keys@.len(),
            i <= n,
            forall|j: int| 0 <= j < i ==> v0[j].0 != dk@,
        decreases n - i,
    {
        if bytes_eq(&keys[i].0, dk) {
            proof {
                assert(v0[i as int].0 == dk@);
                assert(dv_has(v0, dk@));
                let w = dv_at(v0, dk@);
                if w != i {
                    assert(v0[w].0 == v0[i as int].0);
                    assert(false);
                }
            }
            let ghost old_raw = keys@;
            keys.remove(i);
            proof {
                old_raw.remove_ensures(i as int);
                v0.remove_ensures(i as int);
                assert(dev_view(keys@) =~= v0.remove(i as int));
                assert forall|a: int, b: int|
                    0 <= a < b < dev_view(keys@).len() implies dev_view(keys@)[a].0 != dev_view(
                    keys@,
                )[b].0 by {
                    let pa = if a < i { a } else { a + 1 };
                    let pb = if b < i { b } else { b + 1 };
                    assert(dev_view(keys@)[a] == v0[pa] && dev_view(keys@)[b] == v0[pb]);
                }
            }
            return;
        }
        i = i + 1;
    }
    proof {
        if dv_has(v0, dk@) {
            let w = dv_at(v0, dk@);
            assert(v0[w].0 != dk@);
        }
    }
}

impl TempKeys {
    /// Sweeps the expiration queue: pops records whose expiration is at or
    /// before `now` and drops the named keys from their sets, at most
    /// `MAX_TO_PRUNE` records per call. Unswept backlog waits for the next
    /// call.
    pub fn prune_expired_keys(&mut self, now: Timestamp)
        requires
            old(self).wf(),
        ensures
            final(self).wf(),
            final(self).view_of() == sweep(old(self).view_of(), now, MAX_TO_PRUNE as nat),
            final(self).last_time == old(self).last_time,
    {
        let ghost v00 = old(self).view_of();
        let mut i: usize = 0;
        while i < MAX_TO_PRUNE
            invariant
                self.wf(),
                i <= MAX_TO_PRUNE,
                v00 == old(self).view_of(),
                self.last_time == old(self).last_time,
                sweep(v00, now, MAX_TO_PRUNE as nat) == sweep(
                    self.view_of(),
                    now,
                    (MAX_TO_PRUNE - i) as nat,
                ),
            decreases MAX_TO_PRUNE - i,
        {
            let ghost pre = self.view_of();
            let ghost q_before = self.expirations@;
            let popped = self.expirations.pop_front();
            match popped {
                None => {
                    proof {
                        assert(self.view_of().queue =~= pre.queue);
                        assert(self.view_of() == pre);
                        assert(pre.queue.len() == 0);
                        assert(sweep(pre, now, (MAX_TO_PRUNE - i) as nat) == pre);
                    }
                    return;
                },
                Some(rec) => {
                    proof {
                        assert(pre.queue.len() > 0);
                        assert(rec_exp(pre.queue[0]) == exp_of(rec));
                    }
                    if rec.expiration() > now {
                        self.expirations.push_front(rec);
                        proof {
                            assert(self.expirations@ =~= q_before);
                            assert(self.view_of().queue =~= pre.queue);
                            assert(self.view_of() == pre);
                            assert(rec_exp(pre.queue[0]) > now);
                            assert(sweep(pre, now, (MAX_TO_PRUNE - i) as nat) == pre);
                        }
                        return;
                    }
                    match rec {
                        TempKeyExpiration::DeviceBound { device_key, expiration } => {
                            proof {
                                assert(pre.queue[0] == (QueueRec::Dev {
                                    dk: device_key@,
                                    exp: expiration,
                                }));
                            }
                            remove_device_key(&mut self.device_bound_keys, &device_key);
                            proof {
                                assert(self.view_of().queue =~= pre.queue.drop_first());
                                assert(self.view_of().onboarding == pre.onboarding);
                                assert(self.view_of() == sweep_one(pre));
                            }
                        },
                        TempKeyExpiration::Onboarding { principal, expiration } => {
                            proof {
                                assert(pre.queue[0] == (QueueRec::Onb {
                                    principal: principal@,
                                    exp: expiration,
                                }));
                            }
                            remove_onboarding_key(&mut self.onboarding_keys, &principal);
                            proof {
                                assert(self.view_of().queue =~= pre.queue.drop_first());
                                assert(self.view_of().devices == pre.devices);
                                assert(self.view_of() == sweep_one(pre));
                            }
                        },
                    }
                    proof {
                        assert(sweep(pre, now, (MAX_TO_PRUNE - i) as nat) == sweep(
                            sweep_one(pre),
                            now,
                            (MAX_TO_PRUNE - i - 1) as nat,
                        ));
                    }
                    proof {
                        // the queue shrank in order: sortedness and the
                        // clock bound carry to the tail
                        assert forall|a: int, b: int|
                            0 <= a < b < self.view_of().queue.len() implies rec_exp(
                            self.view_of().queue[a],
                        ) <= rec_exp(self.view_of().queue[b]) by {
                            assert(self.view_of().queue[a] == pre.queue[a + 1]);
                            assert(self.view_of().queue[b] == pre.queue[b + 1]);
                        }
                        assert forall|a: int|
                            0 <= a < self.view_of().queue.len() implies rec_exp(
                            #[trigger] self.view_of().queue[a],
                        ) <= self.last_time + TEMP_KEY_EXPIRATION_NS by {
                            assert(self.view_of().queue[a] == pre.queue[a + 1]);
                        }
                    }
                    i = i + 1;
                },
            }
        }
    }
}

/// The onboarding sequence with principal `k` bound to expiration `e`:
/// updated in place when present, appended when absent.
pub open spec fn ov_upsert(s: Seq<(Seq<u8>, Timestamp)>, k: Seq<u8>, e: Timestamp) -> Seq<
    (Seq<u8>, Timestamp),
> {
    if ov_has(s, k) {
        s.update(ov_at(s, k), (k, e))
    } else {
        s.push((k, e))
    }
}

/// The device sequence with device key `dk` bound to the given record:
/// updated in place when present, appended when absent.
pub open spec fn dv_upsert(
    s: Seq<(Seq<u8>, Seq<u8>, AnchorNumber, Timestamp)>,
    dk: Seq<u8>,
    principal: Seq<u8>,
    anchor: AnchorNumber,
    e: Timestamp,
) -> Seq<(Seq<u8>, Seq<u8>, AnchorNumber, Timestamp)> {
    if dv_has(s, dk) {
        s.update(dv_at(s, dk), (dk, principal, anchor, e))
    } else {
        s.push((dk, principal, anchor, e))
    }
}

/// Copies a byte vector.
pub fn bytes_clone(a: &Vec<u8>) -> (r: Vec<u8>)
    ensures
        r@ == a@,
{
    let mut v: Vec<u8> = Vec::new();
    let n = a.len();
    let mut i: usize = 0;
    while i < n
        invariant
            n == a@.len(),
            i <= n,
            v@ == a@.take(i as int),
        decreases n - i,
    {
        v.push(a[i]);
        proof {
            assert(v@ =~= a@.take(i + 1));
        }
        i = i + 1;
    }
    proof {
        assert(v@ =~= a@);
    }
    v
}

/// Looks an onboarding principal up, returning its stored expiration.
fn find_onboarding(keys: &Vec<(KeyId, Timestamp)>, k: &Vec<u8>) -> (r: Option<Timestamp>)
    requires
        ov_unique(onb_view(keys@)),
    ensures
        match r {
            Some(e) => ov_has(onb_view(keys@), k@) && ov_exp(onb_view(keys@), k@) == e,
            None => !ov_has(onb_view(keys@), k@),
        },
{
    let ghost v0 = onb_view(keys@);
    let n = keys.len();
    let mut i: usize = 0;
    while i < n
        invariant
            ov_unique(v0),
            v0 == onb_view(keys@),
            n == keys@.len(),
            i <= n,
            forall|j: int| 0 <= j < i ==> v0[j].0 != k@,
        decreases n - i,
    {
        if bytes_eq(&keys[i].0, k) {
            proof {
                assert(v0[i as int].0 == k@);
                assert(ov_has(v0, k@));
                let w = ov_at(v0, k@);
                if w != i {
                    assert(v0[w].0 == v0[i as int].0);
                    assert(false);
                }
            }
            return Some(keys[i].1);
        }
        i = i + 1;
    }
    proof {
        if ov_has(v0, k@) {
            let w = ov_at(v0, k@);
            assert(v0[w].0 != k@);
        }
    }
    None
}

/// Looks a device key up, returning its index.
fn find_device(keys: &Vec<(DeviceKey, DeviceBoundTempKey)>, dk: &Vec<u8>) -> (r: Option<usize>)
    requires
        dv_unique(dev_view(keys@)),
    ensures
        match r {
            Some(i) => i < keys@.len() && dev_view(keys@)[i as int].0 == dk@ && dv_has(
                dev_view(keys@),
                dk@,
            ) && dv_at(dev_view(keys@), dk@) == i as int,
            None => !dv_has(dev_view(keys@), dk@),
        },
{
    let ghost v0 = dev_view(keys@);
    let n = keys.len();
    let mut i: usize = 0;
    while i < n
        invariant
            dv_unique(v0),
            v0 == dev_view(keys@),
            n == keys@.len(),
            i <= n,
            forall|j: int| 0 <= j < i ==> v0[j].0 != dk@,
        decreases n - i,
    {
        if bytes_eq(&keys[i].0, dk) {
            proof {
                assert(v0[i as int].0 == dk@);
                assert(dv_has(v0, dk@));
                let w = dv_at(v0, dk@);
                if w != i {
                    assert(v0[w].0 == v0[i as int].0);
                    assert(false);
                }
            }
            return Some(i);
        }
        i = i + 1;
    }
    proof {
        if dv_has(v0, dk@) {
            let w = dv_at(v0, dk@);
            assert(v0[w].0 != dk@);
        }
    }
    None
}

/// Binds an onboarding principal to an expiration, replacing any stored
/// binding for the same principal.
fn upsert_onboarding(keys: &mut Vec<(KeyId, Timestamp)>, k: KeyId, e: Timestamp)
    requires
        ov_unique(onb_view(old(keys)@)),
    ensures
        onb_view(final(keys)@) == ov_upsert(onb_view(old(keys)@), k@, e),
        ov_unique(onb_view(final(keys)@)),
{
    let ghost v0 = onb_view(old(keys)@);
    let n = keys.len();
    let mut i: usize = 0;
    while i < n
        invariant
            ov_unique(v0),
            v0 == onb_view(keys@),
            v0 == onb_view(old(keys)@),
            n == keys@.len(),
            i <= n,
            forall|j: int| 0 <= j < i ==> v0[j].0 != k@,
        decreases n - i,
    {
        if bytes_eq(&keys[i].0, &k) {
            proof {
                assert(v0[i as int].0 == k@);
                assert(ov_has(v0, k@));
                let w = ov_at(v0, k@);
                if w != i {
                    assert(v0[w].0 == v0[i as int].0);
                    assert(false);
                }
            }
            let ghost old_raw = keys@;
            keys.remove(i);
            keys.insert(i, (k, e));
            proof {
                old_raw.remove_ensures(i as int);
                old_raw.remove(i as int).insert_ensures(i as int, keys@[i as int]);
                assert(onb_view(keys@) =~= v0.update(i as int, (k@, e)));
                assert forall|a: int, b: int|
                    0 <= a < b < onb_view(keys@).len() implies onb_view(keys@)[a].0 != onb_view(
                    keys@,
                )[b].0 by {
                    assert(onb_view(keys@)[a].0 == v0[a].0);
                    assert(onb_view(keys@)[b].0 == v0[b].0);
                }
            }
            return;
        }
        i = i + 1;
    }
    proof {
        if ov_has(v0, k@) {
            let w = ov_at(v0, k@);
            assert(v0[w].0 != k@);
        }
    }
    let ghost old_raw = keys@;
    keys.push((k, e));
    proof {
        assert(onb_view(keys@) =~= v0.push((k@, e)));
        assert forall|a: int, b: int|
            0 <= a < b < onb_view(keys@).len() implies onb_view(keys@)[a].0 != onb_view(
            keys@,
        )[b].0 by {
            if b < v0.len() {
                assert(onb_view(keys@)[a].0 == v0[a].0);
                assert(onb_view(keys@)[b].0 == v0[b].0);
            } else {
                assert(onb_view(keys@)[a].0 == v0[a].0);
                assert(onb_view(keys@)[b].0 == k@);
            }
        }
    }
}

/// Binds a device key to a device-bound record, replacing any stored
/// binding for the same device key.
fn upsert_device(keys: &mut Vec<(DeviceKey, DeviceBoundTempKey)>, dk: DeviceKey, rec: DeviceBoundTempKey)
    requires
        dv_unique(dev_view(old(keys)@)),
    ensures
        dev_view(final(keys)@) == dv_upsert(
            dev_view(old(keys)@),
            dk@,
            rec.principal@,
            rec.anchor,
            rec.expiration,
        ),
        dv_unique(dev_view(final(keys)@)),
{
    let ghost v0 = dev_view(old(keys)@);
    let ghost item = (dk@, rec.principal@, rec.anchor, rec.expiration);
    let n = keys.len();
    let mut i: usize = 0;
    while i < n
        invariant
            dv_unique(v0),
            v0 == dev_view(keys@),
            v0 == dev_view(old(keys)@),
            n == keys@.len(),
            i <= n,
            item == (dk@, rec.principal@, rec.anchor, rec.expiration),
            forall|j: int| 0 <= j < i ==> v0[j].0 != dk@,
        decreases n - i,
    {
        if bytes_eq(&keys[i].0, &dk) {
            proof {
                assert(v0[i as int].0 == dk@);
                assert(dv_has(v0, dk@));
                let w = dv_at(v0, dk@);
                if w != i {
                    assert(v0[w].0 == v0[i as int].0);
                    assert(false);
                }
            }
            let ghost old_raw = keys@;
            keys.remove(i);
            keys.insert(i, (dk, rec));
            proof {
                old_raw.remove_ensures(i as int);
                old_raw.remove(i as int).insert_ensures(i as int, keys@[i as int]);
                assert(dev_view(keys@) =~= v0.update(i as int, item));
                assert forall|a: int, b: int|
                    0 <= a < b < dev_view(keys@).len() implies dev_view(keys@)[a].0 != dev_view(
                    keys@,
                )[b].0 by {
                    assert(dev_view(keys@)[a].0 == v0[a].0);
                    assert(dev_view(keys@)[b].0 == v0[b].0);
                }
            }
            return;
        }
        i = i + 1;
    }
    proof {
        if dv_has(v0, dk@) {
            let w = dv_at(v0, dk@);
            assert(v0[w].0 != dk@);
        }
    }
    keys.push((dk, rec));
    proof {
        assert(dev_view(keys@) =~= v0.push(item));
        assert forall|a: int, b: int|
            0 <= a < b < dev_view(keys@).len() implies dev_view(keys@)[a].0 != dev_view(
            keys@,
        )[b].0 by {
            if b < v0.len() {
                assert(dev_view(keys@)[a].0 == v0[a].0);
                assert(dev_view(keys@)[b].0 == v0[b].0);
            } else {
                assert(dev_view(keys@)[a].0 == v0[a].0);
                assert(dev_view(keys@)[b].0 == dk@);
            }
        }
    }
}

impl TempKeys {
    /// Admits an onboarding temporary key, after a sweep and a capacity
    /// check against the configured registration ceiling (or its default
    /// when none is configured). The key expires one lifetime after `now`.
    pub fn add_onboarding_temp_key(
        &mut self,
        temp_key: KeyId,
        now: Timestamp,
        registration_limit: Option<u64>,
    ) -> (r: Result<(), ()>)
        requires
            old(self).wf(),
            old(self).last_time <= now,
            now + TEMP_KEY_EXPIRATION_NS <= u64::MAX,
        ensures
            final(self).wf(),
            final(self).last_time == now,
            ({
                let swept = sweep(old(self).view_of(), now, MAX_TO_PRUNE as nat);
                let limit = match registration_limit {
                    Some(l) => l,
                    None => DEFAULT_MAX_ONBOARDING_KEYS,
                };
                let exp = (now + TEMP_KEY_EXPIRATION_NS) as u64;
                if swept.onboarding.len() >= limit {
                    r is Err && final(self).view_of() == swept
                } else {
                    r is Ok && final(self).view_of() == (RegistryView {
                        onboarding: ov_upsert(swept.onboarding, temp_key@, exp),
                        devices: swept.devices,
                        queue: swept.queue.push(QueueRec::Onb { principal: temp_key@, exp }),
                    })
                }
            }),
    {
        self.prune_expired_keys(now);
        let ghost swept = self.view_of();
        self.last_time = now;
        proof {
            assert(self.view_of() == swept);
        }
        let limit = match registration_limit {
            Some(l) => l,
            None => DEFAULT_MAX_ONBOARDING_KEYS,
        };
        if self.onboarding_keys.len() as u64 >= limit {
            return Err(());
        }
        let exp = now + TEMP_KEY_EXPIRATION_NS;
        let key_copy = bytes_clone(&temp_key);
        let ghost q_before = self.expirations@;
        self.expirations.push_back(
            TempKeyExpiration::Onboarding { principal: key_copy, expiration: exp },
        );
        proof {
            assert(self.view_of().queue =~= swept.queue.push(
                QueueRec::Onb { principal: temp_key@, exp },
            ));
        }
        let ghost mid = self.view_of();
        upsert_onboarding(&mut self.onboarding_keys, temp_key, exp);
        proof {
            assert(self.view_of().queue == mid.queue);
            assert(self.view_of().devices == mid.devices);
            assert(self.view_of().onboarding == ov_upsert(swept.onboarding, temp_key@, exp));
            // the queue stays sorted and within one lifetime of the clock
            let q = self.view_of().queue;
            assert forall|a: int, b: int| 0 <= a < b < q.len() implies rec_exp(q[a]) <= rec_exp(
                q[b],
            ) by {
                if b < swept.queue.len() {
                    assert(q[a] == swept.queue[a] && q[b] == swept.queue[b]);
                } else {
                    assert(q[b] == (QueueRec::Onb { principal: temp_key@, exp }));
                    assert(q[a] == swept.queue[a]);
                    assert(rec_exp(swept.queue[a]) <= old(self).last_time
                        + TEMP_KEY_EXPIRATION_NS);
                }
            }
            assert forall|a: int| 0 <= a < q.len() implies rec_exp(#[trigger] q[a])
                <= self.last_time + TEMP_KEY_EXPIRATION_NS by {
                if a < swept.queue.len() {
                    assert(q[a] == swept.queue[a]);
                    assert(rec_exp(swept.queue[a]) <= old(self).last_time
                        + TEMP_KEY_EXPIRATION_NS);
                } else {
                    assert(q[a] == (QueueRec::Onb { principal: temp_key@, exp }));
                }
            }
        }
        Ok(())
    }

    /// Checks that a principal holds a live onboarding key, after a sweep.
    pub fn check_onboarding_temp_key(&mut self, caller: &KeyId, now: Timestamp) -> (r: Result<
        (),
        (),
    >)
        requires
            old(self).wf(),
        ensures
            final(self).wf(),
            final(self).view_of() == sweep(old(self).view_of(), now, MAX_TO_PRUNE as nat),
            final(self).last_time == old(self).last_time,
            ({
                let swept = sweep(old(self).view_of(), now, MAX_TO_PRUNE as nat);
                r is Ok <==> (ov_has(swept.onboarding, caller@) && ov_exp(
                    swept.onboarding,
                    caller@,
                ) >= now)
            }),
    {
        self.prune_expired_keys(now);
        proof {
            assert(self.wf());
            assert(ov_unique(self.view_of().onboarding));
            assert(ov_unique(onb_view(self.onboarding_keys@)));
        }
        match find_onboarding(&self.onboarding_keys, caller) {
            None => Err(()),
            Some(e) => {
                if e < now {
                    Err(())
                } else {
                    Ok(())
                }
            },
        }
    }

    /// Attaches a temporary key to a freshly registered device and anchor,
    /// consuming any onboarding key of the same principal. Always
    /// succeeds: device-bound keys are rate-limited upstream through
    /// anchor creation.
    pub fn add_device_bound_temp_key(
        &mut self,
        device_key: &DeviceKey,
        anchor: AnchorNumber,
        temp_key: KeyId,
        now: Timestamp,
    )
        requires
            old(self).wf(),
            old(self).last_time <= now,
            now + TEMP_KEY_EXPIRATION_NS <= u64::MAX,
        ensures
            final(self).wf(),
            final(self).last_time == now,
            final(self).view_of() == (RegistryView {
                onboarding: ov_remove(old(self).view_of().onboarding, temp_key@),
                devices: dv_upsert(
                    old(self).view_of().devices,
                    device_key@,
                    temp_key@,
                    anchor,
                    (now + TEMP_KEY_EXPIRATION_NS) as u64,
                ),
                queue: old(self).view_of().queue.push(
                    QueueRec::Dev { dk: device_key@, exp: (now + TEMP_KEY_EXPIRATION_NS) as u64 },
                ),
            }),
    {
        let ghost v0 = old(self).view_of();
        self.last_time = now;
        proof {
            assert(ov_unique(old(self).view_of().onboarding));
            assert(ov_unique(onb_view(self.onboarding_keys@)));
        }
        remove_onboarding_key(&mut self.onboarding_keys, &temp_key);
        let exp = now + TEMP_KEY_EXPIRATION_NS;
        let dk_queue = bytes_clone(device_key);
        self.expirations.push_back(
            TempKeyExpiration::DeviceBound { device_key: dk_queue, expiration: exp },
        );
        proof {
            assert(self.view_of().queue =~= v0.queue.push(
                QueueRec::Dev { dk: device_key@, exp },
            ));
        }
        let dk_map = bytes_clone(device_key);
        proof {
            assert(dv_unique(old(self).view_of().devices));
            assert(dv_unique(dev_view(self.device_bound_keys@)));
        }
        upsert_device(
            &mut self.device_bound_keys,
            dk_map,
            DeviceBoundTempKey { principal: temp_key, anchor, expiration: exp },
        );
        proof {
            assert(self.view_of().onboarding == ov_remove(v0.onboarding, temp_key@));
            assert(self.view_of().devices == dv_upsert(
                v0.devices,
                device_key@,
                temp_key@,
                anchor,
                exp,
            ));
            let q = self.view_of().queue;
            assert forall|a: int, b: int| 0 <= a < b < q.len() implies rec_exp(q[a]) <= rec_exp(
                q[b],
            ) by {
                if b < v0.queue.len() {
                    assert(q[a] == v0.queue[a] && q[b] == v0.queue[b]);
                } else {
                    assert(q[b] == (QueueRec::Dev { dk: device_key@, exp }));
                    assert(q[a] == v0.queue[a]);
                    assert(rec_exp(v0.queue[a]) <= old(self).last_time + TEMP_KEY_EXPIRATION_NS);
                }
            }
            assert forall|a: int| 0 <= a < q.len() implies rec_exp(#[trigger] q[a])
                <= self.last_time + TEMP_KEY_EXPIRATION_NS by {
                if a < v0.queue.len() {
                    assert(q[a] == v0.queue[a]);
                    assert(rec_exp(v0.queue[a]) <= old(self).last_time + TEMP_KEY_EXPIRATION_NS);
                } else {
                    assert(q[a] == (QueueRec::Dev { dk: device_key@, exp }));
                }
            }
        }
    }

    /// Removes the temporary key for the given device, but only when the
    /// stored record is linked to the given anchor; a mismatch is left
    /// alone, since removal requests can race with legitimate
    /// reassignment.
    pub fn remove_temp_key(&mut self, anchor: AnchorNumber, device_key: &DeviceKey)
        requires
            old(self).wf(),
        ensures
            final(self).wf(),
            final(self).last_time == old(self).last_time,
            final(self).view_of() == (RegistryView {
                onboarding: old(self).view_of().onboarding,
                devices: (
                if dv_has(old(self).view_of().devices, device_key@) && dv_rec(
                    old(self).view_of().devices,
                    device_key@,
                ).2 == anchor {
                    dv_remove(old(self).view_of().devices, device_key@)
                } else {
                    old(self).view_of().devices
                }),
                queue: old(self).view_of().queue,
            }),
    {
        let ghost v0 = old(self).view_of();
        proof {
            assert(dv_unique(v0.devices));
            assert(dv_unique(dev_view(self.device_bound_keys@)));
        }
        match find_device(&self.device_bound_keys, device_key) {
            None => {
                proof {
                    assert(self.view_of() == v0);
                }
            },
            Some(i) => {
                if self.device_bound_keys[i].1.anchor == anchor {
                    proof {
                        assert(dev_view(self.device_bound_keys@)[i as int].2 == anchor);
                        assert(dv_rec(v0.devices, device_key@).2 == anchor);
                    }
                    remove_device_key(&mut self.device_bound_keys, device_key);
                    proof {
                        assert(self.view_of().devices == dv_remove(v0.devices, device_key@));
                        assert(dv_unique(self.view_of().devices));
                        assert(self.view_of().onboarding == v0.onboarding);
                        assert(self.view_of().queue == v0.queue);
                        assert(self.wf());
                    }
                } else {
                    proof {
                        assert(dev_view(self.device_bound_keys@)[i as int].2 != anchor);
                        assert(dv_rec(v0.devices, device_key@).2 != anchor);
                        assert(self.view_of() == v0);
                    }
                }
            },
        }
    }

    /// Checks that a caller holds the live temporary key for the given
    /// device and anchor: presence, non-expiry, anchor match and identity
    /// match must all hold, after a sweep.
    pub fn check_device_bound_temp_key(
        &mut self,
        caller: &KeyId,
        device_key: &DeviceKey,
        anchor: AnchorNumber,
        now: Timestamp,
    ) -> (r: Result<(), ()>)
        requires
            old(self).wf(),
        ensures
            final(self).wf(),
            final(self).view_of() == sweep(old(self).view_of(), now, MAX_TO_PRUNE as nat),
            final(self).last_time == old(self).last_time,
            ({
                let swept = sweep(old(self).view_of(), now, MAX_TO_PRUNE as nat);
                r is Ok <==> (dv_has(swept.devices, device_key@) && dv_rec(
                    swept.devices,
                    device_key@,
                ).3 >= now && dv_rec(swept.devices, device_key@).2 == anchor && dv_rec(
                    swept.devices,
                    device_key@,
                ).1 == caller@)
            }),
    {
        self.prune_expired_keys(now);
        proof {
            assert(self.wf());
            assert(dv_unique(self.view_of().devices));
            assert(dv_unique(dev_view(self.device_bound_keys@)));
        }
        match find_device(&self.device_bound_keys, device_key) {
            None => Err(()),
            Some(i) => {
                proof {
                    assert(dv_rec(dev_view(self.device_bound_keys@), device_key@) == dev_view(
                        self.device_bound_keys@,
                    )[i as int]);
                }
                if self.device_bound_keys[i].1.expiration < now {
                    Err(())
                } else if self.device_bound_keys[i].1.anchor != anchor {
                    Err(())
                } else if !bytes_eq(&self.device_bound_keys[i].1.principal, caller) {
                    Err(())
                } else {
                    Ok(())
                }
            },
        }
    }
}

/// Whether a queue record names the onboarding principal `k`.
pub open spec fn names_onb(r: QueueRec, k: Seq<u8>) -> bool {
    match r {
        QueueRec::Onb { principal, exp: _ } => principal == k,
        QueueRec::Dev { .. } => false,
    }
}

/// Removing another principal's entry neither moves nor changes `k`'s.
proof fn lemma_ov_remove_other(s: Seq<(Seq<u8>, Timestamp)>, p: Seq<u8>, k: Seq<u8>)
    requires
        ov_unique(s),
        k != p,
    ensures
        ov_has(ov_remove(s, p), k) == ov_has(s, k),
        ov_has(s, k) ==> ov_exp(ov_remove(s, p), k) == ov_exp(s, k),
        ov_unique(ov_remove(s, p)),
{
    if ov_has(s, p) {
        let ri = ov_at(s, p);
        s.remove_ensures(ri);
        let r = s.remove(ri);
        assert forall|a: int, b: int| 0 <= a < b < r.len() implies r[a].0 != r[b].0 by {
            let pa = if a < ri { a } else { a + 1 };
            let pb = if b < ri { b } else { b + 1 };
            assert(r[a] == s[pa] && r[b] == s[pb]);
        }
        if ov_has(s, k) {
            let i = ov_at(s, k);
            assert(s[i].0 == k);
            assert(i != ri);
            let ni = if i < ri { i } else { i - 1 };
            assert(r[ni] == s[i]);
            assert(ov_has(r, k));
            let wi = ov_at(r, k);
            if wi != ni {
                assert(r[wi].0 == r[ni].0);
                assert(false);
            }
        }
        if ov_has(r, k) {
            let i = ov_at(r, k);
            let pi = if i < ri { i } else { i + 1 };
            assert(s[pi] == r[i]);
            assert(ov_has(s, k));
        }
    }
}

/// The sweep never introduces an onboarding principal.
proof fn lemma_sweep_no_add(v: RegistryView, k: Seq<u8>, now: Timestamp, fuel: nat)
    requires
        !ov_has(v.onboarding, k),
    ensures
        !ov_has(sweep(v, now, fuel).onboarding, k),
    decreases fuel,
{
    if !(fuel == 0 || v.queue.len() == 0 || rec_exp(v.queue[0]) > now) {
        let v1 = sweep_one(v);
        match v.queue[0] {
            QueueRec::Onb { principal, exp: _ } => {
                if ov_has(v1.onboarding, k) {
                    let i = ov_at(v1.onboarding, k);
                    if ov_has(v.onboarding, principal) {
                        let ri = ov_at(v.onboarding, principal);
                        v.onboarding.remove_ensures(ri);
                        let pi = if i < ri {
                            i
                        } else {
                            i + 1
                        };
                        assert(v.onboarding[pi] == v1.onboarding[i]);
                        assert(false);
                    }
                }
            },
            QueueRec::Dev { .. } => {},
        }
        lemma_sweep_no_add(v1, k, now, (fuel - 1) as nat);
    }
}

/// The temp-key lifecycle. Consider a state in which the principal `k`
/// holds an onboarding key expiring at `exp`, and every queue record
/// naming `k` carries an expiration no earlier than `exp` — the state
/// `add_onboarding_temp_key` leaves behind for a fresh principal. Then a
/// validity check at any `later` time strictly before `exp` finds the key
/// live, however much of the queue its sweep processes; and at any
/// `later` time strictly after `exp` the key never passes the check.
pub proof fn lemma_onboarding_lifecycle(
    v: RegistryView,
    k: Seq<u8>,
    exp: Timestamp,
    later: Timestamp,
    fuel: nat,
)
    requires
        ov_unique(v.onboarding),
        ov_has(v.onboarding, k),
        ov_exp(v.onboarding, k) == exp,
        forall|i: int|
            0 <= i < v.queue.len() && names_onb(#[trigger] v.queue[i], k) ==> rec_exp(
                v.queue[i],
            ) >= exp,
    ensures
        later < exp ==> (ov_has(sweep(v, later, fuel).onboarding, k) && ov_exp(
            sweep(v, later, fuel).onboarding,
            k,
        ) >= later),
        later > exp ==> !(ov_has(sweep(v, later, fuel).onboarding, k) && ov_exp(
            sweep(v, later, fuel).onboarding,
            k,
        ) >= later),
    decreases fuel,
{
    if fuel == 0 || v.queue.len() == 0 || rec_exp(v.queue[0]) > later {
        assert(sweep(v, later, fuel) == v);
    } else {
        let v1 = sweep_one(v);
        assert(rec_exp(v.queue[0]) <= later);
        match v.queue[0] {
            QueueRec::Onb { principal, exp: front_exp } => {
                if principal == k {
                    // a record naming `k` has expired: only possible when
                    // `later` has reached `exp`
                    assert(names_onb(v.queue[0], k));
                    assert(rec_exp(v.queue[0]) >= exp);
                    assert(later >= exp);
                    if later > exp {
                        if ov_has(v1.onboarding, k) {
                            // `k` survived this step: its stored expiration
                            // is unchanged, hence stale
                            lemma_ov_has_after_remove_self(v.onboarding, k);
                            lemma_sweep_keeps_exp(v1, k, later, (fuel - 1) as nat);
                        } else {
                            lemma_sweep_no_add(v1, k, later, (fuel - 1) as nat);
                        }
                    }
                } else {
                    lemma_ov_remove_other(v.onboarding, principal, k);
                    assert forall|i: int|
                        0 <= i < v1.queue.len() && names_onb(#[trigger] v1.queue[i], k) implies
                        rec_exp(v1.queue[i]) >= exp by {
                        assert(v1.queue[i] == v.queue[i + 1]);
                    }
                    lemma_onboarding_lifecycle(v1, k, exp, later, (fuel - 1) as nat);
                }
            },
            QueueRec::Dev { .. } => {
                assert(v1.onboarding == v.onboarding);
                assert forall|i: int|
                    0 <= i < v1.queue.len() && names_onb(#[trigger] v1.queue[i], k) implies rec_exp(
                    v1.queue[i],
                ) >= exp by {
                    assert(v1.queue[i] == v.queue[i + 1]);
                }
                lemma_onboarding_lifecycle(v1, k, exp, later, (fuel - 1) as nat);
            },
        }
    }
}

/// Removing `k` itself leaves a sequence that either lacks `k`, or — when
/// duplicates never existed — certainly lacks it.
proof fn lemma_ov_has_after_remove_self(s: Seq<(Seq<u8>, Timestamp)>, k: Seq<u8>)
    requires
        ov_unique(s),
        ov_has(s, k),
    ensures
        !ov_has(ov_remove(s, k), k),
{
    let ri = ov_at(s, k);
    s.remove_ensures(ri);
    let r = s.remove(ri);
    if ov_has(r, k) {
        let i = ov_at(r, k);
        let pi = if i < ri {
            i
        } else {
            i + 1
        };
        assert(s[pi] == r[i]);
        assert(s[pi].0 == s[ri].0);
        assert(false);
    }
}

/// Sweeping keeps the stored expiration of any principal it does not
/// remove.
proof fn lemma_sweep_keeps_exp(v: RegistryView, k: Seq<u8>, now: Timestamp, fuel: nat)
    requires
        ov_unique(v.onboarding),
    ensures
        ov_unique(sweep(v, now, fuel).onboarding),
        ov_has(sweep(v, now, fuel).onboarding, k) ==> (ov_has(v.onboarding, k) && ov_exp(
            sweep(v, now, fuel).onboarding,
            k,
        ) == ov_exp(v.onboarding, k)),
    decreases fuel,
{
    if !(fuel == 0 || v.queue.len() == 0 || rec_exp(v.queue[0]) > now) {
        let v1 = sweep_one(v);
        match v.queue[0] {
            QueueRec::Onb { principal, exp: _ } => {
                if ov_has(v.onboarding, principal) {
                    let ri = ov_at(v.onboarding, principal);
                    v.onboarding.remove_ensures(ri);
                    assert forall|a: int, b: int|
                        0 <= a < b < v1.onboarding.len() implies v1.onboarding[a].0
                        != v1.onboarding[b].0 by {
                        let pa = if a < ri { a } else { a + 1 };
                        let pb = if b < ri { b } else { b + 1 };
                        assert(v1.onboarding[a] == v.onboarding[pa]);
                        assert(v1.onboarding[b] == v.onboarding[pb]);
                    }
                    lemma_sweep_keeps_exp(v1, k, now, (fuel - 1) as nat);
                    if ov_has(sweep(v, now, fuel).onboarding, k) {
                        let i = ov_at(v1.onboarding, k);
                        let pi = if i < ri {
                            i
                        } else {
                            i + 1
                        };
                        assert(v.onboarding[pi] == v1.onboarding[i]);
                        assert(ov_has(v.onboarding, k));
                        let w = ov_at(v.onboarding, k);
                        if w != pi {
                            assert(v.onboarding[w].0 == v.onboarding[pi].0);
                            assert(false);
                        }
                        let w1 = ov_at(v1.onboarding, k);
                        if w1 != i {
                            assert(v1.onboarding[w1].0 == v1.onboarding[i].0);
                            assert(false);
                        }
                    }
                } else {
                    assert(v1.onboarding == v.onboarding);
                    lemma_sweep_keeps_exp(v1, k, now, (fuel - 1) as nat);
                }
            },
            QueueRec::Dev { .. } => {
                assert(v1.onboarding == v.onboarding);
                lemma_sweep_keeps_exp(v1, k, now, (fuel - 1) as nat);
            },
        }
    }
}

/// Compares two byte vectors for equality of their bytes.
pub fn bytes_eq(a: &Vec<u8>, b: &Vec<u8>) -> (r: bool)
    ensures
        r == (a@ == b@),
{
    if a.len() != b.len() {
        return false;
    }
    let n = a.len();
    let mut i: usize = 0;
    while i < n
        invariant
            n == a@.len() == b@.len(),
            i <= n,
            forall|j: int| 0 <= j < i ==> a@[j] == b@[j],
        decreases n - i,
    {
        if a[i] != b[i] {
            return false;
        }
        i = i + 1;
    }
    proof {
        assert(a@ =~= b@);
    }
    true
}

} // verus!
