//! The in-memory storage backend: the authoritative store of the
//! reservable coin set and the active reservations, with atomic
//! reserve / release / expire primitives.
//!
//! Its well-formedness invariant carries the central guarantees of the
//! service: the available coins are ordered by balance descending, every
//! coin object appears in at most one place (available or exactly one
//! reservation), every reservation is non-empty, bounded in size, and
//! covers its requested budget.
use vstd::prelude::*;

use crate::types::{Address, GasCoin, ObjectId, Reservation, ReservationID};
use crate::MAX_GAS_COINS_PER_RESERVATION;

verus! {

/// The coins are ordered by balance, largest first.
pub open spec fn sorted_desc(s: Seq<GasCoin>) -> bool {
    forall|i: int, j: int| 0 <= i <= j < s.len() ==> s[i].balance >= s[j].balance
}

/// No two coins of the sequence share an object id.
pub open spec fn coin_ids_unique(s: Seq<GasCoin>) -> bool {
    forall|i: int, j: int| 0 <= i < j < s.len() ==> s[i].object_id != s[j].object_id
}

/// Some coin of the sequence has the given object id.
pub open spec fn seq_has_id(s: Seq<GasCoin>, id: ObjectId) -> bool {
    exists|i: int| 0 <= i < s.len() && s[i].object_id == id
}

/// The sum of the balances of the coins, as a mathematical integer.
pub open spec fn sum_balances(s: Seq<GasCoin>) -> int
    decreases s.len(),
{
    if s.len() == 0 {
        0
    } else {
        sum_balances(s.drop_last()) + s.last().balance
    }
}

/// A well-formed reservation row: non-empty, at most
/// `MAX_GAS_COINS_PER_RESERVATION` coins, no repeated coin, and enough
/// balance to cover the budget it was made for.
pub open spec fn rsv_wf(r: Reservation) -> bool {
    &&& 1 <= r.coins@.len() <= MAX_GAS_COINS_PER_RESERVATION
    &&& coin_ids_unique(r.coins@)
    &&& sum_balances(r.coins@) >= r.budget
}

/// Extending a prefix by one coin adds that coin's balance to the sum.
pub proof fn lemma_sum_balances_take_succ(s: Seq<GasCoin>, n: int)
    requires
        0 <= n < s.len(),
    ensures
        sum_balances(s.take(n + 1)) == sum_balances(s.take(n)) + s[n].balance,
{
    assert(s.take(n + 1).drop_last() =~= s.take(n));
    assert(s.take(n + 1).last() == s[n]);
}

/// A coin is in a sequence exactly when it is in the prefix of length `n`
/// or in the rest.
pub proof fn lemma_take_skip_contains(s: Seq<GasCoin>, n: int)
    requires
        0 <= n <= s.len(),
    ensures
        forall|c: GasCoin| s.contains(c) <==> (s.take(n).contains(c) || s.skip(n).contains(c)),
        forall|id: ObjectId|
            seq_has_id(s, id) <==> (seq_has_id(s.take(n), id) || seq_has_id(s.skip(n), id)),
{
    assert forall|c: GasCoin| s.contains(c) implies (s.take(n).contains(c) || s.skip(n).contains(
        c,
    )) by {
        let i = choose|i: int| 0 <= i < s.len() && s[i] == c;
        if i < n {
            assert(s.take(n)[i] == c);
        } else {
            assert(s.skip(n)[i - n] == c);
        }
    }
    assert forall|c: GasCoin| (s.take(n).contains(c) || s.skip(n).contains(c)) implies s.contains(
        c,
    ) by {
        if s.take(n).contains(c) {
            let i = choose|i: int| 0 <= i < n && s.take(n)[i] == c;
            assert(s[i] == c);
        } else {
            let i = choose|i: int| 0 <= i < s.skip(n).len() && s.skip(n)[i] == c;
            assert(s[i + n] == c);
        }
    }
    assert forall|id: ObjectId| seq_has_id(s, id) implies (seq_has_id(s.take(n), id) || seq_has_id(
        s.skip(n),
        id,
    )) by {
        let i = choose|i: int| 0 <= i < s.len() && s[i].object_id == id;
        if i < n {
            assert(s.take(n)[i].object_id == id);
        } else {
            assert(s.skip(n)[i - n].object_id == id);
        }
    }
    assert forall|id: ObjectId|
        (seq_has_id(s.take(n), id) || seq_has_id(s.skip(n), id)) implies seq_has_id(s, id) by {
        if seq_has_id(s.take(n), id) {
            let i = choose|i: int| 0 <= i < n && s.take(n)[i].object_id == id;
            assert(s[i].object_id == id);
        } else {
            let i = choose|i: int| 0 <= i < s.skip(n).len() && s.skip(n)[i].object_id == id;
            assert(s[i + n].object_id == id);
        }
    }
}

/// Prefix sums of balances grow monotonically with the prefix length.
pub proof fn lemma_sum_take_prefix_le(s: Seq<GasCoin>, n: int, m: int)
    requires
        0 <= n <= m <= s.len(),
    ensures
        sum_balances(s.take(n)) <= sum_balances(s.take(m)),
    decreases m - n,
{
    if n < m {
        lemma_sum_take_prefix_le(s, n, m - 1);
        lemma_sum_balances_take_succ(s, m - 1);
    }
}

/// What a successful reservation hands back: the fresh id, the selected
/// coins, and the absolute expiry time.
pub struct ReservedGas {
    pub id: ReservationID,
    pub coins: Vec<GasCoin>,
    pub expires_at: u64,
}

/// The in-memory storage backend of the gas pool.
pub struct GasPoolStore {
    /// Coins free to be reserved, ordered by balance descending.
    pub available: Vec<GasCoin>,
    /// The active reservations.
    pub reserved: Vec<Reservation>,
    /// The next reservation id to hand out; ids are never reused.
    pub next_reservation_id: u64,
}

impl GasPoolStore {
    /// Some available coin has the given object id.
    pub open spec fn avail_has_id(self, id: ObjectId) -> bool {
        seq_has_id(self.available@, id)
    }

    /// The reservation at index `i` holds a coin with the given object id.
    pub open spec fn rsv_at_has_id(self, i: int, id: ObjectId) -> bool {
        seq_has_id(self.reserved@[i].coins@, id)
    }

    /// Some active reservation holds a coin with the given object id.
    pub open spec fn reserved_has_id(self, id: ObjectId) -> bool {
        exists|i: int| 0 <= i < self.reserved@.len() && self.rsv_at_has_id(i, id)
    }

    /// The store knows a coin with the given object id, available or
    /// reserved.
    pub open spec fn has_id(self, id: ObjectId) -> bool {
        self.avail_has_id(id) || self.reserved_has_id(id)
    }

    /// The store holds this exact coin (same id, version, digest and
    /// balance), available or reserved.
    pub open spec fn has_coin(self, c: GasCoin) -> bool {
        self.available@.contains(c) || exists|i: int|
            0 <= i < self.reserved@.len() && (#[trigger] self.reserved@[i].coins@).contains(c)
    }

    /// Some active reservation carries the given reservation id.
    pub open spec fn has_reservation(self, id: ReservationID) -> bool {
        exists|i: int| 0 <= i < self.reserved@.len() && (#[trigger] self.reserved@[i]).id == id
    }

    /// The index of the active reservation with the given id.
    pub open spec fn rsv_index(self, id: ReservationID) -> int {
        choose|i: int| 0 <= i < self.reserved@.len() && (#[trigger] self.reserved@[i]).id == id
    }

    /// Well-formedness: the invariant every operation preserves.
    pub open spec fn wf(self) -> bool {
        &&& sorted_desc(self.available@)
        &&& coin_ids_unique(self.available@)
        &&& forall|i: int| 0 <= i < self.reserved@.len() ==> rsv_wf(#[trigger] self.reserved@[i])
        &&& forall|i: int|
            0 <= i < self.reserved@.len() ==> (#[trigger] self.reserved@[i]).id
                < self.next_reservation_id
        &&& forall|i: int, j: int|
            0 <= i < j < self.reserved@.len() ==> (#[trigger] self.reserved@[i]).id != (
            #[trigger] self.reserved@[j]).id
        &&& forall|i: int, id: ObjectId|
            0 <= i < self.reserved@.len() && #[trigger] self.rsv_at_has_id(i, id)
                ==> !self.avail_has_id(id)
        &&& forall|i: int, j: int, id: ObjectId|
            0 <= i < self.reserved@.len() && 0 <= j < self.reserved@.len() && i != j ==> !(
            #[trigger] self.rsv_at_has_id(i, id) && #[trigger] self.rsv_at_has_id(j, id))
    }

    /// A fresh, empty store.
    pub fn new() -> (r: GasPoolStore)
        ensures
            r.wf(),
            r.available@.len() == 0,
            r.reserved@.len() == 0,
            r.next_reservation_id == 0,
    {
        GasPoolStore { available: Vec::new(), reserved: Vec::new(), next_reservation_id: 0 }
    }

    /// Whether any available coin carries the given object id.
    fn avail_contains_id(&self, id: ObjectId) -> (r: bool)
        ensures
            r == self.avail_has_id(id),
    {
        let mut i: usize = 0;
        while i < self.available.len()
            invariant
                i <= self.available@.len(),
                forall|k: int| 0 <= k < i ==> self.available@[k].object_id != id,
            decreases self.available@.len() - i,
        {
            if self.available[i].object_id == id {
                return true;
            }
            i += 1;
        }
        false
    }

    /// Whether the store knows the given object id at all, available or
    /// inside any active reservation.
    pub fn contains_id(&self, id: ObjectId) -> (r: bool)
        ensures
            r == self.has_id(id),
    {
        if self.avail_contains_id(id) {
            return true;
        }
        let mut i: usize = 0;
        while i < self.reserved.len()
            invariant
                i <= self.reserved@.len(),
                !self.avail_has_id(id),
                forall|k: int| 0 <= k < i ==> !self.rsv_at_has_id(k, id),
            decreases self.reserved@.len() - i,
        {
            let coins = &self.reserved[i].coins;
            let mut k: usize = 0;
            while k < coins.len()
                invariant
                    k <= coins@.len(),
                    coins == &self.reserved@[i as int].coins,
                    i < self.reserved@.len(),
                    forall|m: int| 0 <= m < k ==> coins@[m].object_id != id,
                decreases coins@.len() - k,
            {
                if coins[k].object_id == id {
                    assert(self.rsv_at_has_id(i as int, id));
                    return true;
                }
                k += 1;
            }
            assert(!self.rsv_at_has_id(i as int, id));
            i += 1;
        }
        false
    }
    /// Bulk-admit coins into `available`, idempotent on object id: a coin
    /// whose object id the store already knows, available or reserved, is
    /// left alone; every other coin joins `available`.
    pub fn init(&mut self, coins: &Vec<GasCoin>)
        requires
            old(self).wf(),
            coin_ids_unique(coins@),
            old(self).available@.len() + coins@.len() <= usize::MAX,
        ensures
            final(self).wf(),
            final(self).reserved@ == old(self).reserved@,
            final(self).next_reservation_id == old(self).next_reservation_id,
            final(self).available@.len() <= old(self).available@.len() + coins@.len(),
            forall|c: GasCoin|
                #[trigger] final(self).available@.contains(c) <==> (old(self).available@.contains(
                    c,
                ) || (coins@.contains(c) && !old(self).has_id(c.object_id))),
            forall|id: ObjectId|
                #[trigger] final(self).has_id(id) <==> (old(self).has_id(id) || seq_has_id(
                    coins@,
                    id,
                )),
    {
        let ghost old_self = *self;
        let mut k: usize = 0;
        while k < coins.len()
            invariant
                k <= coins@.len(),
                self.wf(),
                coin_ids_unique(coins@),
                self.reserved@ == old_self.reserved@,
                self.next_reservation_id == old_self.next_reservation_id,
                self.available@.len() <= old_self.available@.len() + k,
                old_self.available@.len() + coins@.len() <= usize::MAX,
                forall|c: GasCoin|
                    #[trigger] self.available@.contains(c) <==> (old_self.available@.contains(c)
                        || (coins@.take(k as int).contains(c) && !old_self.has_id(c.object_id))),
                forall|id: ObjectId|
                    #[trigger] self.has_id(id) <==> (old_self.has_id(id) || seq_has_id(
                        coins@.take(k as int),
                        id,
                    )),
            decreases coins@.len() - k,
        {
            let c = coins[k];
            let ghost pre = *self;
            let fresh = !self.contains_id(c.object_id);
            proof {
                let kk = k as int;
                let t0 = coins@.take(kk);
                let t1 = coins@.take(kk + 1);
                assert(t1[kk] == c);
                assert forall|c2: GasCoin| t1.contains(c2) implies (t0.contains(c2) || c2
                    == c) by {
                    let i = choose|i: int| 0 <= i < t1.len() && t1[i] == c2;
                    if i < kk {
                        assert(t0[i] == c2);
                    }
                }
                assert forall|c2: GasCoin| t0.contains(c2) implies t1.contains(c2) by {
                    let i = choose|i: int| 0 <= i < t0.len() && t0[i] == c2;
                    assert(t1[i] == c2);
                }
                assert forall|id: ObjectId| seq_has_id(t1, id) implies (seq_has_id(t0, id) || id
                    == c.object_id) by {
                    let i = choose|i: int| 0 <= i < t1.len() && t1[i].object_id == id;
                    if i < kk {
                        assert(t0[i].object_id == id);
                    }
                }
                assert forall|id: ObjectId| seq_has_id(t0, id) implies seq_has_id(t1, id) by {
                    let i = choose|i: int| 0 <= i < t0.len() && t0[i].object_id == id;
                    assert(t1[i].object_id == id);
                }
                assert(seq_has_id(t1, c.object_id));
                assert(!seq_has_id(t0, c.object_id)) by {
                    if seq_has_id(t0, c.object_id) {
                        let i = choose|i: int| 0 <= i < t0.len() && t0[i].object_id == c.object_id;
                        assert(coins@[i].object_id == coins@[kk].object_id);
                    }
                }
            }
            if fresh {
                proof {
                    assert(!pre.avail_has_id(c.object_id));
                    assert(!pre.reserved_has_id(c.object_id));
                    assert(!old_self.has_id(c.object_id));
                }
                insert_coin_sorted(&mut self.available, c);
                proof {
                    let kk = k as int;
                    let t0 = coins@.take(kk);
                    let t1 = coins@.take(kk + 1);
                    assert forall|i: int, id: ObjectId|
                        0 <= i < self.reserved@.len() && #[trigger] self.rsv_at_has_id(i, id)
                            implies !self.avail_has_id(id) by {
                        assert(pre.rsv_at_has_id(i, id));
                        assert(!pre.avail_has_id(id));
                        if id == c.object_id {
                            assert(pre.rsv_at_has_id(i, c.object_id));
                            assert(pre.reserved_has_id(c.object_id));
                        }
                    }
                    assert forall|c2: GasCoin| self.available@.contains(c2) implies (
                    old_self.available@.contains(c2) || (t1.contains(c2) && !old_self.has_id(
                        c2.object_id,
                    ))) by {
                        if pre.available@.contains(c2) {
                            if !old_self.available@.contains(c2) {
                                assert(t0.contains(c2));
                            }
                        } else {
                            assert(c2 == c);
                        }
                    }
                    assert forall|c2: GasCoin|
                        (old_self.available@.contains(c2) || (t1.contains(c2) && !old_self.has_id(
                            c2.object_id,
                        ))) implies self.available@.contains(c2) by {
                        if old_self.available@.contains(c2) {
                            assert(pre.available@.contains(c2));
                        } else if t0.contains(c2) {
                            assert(pre.available@.contains(c2));
                        } else {
                            assert(c2 == c);
                        }
                    }
                    assert forall|id: ObjectId| self.has_id(id) implies (old_self.has_id(id)
                        || seq_has_id(t1, id)) by {
                        if self.avail_has_id(id) {
                            if id != c.object_id {
                                assert(pre.avail_has_id(id));
                                assert(pre.has_id(id));
                            }
                        } else {
                            let i = choose|i: int|
                                0 <= i < self.reserved@.len() && #[trigger] self.rsv_at_has_id(
                                    i,
                                    id,
                                );
                            assert(pre.rsv_at_has_id(i, id));
                            assert(pre.has_id(id));
                        }
                    }
                    assert forall|id: ObjectId|
                        (old_self.has_id(id) || seq_has_id(t1, id)) implies self.has_id(id) by {
                        if old_self.has_id(id) || seq_has_id(t0, id) {
                            assert(pre.has_id(id));
                            if pre.avail_has_id(id) {
                                assert(self.avail_has_id(id));
                            } else {
                                let i = choose|i: int|
                                    0 <= i < pre.reserved@.len() && #[trigger] pre.rsv_at_has_id(
                                        i,
                                        id,
                                    );
                                assert(self.rsv_at_has_id(i, id));
                            }
                        } else {
                            assert(id == c.object_id);
                            assert(self.avail_has_id(id));
                        }
                    }
                }
            } else {
                proof {
                    let kk = k as int;
                    let t0 = coins@.take(kk);
                    let t1 = coins@.take(kk + 1);
                    assert(pre.has_id(c.object_id));
                    assert forall|c2: GasCoin|
                        (old_self.available@.contains(c2) || (t1.contains(c2) && !old_self.has_id(
                            c2.object_id,
                        ))) implies self.available@.contains(c2) by {
                        if !old_self.available@.contains(c2) && t1.contains(c2) && !old_self.has_id(
                            c2.object_id,
                        ) {
                            if t0.contains(c2) {
                            } else {
                                assert(c2 == c);
                                // The id was already known, yet not to the
                                // old store nor to the processed prefix:
                                // impossible.
                                assert(seq_has_id(t0, c.object_id));
                                assert(false);
                            }
                        }
                    }
                    assert forall|c2: GasCoin| self.available@.contains(c2) implies (
                    old_self.available@.contains(c2) || (t1.contains(c2) && !old_self.has_id(
                        c2.object_id,
                    ))) by {
                        if !old_self.available@.contains(c2) {
                            assert(t0.contains(c2));
                        }
                    }
                    assert forall|id: ObjectId|
                        (old_self.has_id(id) || seq_has_id(t1, id)) implies self.has_id(id) by {
                        if seq_has_id(t1, id) && !seq_has_id(t0, id) {
                            assert(id == c.object_id);
                        }
                    }
                }
            }
            proof {
                assert forall|i: int, id: ObjectId|
                    0 <= i < self.reserved@.len() && #[trigger] self.rsv_at_has_id(i, id)
                        implies !self.avail_has_id(id) by {
                    assert(self.rsv_at_has_id(i, id) == pre.rsv_at_has_id(i, id));
                    assert(!pre.avail_has_id(id));
                    if self.avail_has_id(id) {
                        assert(id == c.object_id);
                        assert(pre.rsv_at_has_id(i, c.object_id));
                        assert(pre.reserved_has_id(c.object_id));
                        assert(pre.has_id(c.object_id));
                    }
                }
                assert forall|i: int, j: int, id: ObjectId|
                    0 <= i < self.reserved@.len() && 0 <= j < self.reserved@.len() && i != j
                        implies !(#[trigger] self.rsv_at_has_id(i, id)
                        && #[trigger] self.rsv_at_has_id(j, id)) by {
                    assert(self.rsv_at_has_id(i, id) == pre.rsv_at_has_id(i, id));
                    assert(self.rsv_at_has_id(j, id) == pre.rsv_at_has_id(j, id));
                }
            }
            k += 1;
        }
        proof {
            assert(coins@.take(coins@.len() as int) =~= coins@);
        }
    }

    /// How many of the largest coins a selection may look at: all of
    /// `available`, capped at the per-reservation coin limit.
    pub open spec fn selection_cap(self) -> int {
        if self.available@.len() <= MAX_GAS_COINS_PER_RESERVATION {
            self.available@.len() as int
        } else {
            MAX_GAS_COINS_PER_RESERVATION as int
        }
    }

    /// A reservation for `budget` can succeed: the largest admissible
    /// prefix of `available` covers the budget, a fresh id remains, and
    /// the expiry time does not overflow.
    pub open spec fn can_reserve(self, budget: u64, duration: u64, now: u64) -> bool {
        &&& sum_balances(self.available@.take(self.selection_cap())) >= budget
        &&& self.next_reservation_id < u64::MAX
        &&& now + duration <= u64::MAX
    }

    /// Atomically move the smallest budget-covering prefix of `available`
    /// into a fresh reservation. This is the linearization point for coin
    /// exclusivity: once it returns, the selected coins are invisible to
    /// any later `reserve` until released or expired.
    pub fn reserve(&mut self, sponsor: Address, budget: u64, duration: u64, now: u64) -> (r:
        Option<ReservedGas>)
        requires
            old(self).wf(),
            budget >= 1,
        ensures
            final(self).wf(),
            r is Some <==> old(self).can_reserve(budget, duration, now),
            r is None ==> *final(self) == *old(self),
            r matches Some(rg) ==> ({
                let n = rg.coins@.len() as int;
                &&& rg.id == old(self).next_reservation_id
                &&& final(self).next_reservation_id == old(self).next_reservation_id + 1
                &&& rg.expires_at == now + duration
                &&& 1 <= n <= MAX_GAS_COINS_PER_RESERVATION
                &&& n <= old(self).available@.len()
                &&& rg.coins@ == old(self).available@.take(n)
                &&& sum_balances(rg.coins@) >= budget
                &&& sum_balances(rg.coins@.drop_last()) < budget
                &&& final(self).available@ == old(self).available@.skip(n)
                &&& final(self).reserved@.len() == old(self).reserved@.len() + 1
                &&& (forall|i: int|
                    0 <= i < old(self).reserved@.len() ==> final(self).reserved@[i] == old(
                        self,
                    ).reserved@[i])
                &&& final(self).reserved@.last().id == rg.id
                &&& final(self).reserved@.last().sponsor == sponsor
                &&& final(self).reserved@.last().budget == budget
                &&& final(self).reserved@.last().expires_at == rg.expires_at
                &&& final(self).reserved@.last().coins@ == rg.coins@
            }),
            forall|c: GasCoin| final(self).has_coin(c) <==> old(self).has_coin(c),
            forall|id: ObjectId| final(self).has_id(id) <==> old(self).has_id(id),
    {
        let avail_len = self.available.len();
        let cap: usize = if avail_len <= MAX_GAS_COINS_PER_RESERVATION {
            avail_len
        } else {
            MAX_GAS_COINS_PER_RESERVATION
        };
        let mut n: usize = 0;
        let mut sum: u128 = 0;
        proof {
            assert(self.available@.take(0) =~= Seq::<GasCoin>::empty());
        }
        while n < cap && sum < budget as u128
            invariant
                n <= cap,
                cap == self.selection_cap(),
                cap <= self.available@.len(),
                budget >= 1,
                sum == sum_balances(self.available@.take(n as int)),
                sum <= n * 0xffff_ffff_ffff_ffffu64,
                n > 0 ==> sum_balances(self.available@.take(n as int - 1)) < budget,
                n <= MAX_GAS_COINS_PER_RESERVATION,
            decreases cap - n,
        {
            proof {
                lemma_sum_balances_take_succ(self.available@, n as int);
            }
            sum = sum + self.available[n].balance as u128;
            n += 1;
        }
        if sum < budget as u128 {
            assert(!old(self).can_reserve(budget, duration, now)) by {
                assert(n == cap);
            }
            return None;
        }
        if self.next_reservation_id == u64::MAX {
            return None;
        }
        let expires_at = match now.checked_add(duration) {
            Some(e) => e,
            None => {
                return None;
            },
        };
        assert(old(self).can_reserve(budget, duration, now)) by {
            if (n as int) < old(self).selection_cap() {
                lemma_sum_take_prefix_le(old(self).available@, n as int, old(self).selection_cap());
            }
        }
        let ghost oldst = *self;
        let nn = n;
        let mut picked: Vec<GasCoin> = Vec::new();
        let mut row_coins: Vec<GasCoin> = Vec::new();
        let mut i: usize = 0;
        while i < nn
            invariant
                i <= nn,
                nn <= self.available@.len(),
                picked@ == self.available@.take(i as int),
                row_coins@ == self.available@.take(i as int),
            decreases nn - i,
        {
            proof {
                assert(self.available@.take(i as int + 1) =~= self.available@.take(i as int).push(
                    self.available@[i as int],
                ));
            }
            picked.push(self.available[i]);
            row_coins.push(self.available[i]);
            i += 1;
        }
        let mut rest: Vec<GasCoin> = Vec::new();
        let mut j: usize = nn;
        while j < self.available.len()
            invariant
                nn <= j <= self.available@.len(),
                rest@ == self.available@.subrange(nn as int, j as int),
            decreases self.available@.len() - j,
        {
            proof {
                assert(self.available@.subrange(nn as int, j as int + 1)
                    =~= self.available@.subrange(nn as int, j as int).push(
                    self.available@[j as int],
                ));
            }
            rest.push(self.available[j]);
            j += 1;
        }
        let id = self.next_reservation_id;
        let rsv = Reservation {
            id,
            sponsor,
            coins: row_coins,
            budget,
            expires_at,
        };
        self.available = rest;
        self.reserved.push(rsv);
        self.next_reservation_id = id + 1;
        proof {
            let n = nn as int;
            let av = oldst.available@;
            assert(self.available@ =~= av.skip(n));
            lemma_take_skip_contains(av, n);
            assert(picked@.drop_last() =~= av.take(n - 1));
            lemma_reserve_wf(oldst, *self, sponsor, budget, expires_at, n);
        }
        Some(ReservedGas { id, coins: picked, expires_at })
    }

    /// The store knows the object id outside of reservation `skip_i`:
    /// among the available coins or in any other reservation.
    pub open spec fn has_id_except(self, skip_i: int, id: ObjectId) -> bool {
        self.avail_has_id(id) || exists|j: int|
            0 <= j < self.reserved@.len() && j != skip_i && #[trigger] self.rsv_at_has_id(j, id)
    }

    /// Atomically drop the reservation with the given id and hand its
    /// replacement coins back to `available`. The replacement set may
    /// differ from the reserved one: spent coins are omitted, gas-paying
    /// coins come back mutated, freshly created coins join the pool. A
    /// coin whose object id is still known elsewhere in the store is
    /// skipped, so no id is ever duplicated.
    ///
    /// Returns whether a reservation with that id existed; without one the
    /// store is untouched.
    pub fn release(&mut self, reservation_id: ReservationID, updated: &Vec<GasCoin>) -> (r: bool)
        requires
            old(self).wf(),
            coin_ids_unique(updated@),
            old(self).available@.len() + updated@.len() <= usize::MAX,
        ensures
            final(self).wf(),
            r == old(self).has_reservation(reservation_id),
            !r ==> *final(self) == *old(self),
            r ==> ({
                let idx = old(self).rsv_index(reservation_id);
                &&& 0 <= idx < old(self).reserved@.len()
                &&& old(self).reserved@[idx].id == reservation_id
                &&& final(self).reserved@ == old(self).reserved@.remove(idx)
                &&& final(self).next_reservation_id == old(self).next_reservation_id
                &&& (forall|c: GasCoin|
                    #[trigger] final(self).available@.contains(c) <==> (old(
                        self,
                    ).available@.contains(c) || (updated@.contains(c) && !old(self).has_id_except(
                        idx,
                        c.object_id,
                    ))))
                &&& (forall|id: ObjectId|
                    #[trigger] final(self).has_id(id) <==> (old(self).has_id_except(idx, id)
                        || seq_has_id(updated@, id)))
            }),
            r && updated@ == old(self).reserved@[old(self).rsv_index(reservation_id)].coins@
                ==> (forall|c: GasCoin|
                #[trigger] final(self).has_coin(c) <==> old(self).has_coin(c)),
    {
        let ghost oldst = *self;
        let mut i: usize = 0;
        let rlen = self.reserved.len();
        while i < rlen && self.reserved[i].id != reservation_id
            invariant
                i <= rlen,
                rlen == self.reserved@.len(),
                *self == oldst,
                forall|k: int| 0 <= k < i ==> (#[trigger] self.reserved@[k]).id != reservation_id,
            decreases rlen - i,
        {
            i += 1;
        }
        if i == rlen {
            proof {
                assert(!oldst.has_reservation(reservation_id));
            }
            return false;
        }
        let ghost idx = oldst.rsv_index(reservation_id);
        proof {
            assert(oldst.has_reservation(reservation_id)) by {
                assert(oldst.reserved@[i as int].id == reservation_id);
            }
            assert(0 <= idx < oldst.reserved@.len() && oldst.reserved@[idx].id == reservation_id);
            assert(idx == i as int) by {
                if idx != i as int {
                    assert(oldst.reserved@[idx].id != oldst.reserved@[i as int].id);
                }
            }
        }
        self.reserved.remove(i);
        proof {
            lemma_remove_wf(oldst, *self, i as int);
        }
        let ghost mid = *self;
        self.init(updated);
        proof {
            assert forall|c: GasCoin| #[trigger] self.available@.contains(c) implies (
            oldst.available@.contains(c) || (updated@.contains(c) && !oldst.has_id_except(
                idx,
                c.object_id,
            ))) by {
                assert(mid.has_id(c.object_id) <==> oldst.has_id_except(idx, c.object_id));
            }
            assert forall|c: GasCoin|
                (oldst.available@.contains(c) || (updated@.contains(c) && !oldst.has_id_except(
                    idx,
                    c.object_id,
                ))) implies #[trigger] self.available@.contains(c) by {
                assert(mid.has_id(c.object_id) <==> oldst.has_id_except(idx, c.object_id));
            }
            assert forall|id: ObjectId| #[trigger] self.has_id(id) <==> (oldst.has_id_except(
                idx,
                id,
            ) || seq_has_id(updated@, id)) by {
                assert(mid.has_id(id) <==> oldst.has_id_except(idx, id));
            }
            if updated@ == oldst.reserved@[idx].coins@ {
                assert forall|c: GasCoin| #[trigger] self.has_coin(c) implies oldst.has_coin(
                    c,
                ) by {
                    assert(oldst.has_coin(c) <==> (mid.has_coin(c)
                        || oldst.reserved@[idx].coins@.contains(c)));
                    if self.available@.contains(c) {
                        if !oldst.available@.contains(c) {
                            assert(updated@.contains(c));
                            assert(oldst.reserved@[idx].coins@.contains(c));
                        } else {
                            assert(mid.available@.contains(c));
                            assert(mid.has_coin(c));
                        }
                    } else {
                        let j = choose|j: int|
                            0 <= j < self.reserved@.len() && (
                            #[trigger] self.reserved@[j].coins@).contains(c);
                        assert(mid.reserved@[j].coins@.contains(c));
                        assert(mid.has_coin(c));
                    }
                }
                assert forall|c: GasCoin| oldst.has_coin(c) implies #[trigger] self.has_coin(
                    c,
                ) by {
                    assert(oldst.has_coin(c) <==> (mid.has_coin(c)
                        || oldst.reserved@[idx].coins@.contains(c)));
                    if mid.has_coin(c) {
                        if mid.available@.contains(c) {
                            assert(oldst.available@.contains(c));
                            assert(self.available@.contains(c));
                        } else {
                            let j = choose|j: int|
                                0 <= j < mid.reserved@.len() && (
                                #[trigger] mid.reserved@[j].coins@).contains(c);
                            assert((self.reserved@[j].coins@).contains(c));
                            assert(self.has_coin(c));
                        }
                    } else {
                        // The released coins go back to `available`: their
                        // ids were exclusive to this reservation.
                        assert(updated@.contains(c));
                        assert(oldst.rsv_at_has_id(idx, c.object_id)) by {
                            let m = choose|m: int|
                                0 <= m < oldst.reserved@[idx].coins@.len()
                                    && oldst.reserved@[idx].coins@[m] == c;
                            assert(oldst.reserved@[idx].coins@[m].object_id == c.object_id);
                        }
                        assert(!oldst.avail_has_id(c.object_id));
                        assert(!oldst.has_id_except(idx, c.object_id));
                        assert(self.available@.contains(c));
                    }
                }
            }
        }
        true
    }

    /// The id of some reservation that is due at `now`, if one exists.
    pub fn find_expired(&self, now: u64) -> (r: Option<ReservationID>)
        requires
            self.wf(),
        ensures
            r matches Some(id) ==> self.has_reservation(id) && self.reserved@[self.rsv_index(
                id,
            )].expires_at <= now,
            r is None ==> forall|i: int|
                0 <= i < self.reserved@.len() ==> (#[trigger] self.reserved@[i]).expires_at > now,
    {
        let mut i: usize = 0;
        let rlen = self.reserved.len();
        while i < rlen && self.reserved[i].expires_at > now
            invariant
                i <= rlen,
                rlen == self.reserved@.len(),
                forall|k: int| 0 <= k < i ==> (#[trigger] self.reserved@[k]).expires_at > now,
            decreases rlen - i,
        {
            i += 1;
        }
        if i == rlen {
            return None;
        }
        let id = self.reserved[i].id;
        let ghost idx = self.rsv_index(id);
        proof {
            assert(self.has_reservation(id)) by {
                assert(self.reserved@[i as int].id == id);
            }
            assert(0 <= idx < self.reserved@.len() && self.reserved@[idx].id == id);
            assert(idx == i as int) by {
                if idx != i as int {
                    assert(self.reserved@[idx].id != self.reserved@[i as int].id);
                }
            }
        }
        Some(id)
    }

    /// Atomically remove and hand back the reservation with the given id,
    /// leaving its coins in no one's hands: the caller re-admits or drops
    /// them after validating against the chain.
    pub fn take_reservation(&mut self, reservation_id: ReservationID) -> (r: Option<Reservation>)
        requires
            old(self).wf(),
        ensures
            final(self).wf(),
            r is Some <==> old(self).has_reservation(reservation_id),
            r is None ==> *final(self) == *old(self),
            r matches Some(rv) ==> ({
                let idx = old(self).rsv_index(reservation_id);
                &&& 0 <= idx < old(self).reserved@.len()
                &&& rv == old(self).reserved@[idx]
                &&& rv.id == reservation_id
                &&& rsv_wf(rv)
                &&& final(self).available@ == old(self).available@
                &&& final(self).next_reservation_id == old(self).next_reservation_id
                &&& final(self).reserved@ == old(self).reserved@.remove(idx)
                &&& (forall|id: ObjectId|
                    #[trigger] final(self).has_id(id) <==> old(self).has_id_except(idx, id))
                &&& (forall|id: ObjectId|
                    seq_has_id(rv.coins@, id) ==> !#[trigger] final(self).has_id(id))
                &&& (forall|c: GasCoin|
                    #[trigger] old(self).has_coin(c) <==> (final(self).has_coin(c)
                        || rv.coins@.contains(c)))
            }),
    {
        let ghost oldst = *self;
        let mut i: usize = 0;
        let rlen = self.reserved.len();
        while i < rlen && self.reserved[i].id != reservation_id
            invariant
                i <= rlen,
                rlen == self.reserved@.len(),
                *self == oldst,
                forall|k: int| 0 <= k < i ==> (#[trigger] self.reserved@[k]).id != reservation_id,
            decreases rlen - i,
        {
            i += 1;
        }
        if i == rlen {
            proof {
                assert(!oldst.has_reservation(reservation_id));
            }
            return None;
        }
        let ghost idx = oldst.rsv_index(reservation_id);
        proof {
            assert(oldst.has_reservation(reservation_id)) by {
                assert(oldst.reserved@[i as int].id == reservation_id);
            }
            assert(idx == i as int) by {
                if idx != i as int {
                    assert(oldst.reserved@[idx].id != oldst.reserved@[i as int].id);
                }
            }
        }
        let rv = self.reserved.remove(i);
        proof {
            lemma_remove_wf(oldst, *self, i as int);
            assert forall|id: ObjectId| seq_has_id(rv.coins@, id) implies !#[trigger] self.has_id(
                id,
            ) by {
                assert(oldst.rsv_at_has_id(idx, id));
                assert(!oldst.avail_has_id(id));
                if self.has_id(id) {
                    assert(oldst.has_id_except(idx, id));
                }
            }
        }
        Some(rv)
    }

    /// Look up an active reservation by its id.
    pub fn get_reservation(&self, reservation_id: ReservationID) -> (r: Option<&Reservation>)
        requires
            self.wf(),
        ensures
            r is Some <==> self.has_reservation(reservation_id),
            r matches Some(rv) ==> ({
                let idx = self.rsv_index(reservation_id);
                &&& 0 <= idx < self.reserved@.len()
                &&& *rv == self.reserved@[idx]
                &&& rv.id == reservation_id
            }),
    {
        let mut i: usize = 0;
        let rlen = self.reserved.len();
        while i < rlen && self.reserved[i].id != reservation_id
            invariant
                i <= rlen,
                rlen == self.reserved@.len(),
                forall|k: int| 0 <= k < i ==> (#[trigger] self.reserved@[k]).id != reservation_id,
            decreases rlen - i,
        {
            i += 1;
        }
        if i == rlen {
            proof {
                assert(!self.has_reservation(reservation_id));
            }
            return None;
        }
        let ghost idx = self.rsv_index(reservation_id);
        proof {
            assert(self.has_reservation(reservation_id)) by {
                assert(self.reserved@[i as int].id == reservation_id);
            }
            assert(0 <= idx < self.reserved@.len() && self.reserved@[idx].id == reservation_id);
            assert(idx == i as int) by {
                if idx != i as int {
                    assert(self.reserved@[idx].id != self.reserved@[i as int].id);
                }
            }
        }
        Some(&self.reserved[i])
    }

    /// How the pool stands: the number of available coins, the number of
    /// active reservations, and the total balance still available.
    pub fn size(&self) -> (r: (usize, usize, u128))
        ensures
            r.0 == self.available@.len(),
            r.1 == self.reserved@.len(),
            r.2 == sum_balances(self.available@),
    {
        let mut total: u128 = 0;
        let mut i: usize = 0;
        proof {
            assert(self.available@.take(0) =~= Seq::<GasCoin>::empty());
        }
        while i < self.available.len()
            invariant
                i <= self.available@.len(),
                total == sum_balances(self.available@.take(i as int)),
                total <= i * 0xffff_ffff_ffff_ffffu64,
            decreases self.available@.len() - i,
        {
            proof {
                lemma_sum_balances_take_succ(self.available@, i as int);
            }
            total = total + self.available[i].balance as u128;
            i += 1;
        }
        proof {
            assert(self.available@.take(self.available@.len() as int) =~= self.available@);
        }
        (self.available.len(), self.reserved.len(), total)
    }
}

/// Exclusivity: two distinct active reservations of a well-formed store
/// never hold a coin with the same object id. Together with `reserve`'s
/// contract — which records every handed-out coin set as a reservation row
/// — this says that concurrent holders can never be lent the same coin.
pub proof fn lemma_reservation_exclusivity(s: GasPoolStore, i: int, j: int, id: ObjectId)
    requires
        s.wf(),
        0 <= i < s.reserved@.len(),
        0 <= j < s.reserved@.len(),
        i != j,
    ensures
        !(seq_has_id(s.reserved@[i].coins@, id) && seq_has_id(s.reserved@[j].coins@, id)),
{
    if seq_has_id(s.reserved@[i].coins@, id) && seq_has_id(s.reserved@[j].coins@, id) {
        assert(s.rsv_at_has_id(i, id) && s.rsv_at_has_id(j, id));
    }
}

/// A reserved coin is never also available: the reservation is exclusive
/// against the free pool too.
pub proof fn lemma_reserved_not_available(s: GasPoolStore, i: int, id: ObjectId)
    requires
        s.wf(),
        0 <= i < s.reserved@.len(),
        seq_has_id(s.reserved@[i].coins@, id),
    ensures
        !s.avail_has_id(id),
{
    assert(s.rsv_at_has_id(i, id));
}

/// Budget sufficiency: every active reservation of a well-formed store
/// covers the budget it was made for.
pub proof fn lemma_budget_sufficiency(s: GasPoolStore, i: int)
    requires
        s.wf(),
        0 <= i < s.reserved@.len(),
    ensures
        sum_balances(s.reserved@[i].coins@) >= s.reserved@[i].budget,
{
}

/// Bounded coins: every active reservation of a well-formed store holds
/// between one and `MAX_GAS_COINS_PER_RESERVATION` coins.
pub proof fn lemma_bounded_coins(s: GasPoolStore, i: int)
    requires
        s.wf(),
        0 <= i < s.reserved@.len(),
    ensures
        1 <= s.reserved@[i].coins@.len() <= MAX_GAS_COINS_PER_RESERVATION,
{
}

/// Dropping one reservation row keeps the store well-formed; the store
/// then knows exactly the ids it knew outside that row, and exactly the
/// coins it held outside that row.
proof fn lemma_remove_wf(oldst: GasPoolStore, m: GasPoolStore, idx: int)
    requires
        oldst.wf(),
        0 <= idx < oldst.reserved@.len(),
        m.available@ == oldst.available@,
        m.reserved@ == oldst.reserved@.remove(idx),
        m.next_reservation_id == oldst.next_reservation_id,
    ensures
        m.wf(),
        forall|id: ObjectId| #[trigger] m.has_id(id) <==> oldst.has_id_except(idx, id),
        forall|c: GasCoin|
            #[trigger] oldst.has_coin(c) <==> (m.has_coin(c)
                || oldst.reserved@[idx].coins@.contains(c)),
{
    let orsv = oldst.reserved@;
    let mlen = m.reserved@.len() as int;
    assert(mlen == orsv.len() - 1);
    assert forall|i: int| 0 <= i < mlen implies m.reserved@[i] == (if i < idx {
        orsv[i]
    } else {
        orsv[i + 1]
    }) by {}
    // Each remaining row keeps its properties.
    assert forall|i: int| 0 <= i < mlen implies rsv_wf(#[trigger] m.reserved@[i]) by {
        if i < idx {
            assert(rsv_wf(orsv[i]));
        } else {
            assert(rsv_wf(orsv[i + 1]));
        }
    }
    assert forall|i: int| 0 <= i < mlen implies (#[trigger] m.reserved@[i]).id
        < m.next_reservation_id by {
        if i < idx {
            assert(orsv[i].id < oldst.next_reservation_id);
        } else {
            assert(orsv[i + 1].id < oldst.next_reservation_id);
        }
    }
    assert forall|i: int, j: int| 0 <= i < j < mlen implies (#[trigger] m.reserved@[i]).id != (
    #[trigger] m.reserved@[j]).id by {
        let oi = if i < idx {
            i
        } else {
            i + 1
        };
        let oj = if j < idx {
            j
        } else {
            j + 1
        };
        assert(orsv[oi].id != orsv[oj].id);
    }
    assert forall|i: int, id: ObjectId|
        0 <= i < mlen && #[trigger] m.rsv_at_has_id(i, id) implies !m.avail_has_id(id) by {
        let oi = if i < idx {
            i
        } else {
            i + 1
        };
        assert(oldst.rsv_at_has_id(oi, id));
        assert(!oldst.avail_has_id(id));
    }
    assert forall|i: int, j: int, id: ObjectId|
        0 <= i < mlen && 0 <= j < mlen && i != j implies !(#[trigger] m.rsv_at_has_id(i, id)
        && #[trigger] m.rsv_at_has_id(j, id)) by {
        let oi = if i < idx {
            i
        } else {
            i + 1
        };
        let oj = if j < idx {
            j
        } else {
            j + 1
        };
        if m.rsv_at_has_id(i, id) && m.rsv_at_has_id(j, id) {
            assert(oldst.rsv_at_has_id(oi, id) && oldst.rsv_at_has_id(oj, id));
        }
    }
    assert forall|id: ObjectId| #[trigger] m.has_id(id) implies oldst.has_id_except(idx, id) by {
        if !m.avail_has_id(id) {
            let i = choose|i: int| 0 <= i < mlen && #[trigger] m.rsv_at_has_id(i, id);
            let oi = if i < idx {
                i
            } else {
                i + 1
            };
            assert(oldst.rsv_at_has_id(oi, id));
        }
    }
    assert forall|id: ObjectId| oldst.has_id_except(idx, id) implies #[trigger] m.has_id(id) by {
        if !oldst.avail_has_id(id) {
            let j = choose|j: int|
                0 <= j < orsv.len() && j != idx && #[trigger] oldst.rsv_at_has_id(j, id);
            if j < idx {
                assert(m.rsv_at_has_id(j, id));
            } else {
                assert(m.rsv_at_has_id(j - 1, id));
            }
        }
    }
    assert forall|c: GasCoin| #[trigger] oldst.has_coin(c) implies (m.has_coin(c)
        || oldst.reserved@[idx].coins@.contains(c)) by {
        if !oldst.available@.contains(c) {
            let j = choose|j: int|
                0 <= j < orsv.len() && (#[trigger] orsv[j].coins@).contains(c);
            if j < idx {
                assert(m.reserved@[j].coins@.contains(c));
            } else if j > idx {
                assert(m.reserved@[j - 1].coins@.contains(c));
            }
        }
    }
    assert forall|c: GasCoin|
        (m.has_coin(c) || oldst.reserved@[idx].coins@.contains(c)) implies #[trigger] oldst.has_coin(
        c,
    ) by {
        if m.has_coin(c) && !m.available@.contains(c) {
            let j = choose|j: int|
                0 <= j < mlen && (#[trigger] m.reserved@[j].coins@).contains(c);
            if j < idx {
                assert(orsv[j].coins@.contains(c));
            } else {
                assert(orsv[j + 1].coins@.contains(c));
            }
        }
    }
}

/// After moving a prefix of `available` into a fresh reservation row, the
/// store is still well-formed and holds exactly the same coins.
proof fn lemma_reserve_wf(
    oldst: GasPoolStore,
    newst: GasPoolStore,
    sponsor: Address,
    budget: u64,
    expires_at: u64,
    n: int,
)
    requires
        oldst.wf(),
        1 <= n <= MAX_GAS_COINS_PER_RESERVATION,
        n <= oldst.available@.len(),
        newst.available@ == oldst.available@.skip(n),
        newst.reserved@.len() == oldst.reserved@.len() + 1,
        forall|i: int| 0 <= i < oldst.reserved@.len() ==> newst.reserved@[i] == oldst.reserved@[i],
        newst.reserved@.last().coins@ == oldst.available@.take(n),
        newst.reserved@.last().id == oldst.next_reservation_id,
        newst.reserved@.last().sponsor == sponsor,
        newst.reserved@.last().budget == budget,
        newst.reserved@.last().expires_at == expires_at,
        sum_balances(oldst.available@.take(n)) >= budget,
        oldst.next_reservation_id < u64::MAX,
        newst.next_reservation_id == oldst.next_reservation_id + 1,
    ensures
        newst.wf(),
        forall|c: GasCoin| newst.has_coin(c) <==> oldst.has_coin(c),
        forall|id: ObjectId| newst.has_id(id) <==> oldst.has_id(id),
{
    let av = oldst.available@;
    let olen = oldst.reserved@.len() as int;
    lemma_take_skip_contains(av, n);
    // The new available suffix keeps the order and the id uniqueness.
    assert forall|i: int, j: int|
        0 <= i <= j < newst.available@.len() implies newst.available@[i].balance
        >= newst.available@[j].balance by {
        assert(av[i + n].balance >= av[j + n].balance);
    }
    assert forall|i: int, j: int|
        0 <= i < j < newst.available@.len() implies newst.available@[i].object_id
        != newst.available@[j].object_id by {
        assert(av[i + n].object_id != av[j + n].object_id);
    }
    // Every reservation row is well-formed, the new one included.
    assert forall|i: int| 0 <= i < newst.reserved@.len() implies rsv_wf(
        #[trigger] newst.reserved@[i],
    ) by {
        if i < olen {
            assert(rsv_wf(oldst.reserved@[i]));
        } else {
            assert forall|a: int, b: int|
                0 <= a < b < n implies av.take(n)[a].object_id != av.take(n)[b].object_id by {
                assert(av[a].object_id != av[b].object_id);
            }
        }
    }
    // Reservation ids stay below the fresh counter and pairwise distinct.
    assert forall|i: int| 0 <= i < newst.reserved@.len() implies (#[trigger] newst.reserved@[i]).id
        < newst.next_reservation_id by {
        if i < olen {
            assert(oldst.reserved@[i].id < oldst.next_reservation_id);
        }
    }
    assert forall|i: int, j: int| 0 <= i < j < newst.reserved@.len() implies (
    #[trigger] newst.reserved@[i]).id != (#[trigger] newst.reserved@[j]).id by {
        if j < olen {
            assert(oldst.reserved@[i].id != oldst.reserved@[j].id);
        } else {
            assert(oldst.reserved@[i].id < oldst.next_reservation_id);
        }
    }
    // No reserved coin id is still available.
    assert forall|i: int, id: ObjectId|
        0 <= i < newst.reserved@.len() && #[trigger] newst.rsv_at_has_id(i, id)
            implies !newst.avail_has_id(id) by {
        if newst.avail_has_id(id) {
            let k = choose|k: int|
                0 <= k < newst.available@.len() && newst.available@[k].object_id == id;
            assert(av[k + n].object_id == id);
            if i < olen {
                assert(oldst.rsv_at_has_id(i, id));
                assert(!oldst.avail_has_id(id));
                assert(seq_has_id(av, id));
            } else {
                let m = choose|m: int| 0 <= m < n && av.take(n)[m].object_id == id;
                assert(av[m].object_id == av[k + n].object_id);
                assert(m < k + n);
            }
        }
    }
    // Distinct reservations stay coin-disjoint.
    assert forall|i: int, j: int, id: ObjectId|
        0 <= i < newst.reserved@.len() && 0 <= j < newst.reserved@.len() && i != j implies !(
        #[trigger] newst.rsv_at_has_id(i, id) && #[trigger] newst.rsv_at_has_id(j, id)) by {
        if newst.rsv_at_has_id(i, id) && newst.rsv_at_has_id(j, id) {
            if i < olen && j < olen {
                assert(oldst.rsv_at_has_id(i, id) && oldst.rsv_at_has_id(j, id));
            } else {
                let o = if i < olen {
                    i
                } else {
                    j
                };
                // The other index is the new row; its coin was available
                // before, yet reservation `o` also held it: impossible in
                // the old store.
                let m = choose|m: int| 0 <= m < n && av.take(n)[m].object_id == id;
                assert(av[m].object_id == id);
                assert(seq_has_id(av, id));
                assert(oldst.rsv_at_has_id(o, id));
                assert(!oldst.avail_has_id(id));
            }
        }
    }
    // The same coins, merely moved between the two sides.
    assert forall|c: GasCoin| newst.has_coin(c) implies oldst.has_coin(c) by {
        if newst.available@.contains(c) {
            let k = choose|k: int| 0 <= k < newst.available@.len() && newst.available@[k] == c;
            assert(av[k + n] == c);
            assert(av.contains(c));
        } else {
            let i = choose|i: int|
                0 <= i < newst.reserved@.len() && (#[trigger] newst.reserved@[i].coins@).contains(
                    c,
                );
            if i < olen {
                assert(oldst.reserved@[i].coins@.contains(c));
            } else {
                assert(av.take(n).contains(c));
                assert(av.contains(c));
            }
        }
    }
    assert forall|c: GasCoin| oldst.has_coin(c) implies newst.has_coin(c) by {
        if av.contains(c) {
            if av.take(n).contains(c) {
                assert(newst.reserved@[olen].coins@.contains(c));
            } else {
                assert(av.skip(n).contains(c));
                assert(newst.available@.contains(c));
            }
        } else {
            let i = choose|i: int|
                0 <= i < oldst.reserved@.len() && (#[trigger] oldst.reserved@[i].coins@).contains(
                    c,
                );
            assert(newst.reserved@[i].coins@.contains(c));
        }
    }
    assert forall|id: ObjectId| newst.has_id(id) implies oldst.has_id(id) by {
        if newst.avail_has_id(id) {
            let k = choose|k: int|
                0 <= k < newst.available@.len() && newst.available@[k].object_id == id;
            assert(av[k + n].object_id == id);
            assert(oldst.avail_has_id(id));
        } else {
            let i = choose|i: int|
                0 <= i < newst.reserved@.len() && #[trigger] newst.rsv_at_has_id(i, id);
            if i < olen {
                assert(oldst.rsv_at_has_id(i, id));
            } else {
                assert(seq_has_id(av.take(n), id));
                assert(seq_has_id(av, id));
            }
        }
    }
    assert forall|id: ObjectId| oldst.has_id(id) implies newst.has_id(id) by {
        if oldst.avail_has_id(id) {
            if seq_has_id(av.take(n), id) {
                assert(newst.rsv_at_has_id(olen, id));
            } else {
                assert(seq_has_id(av.skip(n), id));
                assert(newst.avail_has_id(id));
            }
        } else {
            let i = choose|i: int|
                0 <= i < oldst.reserved@.len() && #[trigger] oldst.rsv_at_has_id(i, id);
            assert(newst.rsv_at_has_id(i, id));
        }
    }
}

/// Insert a coin into a balance-descending vector, keeping the order.
fn insert_coin_sorted(v: &mut Vec<GasCoin>, c: GasCoin)
    requires
        sorted_desc(old(v)@),
        old(v)@.len() < usize::MAX,
    ensures
        sorted_desc(final(v)@),
        final(v)@.len() == old(v)@.len() + 1,
        forall|x: GasCoin| final(v)@.contains(x) <==> (old(v)@.contains(x) || x == c),
        forall|id: ObjectId|
            seq_has_id(final(v)@, id) <==> (seq_has_id(old(v)@, id) || id == c.object_id),
        coin_ids_unique(old(v)@) && !seq_has_id(old(v)@, c.object_id) ==> coin_ids_unique(
            final(v)@,
        ),
{
    let mut p: usize = 0;
    while p < v.len() && v[p].balance >= c.balance
        invariant
            p <= v@.len(),
            v@ == old(v)@,
            forall|k: int| 0 <= k < p ==> v@[k].balance >= c.balance,
        decreases v@.len() - p,
    {
        p += 1;
    }
    let ghost oldv = v@;
    let ghost pp = p as int;
    v.insert(p, c);
    assert forall|i: int, j: int| 0 <= i <= j < v@.len() implies v@[i].balance >= v@[j].balance by {
        if i < pp && j > pp {
            assert(oldv[i].balance >= c.balance && c.balance > oldv[j - 1].balance);
        }
    }
    assert forall|x: GasCoin| v@.contains(x) implies (oldv.contains(x) || x == c) by {
        let i = choose|i: int| 0 <= i < v@.len() && v@[i] == x;
        if i < pp {
            assert(oldv[i] == x);
        } else if i > pp {
            assert(oldv[i - 1] == x);
        }
    }
    assert forall|x: GasCoin| oldv.contains(x) implies v@.contains(x) by {
        let i = choose|i: int| 0 <= i < oldv.len() && oldv[i] == x;
        if i < pp {
            assert(v@[i] == x);
        } else {
            assert(v@[i + 1] == x);
        }
    }
    assert(v@[pp] == c);
    assert forall|id: ObjectId| seq_has_id(v@, id) implies (seq_has_id(oldv, id) || id
        == c.object_id) by {
        let i = choose|i: int| 0 <= i < v@.len() && v@[i].object_id == id;
        if i < pp {
            assert(oldv[i].object_id == id);
        } else if i > pp {
            assert(oldv[i - 1].object_id == id);
        }
    }
    assert forall|id: ObjectId| seq_has_id(oldv, id) implies seq_has_id(v@, id) by {
        let i = choose|i: int| 0 <= i < oldv.len() && oldv[i].object_id == id;
        if i < pp {
            assert(v@[i].object_id == id);
        } else {
            assert(v@[i + 1].object_id == id);
        }
    }
    proof {
        if coin_ids_unique(oldv) && !seq_has_id(oldv, c.object_id) {
            assert forall|i: int, j: int| 0 <= i < j < v@.len() implies v@[i].object_id
                != v@[j].object_id by {
            if i < pp && j < pp {
                assert(oldv[i].object_id != oldv[j].object_id);
            } else if i < pp && j == pp {
                assert(oldv[i].object_id != c.object_id);
            } else if i < pp && j > pp {
                assert(oldv[i].object_id != oldv[j - 1].object_id);
            } else if i == pp {
                assert(v@[j] == oldv[j - 1]);
                assert(oldv[j - 1].object_id != c.object_id);
            } else {
                assert(oldv[i - 1].object_id != oldv[j - 1].object_id);
            }
            }
        }
    }
}

} // verus!
