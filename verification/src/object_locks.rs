//! The object-lock auditor: given coins the pool believes it holds and the
//! chain's report of their current owners, decide which coins are still
//! admissible — owned by the sponsor right now — and which are lost.
//!
//! It guards the two admission paths of the pool: coins entering at
//! initialization, and coins coming back from expired reservations.
use vstd::prelude::*;

use crate::storage::{coin_ids_unique, seq_has_id};
use crate::types::{Address, CoinObservation, GasCoin, ObjectId, Owner};

verus! {

/// Some observation in the sequence reports on the given object id.
pub open spec fn obs_has_id(obs: Seq<CoinObservation>, id: ObjectId) -> bool {
    exists|k: int| 0 <= k < obs.len() && (#[trigger] obs[k]).object_id == id
}

/// No two observations report on the same object id.
pub open spec fn obs_ids_unique(obs: Seq<CoinObservation>) -> bool {
    forall|i: int, j: int| 0 <= i < j < obs.len() ==> obs[i].object_id != obs[j].object_id
}

/// The observation reporting on the given object id.
pub open spec fn obs_at(obs: Seq<CoinObservation>, id: ObjectId) -> CoinObservation {
    choose|o: CoinObservation| obs.contains(o) && o.object_id == id
}

/// The chain reports the object as owned by the sponsor address right now.
/// Only address-owned objects qualify: shared, immutable or wrapped
/// objects can never serve as gas.
pub open spec fn observed_admissible(
    obs: Seq<CoinObservation>,
    sponsor: Address,
    id: ObjectId,
) -> bool {
    exists|k: int|
        0 <= k < obs.len() && (#[trigger] obs[k]).object_id == id && obs[k].owner
            == Owner::AddressOwner(sponsor)
}

/// The coin as the chain currently sees it: same identity, fresh version,
/// digest and balance.
pub open spec fn refreshed_coin(o: CoinObservation) -> GasCoin {
    GasCoin { object_id: o.object_id, version: o.version, digest: o.digest, balance: o.balance }
}

/// How many of the coins the chain reports as sponsor-owned.
pub open spec fn count_admissible(
    coins: Seq<GasCoin>,
    obs: Seq<CoinObservation>,
    sponsor: Address,
) -> int
    decreases coins.len(),
{
    if coins.len() == 0 {
        0
    } else {
        count_admissible(coins.drop_last(), obs, sponsor) + if observed_admissible(
            obs,
            sponsor,
            coins.last().object_id,
        ) {
            1int
        } else {
            0
        }
    }
}

/// Extending a prefix by one coin raises the admissible count exactly
/// when that coin has a sponsor-owned observation.
proof fn lemma_count_admissible_take_succ(
    coins: Seq<GasCoin>,
    obs: Seq<CoinObservation>,
    sponsor: Address,
    i: int,
)
    requires
        0 <= i < coins.len(),
    ensures
        count_admissible(coins.take(i + 1), obs, sponsor) == count_admissible(
            coins.take(i),
            obs,
            sponsor,
        ) + if observed_admissible(obs, sponsor, coins[i].object_id) {
            1int
        } else {
            0
        },
{
    assert(coins.take(i + 1).drop_last() =~= coins.take(i));
    assert(coins.take(i + 1).last() == coins[i]);
}

/// Look up the observation for one object id.
pub fn find_observation(observations: &Vec<CoinObservation>, id: ObjectId) -> (r: Option<
    CoinObservation,
>)
    ensures
        r is Some <==> obs_has_id(observations@, id),
        r matches Some(o) ==> observations@.contains(o) && o.object_id == id,
{
    let mut k: usize = 0;
    while k < observations.len()
        invariant
            k <= observations@.len(),
            forall|m: int| 0 <= m < k ==> (#[trigger] observations@[m]).object_id != id,
        decreases observations@.len() - k,
    {
        if observations[k].object_id == id {
            return Some(observations[k]);
        }
        k += 1;
    }
    None
}

/// Whether the chain reports the object as sponsor-owned. A coin passes
/// exactly when some observation carries its id and names the sponsor as
/// its address-owner.
pub fn is_admissible(
    observations: &Vec<CoinObservation>,
    sponsor: Address,
    id: ObjectId,
) -> (r: bool)
    requires
        obs_ids_unique(observations@),
    ensures
        r == observed_admissible(observations@, sponsor, id),
{
    let mut k: usize = 0;
    while k < observations.len()
        invariant
            k <= observations@.len(),
            forall|m: int|
                0 <= m < k ==> !((#[trigger] observations@[m]).object_id == id
                    && observations@[m].owner == Owner::AddressOwner(sponsor)),
            obs_ids_unique(observations@),
        decreases observations@.len() - k,
    {
        if observations[k].object_id == id {
            let ok = match observations[k].owner {
                Owner::AddressOwner(a) => a == sponsor,
                _ => false,
            };
            if ok {
                proof {
                    assert(observations@[k as int].object_id == id);
                }
                return true;
            }
            proof {
                assert forall|m: int|
                    0 <= m < observations@.len() implies !((#[trigger] observations@[m]).object_id
                    == id && observations@[m].owner == Owner::AddressOwner(sponsor)) by {
                    if m != k as int && observations@[m].object_id == id {
                        assert(observations@[m].object_id != observations@[k as int].object_id);
                    }
                }
            }
            return false;
        }
        k += 1;
    }
    false
}

/// Partition the coins of an expired reservation: those the chain still
/// reports as sponsor-owned come back refreshed to the chain's current
/// version and balance; the rest — moved away, consumed, or unknown to the
/// chain report — are lost to the pool.
pub fn partition_expired_coins(
    coins: &Vec<GasCoin>,
    observations: &Vec<CoinObservation>,
    sponsor: Address,
) -> (r: (Vec<GasCoin>, Vec<GasCoin>))
    requires
        coin_ids_unique(coins@),
        obs_ids_unique(observations@),
    ensures
        coin_ids_unique(r.0@),
        r.0@.len() + r.1@.len() == coins@.len(),
        r.0@.len() == count_admissible(coins@, observations@, sponsor),
        forall|id: ObjectId|
            #[trigger] seq_has_id(r.0@, id) <==> (seq_has_id(coins@, id) && observed_admissible(
                observations@,
                sponsor,
                id,
            )),
        forall|k: int|
            0 <= k < r.0@.len() ==> (#[trigger] r.0@[k]) == refreshed_coin(
                obs_at(observations@, r.0@[k].object_id),
            ),
        forall|k: int|
            0 <= k < r.1@.len() ==> coins@.contains(#[trigger] r.1@[k]) && !observed_admissible(
                observations@,
                sponsor,
                r.1@[k].object_id,
            ),
        forall|id: ObjectId|
            seq_has_id(coins@, id) ==> (seq_has_id(r.0@, id) || #[trigger] seq_has_id(r.1@, id)),
{
    let mut returnable: Vec<GasCoin> = Vec::new();
    let mut lost: Vec<GasCoin> = Vec::new();
    let mut i: usize = 0;
    while i < coins.len()
        invariant
            i <= coins@.len(),
            coin_ids_unique(coins@),
            obs_ids_unique(observations@),
            coin_ids_unique(returnable@),
            returnable@.len() + lost@.len() == i,
            returnable@.len() == count_admissible(coins@.take(i as int), observations@, sponsor),
            forall|id: ObjectId|
                #[trigger] seq_has_id(returnable@, id) <==> (seq_has_id(
                    coins@.take(i as int),
                    id,
                ) && observed_admissible(observations@, sponsor, id)),
            forall|k: int|
                0 <= k < returnable@.len() ==> (#[trigger] returnable@[k]) == refreshed_coin(
                    obs_at(observations@, returnable@[k].object_id),
                ),
            forall|k: int|
                0 <= k < lost@.len() ==> coins@.contains(#[trigger] lost@[k])
                    && !observed_admissible(observations@, sponsor, lost@[k].object_id),
            forall|id: ObjectId|
                seq_has_id(coins@.take(i as int), id) ==> (seq_has_id(returnable@, id)
                    || #[trigger] seq_has_id(lost@, id)),
        decreases coins@.len() - i,
    {
        let c = coins[i];
        let ghost t0 = coins@.take(i as int);
        let ghost t1 = coins@.take(i as int + 1);
        proof {
            assert(t1[i as int] == c);
            assert forall|id: ObjectId| seq_has_id(t1, id) implies (seq_has_id(t0, id) || id
                == c.object_id) by {
                let m = choose|m: int| 0 <= m < t1.len() && t1[m].object_id == id;
                if m < i as int {
                    assert(t0[m].object_id == id);
                }
            }
            assert forall|id: ObjectId| seq_has_id(t0, id) implies seq_has_id(t1, id) by {
                let m = choose|m: int| 0 <= m < t0.len() && t0[m].object_id == id;
                assert(t1[m].object_id == id);
            }
            assert(!seq_has_id(t0, c.object_id)) by {
                if seq_has_id(t0, c.object_id) {
                    let m = choose|m: int| 0 <= m < t0.len() && t0[m].object_id == c.object_id;
                    assert(coins@[m].object_id == coins@[i as int].object_id);
                }
            }
            lemma_count_admissible_take_succ(coins@, observations@, sponsor, i as int);
        }
        let admissible = is_admissible(observations, sponsor, c.object_id);
        if admissible {
            let obs = match find_observation(observations, c.object_id) {
                Some(o) => o,
                None => {
                    proof {
                        let k = choose|k: int|
                            0 <= k < observations@.len() && (#[trigger] observations@[k]).object_id
                                == c.object_id && observations@[k].owner == Owner::AddressOwner(
                                sponsor,
                            );
                        assert(obs_has_id(observations@, c.object_id));
                    }
                    // Unreachable: an admissible coin has an observation.
                    return (returnable, lost);
                },
            };
            let fresh = GasCoin {
                object_id: obs.object_id,
                version: obs.version,
                digest: obs.digest,
                balance: obs.balance,
            };
            let ghost pre = returnable@;
            returnable.push(fresh);
            proof {
                assert(obs == obs_at(observations@, c.object_id)) by {
                    let o2 = obs_at(observations@, c.object_id);
                    assert(observations@.contains(obs) && obs.object_id == c.object_id);
                    assert(observations@.contains(o2) && o2.object_id == c.object_id);
                    if o2 != obs {
                        let a = choose|a: int|
                            0 <= a < observations@.len() && observations@[a] == obs;
                        let b = choose|b: int| 0 <= b < observations@.len() && observations@[b]
                            == o2;
                        assert(observations@[a].object_id != observations@[b].object_id);
                    }
                }
                assert forall|id: ObjectId| seq_has_id(returnable@, id) implies (seq_has_id(
                    t1,
                    id,
                ) && observed_admissible(observations@, sponsor, id)) by {
                    let m = choose|m: int|
                        0 <= m < returnable@.len() && returnable@[m].object_id == id;
                    if m < pre.len() {
                        assert(pre[m].object_id == id);
                        assert(seq_has_id(pre, id));
                    } else {
                        assert(id == c.object_id);
                        assert(t1[i as int].object_id == id);
                    }
                }
                assert forall|id: ObjectId|
                    (seq_has_id(t1, id) && observed_admissible(observations@, sponsor, id))
                        implies seq_has_id(returnable@, id) by {
                    if seq_has_id(t0, id) {
                        assert(seq_has_id(pre, id));
                        let m = choose|m: int| 0 <= m < pre.len() && pre[m].object_id == id;
                        assert(returnable@[m].object_id == id);
                    } else {
                        assert(id == c.object_id);
                        assert(returnable@[pre.len() as int].object_id == id);
                    }
                }
                assert(coin_ids_unique(returnable@)) by {
                    assert forall|a: int, b: int|
                        0 <= a < b < returnable@.len() implies returnable@[a].object_id
                        != returnable@[b].object_id by {
                        if b == pre.len() as int {
                            if returnable@[a].object_id == c.object_id {
                                assert(pre[a].object_id == c.object_id);
                                assert(seq_has_id(pre, c.object_id));
                                assert(seq_has_id(t0, c.object_id));
                            }
                        } else {
                            assert(pre[a].object_id != pre[b].object_id);
                        }
                    }
                }
                assert forall|id: ObjectId| seq_has_id(t1, id) implies (seq_has_id(returnable@, id)
                    || seq_has_id(lost@, id)) by {
                    if seq_has_id(t0, id) {
                    } else {
                        assert(id == c.object_id);
                        assert(returnable@[pre.len() as int].object_id == id);
                    }
                }
            }
        } else {
            let ghost pre = lost@;
            lost.push(c);
            proof {
                assert(coins@.contains(c)) by {
                    assert(coins@[i as int] == c);
                }
                assert forall|k: int| 0 <= k < lost@.len() implies coins@.contains(
                    #[trigger] lost@[k],
                ) && !observed_admissible(observations@, sponsor, lost@[k].object_id) by {
                    if k < pre.len() {
                        assert(lost@[k] == pre[k]);
                    }
                }
                assert forall|id: ObjectId| seq_has_id(t1, id) implies (seq_has_id(returnable@, id)
                    || seq_has_id(lost@, id)) by {
                    if seq_has_id(t0, id) {
                        if seq_has_id(pre, id) {
                            let m = choose|m: int| 0 <= m < pre.len() && pre[m].object_id == id;
                            assert(lost@[m].object_id == id);
                        }
                    } else {
                        assert(id == c.object_id);
                        assert(lost@[pre.len() as int].object_id == id);
                    }
                }
                assert forall|id: ObjectId| seq_has_id(returnable@, id) implies (seq_has_id(
                    t1,
                    id,
                ) && observed_admissible(observations@, sponsor, id)) by {
                    assert(seq_has_id(t0, id));
                }
            }
        }
        i += 1;
    }
    proof {
        assert(coins@.take(coins@.len() as int) =~= coins@);
    }
    (returnable, lost)
}

} // verus!
