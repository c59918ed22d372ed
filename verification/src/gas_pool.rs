//! The gas pool: the in-process façade over the storage backend and the
//! object-lock auditor. It validates and serves reservations, checks
//! user transactions against their reservation, settles reservations from
//! observed effects, and reaps expired reservations.
use vstd::prelude::*;

use crate::errors::GasStationError;
use crate::rpc::rpc_types::ReserveGasRequest;
use crate::storage::{coin_ids_unique, seq_has_id, sum_balances, GasPoolStore, ReservedGas};
use crate::types::{
    Address, EffectEntry, GasCoin, ObjectId, Owner, Reservation, ReservationID, TxDataSummary,
    TxEffects,
};
use crate::MAX_GAS_COINS_PER_RESERVATION;

verus! {

/// Some effect entry reports on the given object id.
pub open spec fn entries_have_id(s: Seq<EffectEntry>, id: ObjectId) -> bool {
    exists|k: int| 0 <= k < s.len() && (#[trigger] s[k]).object_id == id
}

/// No two effect entries report on the same object id.
pub open spec fn entry_ids_unique(s: Seq<EffectEntry>) -> bool {
    forall|i: int, j: int| 0 <= i < j < s.len() ==> s[i].object_id != s[j].object_id
}

/// The effect entry reporting on the given object id.
pub open spec fn entry_at(s: Seq<EffectEntry>, id: ObjectId) -> EffectEntry {
    choose|e: EffectEntry| s.contains(e) && e.object_id == id
}

/// The coin as the effects report it after execution: same identity,
/// fresh version, digest and balance.
pub open spec fn coin_from_entry(e: EffectEntry) -> GasCoin {
    GasCoin { object_id: e.object_id, version: e.version, digest: e.digest, balance: e.balance }
}

/// Some effect entry reports the object as created or mutated into the
/// sponsor's ownership.
pub open spec fn entries_admissible(s: Seq<EffectEntry>, sponsor: Address, id: ObjectId) -> bool {
    exists|k: int|
        0 <= k < s.len() && (#[trigger] s[k]).object_id == id && s[k].owner == Owner::AddressOwner(
            sponsor,
        )
}

/// A reserved coin survives the execution for the pool: it was not
/// deleted, and if it was mutated, the sponsor still owns it.
pub open spec fn coin_kept(eff: TxEffects, sponsor: Address, id: ObjectId) -> bool {
    &&& !eff.deleted@.contains(id)
    &&& (entries_have_id(eff.mutated@, id) ==> entry_at(eff.mutated@, id).owner
        == Owner::AddressOwner(sponsor))
}

/// The value a surviving reserved coin takes: the mutated entry's fresh
/// state if the effects touched it, the coin unchanged otherwise.
pub open spec fn kept_coin_value(eff: TxEffects, sponsor: Address, c: GasCoin) -> GasCoin {
    if entries_have_id(eff.mutated@, c.object_id) {
        coin_from_entry(entry_at(eff.mutated@, c.object_id))
    } else {
        c
    }
}

/// The coin of the sequence carrying the given object id.
pub open spec fn coin_at(s: Seq<GasCoin>, id: ObjectId) -> GasCoin {
    choose|c: GasCoin| s.contains(c) && c.object_id == id
}

/// Look up the effect entry for one object id.
fn find_entry(entries: &Vec<EffectEntry>, id: ObjectId) -> (r: Option<EffectEntry>)
    ensures
        r is Some <==> entries_have_id(entries@, id),
        r matches Some(e) ==> entries@.contains(e) && e.object_id == id,
{
    let mut k: usize = 0;
    while k < entries.len()
        invariant
            k <= entries@.len(),
            forall|m: int| 0 <= m < k ==> (#[trigger] entries@[m]).object_id != id,
        decreases entries@.len() - k,
    {
        if entries[k].object_id == id {
            return Some(entries[k]);
        }
        k += 1;
    }
    None
}

/// Whether the id list carries the given object id.
fn ids_contain(ids: &Vec<ObjectId>, id: ObjectId) -> (r: bool)
    ensures
        r == ids@.contains(id),
{
    let mut k: usize = 0;
    while k < ids.len()
        invariant
            k <= ids@.len(),
            forall|m: int| 0 <= m < k ==> ids@[m] != id,
        decreases ids@.len() - k,
    {
        if ids[k] == id {
            proof {
                assert(ids@[k as int] == id);
            }
            return true;
        }
        k += 1;
    }
    false
}

/// Whether some coin of the list carries the given object id.
fn coins_contain_id(coins: &Vec<GasCoin>, id: ObjectId) -> (r: bool)
    ensures
        r == seq_has_id(coins@, id),
{
    let mut k: usize = 0;
    while k < coins.len()
        invariant
            k <= coins@.len(),
            forall|m: int| 0 <= m < k ==> coins@[m].object_id != id,
        decreases coins@.len() - k,
    {
        if coins[k].object_id == id {
            proof {
                assert(coins@[k as int].object_id == id);
            }
            return true;
        }
        k += 1;
    }
    false
}

/// Derive the replacement coin set of a reservation from observed
/// transaction effects, following the settlement rules: a deleted coin is
/// dropped; a mutated coin still owned by the sponsor is replaced by its
/// fresh state, one the sponsor lost is dropped; an untouched coin is
/// kept as it was; and an object the effects created under the sponsor's
/// ownership joins the set, unless its id is already taken.
pub fn updated_coins_from_effects(
    coins: &Vec<GasCoin>,
    effects: &TxEffects,
    sponsor: Address,
) -> (r: Vec<GasCoin>)
    requires
        coin_ids_unique(coins@),
        entry_ids_unique(effects.mutated@),
        entry_ids_unique(effects.created@),
        coins@.len() + effects.created@.len() <= usize::MAX,
    ensures
        coin_ids_unique(r@),
        r@.len() <= coins@.len() + effects.created@.len(),
        forall|id: ObjectId|
            #[trigger] seq_has_id(r@, id) <==> ((seq_has_id(coins@, id) && coin_kept(
                *effects,
                sponsor,
                id,
            )) || entries_admissible(effects.created@, sponsor, id)),
        forall|k: int|
            0 <= k < r@.len() ==> ({
                let id = (#[trigger] r@[k]).object_id;
                &&& ((seq_has_id(coins@, id) && coin_kept(*effects, sponsor, id)) ==> r@[k]
                    == kept_coin_value(*effects, sponsor, coin_at(coins@, id)))
                &&& (!(seq_has_id(coins@, id) && coin_kept(*effects, sponsor, id)) ==> r@[k]
                    == coin_from_entry(entry_at(effects.created@, id)))
            }),
{
    let mut out: Vec<GasCoin> = Vec::new();
    let mut i: usize = 0;
    while i < coins.len()
        invariant
            i <= coins@.len(),
            coin_ids_unique(coins@),
            entry_ids_unique(effects.mutated@),
            coin_ids_unique(out@),
            out@.len() <= i,
            forall|id: ObjectId|
                #[trigger] seq_has_id(out@, id) <==> (seq_has_id(coins@.take(i as int), id)
                    && coin_kept(*effects, sponsor, id)),
            forall|k: int|
                0 <= k < out@.len() ==> ({
                    let id = (#[trigger] out@[k]).object_id;
                    &&& seq_has_id(coins@, id)
                    &&& out@[k] == kept_coin_value(*effects, sponsor, coin_at(coins@, id))
                }),
        decreases coins@.len() - i,
    {
        let c = coins[i];
        let ghost t0 = coins@.take(i as int);
        let ghost t1 = coins@.take(i as int + 1);
        let ghost pre = out@;
        proof {
            assert(t1[i as int] == c);
            assert forall|id: ObjectId| seq_has_id(t1, id) implies (seq_has_id(t0, id) || id
                == c.object_id) by {
                let m = choose|m: int| 0 <= m < t1.len() && t1[m].object_id == id;
                if m < i as int {
                    assert(t0[m].object_id == id);
                }
            }
            assert forall|id: ObjectId| seq_has_id(t0, id) implies seq_has_id(t1, id) by {
                let m = choose|m: int| 0 <= m < t0.len() && t0[m].object_id == id;
                assert(t1[m].object_id == id);
            }
            assert(!seq_has_id(t0, c.object_id)) by {
                if seq_has_id(t0, c.object_id) {
                    let m = choose|m: int| 0 <= m < t0.len() && t0[m].object_id == c.object_id;
                    assert(coins@[m].object_id == coins@[i as int].object_id);
                }
            }
            assert(coins@[i as int] == c && coins@.contains(c));
            assert(coin_at(coins@, c.object_id) == c) by {
                let c2 = coin_at(coins@, c.object_id);
                assert(coins@.contains(c) && c.object_id == c.object_id);
                assert(coins@.contains(c2) && c2.object_id == c.object_id);
                if c2 != c {
                    let a = choose|a: int| 0 <= a < coins@.len() && coins@[a] == c;
                    let b = choose|b: int| 0 <= b < coins@.len() && coins@[b] == c2;
                    assert(coins@[a].object_id != coins@[b].object_id);
                }
            }
        }
        let deleted = ids_contain(&effects.deleted, c.object_id);
        if !deleted {
            match find_entry(&effects.mutated, c.object_id) {
                Some(m) => {
                    proof {
                        assert(m == entry_at(effects.mutated@, c.object_id)) by {
                            let e2 = entry_at(effects.mutated@, c.object_id);
                            assert(effects.mutated@.contains(m) && m.object_id == c.object_id);
                            assert(effects.mutated@.contains(e2) && e2.object_id == c.object_id);
                            if e2 != m {
                                let a = choose|a: int|
                                    0 <= a < effects.mutated@.len() && effects.mutated@[a] == m;
                                let b = choose|b: int|
                                    0 <= b < effects.mutated@.len() && effects.mutated@[b] == e2;
                                assert(effects.mutated@[a].object_id
                                    != effects.mutated@[b].object_id);
                            }
                        }
                    }
                    let keep = match m.owner {
                        Owner::AddressOwner(a) => a == sponsor,
                        _ => false,
                    };
                    if keep {
                        let fresh = GasCoin {
                            object_id: m.object_id,
                            version: m.version,
                            digest: m.digest,
                            balance: m.balance,
                        };
                        out.push(fresh);
                        proof {
                            assert(coin_kept(*effects, sponsor, c.object_id));
                            assert(fresh == kept_coin_value(*effects, sponsor, c));
                            lemma_updated_push(pre, out@, t0, t1, c.object_id, *effects, sponsor);
                        }
                    } else {
                        proof {
                            assert(!coin_kept(*effects, sponsor, c.object_id));
                            lemma_updated_skip(pre, t0, t1, c.object_id, *effects, sponsor);
                        }
                    }
                },
                None => {
                    out.push(c);
                    proof {
                        assert(coin_kept(*effects, sponsor, c.object_id));
                        assert(c == kept_coin_value(*effects, sponsor, c));
                        lemma_updated_push(pre, out@, t0, t1, c.object_id, *effects, sponsor);
                    }
                },
            }
        } else {
            proof {
                assert(!coin_kept(*effects, sponsor, c.object_id));
                lemma_updated_skip(pre, t0, t1, c.object_id, *effects, sponsor);
            }
        }
        i += 1;
    }
    proof {
        assert(coins@.take(coins@.len() as int) =~= coins@);
        assert forall|id: ObjectId| !entries_admissible(
            effects.created@.take(0),
            sponsor,
            id,
        ) by {
            assert(effects.created@.take(0).len() == 0);
        }
        assert forall|id: ObjectId| #[trigger] seq_has_id(out@, id) implies ((seq_has_id(
            coins@,
            id,
        ) && coin_kept(*effects, sponsor, id)) || entries_admissible(
            effects.created@.take(0),
            sponsor,
            id,
        )) by {
            assert(seq_has_id(coins@.take(coins@.len() as int), id) && coin_kept(
                *effects,
                sponsor,
                id,
            ));
        }
        assert forall|id: ObjectId|
            ((seq_has_id(coins@, id) && coin_kept(*effects, sponsor, id)) || entries_admissible(
                effects.created@.take(0),
                sponsor,
                id,
            )) implies #[trigger] seq_has_id(out@, id) by {
            assert(seq_has_id(coins@.take(coins@.len() as int), id));
        }
        assert forall|m: int|
            0 <= m < out@.len() implies !((#[trigger] out@[m]).object_id != out@[m].object_id || !(
            seq_has_id(coins@, out@[m].object_id) && coin_kept(
                *effects,
                sponsor,
                out@[m].object_id,
            ))) by {
            assert(seq_has_id(out@, out@[m].object_id));
        }
    }
    let mut k: usize = 0;
    while k < effects.created.len()
        invariant
            k <= effects.created@.len(),
            coin_ids_unique(coins@),
            entry_ids_unique(effects.created@),
            coin_ids_unique(out@),
            out@.len() <= coins@.len() + k,
            forall|id: ObjectId|
                #[trigger] seq_has_id(out@, id) <==> ((seq_has_id(coins@, id) && coin_kept(
                    *effects,
                    sponsor,
                    id,
                )) || entries_admissible(effects.created@.take(k as int), sponsor, id)),
            forall|m: int|
                0 <= m < out@.len() ==> ({
                    let id = (#[trigger] out@[m]).object_id;
                    &&& ((seq_has_id(coins@, id) && coin_kept(*effects, sponsor, id)) ==> out@[m]
                        == kept_coin_value(*effects, sponsor, coin_at(coins@, id)))
                    &&& (!(seq_has_id(coins@, id) && coin_kept(*effects, sponsor, id)) ==> out@[m]
                        == coin_from_entry(entry_at(effects.created@, id)))
                }),
        decreases effects.created@.len() - k,
    {
        let e = effects.created[k];
        let ghost s0 = effects.created@.take(k as int);
        let ghost s1 = effects.created@.take(k as int + 1);
        let ghost pre = out@;
        proof {
            assert(s1[k as int] == e);
            assert forall|id: ObjectId| entries_admissible(s1, sponsor, id) implies (
            entries_admissible(s0, sponsor, id) || (id == e.object_id && e.owner
                == Owner::AddressOwner(sponsor))) by {
                let m = choose|m: int|
                    0 <= m < s1.len() && (#[trigger] s1[m]).object_id == id && s1[m].owner
                        == Owner::AddressOwner(sponsor);
                if m < k as int {
                    assert(s0[m].object_id == id && s0[m].owner == Owner::AddressOwner(sponsor));
                }
            }
            assert forall|id: ObjectId| entries_admissible(s0, sponsor, id) implies
                entries_admissible(s1, sponsor, id) by {
                let m = choose|m: int|
                    0 <= m < s0.len() && (#[trigger] s0[m]).object_id == id && s0[m].owner
                        == Owner::AddressOwner(sponsor);
                assert(s1[m].object_id == id && s1[m].owner == Owner::AddressOwner(sponsor));
            }
        }
        let admissible = match e.owner {
            Owner::AddressOwner(a) => a == sponsor,
            _ => false,
        };
        if admissible && !coins_contain_id(&out, e.object_id) {
            let fresh = GasCoin {
                object_id: e.object_id,
                version: e.version,
                digest: e.digest,
                balance: e.balance,
            };
            out.push(fresh);
            proof {
                assert(e == entry_at(effects.created@, e.object_id)) by {
                    let e2 = entry_at(effects.created@, e.object_id);
                    assert(effects.created@[k as int] == e && effects.created@.contains(e));
                    assert(effects.created@.contains(e2) && e2.object_id == e.object_id);
                    if e2 != e {
                        let a = choose|a: int|
                            0 <= a < effects.created@.len() && effects.created@[a] == e;
                        let b = choose|b: int|
                            0 <= b < effects.created@.len() && effects.created@[b] == e2;
                        assert(effects.created@[a].object_id != effects.created@[b].object_id);
                    }
                }
                assert(entries_admissible(s1, sponsor, e.object_id)) by {
                    assert(s1[k as int].object_id == e.object_id);
                }
                assert(!(seq_has_id(coins@, e.object_id) && coin_kept(
                    *effects,
                    sponsor,
                    e.object_id,
                ))) by {
                    assert(!seq_has_id(pre, e.object_id));
                }
                assert forall|id: ObjectId| seq_has_id(out@, id) implies ((seq_has_id(coins@, id)
                    && coin_kept(*effects, sponsor, id)) || entries_admissible(
                    s1,
                    sponsor,
                    id,
                )) by {
                    let m = choose|m: int| 0 <= m < out@.len() && out@[m].object_id == id;
                    if m < pre.len() {
                        assert(pre[m].object_id == id);
                        assert(seq_has_id(pre, id));
                    } else {
                        assert(id == e.object_id);
                    }
                }
                assert forall|id: ObjectId|
                    ((seq_has_id(coins@, id) && coin_kept(*effects, sponsor, id))
                        || entries_admissible(s1, sponsor, id)) implies seq_has_id(out@, id) by {
                    if (seq_has_id(coins@, id) && coin_kept(*effects, sponsor, id))
                        || entries_admissible(s0, sponsor, id) {
                        assert(seq_has_id(pre, id));
                        let m = choose|m: int| 0 <= m < pre.len() && pre[m].object_id == id;
                        assert(out@[m].object_id == id);
                    } else {
                        assert(id == e.object_id);
                        assert(out@[pre.len() as int].object_id == id);
                    }
                }
                assert(coin_ids_unique(out@)) by {
                    assert forall|a: int, b: int|
                        0 <= a < b < out@.len() implies out@[a].object_id != out@[b].object_id by {
                        if b == pre.len() as int {
                            if out@[a].object_id == e.object_id {
                                assert(pre[a].object_id == e.object_id);
                                assert(seq_has_id(pre, e.object_id));
                            }
                        } else {
                            assert(pre[a].object_id != pre[b].object_id);
                        }
                    }
                }
            }
        } else {
            proof {
                if admissible {
                    assert(seq_has_id(out@, e.object_id));
                }
                assert forall|id: ObjectId|
                    ((seq_has_id(coins@, id) && coin_kept(*effects, sponsor, id))
                        || entries_admissible(s1, sponsor, id)) implies seq_has_id(out@, id) by {
                    if !((seq_has_id(coins@, id) && coin_kept(*effects, sponsor, id))
                        || entries_admissible(s0, sponsor, id)) {
                        assert(id == e.object_id && e.owner == Owner::AddressOwner(sponsor));
                    }
                }
            }
        }
        k += 1;
    }
    proof {
        assert(effects.created@.take(effects.created@.len() as int) =~= effects.created@);
    }
    out
}

/// After pushing the surviving form of the coin with the given id, the
/// pass-one invariants hold for the extended prefix.
proof fn lemma_updated_push(
    pre: Seq<GasCoin>,
    post: Seq<GasCoin>,
    t0: Seq<GasCoin>,
    t1: Seq<GasCoin>,
    cid: ObjectId,
    eff: TxEffects,
    sponsor: Address,
)
    requires
        coin_ids_unique(pre),
        post.len() == pre.len() + 1,
        forall|m: int| 0 <= m < pre.len() ==> post[m] == pre[m],
        post.last().object_id == cid,
        forall|id: ObjectId|
            #[trigger] seq_has_id(pre, id) <==> (seq_has_id(t0, id) && coin_kept(
                eff,
                sponsor,
                id,
            )),
        forall|id: ObjectId| seq_has_id(t1, id) <==> (seq_has_id(t0, id) || id == cid),
        !seq_has_id(t0, cid),
        coin_kept(eff, sponsor, cid),
    ensures
        coin_ids_unique(post),
        forall|id: ObjectId|
            #[trigger] seq_has_id(post, id) <==> (seq_has_id(t1, id) && coin_kept(
                eff,
                sponsor,
                id,
            )),
{
    assert forall|id: ObjectId| seq_has_id(post, id) implies (seq_has_id(t1, id) && coin_kept(
        eff,
        sponsor,
        id,
    )) by {
        let m = choose|m: int| 0 <= m < post.len() && post[m].object_id == id;
        if m < pre.len() {
            assert(pre[m].object_id == id);
            assert(seq_has_id(pre, id));
        } else {
            assert(id == cid);
        }
    }
    assert forall|id: ObjectId|
        (seq_has_id(t1, id) && coin_kept(eff, sponsor, id)) implies seq_has_id(post, id) by {
        if seq_has_id(t0, id) {
            assert(seq_has_id(pre, id));
            let m = choose|m: int| 0 <= m < pre.len() && pre[m].object_id == id;
            assert(post[m].object_id == id);
        } else {
            assert(id == cid);
            assert(post[pre.len() as int].object_id == id);
        }
    }
    assert forall|a: int, b: int| 0 <= a < b < post.len() implies post[a].object_id
        != post[b].object_id by {
        if b == pre.len() as int {
            if post[a].object_id == cid {
                assert(pre[a].object_id == cid);
                assert(seq_has_id(pre, cid));
            }
        } else {
            assert(pre[a].object_id != pre[b].object_id);
        }
    }
}

/// After skipping a coin the effects dropped, the pass-one invariants
/// hold for the extended prefix.
proof fn lemma_updated_skip(
    pre: Seq<GasCoin>,
    t0: Seq<GasCoin>,
    t1: Seq<GasCoin>,
    cid: ObjectId,
    eff: TxEffects,
    sponsor: Address,
)
    requires
        forall|id: ObjectId|
            #[trigger] seq_has_id(pre, id) <==> (seq_has_id(t0, id) && coin_kept(
                eff,
                sponsor,
                id,
            )),
        forall|id: ObjectId| seq_has_id(t1, id) <==> (seq_has_id(t0, id) || id == cid),
        !coin_kept(eff, sponsor, cid),
    ensures
        forall|id: ObjectId|
            #[trigger] seq_has_id(pre, id) <==> (seq_has_id(t1, id) && coin_kept(
                eff,
                sponsor,
                id,
            )),
{
}

/// The user transaction pays gas with exactly the reserved coins: the
/// payment lists as many references as the reservation holds, and every
/// reserved coin's `(object_id, version, digest)` reference appears among
/// them. Since the reserved coins carry pairwise distinct object ids,
/// this makes the two multisets equal.
pub open spec fn payment_matches(payment: Seq<crate::types::CoinRef>, coins: Seq<GasCoin>) -> bool {
    &&& payment.len() == coins.len()
    &&& forall|k: int| 0 <= k < coins.len() ==> payment.contains((#[trigger] coins[k]).spec_coin_ref())
}

/// The user transaction is acceptable against its reservation: the
/// sponsor is the gas owner, the payment is exactly the reserved coin
/// set, the declared budget stays within the reserved one, and the gas
/// price is not below the chain's reference price.
pub open spec fn tx_matches(
    tx: TxDataSummary,
    rsv: Reservation,
    sponsor: Address,
    reference_gas_price: u64,
) -> bool {
    &&& tx.gas_owner == sponsor
    &&& payment_matches(tx.gas_payment@, rsv.coins@)
    &&& tx.gas_budget <= rsv.budget
    &&& tx.gas_price >= reference_gas_price
}

/// Check a decoded user transaction against the reservation it claims:
/// accepted exactly when `tx_matches` holds, rejected as an invalid
/// transaction otherwise.
pub fn check_transaction(
    tx: &TxDataSummary,
    rsv: &Reservation,
    sponsor: Address,
    reference_gas_price: u64,
) -> (r: Result<(), GasStationError>)
    ensures
        r is Ok <==> tx_matches(*tx, *rsv, sponsor, reference_gas_price),
        r is Err ==> r == Result::<(), GasStationError>::Err(GasStationError::InvalidTransaction),
{
    if tx.gas_owner != sponsor {
        return Err(GasStationError::InvalidTransaction);
    }
    if tx.gas_payment.len() != rsv.coins.len() {
        return Err(GasStationError::InvalidTransaction);
    }
    if tx.gas_budget > rsv.budget {
        return Err(GasStationError::InvalidTransaction);
    }
    if tx.gas_price < reference_gas_price {
        return Err(GasStationError::InvalidTransaction);
    }
    let mut k: usize = 0;
    while k < rsv.coins.len()
        invariant
            k <= rsv.coins@.len(),
            forall|m: int|
                0 <= m < k ==> tx.gas_payment@.contains((#[trigger] rsv.coins@[m]).spec_coin_ref()),
        decreases rsv.coins@.len() - k,
    {
        let want = rsv.coins[k].coin_ref();
        if !payment_contains(&tx.gas_payment, want) {
            return Err(GasStationError::InvalidTransaction);
        }
        k += 1;
    }
    Ok(())
}

/// Whether the payment list carries the given coin reference.
fn payment_contains(payment: &Vec<crate::types::CoinRef>, want: crate::types::CoinRef) -> (r: bool)
    ensures
        r == payment@.contains(want),
{
    let mut p: usize = 0;
    while p < payment.len()
        invariant
            p <= payment@.len(),
            forall|q: int| 0 <= q < p ==> payment@[q] != want,
        decreases payment@.len() - p,
    {
        if payment[p] == want {
            proof {
                assert(payment@[p as int] == want);
            }
            return true;
        }
        p += 1;
    }
    false
}

/// The in-process gas pool of one sponsor address.
pub struct GasPool {
    /// The authoritative store of available coins and reservations.
    pub store: GasPoolStore,
    /// The address whose coins pay gas.
    pub sponsor: Address,
}

impl GasPool {
    /// Well-formedness: the store invariant, and every reservation made
    /// on behalf of this pool's sponsor.
    pub open spec fn wf(self) -> bool {
        &&& self.store.wf()
        &&& forall|i: int|
            0 <= i < self.store.reserved@.len() ==> (#[trigger] self.store.reserved@[i]).sponsor
                == self.sponsor
    }

    /// There is an active reservation with this id that has not yet
    /// reached its expiry time.
    pub open spec fn active_reservation(self, reservation_id: ReservationID, now: u64) -> bool {
        &&& self.store.has_reservation(reservation_id)
        &&& self.store.reserved@[self.store.rsv_index(reservation_id)].expires_at > now
    }

    /// A fresh pool for the given sponsor, with no coins and no
    /// reservations.
    pub fn new(sponsor: Address) -> (r: GasPool)
        ensures
            r.wf(),
            r.sponsor == sponsor,
            r.store.available@.len() == 0,
            r.store.reserved@.len() == 0,
    {
        GasPool { store: GasPoolStore::new(), sponsor }
    }

    /// Reserve gas coins covering `gas_budget` for
    /// `reserve_duration_secs` seconds, measured from `now`.
    ///
    /// Validation bounds come first: a request outside them is an invalid
    /// request and the pool is untouched. A valid request succeeds exactly
    /// when the largest available coins can cover the budget within the
    /// per-reservation coin limit (and neither the reservation counter nor
    /// the expiry time overflows); otherwise the pool is insufficient and
    /// again untouched. No chain interaction happens on this path.
    pub fn reserve_gas(&mut self, gas_budget: u64, reserve_duration_secs: u64, now: u64) -> (r:
        Result<ReservedGas, GasStationError>)
        requires
            old(self).wf(),
        ensures
            final(self).wf(),
            final(self).sponsor == old(self).sponsor,
            !(ReserveGasRequest { gas_budget, reserve_duration_secs }).is_valid() ==> (r
                == Result::<ReservedGas, GasStationError>::Err(GasStationError::InvalidRequest)
                && *final(self) == *old(self)),
            (ReserveGasRequest { gas_budget, reserve_duration_secs }).is_valid() ==> ({
                &&& (r is Ok <==> old(self).store.can_reserve(
                    gas_budget,
                    reserve_duration_secs,
                    now,
                ))
                &&& (r is Err ==> r == Result::<ReservedGas, GasStationError>::Err(
                    GasStationError::InsufficientPool,
                ) && *final(self) == *old(self))
            }),
            r matches Ok(rg) ==> ({
                let n = rg.coins@.len() as int;
                &&& rg.id == old(self).store.next_reservation_id
                &&& rg.expires_at == now + reserve_duration_secs
                &&& 1 <= n <= MAX_GAS_COINS_PER_RESERVATION
                &&& n <= old(self).store.available@.len()
                &&& rg.coins@ == old(self).store.available@.take(n)
                &&& sum_balances(rg.coins@) >= gas_budget
                &&& sum_balances(rg.coins@.drop_last()) < gas_budget
                &&& final(self).store.available@ == old(self).store.available@.skip(n)
                &&& final(self).store.reserved@.len() == old(self).store.reserved@.len() + 1
                &&& (forall|i: int|
                    0 <= i < old(self).store.reserved@.len() ==> final(self).store.reserved@[i]
                        == old(self).store.reserved@[i])
                &&& final(self).store.reserved@.last().id == rg.id
                &&& final(self).store.reserved@.last().sponsor == old(self).sponsor
                &&& final(self).store.reserved@.last().budget == gas_budget
                &&& final(self).store.reserved@.last().expires_at == rg.expires_at
                &&& final(self).store.reserved@.last().coins@ == rg.coins@
            }),
            forall|c: GasCoin| final(self).store.has_coin(c) <==> old(self).store.has_coin(c),
            forall|id: ObjectId| final(self).store.has_id(id) <==> old(self).store.has_id(id),
    {
        let request = ReserveGasRequest { gas_budget, reserve_duration_secs };
        if let Err(e) = request.check_validity() {
            return Err(e);
        }
        match self.store.reserve(self.sponsor, gas_budget, reserve_duration_secs, now) {
            Some(rg) => {
                proof {
                    assert forall|i: int|
                        0 <= i < self.store.reserved@.len() implies (
                    #[trigger] self.store.reserved@[i]).sponsor == self.sponsor by {
                        if i < self.store.reserved@.len() - 1 {
                            assert(self.store.reserved@[i] == old(self).store.reserved@[i]);
                        }
                    }
                }
                Ok(rg)
            },
            None => Err(GasStationError::InsufficientPool),
        }
    }

    /// Validate an execute request against the pool: the reservation must
    /// exist and not be expired at `now`, and the decoded transaction must
    /// match it under the chain's reference gas price. The pool itself is
    /// read, never changed.
    pub fn validate_execution(
        &self,
        reservation_id: ReservationID,
        tx: &TxDataSummary,
        reference_gas_price: u64,
        now: u64,
    ) -> (r: Result<(), GasStationError>)
        requires
            self.wf(),
        ensures
            r is Ok <==> (self.active_reservation(reservation_id, now) && tx_matches(
                *tx,
                self.store.reserved@[self.store.rsv_index(reservation_id)],
                self.sponsor,
                reference_gas_price,
            )),
            !self.active_reservation(reservation_id, now) ==> r == Result::<
                (),
                GasStationError,
            >::Err(GasStationError::ReservationNotFound),
            self.active_reservation(reservation_id, now) && !tx_matches(
                *tx,
                self.store.reserved@[self.store.rsv_index(reservation_id)],
                self.sponsor,
                reference_gas_price,
            ) ==> r == Result::<(), GasStationError>::Err(GasStationError::InvalidTransaction),
    {
        let rsv = match self.store.get_reservation(reservation_id) {
            Some(rv) => rv,
            None => {
                return Err(GasStationError::ReservationNotFound);
            },
        };
        if rsv.expires_at <= now {
            return Err(GasStationError::ReservationNotFound);
        }
        check_transaction(tx, rsv, self.sponsor, reference_gas_price)
    }

    /// Settle a reservation from observed transaction effects: drop the
    /// reservation, and hand the surviving and newly created sponsor-owned
    /// coins back to the pool at their fresh versions and balances. A coin
    /// the effects deleted, or whose ownership left the sponsor, is gone
    /// from the pool. The pool must always release the reservation on any
    /// terminal outcome of an execution; this is the success path.
    pub fn complete_execution(&mut self, reservation_id: ReservationID, effects: &TxEffects) -> (r:
        Result<(), GasStationError>)
        requires
            old(self).wf(),
            entry_ids_unique(effects.mutated@),
            entry_ids_unique(effects.created@),
            old(self).store.available@.len() + MAX_GAS_COINS_PER_RESERVATION
                + effects.created@.len() <= usize::MAX,
        ensures
            final(self).wf(),
            final(self).sponsor == old(self).sponsor,
            r is Ok <==> old(self).store.has_reservation(reservation_id),
            r is Err ==> r == Result::<(), GasStationError>::Err(
                GasStationError::ReservationNotFound,
            ) && *final(self) == *old(self),
            r is Ok ==> ({
                let idx = old(self).store.rsv_index(reservation_id);
                let rv = old(self).store.reserved@[idx];
                &&& final(self).store.reserved@ == old(self).store.reserved@.remove(idx)
                &&& !final(self).store.has_reservation(reservation_id)
                &&& (forall|k: int|
                    #![trigger rv.coins@[k]]
                    0 <= k < rv.coins@.len() ==> ({
                        let c = rv.coins@[k];
                        let surviving = kept_coin_value(*effects, old(self).sponsor, c);
                        &&& (coin_kept(*effects, old(self).sponsor, c.object_id)
                            ==> final(self).store.available@.contains(surviving))
                        &&& (!coin_kept(*effects, old(self).sponsor, c.object_id)
                            && !entries_admissible(effects.created@, old(self).sponsor, c.object_id)
                            ==> !final(self).store.has_id(c.object_id))
                    }))
            }),
            forall|id: ObjectId|
                #[trigger] final(self).store.has_id(id) ==> (old(self).store.has_id(id)
                    || entries_admissible(effects.created@, old(self).sponsor, id)),
            forall|c: GasCoin|
                old(self).store.available@.contains(c) ==> final(self).store.available@.contains(
                    c,
                ),
            r is Ok ==> (forall|id: ObjectId|
                #[trigger] entries_admissible(effects.created@, old(self).sponsor, id) && !old(
                    self,
                ).store.has_id(id) ==> final(self).store.available@.contains(
                    coin_from_entry(entry_at(effects.created@, id)),
                )),
    {
        let ghost oldst = *self;
        let rv = match self.store.take_reservation(reservation_id) {
            Some(rv) => rv,
            None => {
                return Err(GasStationError::ReservationNotFound);
            },
        };
        let ghost mid = *self;
        let ghost idx = oldst.store.rsv_index(reservation_id);
        let updated = updated_coins_from_effects(&rv.coins, effects, self.sponsor);
        self.store.init(&updated);
        proof {
            lemma_pool_wf_after_remove(oldst, *self, idx);
            assert forall|c: GasCoin| oldst.store.available@.contains(c) implies
                self.store.available@.contains(c) by {
                assert(mid.store.available@.contains(c));
            }
            assert forall|id: ObjectId|
                #[trigger] entries_admissible(effects.created@, oldst.sponsor, id)
                    && !oldst.store.has_id(id) implies self.store.available@.contains(
                coin_from_entry(entry_at(effects.created@, id)),
            ) by {
                // A fresh created id was never a reserved coin, so the
                // settlement emits it as the created entry's coin, and the
                // store knows nothing under that id yet.
                assert(!seq_has_id(rv.coins@, id)) by {
                    if seq_has_id(rv.coins@, id) {
                        assert(oldst.store.rsv_at_has_id(idx, id));
                        assert(oldst.store.has_id(id));
                    }
                }
                assert(seq_has_id(updated@, id));
                let m = choose|m: int| 0 <= m < updated@.len() && updated@[m].object_id == id;
                assert(updated@[m] == coin_from_entry(entry_at(effects.created@, id)));
                assert(!mid.store.has_id(id)) by {
                    if mid.store.has_id(id) {
                        assert(oldst.store.has_id_except(idx, id));
                        lemma_has_id_except_implies_has_id(oldst.store, idx, id);
                    }
                }
                assert(updated@.contains(updated@[m]));
                assert(self.store.available@.contains(updated@[m]));
            }
            assert(!self.store.has_reservation(reservation_id)) by {
                if self.store.has_reservation(reservation_id) {
                    let i = choose|i: int|
                        0 <= i < self.store.reserved@.len() && (
                        #[trigger] self.store.reserved@[i]).id == reservation_id;
                    if i < idx {
                        assert(oldst.store.reserved@[i].id == reservation_id);
                        assert(oldst.store.reserved@[i].id != oldst.store.reserved@[idx].id);
                    } else {
                        assert(oldst.store.reserved@[i + 1].id == reservation_id);
                        assert(oldst.store.reserved@[i + 1].id != oldst.store.reserved@[idx].id);
                    }
                }
            }
            assert forall|k: int| 0 <= k < rv.coins@.len() implies ({
                let c = #[trigger] rv.coins@[k];
                &&& (coin_kept(*effects, oldst.sponsor, c.object_id)
                    ==> self.store.available@.contains(
                    kept_coin_value(*effects, oldst.sponsor, c),
                ))
                &&& (!coin_kept(*effects, oldst.sponsor, c.object_id) && !entries_admissible(
                    effects.created@,
                    oldst.sponsor,
                    c.object_id,
                ) ==> !self.store.has_id(c.object_id))
            }) by {
                let c = rv.coins@[k];
                assert(seq_has_id(rv.coins@, c.object_id)) by {
                    assert(rv.coins@[k].object_id == c.object_id);
                }
                assert(!mid.store.has_id(c.object_id));
                assert(coin_at(rv.coins@, c.object_id) == c) by {
                    let c2 = coin_at(rv.coins@, c.object_id);
                    assert(rv.coins@.contains(c)) by {
                        assert(rv.coins@[k] == c);
                    }
                    assert(rv.coins@.contains(c2) && c2.object_id == c.object_id);
                    if c2 != c {
                        let a = choose|a: int| 0 <= a < rv.coins@.len() && rv.coins@[a] == c;
                        let b = choose|b: int| 0 <= b < rv.coins@.len() && rv.coins@[b] == c2;
                        assert(rv.coins@[a].object_id != rv.coins@[b].object_id);
                    }
                }
                if coin_kept(*effects, oldst.sponsor, c.object_id) {
                    assert(seq_has_id(updated@, c.object_id));
                    let m = choose|m: int|
                        0 <= m < updated@.len() && updated@[m].object_id == c.object_id;
                    assert(updated@[m] == kept_coin_value(*effects, oldst.sponsor, c));
                    assert(updated@.contains(updated@[m]));
                    assert(self.store.available@.contains(updated@[m]));
                } else if !entries_admissible(effects.created@, oldst.sponsor, c.object_id) {
                    assert(!seq_has_id(updated@, c.object_id));
                    assert(!self.store.has_id(c.object_id));
                }
            }
            assert forall|id: ObjectId| #[trigger] self.store.has_id(id) implies (
            oldst.store.has_id(id) || entries_admissible(
                effects.created@,
                oldst.sponsor,
                id,
            )) by {
                if !oldst.store.has_id(id) && !entries_admissible(
                    effects.created@,
                    oldst.sponsor,
                    id,
                ) {
                    assert(!mid.store.has_id(id)) by {
                        if mid.store.has_id(id) {
                            assert(oldst.store.has_id_except(idx, id));
                            lemma_has_id_except_implies_has_id(oldst.store, idx, id);
                        }
                    }
                    assert(!seq_has_id(updated@, id)) by {
                        if seq_has_id(updated@, id) {
                            assert(seq_has_id(rv.coins@, id) && coin_kept(
                                *effects,
                                oldst.sponsor,
                                id,
                            ));
                            assert(oldst.store.rsv_at_has_id(idx, id));
                        }
                    }
                }
            }
        }
        Ok(())
    }

    /// Release a reservation with its coins unchanged: the path taken
    /// when the chain execution failed terminally, when the signer
    /// refused, or when the caller abandoned the attempt. The coins may or
    /// may not have been consumed on-chain; the expiry auditor resolves
    /// the truth at the next eligible moment. The pool holds exactly the
    /// coins it held before.
    pub fn fail_execution(&mut self, reservation_id: ReservationID) -> (r: Result<
        (),
        GasStationError,
    >)
        requires
            old(self).wf(),
            old(self).store.available@.len() + MAX_GAS_COINS_PER_RESERVATION <= usize::MAX,
        ensures
            final(self).wf(),
            final(self).sponsor == old(self).sponsor,
            r is Ok <==> old(self).store.has_reservation(reservation_id),
            r is Err ==> r == Result::<(), GasStationError>::Err(
                GasStationError::ReservationNotFound,
            ) && *final(self) == *old(self),
            r is Ok ==> ({
                let idx = old(self).store.rsv_index(reservation_id);
                &&& final(self).store.reserved@ == old(self).store.reserved@.remove(idx)
                &&& !final(self).store.has_reservation(reservation_id)
            }),
            forall|c: GasCoin| final(self).store.has_coin(c) <==> old(self).store.has_coin(c),
            forall|id: ObjectId| final(self).store.has_id(id) <==> old(self).store.has_id(id),
    {
        let ghost oldst = *self;
        let rv = match self.store.take_reservation(reservation_id) {
            Some(rv) => rv,
            None => {
                return Err(GasStationError::ReservationNotFound);
            },
        };
        let ghost mid = *self;
        let ghost idx = oldst.store.rsv_index(reservation_id);
        self.store.init(&rv.coins);
        proof {
            lemma_pool_wf_after_remove(oldst, *self, idx);
            assert(!self.store.has_reservation(reservation_id)) by {
                if self.store.has_reservation(reservation_id) {
                    let i = choose|i: int|
                        0 <= i < self.store.reserved@.len() && (
                        #[trigger] self.store.reserved@[i]).id == reservation_id;
                    if i < idx {
                        assert(oldst.store.reserved@[i].id == reservation_id);
                        assert(oldst.store.reserved@[i].id != oldst.store.reserved@[idx].id);
                    } else {
                        assert(oldst.store.reserved@[i + 1].id == reservation_id);
                        assert(oldst.store.reserved@[i + 1].id != oldst.store.reserved@[idx].id);
                    }
                }
            }
            assert forall|c: GasCoin| self.store.has_coin(c) implies oldst.store.has_coin(c) by {
                if self.store.available@.contains(c) {
                    if mid.store.available@.contains(c) {
                        assert(mid.store.has_coin(c));
                    } else {
                        assert(rv.coins@.contains(c));
                    }
                } else {
                    let j = choose|j: int|
                        0 <= j < self.store.reserved@.len() && (
                        #[trigger] self.store.reserved@[j].coins@).contains(c);
                    assert(mid.store.reserved@[j].coins@.contains(c));
                    assert(mid.store.has_coin(c));
                }
            }
            assert forall|c: GasCoin| oldst.store.has_coin(c) implies self.store.has_coin(c) by {
                if mid.store.has_coin(c) {
                    if mid.store.available@.contains(c) {
                        assert(self.store.available@.contains(c));
                    } else {
                        let j = choose|j: int|
                            0 <= j < mid.store.reserved@.len() && (
                            #[trigger] mid.store.reserved@[j].coins@).contains(c);
                        assert(self.store.reserved@[j].coins@.contains(c));
                        assert(self.store.has_coin(c));
                    }
                } else {
                    assert(rv.coins@.contains(c));
                    let m = choose|m: int| 0 <= m < rv.coins@.len() && rv.coins@[m] == c;
                    assert(seq_has_id(rv.coins@, c.object_id)) by {
                        assert(rv.coins@[m].object_id == c.object_id);
                    }
                    assert(!mid.store.has_id(c.object_id));
                    assert(self.store.available@.contains(c));
                }
            }
            assert forall|id: ObjectId| self.store.has_id(id) implies oldst.store.has_id(id) by {
                if !mid.store.has_id(id) {
                    assert(seq_has_id(rv.coins@, id));
                    assert(oldst.store.rsv_at_has_id(idx, id));
                } else {
                    assert(oldst.store.has_id_except(idx, id));
                    lemma_has_id_except_implies_has_id(oldst.store, idx, id);
                }
            }
            assert forall|id: ObjectId| oldst.store.has_id(id) implies self.store.has_id(id) by {
                if oldst.store.avail_has_id(id) {
                    assert(mid.store.avail_has_id(id));
                    assert(mid.store.has_id(id));
                } else {
                    let j = choose|j: int|
                        0 <= j < oldst.store.reserved@.len() && #[trigger] oldst.store.rsv_at_has_id(
                            j,
                            id,
                        );
                    if j == idx {
                        assert(seq_has_id(rv.coins@, id));
                    } else if j < idx {
                        assert(mid.store.rsv_at_has_id(j, id));
                        assert(mid.store.has_id(id));
                    } else {
                        assert(mid.store.rsv_at_has_id(j - 1, id));
                        assert(mid.store.has_id(id));
                    }
                }
            }
        }
        Ok(())
    }
    /// Serve a reserve-gas request end to end: validate it, reserve
    /// against the store, and shape the RPC response. Exactly one of the
    /// response's `result` and `error` sides is filled; the result side
    /// appears exactly when the request is valid and the pool can cover
    /// it, and then carries the sponsor, the fresh reservation id, and
    /// the references of the selected coins.
    pub fn handle_reserve_request(
        &mut self,
        request: &crate::rpc::rpc_types::ReserveGasRequest,
        now: u64,
    ) -> (r: crate::rpc::rpc_types::ReserveGasResponse)
        requires
            old(self).wf(),
        ensures
            final(self).wf(),
            final(self).sponsor == old(self).sponsor,
            r.is_well_formed(),
            r.result is Some <==> (request.is_valid() && old(self).store.can_reserve(
                request.gas_budget,
                request.reserve_duration_secs,
                now,
            )),
            r.result matches Some(res) ==> ({
                let n = res.gas_coins@.len() as int;
                &&& res.sponsor_address == old(self).sponsor
                &&& res.reservation_id == old(self).store.next_reservation_id
                &&& 1 <= n <= MAX_GAS_COINS_PER_RESERVATION
                &&& sum_balances(old(self).store.available@.take(n)) >= request.gas_budget
                &&& sum_balances(old(self).store.available@.take(n - 1)) < request.gas_budget
                &&& (forall|k: int|
                    0 <= k < n ==> (#[trigger] res.gas_coins@[k]) == old(
                        self,
                    ).store.available@[k].spec_coin_ref())
            }),
            r.result is None ==> *final(self) == *old(self),
    {
        match self.reserve_gas(request.gas_budget, request.reserve_duration_secs, now) {
            Ok(rg) => {
                let refs = crate::rpc::rpc_types::coin_refs_of(&rg.coins);
                proof {
                    let n = refs@.len() as int;
                    assert(rg.coins@ == old(self).store.available@.take(n));
                    assert(n <= old(self).store.available@.len());
                    assert(sum_balances(old(self).store.available@.take(n))
                        >= request.gas_budget);
                    assert(rg.coins@.drop_last() =~= old(self).store.available@.take(n - 1));
                    assert forall|k: int| 0 <= k < n implies (#[trigger] refs@[k]) == old(
                        self,
                    ).store.available@[k].spec_coin_ref() by {
                        assert(refs@[k] == rg.coins@[k].spec_coin_ref());
                        assert(rg.coins@[k] == old(self).store.available@.take(n)[k]);
                    }
                }
                crate::rpc::rpc_types::ReserveGasResponse::new_ok(self.sponsor, rg.id, refs)
            },
            Err(e) => crate::rpc::rpc_types::ReserveGasResponse::new_err(
                e.client_message().to_string(),
            ),
        }
    }

    /// Admit freshly discovered coins into the pool, filtered through the
    /// object-lock auditor: only coins the chain currently reports as
    /// owned by the sponsor enter `available`, at the chain's version and
    /// balance; coins the store already knows are left alone. Returns how
    /// many candidates passed the audit.
    pub fn admit_coins(
        &mut self,
        coins: &Vec<GasCoin>,
        observations: &Vec<crate::types::CoinObservation>,
    ) -> (n_admissible: usize)
        requires
            old(self).wf(),
            coin_ids_unique(coins@),
            crate::object_locks::obs_ids_unique(observations@),
            old(self).store.available@.len() + coins@.len() <= usize::MAX,
        ensures
            n_admissible == crate::object_locks::count_admissible(
                coins@,
                observations@,
                old(self).sponsor,
            ),
            final(self).wf(),
            final(self).sponsor == old(self).sponsor,
            final(self).store.reserved@ == old(self).store.reserved@,
            forall|id: ObjectId|
                #[trigger] final(self).store.has_id(id) <==> (old(self).store.has_id(id) || (
                seq_has_id(coins@, id) && crate::object_locks::observed_admissible(
                    observations@,
                    old(self).sponsor,
                    id,
                ))),
            forall|c: GasCoin|
                #[trigger] final(self).store.available@.contains(c) ==> (old(
                    self,
                ).store.available@.contains(c) || (crate::object_locks::observed_admissible(
                    observations@,
                    old(self).sponsor,
                    c.object_id,
                ) && c == crate::object_locks::refreshed_coin(
                    crate::object_locks::obs_at(observations@, c.object_id),
                ))),
    {
        let (admissible, _rejected) = crate::object_locks::partition_expired_coins(
            coins,
            observations,
            self.sponsor,
        );
        let n = admissible.len();
        self.store.init(&admissible);
        proof {
            assert forall|i: int| 0 <= i < self.store.reserved@.len() implies (
            #[trigger] self.store.reserved@[i]).sponsor == self.sponsor by {
                assert(old(self).store.reserved@[i].sponsor == old(self).sponsor);
            }
            assert forall|id: ObjectId| #[trigger] self.store.has_id(id) implies (old(
                self,
            ).store.has_id(id) || (seq_has_id(coins@, id)
                && crate::object_locks::observed_admissible(
                observations@,
                old(self).sponsor,
                id,
            ))) by {
                if !old(self).store.has_id(id) {
                    assert(seq_has_id(admissible@, id));
                }
            }
            assert forall|id: ObjectId|
                (old(self).store.has_id(id) || (seq_has_id(coins@, id)
                    && crate::object_locks::observed_admissible(
                    observations@,
                    old(self).sponsor,
                    id,
                ))) implies #[trigger] self.store.has_id(id) by {
                if !old(self).store.has_id(id) {
                    assert(seq_has_id(admissible@, id));
                }
            }
            assert forall|c: GasCoin| #[trigger] self.store.available@.contains(c) implies (old(
                self,
            ).store.available@.contains(c) || (crate::object_locks::observed_admissible(
                observations@,
                old(self).sponsor,
                c.object_id,
            ) && c == crate::object_locks::refreshed_coin(
                crate::object_locks::obs_at(observations@, c.object_id),
            ))) by {
                if !old(self).store.available@.contains(c) {
                    assert(admissible@.contains(c));
                    let m = choose|m: int| 0 <= m < admissible@.len() && admissible@[m] == c;
                    assert(admissible@[m] == crate::object_locks::refreshed_coin(
                        crate::object_locks::obs_at(observations@, admissible@[m].object_id),
                    ));
                    assert(seq_has_id(admissible@, c.object_id)) by {
                        assert(admissible@[m].object_id == c.object_id);
                    }
                }
            }
        }
        n
    }

    /// The expiration reaper: repeatedly collect a reservation whose
    /// expiry time has passed, audit its coins against the chain's
    /// ownership report, re-admit the coins still owned by the sponsor at
    /// their chain-current state, and drop the rest. When it returns, no
    /// reservation due at `now` remains; live reservations are untouched.
    /// Returns how many reservations were reaped.
    pub fn process_expired(
        &mut self,
        now: u64,
        observations: &Vec<crate::types::CoinObservation>,
    ) -> (n_expired: usize)
        requires
            old(self).wf(),
            crate::object_locks::obs_ids_unique(observations@),
            old(self).store.available@.len() + MAX_GAS_COINS_PER_RESERVATION * old(
                self,
            ).store.reserved@.len() <= usize::MAX,
        ensures
            final(self).wf(),
            final(self).sponsor == old(self).sponsor,
            forall|i: int|
                0 <= i < final(self).store.reserved@.len() ==> (
                #[trigger] final(self).store.reserved@[i]).expires_at > now,
            forall|i: int|
                0 <= i < final(self).store.reserved@.len() ==> old(self).store.reserved@.contains(
                    #[trigger] final(self).store.reserved@[i],
                ),
            forall|id: ObjectId|
                #[trigger] final(self).store.has_id(id) ==> old(self).store.has_id(id),
            forall|c: GasCoin|
                #[trigger] final(self).store.available@.contains(c) ==> (old(
                    self,
                ).store.available@.contains(c) || (crate::object_locks::observed_admissible(
                    observations@,
                    old(self).sponsor,
                    c.object_id,
                ) && c == crate::object_locks::refreshed_coin(
                    crate::object_locks::obs_at(observations@, c.object_id),
                ))),
            n_expired + final(self).store.reserved@.len() == old(self).store.reserved@.len(),
            forall|c: GasCoin|
                old(self).store.available@.contains(c) ==> final(self).store.available@.contains(
                    c,
                ),
            forall|i: int, k: int|
                #![trigger old(self).store.reserved@[i].coins@[k]]
                0 <= i < old(self).store.reserved@.len() && old(
                    self,
                ).store.reserved@[i].expires_at <= now && 0 <= k < old(
                    self,
                ).store.reserved@[i].coins@.len() && crate::object_locks::observed_admissible(
                    observations@,
                    old(self).sponsor,
                    old(self).store.reserved@[i].coins@[k].object_id,
                ) ==> final(self).store.available@.contains(
                    crate::object_locks::refreshed_coin(
                        crate::object_locks::obs_at(
                            observations@,
                            old(self).store.reserved@[i].coins@[k].object_id,
                        ),
                    ),
                ),
    {
        let ghost oldp = *self;
        let total = self.store.reserved.len();
        let mut n_expired: usize = 0;
        proof {
            assert forall|i: int|
                0 <= i < oldp.store.reserved@.len() implies self.store.reserved@.contains(
                oldp.store.reserved@[i],
            ) by {
                assert(self.store.reserved@[i] == oldp.store.reserved@[i]);
            }
        }
        loop
            invariant
                self.wf(),
                self.sponsor == oldp.sponsor,
                crate::object_locks::obs_ids_unique(observations@),
                total == oldp.store.reserved@.len(),
                n_expired + self.store.reserved@.len() == total,
                self.store.available@.len() + MAX_GAS_COINS_PER_RESERVATION
                    * self.store.reserved@.len() <= usize::MAX,
                forall|i: int|
                    0 <= i < self.store.reserved@.len() ==> oldp.store.reserved@.contains(
                        #[trigger] self.store.reserved@[i],
                    ),
                forall|id: ObjectId|
                    #[trigger] self.store.has_id(id) ==> oldp.store.has_id(id),
                forall|c: GasCoin|
                    oldp.store.available@.contains(c) ==> self.store.available@.contains(c),
                forall|c: GasCoin|
                    #[trigger] self.store.available@.contains(c) ==> (oldp.store.available@.contains(
                        c,
                    ) || (crate::object_locks::observed_admissible(
                        observations@,
                        oldp.sponsor,
                        c.object_id,
                    ) && c == crate::object_locks::refreshed_coin(
                        crate::object_locks::obs_at(observations@, c.object_id),
                    ))),
                forall|i: int, k: int|
                    #![trigger oldp.store.reserved@[i].coins@[k]]
                    0 <= i < oldp.store.reserved@.len() && !self.store.reserved@.contains(
                        oldp.store.reserved@[i],
                    ) && 0 <= k < oldp.store.reserved@[i].coins@.len()
                        && crate::object_locks::observed_admissible(
                        observations@,
                        oldp.sponsor,
                        oldp.store.reserved@[i].coins@[k].object_id,
                    ) ==> self.store.available@.contains(
                        crate::object_locks::refreshed_coin(
                            crate::object_locks::obs_at(
                                observations@,
                                oldp.store.reserved@[i].coins@[k].object_id,
                            ),
                        ),
                    ),
            ensures
                forall|i: int|
                    0 <= i < self.store.reserved@.len() ==> (
                    #[trigger] self.store.reserved@[i]).expires_at > now,
            decreases self.store.reserved@.len(),
        {
            let expired_id = match self.store.find_expired(now) {
                None => {
                    break ;
                },
                Some(id) => id,
            };
            let ghost prep = *self;
            let ghost idx = prep.store.rsv_index(expired_id);
            let rv = match self.store.take_reservation(expired_id) {
                Some(rv) => rv,
                None => {
                    // Unreachable: the id was just found among the rows.
                    break ;
                },
            };
            let ghost midp = *self;
            let (returnable, _lost) = crate::object_locks::partition_expired_coins(
                &rv.coins,
                observations,
                self.sponsor,
            );
            proof {
                assert(returnable@.len() <= rv.coins@.len());
                assert(rv.coins@.len() <= MAX_GAS_COINS_PER_RESERVATION);
            }
            self.store.init(&returnable);
            proof {
                assert(0 <= idx < prep.store.reserved@.len());
                assert(n_expired < oldp.store.reserved@.len());
            }
            n_expired = n_expired + 1;
            proof {
                lemma_pool_wf_after_remove(prep, *self, idx);
                assert forall|c: GasCoin| oldp.store.available@.contains(c) implies
                    self.store.available@.contains(c) by {
                    assert(prep.store.available@.contains(c));
                    assert(midp.store.available@.contains(c));
                }
                assert forall|i: int|
                    0 <= i < self.store.reserved@.len() implies oldp.store.reserved@.contains(
                    #[trigger] self.store.reserved@[i],
                ) by {
                    if i < idx {
                        assert(prep.store.reserved@.contains(prep.store.reserved@[i]));
                    } else {
                        assert(prep.store.reserved@.contains(prep.store.reserved@[i + 1]));
                    }
                }
                assert forall|id: ObjectId| #[trigger] self.store.has_id(id) implies
                    oldp.store.has_id(id) by {
                    if midp.store.has_id(id) {
                        assert(prep.store.has_id_except(idx, id));
                        lemma_has_id_except_implies_has_id(prep.store, idx, id);
                    } else {
                        assert(seq_has_id(returnable@, id));
                        assert(seq_has_id(rv.coins@, id));
                        assert(prep.store.rsv_at_has_id(idx, id));
                        assert(prep.store.has_id(id));
                    }
                }
                assert forall|c: GasCoin| #[trigger] self.store.available@.contains(c) implies (
                oldp.store.available@.contains(c) || (crate::object_locks::observed_admissible(
                    observations@,
                    oldp.sponsor,
                    c.object_id,
                ) && c == crate::object_locks::refreshed_coin(
                    crate::object_locks::obs_at(observations@, c.object_id),
                ))) by {
                    if !midp.store.available@.contains(c) {
                        assert(returnable@.contains(c));
                        let m = choose|m: int|
                            0 <= m < returnable@.len() && returnable@[m] == c;
                        assert(returnable@[m] == crate::object_locks::refreshed_coin(
                            crate::object_locks::obs_at(observations@, returnable@[m].object_id),
                        ));
                        assert(seq_has_id(returnable@, c.object_id)) by {
                            assert(returnable@[m].object_id == c.object_id);
                        }
                    } else {
                        assert(prep.store.available@.contains(c));
                    }
                }
                assert forall|i: int, k: int|
                    #![trigger oldp.store.reserved@[i].coins@[k]]
                    0 <= i < oldp.store.reserved@.len() && !self.store.reserved@.contains(
                        oldp.store.reserved@[i],
                    ) && 0 <= k < oldp.store.reserved@[i].coins@.len()
                        && crate::object_locks::observed_admissible(
                        observations@,
                        oldp.sponsor,
                        oldp.store.reserved@[i].coins@[k].object_id,
                    ) implies self.store.available@.contains(
                    crate::object_locks::refreshed_coin(
                        crate::object_locks::obs_at(
                            observations@,
                            oldp.store.reserved@[i].coins@[k].object_id,
                        ),
                    ),
                ) by {
                    let row = oldp.store.reserved@[i];
                    let fresh = crate::object_locks::refreshed_coin(
                        crate::object_locks::obs_at(observations@, row.coins@[k].object_id),
                    );
                    if prep.store.reserved@.contains(row) {
                        // The row left the store in this very iteration, so
                        // it is the reaped one: its auditor-approved coins
                        // were just re-admitted.
                        let j = choose|j: int|
                            0 <= j < prep.store.reserved@.len() && prep.store.reserved@[j] == row;
                        if j != idx {
                            if j < idx {
                                assert(self.store.reserved@[j] == row);
                            } else {
                                assert(self.store.reserved@[j - 1] == row);
                            }
                            assert(self.store.reserved@.contains(row));
                        }
                        assert(row == rv);
                        let c = rv.coins@[k];
                        assert(seq_has_id(rv.coins@, c.object_id)) by {
                            assert(rv.coins@[k].object_id == c.object_id);
                        }
                        assert(seq_has_id(returnable@, c.object_id));
                        let m = choose|m: int|
                            0 <= m < returnable@.len() && returnable@[m].object_id == c.object_id;
                        assert(returnable@[m] == crate::object_locks::refreshed_coin(
                            crate::object_locks::obs_at(observations@, returnable@[m].object_id),
                        ));
                        assert(returnable@[m] == fresh);
                        assert(!midp.store.has_id(c.object_id));
                        assert(returnable@.contains(returnable@[m]));
                        assert(self.store.available@.contains(fresh));
                    } else {
                        // The row was reaped in an earlier round; its coin
                        // is already available and `available` only grows.
                        assert(prep.store.available@.contains(fresh));
                        assert(midp.store.available@.contains(fresh));
                        assert(self.store.available@.contains(fresh));
                    }
                }
            }
        }
        proof {
            assert forall|i: int, k: int|
                #![trigger oldp.store.reserved@[i].coins@[k]]
                0 <= i < oldp.store.reserved@.len() && oldp.store.reserved@[i].expires_at <= now
                    && 0 <= k < oldp.store.reserved@[i].coins@.len()
                    && crate::object_locks::observed_admissible(
                    observations@,
                    oldp.sponsor,
                    oldp.store.reserved@[i].coins@[k].object_id,
                ) implies self.store.available@.contains(
                crate::object_locks::refreshed_coin(
                    crate::object_locks::obs_at(
                        observations@,
                        oldp.store.reserved@[i].coins@[k].object_id,
                    ),
                ),
            ) by {
                // A row due at `now` cannot still be in the store: every
                // remaining reservation is live. So the reaped-row clause
                // of the loop applies to it.
                if self.store.reserved@.contains(oldp.store.reserved@[i]) {
                    let j = choose|j: int|
                        0 <= j < self.store.reserved@.len() && self.store.reserved@[j]
                            == oldp.store.reserved@[i];
                    assert(self.store.reserved@[j].expires_at > now);
                }
            }
        }
        n_expired
    }
}

/// A coin id known outside one reservation row is known to the store.
proof fn lemma_has_id_except_implies_has_id(s: GasPoolStore, idx: int, id: ObjectId)
    requires
        s.has_id_except(idx, id),
    ensures
        s.has_id(id),
{
    if !s.avail_has_id(id) {
        let j = choose|j: int|
            0 <= j < s.reserved@.len() && j != idx && #[trigger] s.rsv_at_has_id(j, id);
        assert(s.rsv_at_has_id(j, id));
    }
}

/// Dropping one reservation row keeps the pool's sponsor invariant: the
/// remaining rows were all there before.
proof fn lemma_pool_wf_after_remove(oldp: GasPool, newp: GasPool, idx: int)
    requires
        oldp.wf(),
        newp.sponsor == oldp.sponsor,
        newp.store.wf(),
        0 <= idx < oldp.store.reserved@.len(),
        newp.store.reserved@ == oldp.store.reserved@.remove(idx),
    ensures
        newp.wf(),
{
    assert forall|i: int| 0 <= i < newp.store.reserved@.len() implies (
    #[trigger] newp.store.reserved@[i]).sponsor == newp.sponsor by {
        if i < idx {
            assert(newp.store.reserved@[i] == oldp.store.reserved@[i]);
            assert(oldp.store.reserved@[i].sponsor == oldp.sponsor);
        } else {
            assert(newp.store.reserved@[i] == oldp.store.reserved@[i + 1]);
            assert(oldp.store.reserved@[i + 1].sponsor == oldp.sponsor);
        }
    }
}

} // verus!
