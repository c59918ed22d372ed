use gas_station::errors::GasStationError;
use gas_station::gas_pool::{check_transaction, updated_coins_from_effects, GasPool};
use gas_station::object_locks::partition_expired_coins;
use gas_station::rpc::rpc_types::{
    ExecuteTxResponse, ReserveGasRequest, ReserveGasResponse, MAX_BUDGET, MAX_DURATION_S,
};
use gas_station::types::{
    Address, CoinObservation, CoinRef, Digest, EffectEntry, GasCoin, Owner, TxDataSummary,
    TxEffects,
};

fn addr(n: u128) -> Address {
    Address { hi: 0, lo: n }
}

fn oid(n: u128) -> gas_station::types::ObjectId {
    gas_station::types::ObjectId { hi: 0, lo: n }
}

fn digest(n: u128) -> Digest {
    Digest { hi: 0, lo: n }
}

fn coin(id: u128, version: u64, balance: u64) -> GasCoin {
    GasCoin { object_id: oid(id), version, digest: digest(id), balance }
}

fn sponsor() -> Address {
    addr(7)
}

fn observation_of(c: &GasCoin, owner: Owner) -> CoinObservation {
    CoinObservation {
        object_id: c.object_id,
        owner,
        version: c.version,
        digest: c.digest,
        balance: c.balance,
    }
}

/// A pool holding the four-coin set with balances 10, 20, 30 and 40.
fn four_coin_pool() -> GasPool {
    let mut pool = GasPool::new(sponsor());
    let coins = vec![coin(1, 1, 10), coin(2, 1, 20), coin(3, 1, 30), coin(4, 1, 40)];
    let observations: Vec<CoinObservation> = coins
        .iter()
        .map(|c| observation_of(c, Owner::AddressOwner(sponsor())))
        .collect();
    let admitted = pool.admit_coins(&coins, &observations);
    assert_eq!(admitted, 4);
    assert_eq!(pool.store.available.len(), 4);
    pool
}

fn available_balances(pool: &GasPool) -> Vec<u64> {
    pool.store.available.iter().map(|c| c.balance).collect()
}

#[test]
fn test_check_validity_accepts_in_bounds() {
    let req = ReserveGasRequest { gas_budget: 1, reserve_duration_secs: 1 };
    assert!(req.check_validity().is_ok());
    let req = ReserveGasRequest { gas_budget: MAX_BUDGET, reserve_duration_secs: MAX_DURATION_S };
    assert!(req.check_validity().is_ok());
}

#[test]
fn test_check_validity_rejects_zero_budget() {
    let req = ReserveGasRequest { gas_budget: 0, reserve_duration_secs: 60 };
    assert!(matches!(req.check_validity(), Err(GasStationError::InvalidRequest)));
}

#[test]
fn test_check_validity_rejects_large_budget() {
    let req = ReserveGasRequest { gas_budget: MAX_BUDGET + 1, reserve_duration_secs: 60 };
    assert!(matches!(req.check_validity(), Err(GasStationError::InvalidRequest)));
}

#[test]
fn test_check_validity_rejects_zero_duration() {
    let req = ReserveGasRequest { gas_budget: 100, reserve_duration_secs: 0 };
    assert!(matches!(req.check_validity(), Err(GasStationError::InvalidRequest)));
}

#[test]
fn test_check_validity_rejects_long_duration() {
    let req = ReserveGasRequest { gas_budget: 100, reserve_duration_secs: 700 };
    assert!(matches!(req.check_validity(), Err(GasStationError::InvalidRequest)));
}

#[test]
fn test_reserve_gas_rejects_invalid_request() {
    // Budget of zero and over-long duration both yield InvalidRequest.
    let mut pool = four_coin_pool();
    let r = pool.reserve_gas(0, 60, 1000);
    assert!(matches!(r, Err(GasStationError::InvalidRequest)));
    let r = pool.reserve_gas(25, 700, 1000);
    assert!(matches!(r, Err(GasStationError::InvalidRequest)));
    assert_eq!(pool.store.available.len(), 4);
}

#[test]
fn test_reserve_takes_largest_coin_first() {
    // Reserve budget=25, duration=60 against {10, 20, 30, 40}: the largest
    // coin alone covers it, and three coins stay available.
    let mut pool = four_coin_pool();
    let rg = pool.reserve_gas(25, 60, 1000).unwrap();
    let total: u64 = rg.coins.iter().map(|c| c.balance).sum();
    assert!(total >= 25);
    assert_eq!(rg.coins.len(), 1);
    assert_eq!(rg.coins[0].balance, 40);
    assert_eq!(rg.expires_at, 1060);
    assert_eq!(pool.store.available.len(), 3);
    assert_eq!(pool.store.reserved.len(), 1);
}

#[test]
fn test_second_reservation_insufficient() {
    // Two reservations of budget=50: the first takes {40, 30}, the second
    // cannot be covered by {20, 10} and fails.
    let mut pool = four_coin_pool();
    let first = pool.reserve_gas(50, 60, 1000);
    assert!(first.is_ok());
    let second = pool.reserve_gas(50, 60, 1000);
    assert!(matches!(second, Err(GasStationError::InsufficientPool)));
    assert_eq!(pool.store.available.len(), 2);
}

#[test]
fn test_reservation_ids_increase() {
    let mut pool = four_coin_pool();
    let a = pool.reserve_gas(10, 60, 1000).unwrap();
    let b = pool.reserve_gas(10, 60, 1000).unwrap();
    assert!(b.id > a.id);
}

#[test]
fn test_expired_coin_returns_to_pool() {
    // Reserve {40} for 60 s; 61 s later the reaper runs and the chain
    // reports the owner and version unchanged: the coin is available again.
    let mut pool = four_coin_pool();
    let rg = pool.reserve_gas(40, 60, 1000).unwrap();
    assert_eq!(rg.coins[0].balance, 40);
    let observations =
        vec![observation_of(&rg.coins[0], Owner::AddressOwner(sponsor()))];
    let reaped = pool.process_expired(1061, &observations);
    assert_eq!(reaped, 1);
    assert_eq!(pool.store.reserved.len(), 0);
    assert_eq!(pool.store.available.len(), 4);
    assert!(pool.store.available.iter().any(|c| c.balance == 40));
}

#[test]
fn test_reaper_leaves_live_reservations() {
    let mut pool = four_coin_pool();
    let _short = pool.reserve_gas(40, 60, 1000).unwrap();
    let _long = pool.reserve_gas(30, 600, 1000).unwrap();
    let observations: Vec<CoinObservation> = Vec::new();
    let reaped = pool.process_expired(1061, &observations);
    assert_eq!(reaped, 1);
    assert_eq!(pool.store.reserved.len(), 1);
}

#[test]
fn test_reaper_drops_moved_coin() {
    // The chain reports the expired coin owned by someone else: it is lost
    // to the pool, not re-admitted.
    let mut pool = four_coin_pool();
    let rg = pool.reserve_gas(40, 60, 1000).unwrap();
    let observations =
        vec![observation_of(&rg.coins[0], Owner::AddressOwner(addr(9)))];
    let reaped = pool.process_expired(1061, &observations);
    assert_eq!(reaped, 1);
    assert_eq!(pool.store.available.len(), 3);
    assert!(!pool.store.available.iter().any(|c| c.object_id == rg.coins[0].object_id));
}

#[test]
fn test_execute_mutated_coin_updated() {
    // Execute consumes 5 units of gas: the effects report the coin at
    // balance 35 with an incremented version, and `available` holds that
    // fresh state afterwards.
    let mut pool = four_coin_pool();
    let rg = pool.reserve_gas(40, 60, 1000).unwrap();
    let reserved = rg.coins[0];
    let effects = TxEffects {
        mutated: vec![EffectEntry {
            object_id: reserved.object_id,
            version: reserved.version + 1,
            digest: digest(99),
            owner: Owner::AddressOwner(sponsor()),
            balance: 35,
        }],
        created: vec![],
        deleted: vec![],
        gas_used: 5,
    };
    pool.complete_execution(rg.id, &effects).unwrap();
    assert_eq!(pool.store.reserved.len(), 0);
    let updated = pool
        .store
        .available
        .iter()
        .find(|c| c.object_id == reserved.object_id)
        .expect("the mutated coin should be back in the pool");
    assert_eq!(updated.balance, 35);
    assert_eq!(updated.version, reserved.version + 1);
    assert_eq!(pool.store.available.len(), 4);
}

#[test]
fn test_execute_deleted_coin_dropped() {
    // Execute deletes the gas coin (merged into another): its object id is
    // gone from the pool afterwards.
    let mut pool = four_coin_pool();
    let rg = pool.reserve_gas(40, 60, 1000).unwrap();
    let reserved = rg.coins[0];
    let effects = TxEffects {
        mutated: vec![],
        created: vec![],
        deleted: vec![reserved.object_id],
        gas_used: 5,
    };
    pool.complete_execution(rg.id, &effects).unwrap();
    assert_eq!(pool.store.reserved.len(), 0);
    assert!(!pool.store.available.iter().any(|c| c.object_id == reserved.object_id));
    assert_eq!(pool.store.available.len(), 3);
}

#[test]
fn test_execute_created_coin_admitted() {
    let mut pool = four_coin_pool();
    let rg = pool.reserve_gas(40, 60, 1000).unwrap();
    let reserved = rg.coins[0];
    let effects = TxEffects {
        mutated: vec![],
        created: vec![EffectEntry {
            object_id: oid(55),
            version: 1,
            digest: digest(55),
            owner: Owner::AddressOwner(sponsor()),
            balance: 11,
        }],
        deleted: vec![reserved.object_id],
        gas_used: 5,
    };
    pool.complete_execution(rg.id, &effects).unwrap();
    assert!(pool.store.available.iter().any(|c| c.object_id == oid(55) && c.balance == 11));
}

#[test]
fn test_complete_execution_unknown_reservation() {
    let mut pool = four_coin_pool();
    let effects = TxEffects { mutated: vec![], created: vec![], deleted: vec![], gas_used: 0 };
    let r = pool.complete_execution(424242, &effects);
    assert!(matches!(r, Err(GasStationError::ReservationNotFound)));
}

#[test]
fn test_fail_execution_restores_pool() {
    // A reserve/release pair with chain execution bypassed conserves the
    // coin set exactly.
    let mut pool = four_coin_pool();
    let before: Vec<GasCoin> = pool.store.available.clone();
    let rg = pool.reserve_gas(50, 60, 1000).unwrap();
    pool.fail_execution(rg.id).unwrap();
    assert_eq!(pool.store.reserved.len(), 0);
    let mut after = available_balances(&pool);
    let mut expected: Vec<u64> = before.iter().map(|c| c.balance).collect();
    after.sort();
    expected.sort();
    assert_eq!(after, expected);
}

#[test]
fn test_validate_execution_paths() {
    let mut pool = four_coin_pool();
    let rg = pool.reserve_gas(25, 60, 1000).unwrap();
    let payment: Vec<CoinRef> = rg.coins.iter().map(|c| c.coin_ref()).collect();
    let tx = TxDataSummary {
        gas_owner: sponsor(),
        gas_payment: payment.clone(),
        gas_budget: 25,
        gas_price: 1000,
    };
    assert!(pool.validate_execution(rg.id, &tx, 1000, 1030).is_ok());
    // Unknown reservation id.
    let r = pool.validate_execution(rg.id + 1, &tx, 1000, 1030);
    assert!(matches!(r, Err(GasStationError::ReservationNotFound)));
    // Expired reservation.
    let r = pool.validate_execution(rg.id, &tx, 1000, 1061);
    assert!(matches!(r, Err(GasStationError::ReservationNotFound)));
    // Wrong gas owner.
    let bad = TxDataSummary { gas_owner: addr(9), ..tx.clone() };
    assert!(matches!(
        pool.validate_execution(rg.id, &bad, 1000, 1030),
        Err(GasStationError::InvalidTransaction)
    ));
    // Budget above the reserved one.
    let bad = TxDataSummary { gas_budget: 26, ..tx.clone() };
    assert!(matches!(
        pool.validate_execution(rg.id, &bad, 1000, 1030),
        Err(GasStationError::InvalidTransaction)
    ));
    // Gas price below the reference price.
    let bad = TxDataSummary { gas_price: 999, ..tx.clone() };
    assert!(matches!(
        pool.validate_execution(rg.id, &bad, 1000, 1030),
        Err(GasStationError::InvalidTransaction)
    ));
    // Payment not matching the reserved coins.
    let bad = TxDataSummary { gas_payment: vec![coin(1, 1, 10).coin_ref()], ..tx.clone() };
    assert!(matches!(
        pool.validate_execution(rg.id, &bad, 1000, 1030),
        Err(GasStationError::InvalidTransaction)
    ));
}

#[test]
fn test_check_transaction_requires_exact_payment() {
    let rsv = gas_station::types::Reservation {
        id: 1,
        sponsor: sponsor(),
        coins: vec![coin(1, 1, 10), coin(2, 1, 20)],
        budget: 25,
        expires_at: 1060,
    };
    // Same references in a different order still match.
    let tx = TxDataSummary {
        gas_owner: sponsor(),
        gas_payment: vec![coin(2, 1, 20).coin_ref(), coin(1, 1, 10).coin_ref()],
        gas_budget: 25,
        gas_price: 1,
    };
    assert!(check_transaction(&tx, &rsv, sponsor(), 1).is_ok());
    // A repeated reference cannot stand in for a missing coin.
    let tx = TxDataSummary {
        gas_owner: sponsor(),
        gas_payment: vec![coin(2, 1, 20).coin_ref(), coin(2, 1, 20).coin_ref()],
        gas_budget: 25,
        gas_price: 1,
    };
    assert!(check_transaction(&tx, &rsv, sponsor(), 1).is_err());
    // A stale version does not match.
    let tx = TxDataSummary {
        gas_owner: sponsor(),
        gas_payment: vec![coin(2, 2, 20).coin_ref(), coin(1, 1, 10).coin_ref()],
        gas_budget: 25,
        gas_price: 1,
    };
    assert!(check_transaction(&tx, &rsv, sponsor(), 1).is_err());
}

#[test]
fn test_admit_coins_rejects_foreign_and_shared() {
    // Only coins the chain reports as address-owned by the sponsor enter
    // the pool.
    let mut pool = GasPool::new(sponsor());
    let mine = coin(1, 1, 100);
    let foreign = coin(2, 1, 100);
    let shared = coin(3, 1, 100);
    let unobserved = coin(4, 1, 100);
    let coins = vec![mine, foreign, shared, unobserved];
    let observations = vec![
        observation_of(&mine, Owner::AddressOwner(sponsor())),
        observation_of(&foreign, Owner::AddressOwner(addr(9))),
        observation_of(&shared, Owner::Shared),
    ];
    let admitted = pool.admit_coins(&coins, &observations);
    assert_eq!(admitted, 1);
    assert_eq!(pool.store.available.len(), 1);
    assert_eq!(pool.store.available[0].object_id, oid(1));
}

#[test]
fn test_admit_coins_idempotent() {
    let mut pool = four_coin_pool();
    let coins = vec![coin(1, 1, 10)];
    let observations = vec![observation_of(&coins[0], Owner::AddressOwner(sponsor()))];
    pool.admit_coins(&coins, &observations);
    assert_eq!(pool.store.available.len(), 4);
}

#[test]
fn test_partition_expired_coins_cases() {
    let kept = coin(1, 3, 40);
    let moved = coin(2, 3, 50);
    let unknown = coin(3, 3, 60);
    let coins = vec![kept, moved, unknown];
    let observations = vec![
        CoinObservation {
            object_id: kept.object_id,
            owner: Owner::AddressOwner(sponsor()),
            version: 4,
            digest: digest(77),
            balance: 38,
        },
        observation_of(&moved, Owner::AddressOwner(addr(9))),
    ];
    let (returnable, lost) = partition_expired_coins(&coins, &observations, sponsor());
    assert_eq!(returnable.len(), 1);
    // The surviving coin is refreshed to the chain-current state.
    assert_eq!(returnable[0].object_id, kept.object_id);
    assert_eq!(returnable[0].version, 4);
    assert_eq!(returnable[0].balance, 38);
    assert_eq!(lost.len(), 2);
}

#[test]
fn test_updated_coins_from_effects_rules() {
    let untouched = coin(1, 1, 10);
    let mutated = coin(2, 1, 20);
    let deleted = coin(3, 1, 30);
    let taken = coin(4, 1, 40);
    let coins = vec![untouched, mutated, deleted, taken];
    let effects = TxEffects {
        mutated: vec![
            EffectEntry {
                object_id: mutated.object_id,
                version: 2,
                digest: digest(90),
                owner: Owner::AddressOwner(sponsor()),
                balance: 15,
            },
            // This one left the sponsor: it is dropped.
            EffectEntry {
                object_id: taken.object_id,
                version: 2,
                digest: digest(91),
                owner: Owner::AddressOwner(addr(9)),
                balance: 40,
            },
        ],
        created: vec![EffectEntry {
            object_id: oid(5),
            version: 2,
            digest: digest(92),
            owner: Owner::AddressOwner(sponsor()),
            balance: 7,
        }],
        deleted: vec![deleted.object_id],
        gas_used: 5,
    };
    let updated = updated_coins_from_effects(&coins, &effects, sponsor());
    let ids: Vec<_> = updated.iter().map(|c| c.object_id).collect();
    assert!(ids.contains(&untouched.object_id));
    assert!(ids.contains(&mutated.object_id));
    assert!(!ids.contains(&deleted.object_id));
    assert!(!ids.contains(&taken.object_id));
    assert!(ids.contains(&oid(5)));
    assert_eq!(updated.len(), 3);
    let m = updated.iter().find(|c| c.object_id == mutated.object_id).unwrap();
    assert_eq!(m.balance, 15);
    assert_eq!(m.version, 2);
    let u = updated.iter().find(|c| c.object_id == untouched.object_id).unwrap();
    assert_eq!(u.balance, 10);
    assert_eq!(u.version, 1);
}

#[test]
fn test_responses_have_exactly_one_side() {
    let ok = ReserveGasResponse::new_ok(sponsor(), 3, vec![coin(1, 1, 10).coin_ref()]);
    assert!(ok.result.is_some());
    assert!(ok.error.is_none());
    let res = ok.result.unwrap();
    assert_eq!(res.reservation_id, 3);
    assert_eq!(res.sponsor_address, sponsor());
    assert_eq!(res.gas_coins.len(), 1);
    let err = ReserveGasResponse::new_err(String::from("insufficient gas pool"));
    assert!(err.result.is_none());
    assert_eq!(err.error.as_deref(), Some("insufficient gas pool"));
    let effects = TxEffects { mutated: vec![], created: vec![], deleted: vec![], gas_used: 1 };
    let ok = ExecuteTxResponse::new_ok(effects);
    assert!(ok.effects.is_some() && ok.error.is_none());
    let err = ExecuteTxResponse::new_err(String::from("boom"));
    assert!(err.effects.is_none() && err.error.as_deref() == Some("boom"));
}

#[test]
fn test_handle_reserve_request_shapes() {
    let mut pool = four_coin_pool();
    let ok = pool.handle_reserve_request(
        &ReserveGasRequest { gas_budget: 25, reserve_duration_secs: 60 },
        1000,
    );
    assert!(ok.result.is_some() && ok.error.is_none());
    let res = ok.result.unwrap();
    assert_eq!(res.sponsor_address, sponsor());
    assert_eq!(res.gas_coins.len(), 1);
    // Invalid request: error side only, pool untouched.
    let err = pool.handle_reserve_request(
        &ReserveGasRequest { gas_budget: 0, reserve_duration_secs: 60 },
        1000,
    );
    assert!(err.result.is_none() && err.error.is_some());
    // A budget the remaining coins cannot cover: insufficient pool.
    let err = pool.handle_reserve_request(
        &ReserveGasRequest { gas_budget: 100, reserve_duration_secs: 60 },
        1000,
    );
    assert!(err.result.is_none() && err.error.is_some());
    assert_eq!(pool.store.available.len(), 3);
}

#[test]
fn test_client_message_carries_reason_verbatim() {
    let e = GasStationError::ExecutionRejected(String::from("InsufficientGas at command 0"));
    assert_eq!(e.client_message(), "InsufficientGas at command 0");
    let e = GasStationError::SignerError(String::from("sidecar timed out"));
    assert_eq!(e.client_message(), "sidecar timed out");
    let e = GasStationError::InsufficientPool;
    assert_eq!(e.client_message(), e.message());
}

#[test]
fn test_execute_response_carries_effects() {
    let effects = TxEffects {
        mutated: vec![],
        created: vec![],
        deleted: vec![oid(3)],
        gas_used: 42,
    };
    let r = ExecuteTxResponse::new_ok(effects);
    assert!(r.error.is_none());
    let e = r.effects.unwrap();
    assert_eq!(e.gas_used, 42);
    assert_eq!(e.deleted, vec![oid(3)]);
    assert!(e.mutated.is_empty() && e.created.is_empty());
}

#[test]
fn test_error_messages_distinct() {
    let kinds = [
        GasStationError::InvalidRequest,
        GasStationError::InsufficientPool,
        GasStationError::ReservationNotFound,
        GasStationError::InvalidTransaction,
        GasStationError::ChainUnavailable,
    ];
    for (i, a) in kinds.iter().enumerate() {
        assert!(!a.message().is_empty());
        for b in kinds.iter().skip(i + 1) {
            assert_ne!(a.message(), b.message());
        }
    }
}
