use gas_station::chain_ops::{
    chunk_object_ids, decode_gas_coin_bcs, filter_coins_above_threshold,
};
use gas_station::errors::GasStationError;
use gas_station::gas_pool_initializer::{
    calibrate_cost_per_object, check_min_pool_count, plan_splits, split_count_for,
};
use gas_station::types::{Digest, GasCoin, ObjectId};

fn oid(n: u128) -> ObjectId {
    ObjectId { hi: 0, lo: n }
}

fn coin(id: u128, balance: u64) -> GasCoin {
    GasCoin { object_id: oid(id), version: 1, digest: Digest { hi: 0, lo: id }, balance }
}

#[test]
fn test_calibrate_cost_per_object_formula() {
    // 2 * gas_used / 500: the safety doubling comes before the division.
    assert_eq!(calibrate_cost_per_object(1000), 4);
    assert_eq!(calibrate_cost_per_object(750), 3);
    assert_eq!(calibrate_cost_per_object(500), 2);
    assert_eq!(calibrate_cost_per_object(499), 1);
    assert_eq!(calibrate_cost_per_object(249), 0);
    assert_eq!(calibrate_cost_per_object(1_000_000), 4000);
}

#[test]
fn test_split_count_capped() {
    assert_eq!(split_count_for(1000, 300), 3);
    assert_eq!(split_count_for(299, 300), 0);
    assert_eq!(split_count_for(1_000_000, 1), 500);
}

#[test]
fn test_plan_splits_filters_and_counts() {
    let coins = vec![coin(1, 1000), coin(2, 50), coin(3, 400)];
    // target balance 300, split threshold 400: only coins 1 and 3 qualify,
    // and coin 3 yields a single output so it is not split.
    let plan = plan_splits(&coins, 300, 400);
    assert_eq!(plan.len(), 1);
    assert_eq!(plan[0].0.object_id, oid(1));
    assert_eq!(plan[0].1, 3);
}

#[test]
fn test_check_min_pool_count() {
    assert!(check_min_pool_count(10, 10).is_ok());
    assert!(matches!(
        check_min_pool_count(9, 10),
        Err(GasStationError::InsufficientPool)
    ));
}

#[test]
fn test_filter_coins_above_threshold() {
    let coins = vec![coin(1, 10), coin(2, 20), coin(3, 30)];
    let kept = filter_coins_above_threshold(&coins, 20);
    assert_eq!(kept.len(), 2);
    assert!(kept.iter().all(|c| c.balance >= 20));
}

#[test]
fn test_chunk_object_ids_sizes() {
    let ids: Vec<ObjectId> = (0..120).map(|n| oid(n as u128)).collect();
    let chunks = chunk_object_ids(&ids);
    assert_eq!(chunks.len(), 3);
    assert_eq!(chunks[0].len(), 50);
    assert_eq!(chunks[1].len(), 50);
    assert_eq!(chunks[2].len(), 20);
    assert_eq!(chunks[0][0], oid(0));
    assert_eq!(chunks[1][0], oid(50));
    assert_eq!(chunks[2][19], oid(119));
}

#[test]
fn test_chunk_object_ids_empty_and_exact() {
    let none: Vec<ObjectId> = Vec::new();
    assert_eq!(chunk_object_ids(&none).len(), 0);
    let ids: Vec<ObjectId> = (0..50).map(|n| oid(n as u128)).collect();
    let chunks = chunk_object_ids(&ids);
    assert_eq!(chunks.len(), 1);
    assert_eq!(chunks[0].len(), 50);
}

#[test]
fn test_decode_gas_coin_bcs_exact() {
    // 32 bytes of object id, then the balance 2000 in little-endian.
    let mut bytes = vec![0u8; 40];
    bytes[15] = 0x2A; // id.hi = 42
    bytes[31] = 0x07; // id.lo = 7
    bytes[32] = 0xD0;
    bytes[33] = 0x07; // balance = 0x07D0 = 2000
    let (id, balance) = decode_gas_coin_bcs(&bytes).unwrap();
    assert_eq!(id.hi, 42);
    assert_eq!(id.lo, 7);
    assert_eq!(balance, 2000);
}

#[test]
fn test_decode_gas_coin_bcs_rejects_wrong_length() {
    assert!(decode_gas_coin_bcs(&vec![0u8; 39]).is_none());
    assert!(decode_gas_coin_bcs(&vec![0u8; 41]).is_none());
    assert!(decode_gas_coin_bcs(&Vec::new()).is_none());
}

#[test]
fn test_decode_gas_coin_bcs_max_balance() {
    let mut bytes = vec![0u8; 40];
    for b in bytes.iter_mut().skip(32) {
        *b = 0xFF;
    }
    let (_, balance) = decode_gas_coin_bcs(&bytes).unwrap();
    assert_eq!(balance, u64::MAX);
}
