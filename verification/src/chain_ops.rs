//! Pure computations behind the chain client: the balance-threshold
//! filter applied to enumerated coins, the chunking of batched object
//! queries, and the decoding of a gas-coin object's serialized bytes.
use vstd::prelude::*;

use crate::types::{GasCoin, ObjectId};

verus! {

/// Batched object queries go out in chunks of this many ids, for
/// request-size control.
pub const MULTI_GET_CHUNK_SIZE: usize = 50;

/// The coins whose balance reaches the threshold, in their original
/// order.
pub fn filter_coins_above_threshold(coins: &Vec<GasCoin>, balance_threshold: u64) -> (r: Vec<
    GasCoin,
>)
    ensures
        r@.len() <= coins@.len(),
        forall|k: int|
            0 <= k < r@.len() ==> coins@.contains(#[trigger] r@[k]) && r@[k].balance
                >= balance_threshold,
        forall|k: int|
            0 <= k < coins@.len() ==> ((#[trigger] coins@[k]).balance >= balance_threshold
                ==> r@.contains(coins@[k])),
{
    let mut r: Vec<GasCoin> = Vec::new();
    let mut i: usize = 0;
    while i < coins.len()
        invariant
            i <= coins@.len(),
            r@.len() <= i,
            forall|k: int|
                0 <= k < r@.len() ==> coins@.contains(#[trigger] r@[k]) && r@[k].balance
                    >= balance_threshold,
            forall|k: int|
                0 <= k < i ==> ((#[trigger] coins@[k]).balance >= balance_threshold
                    ==> r@.contains(coins@[k])),
        decreases coins@.len() - i,
    {
        let c = coins[i];
        let ghost pre = r@;
        if c.balance >= balance_threshold {
            r.push(c);
            proof {
                assert(coins@.contains(c)) by {
                    assert(coins@[i as int] == c);
                }
                assert(r@[pre.len() as int] == c);
                assert forall|k: int|
                    0 <= k < i + 1 implies ((#[trigger] coins@[k]).balance >= balance_threshold
                    ==> r@.contains(coins@[k])) by {
                    if k < i as int && coins@[k].balance >= balance_threshold {
                        let m = choose|m: int| 0 <= m < pre.len() && pre[m] == coins@[k];
                        assert(r@[m] == coins@[k]);
                    }
                }
            }
        }
        i += 1;
    }
    r
}

/// Split a list of object ids into query chunks: every chunk holds
/// `MULTI_GET_CHUNK_SIZE` ids except possibly the last, order is kept,
/// and nothing is lost or invented.
pub fn chunk_object_ids(ids: &Vec<ObjectId>) -> (r: Vec<Vec<ObjectId>>)
    ensures
        ids@.len() == 0 ==> r@.len() == 0,
        ids@.len() > 0 ==> ({
            &&& r@.len() >= 1
            &&& ids@.len() == (r@.len() - 1) * (MULTI_GET_CHUNK_SIZE as int) + r@.last()@.len()
            &&& 1 <= r@.last()@.len() <= MULTI_GET_CHUNK_SIZE
        }),
        forall|k: int|
            0 <= k < r@.len() - 1 ==> (#[trigger] r@[k])@.len() == MULTI_GET_CHUNK_SIZE,
        forall|k: int, j: int|
            0 <= k < r@.len() && 0 <= j < r@[k]@.len() ==> (#[trigger] r@[k]@[j]) == ids@[k * (
            MULTI_GET_CHUNK_SIZE as int) + j],
{
    let mut r: Vec<Vec<ObjectId>> = Vec::new();
    let mut i: usize = 0;
    while i < ids.len()
        invariant
            i <= ids@.len(),
            i == r@.len() * (MULTI_GET_CHUNK_SIZE as int) || (i == ids@.len() && r@.len() >= 1
                && i > (r@.len() - 1) * (MULTI_GET_CHUNK_SIZE as int)),
            ids@.len() > 0 && i == ids@.len() && r@.len() >= 1 ==> ids@.len() == (r@.len() - 1) * (
            MULTI_GET_CHUNK_SIZE as int) + r@.last()@.len(),
            forall|k: int|
                0 <= k < r@.len() - 1 ==> (#[trigger] r@[k])@.len() == MULTI_GET_CHUNK_SIZE,
            r@.len() >= 1 ==> 1 <= r@.last()@.len() <= MULTI_GET_CHUNK_SIZE,
            r@.len() >= 1 ==> i == (r@.len() - 1) * (MULTI_GET_CHUNK_SIZE as int)
                + r@.last()@.len(),
            i == 0 ==> r@.len() == 0,
            forall|k: int, j: int|
                0 <= k < r@.len() && 0 <= j < r@[k]@.len() ==> (#[trigger] r@[k]@[j]) == ids@[k * (
                MULTI_GET_CHUNK_SIZE as int) + j],
        decreases ids@.len() - i,
    {
        let mut chunk: Vec<ObjectId> = Vec::new();
        let ghost start = i as int;
        let ghost pre = r@;
        while i < ids.len() && chunk.len() < MULTI_GET_CHUNK_SIZE
            invariant
                start <= i as int <= ids@.len(),
                chunk@.len() == i as int - start,
                chunk@.len() <= MULTI_GET_CHUNK_SIZE,
                forall|j: int| 0 <= j < chunk@.len() ==> chunk@[j] == ids@[start + j],
            decreases ids@.len() - i,
        {
            chunk.push(ids[i]);
            i += 1;
        }
        let ghost chunkv = chunk@;
        r.push(chunk);
        proof {
            assert(r@.last()@ == chunkv);
            assert(r@.len() == pre.len() + 1);
            assert forall|k: int, j: int|
                0 <= k < r@.len() && 0 <= j < r@[k]@.len() implies (#[trigger] r@[k]@[j]) == ids@[k
                * (MULTI_GET_CHUNK_SIZE as int) + j] by {
                if k < pre.len() {
                    assert(r@[k] == pre[k]);
                } else {
                    assert(r@[k]@ == chunkv);
                    assert(start == pre.len() * (MULTI_GET_CHUNK_SIZE as int));
                }
            }
        }
    }
    proof {
        if ids@.len() > 0 {
            assert(r@.len() >= 1);
        }
    }
    r
}

/// Whether a reported object version satisfies a wait for `wanted`: the
/// fullnode has caught up once it reports that version or any later one.
pub fn version_reached(reported: u64, wanted: u64) -> (r: bool)
    ensures
        r == (reported >= wanted),
{
    reported >= wanted
}

/// The little-endian integer value of a byte sequence.
pub open spec fn le_bytes_val(s: Seq<u8>) -> int
    decreases s.len(),
{
    if s.len() == 0 {
        0
    } else {
        s[0] + 256 * le_bytes_val(s.drop_first())
    }
}

/// The big-endian integer value of a byte sequence.
pub open spec fn be_bytes_val(s: Seq<u8>) -> int
    decreases s.len(),
{
    if s.len() == 0 {
        0
    } else {
        be_bytes_val(s.drop_last()) * 256 + s.last()
    }
}

/// 256 to the given power.
pub open spec fn pow256(n: nat) -> int
    decreases n,
{
    if n == 0 {
        1
    } else {
        256 * pow256((n - 1) as nat)
    }
}

/// Read a 16-byte big-endian value out of a byte vector.
fn be_u128_at(bytes: &Vec<u8>, start: usize) -> (r: u128)
    requires
        start + 16 <= bytes@.len(),
    ensures
        r == be_bytes_val(bytes@.subrange(start as int, start as int + 16)),
{
    let blen = bytes.len();
    let mut acc: u128 = 0;
    let mut j: usize = 0;
    proof {
        assert(bytes@.subrange(start as int, start as int) =~= Seq::<u8>::empty());
        lemma_pow256_16();
    }
    while j < 16
        invariant
            j <= 16,
            blen == bytes@.len(),
            start + 16 <= bytes@.len(),
            acc == be_bytes_val(bytes@.subrange(start as int, start as int + j as int)),
            acc < pow256(j as nat),
        decreases 16 - j,
    {
        proof {
            let s0 = bytes@.subrange(start as int, start as int + j as int);
            let s1 = bytes@.subrange(start as int, start as int + j as int + 1);
            assert(s1.drop_last() =~= s0);
            assert(s1.last() == bytes@[start as int + j as int]);
            lemma_pow256_16();
            assert(acc * 256 + 255 < pow256((j + 1) as nat)) by (nonlinear_arith)
                requires
                    acc <= pow256(j as nat) - 1,
                    pow256((j + 1) as nat) == 256 * pow256(j as nat),
            ;
            lemma_pow256_le_16((j + 1) as nat);
        }
        acc = acc * 256 + (bytes[start + j] as u128);
        j += 1;
    }
    acc
}

/// Read an 8-byte little-endian value out of a byte vector.
fn le_u64_at(bytes: &Vec<u8>, start: usize) -> (r: u64)
    requires
        start + 8 <= bytes@.len(),
    ensures
        r == le_bytes_val(bytes@.subrange(start as int, start as int + 8)),
{
    let blen = bytes.len();
    let mut acc: u64 = 0;
    let mut j: usize = 8;
    proof {
        let s = bytes@.subrange(start as int, start as int + 8);
        assert(s.skip(8) =~= Seq::<u8>::empty());
        lemma_pow256_16();
    }
    while j > 0
        invariant
            j <= 8,
            blen == bytes@.len(),
            start + 8 <= bytes@.len(),
            acc == le_bytes_val(
                bytes@.subrange(start as int, start as int + 8).skip(j as int),
            ),
            acc < pow256((8 - j) as nat),
        decreases j,
    {
        proof {
            let s = bytes@.subrange(start as int, start as int + 8);
            let t0 = s.skip(j as int);
            let t1 = s.skip(j as int - 1);
            assert(t1.drop_first() =~= t0);
            assert(t1[0] == s[j as int - 1]);
            assert(s[j as int - 1] == bytes@[start as int + j as int - 1]);
            lemma_pow256_16();
            assert(acc * 256 + 255 < pow256((8 - j + 1) as nat)) by (nonlinear_arith)
                requires
                    acc <= pow256((8 - j) as nat) - 1,
                    pow256((8 - j + 1) as nat) == 256 * pow256((8 - j) as nat),
            ;
            lemma_pow256_le_16((8 - j + 1) as nat);
        }
        acc = acc * 256 + (bytes[start + j - 1] as u64);
        j -= 1;
    }
    proof {
        let s = bytes@.subrange(start as int, start as int + 8);
        assert(s.skip(0) =~= s);
    }
    acc
}

/// The concrete values of the small powers of 256 the decoders need.
proof fn lemma_pow256_16()
    ensures
        pow256(0nat) == 1,
        pow256(1nat) == 0x100,
        pow256(2nat) == 0x1_0000,
        pow256(3nat) == 0x100_0000,
        pow256(4nat) == 0x1_0000_0000,
        pow256(5nat) == 0x100_0000_0000,
        pow256(6nat) == 0x1_0000_0000_0000,
        pow256(7nat) == 0x100_0000_0000_0000,
        pow256(8nat) == 0x1_0000_0000_0000_0000,
        pow256(9nat) == 0x100_0000_0000_0000_0000,
        pow256(10nat) == 0x1_0000_0000_0000_0000_0000,
        pow256(11nat) == 0x100_0000_0000_0000_0000_0000,
        pow256(12nat) == 0x1_0000_0000_0000_0000_0000_0000,
        pow256(13nat) == 0x100_0000_0000_0000_0000_0000_0000,
        pow256(14nat) == 0x1_0000_0000_0000_0000_0000_0000_0000,
        pow256(15nat) == 0x100_0000_0000_0000_0000_0000_0000_0000,
        pow256(16nat) == 0x1_0000_0000_0000_0000_0000_0000_0000_0000int,
{
    assert(pow256(0nat) == 1);
    assert(pow256(1nat) == 256 * pow256(0nat));
    assert(pow256(2nat) == 256 * pow256(1nat));
    assert(pow256(3nat) == 256 * pow256(2nat));
    assert(pow256(4nat) == 256 * pow256(3nat));
    assert(pow256(5nat) == 256 * pow256(4nat));
    assert(pow256(6nat) == 256 * pow256(5nat));
    assert(pow256(7nat) == 256 * pow256(6nat));
    assert(pow256(8nat) == 256 * pow256(7nat));
    assert(pow256(9nat) == 256 * pow256(8nat));
    assert(pow256(10nat) == 256 * pow256(9nat));
    assert(pow256(11nat) == 256 * pow256(10nat));
    assert(pow256(12nat) == 256 * pow256(11nat));
    assert(pow256(13nat) == 256 * pow256(12nat));
    assert(pow256(14nat) == 256 * pow256(13nat));
    assert(pow256(15nat) == 256 * pow256(14nat));
    assert(pow256(16nat) == 256 * pow256(15nat));
}

/// The powers of 256 up to the sixteenth stay within the range the
/// decoders accumulate in.
proof fn lemma_pow256_le_16(n: nat)
    requires
        n <= 16,
    ensures
        pow256(n) <= pow256(16nat),
    decreases 16nat - n,
{
    if n < 16 {
        lemma_pow256_le_16(n + 1);
        assert(pow256(n + 1) == 256 * pow256(n));
        assert(pow256(n) >= 0) by {
            lemma_pow256_pos(n);
        }
    }
}

/// Powers of 256 are positive.
proof fn lemma_pow256_pos(n: nat)
    ensures
        pow256(n) >= 1,
    decreases n,
{
    if n > 0 {
        lemma_pow256_pos((n - 1) as nat);
    }
}

/// How many bytes a serialized gas-coin object holds: a 32-byte object
/// id followed by a little-endian 64-bit balance.
pub const GAS_COIN_BCS_LEN: usize = 40;

/// Decode the serialized form of an on-chain gas-coin object: the first
/// 32 bytes are the coin's object id (two big-endian 128-bit halves),
/// the last 8 its balance in little-endian. Any other length is not a
/// gas coin.
pub fn decode_gas_coin_bcs(bytes: &Vec<u8>) -> (r: Option<(ObjectId, u64)>)
    ensures
        r is Some <==> bytes@.len() == GAS_COIN_BCS_LEN,
        r matches Some(p) ==> ({
            &&& p.0.hi == be_bytes_val(bytes@.subrange(0, 16))
            &&& p.0.lo == be_bytes_val(bytes@.subrange(16, 32))
            &&& p.1 == le_bytes_val(bytes@.subrange(32, 40))
        }),
{
    if bytes.len() != GAS_COIN_BCS_LEN {
        return None;
    }
    let hi = be_u128_at(bytes, 0);
    let lo = be_u128_at(bytes, 16);
    let balance = le_u64_at(bytes, 32);
    Some((ObjectId { hi, lo }, balance))
}

} // verus!
