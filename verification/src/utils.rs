//! The clock, and the hash of a block.
use crate::key::{sha256, sha256_digest};
use crate::codec::{enc_bytes, enc_u64, write_bytes, write_u64};
use crate::store::{enc_transactions, write_transactions, Transaction};
use std::time::{Duration, SystemTime, UNIX_EPOCH};
use vstd::prelude::*;

verus! {

#[verifier::external_type_specification]
#[verifier::external_body]
pub struct ExSystemTime(SystemTime);

/// `std::time::SystemTime::now`: the current time of the system clock.
#[verifier::external_body]
fn system_time_now() -> SystemTime {
    SystemTime::now()
}

/// `SystemTime::duration_since(UNIX_EPOCH)`: the time elapsed since the Unix
/// epoch, or an error (as text) where the clock reads earlier than the epoch.
#[verifier::external_body]
fn duration_since_unix_epoch(t: &SystemTime) -> Result<Duration, String> {
    t.duration_since(UNIX_EPOCH).map_err(|e| e.to_string())
}

/// `Duration::as_secs`: the whole seconds of a duration.
#[verifier::external_body]
fn duration_as_secs(d: &Duration) -> u64 {
    d.as_secs()
}

/// The current time in whole seconds since the Unix epoch. What it returns
/// depends on the system clock alone.
pub fn get_current_timestamp() -> Result<u64, String> {
    let now = system_time_now();
    match duration_since_unix_epoch(&now) {
        Ok(d) => Ok(duration_as_secs(&d)),
        Err(e) => Err(e),
    }
}

/// The hash of a block: the SHA-256 digest of its index, timestamp,
/// transactions and previous hash, in the byte format of the chain.
pub open spec fn block_hash(
    index: u64,
    timestamp: u64,
    transactions: Seq<Transaction>,
    previous_hash: Seq<u8>,
) -> Seq<u8> {
    sha256(
        enc_u64(index) + enc_u64(timestamp) + enc_transactions(transactions) + enc_bytes(
            previous_hash,
        ),
    )
}

/// Computes the hash of a block from its parts.
pub fn calculate_block_hash(
    index: u64,
    timestamp: u64,
    operations: &Vec<Transaction>,
    previous_hash: &[u8],
) -> (res: Result<Vec<u8>, String>)
    ensures
        res matches Ok(h) && h@ == block_hash(index, timestamp, operations@, previous_hash@),
{
    let mut data: Vec<u8> = Vec::new();
    write_u64(&mut data, index);
    write_u64(&mut data, timestamp);
    write_transactions(&mut data, operations);
    write_bytes(&mut data, previous_hash);
    assert(data@ =~= enc_u64(index) + enc_u64(timestamp) + enc_transactions(operations@)
        + enc_bytes(previous_hash@));
    Ok(sha256_digest(data.as_slice()))
}

} // verus!
