use vstd::prelude::*;

verus! {

/// Identifier of the designated test network, where submissions cost less.
pub const TEST_NETWORK_ID: u64 = 1337;

/// Fee for one submission on the test network (0.001 of the native coin, in wei).
pub const REDUCED_FEE: u128 = 1_000_000_000_000_000;

/// Fee for one submission on every other network (0.01 of the native coin, in wei).
pub const STANDARD_FEE: u128 = 10_000_000_000_000_000;

/// The fee schedule: the reduced fee on the test network, the standard fee on
/// every other network. Total over all network identifiers.
pub open spec fn fee_for(network_id: u64) -> u128 {
    if network_id == TEST_NETWORK_ID {
        REDUCED_FEE
    } else {
        STANDARD_FEE
    }
}

/// Every fee of the schedule is positive and at most the standard fee.
pub proof fn lemma_fee_bounds(network_id: u64)
    ensures
        0 < fee_for(network_id) <= STANDARD_FEE,
{
}

/// The fee that a submission must carry on the network `network_id`.
pub fn required_fee(network_id: u64) -> (fee: u128)
    ensures
        fee == fee_for(network_id),
        network_id == TEST_NETWORK_ID ==> fee == REDUCED_FEE,
        network_id != TEST_NETWORK_ID ==> fee == STANDARD_FEE,
{
    if network_id == TEST_NETWORK_ID {
        REDUCED_FEE
    } else {
        STANDARD_FEE
    }
}

} // verus!
