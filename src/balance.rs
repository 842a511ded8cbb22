use vstd::prelude::*;

verus! {

/// Token balances held by a trader: the output token and the two tokens of
/// its pair.
#[derive(Clone, Copy, Debug, PartialEq, Eq, Structural)]
pub struct BalanceInfo {
    pub output_token: i128,
    pub token_a: i128,
    pub token_b: i128,
}

} // verus!
