use vstd::prelude::*;

use crate::ledger::Ledger;
use crate::pricing::{
    after_fees, amount_after_fees, fee_part, mul_div, lemma_quote_monotonic, lp_fee_of, protocol_fee_of,
    quote, quote_of, FEE_DENOMINATOR, LP_FEE_RATE, PRECISION, PROTOCOL_FEE_RATE,
};
use crate::token::{is_valid_token, valid_token_id};

verus! {

/// Why an operation was refused. A refused operation changes nothing.
#[derive(PartialEq, Eq, Structural, Debug, Clone, Copy)]
pub enum SwapError {
    InvalidToken,
    ContractPaused,
    InvalidSlippage,
    SlippageExceeded,
    InsufficientOutput,
    InsufficientLiquidity,
    InsufficientReserve,
    InsufficientLPShares,
    NoRewardsOrShares,
    NoFeesToWithdraw,
    Unauthorized,
    /// A balance or an intermediate product would not fit in 128 bits.
    AmountOverflow,
}

/// Largest value of an amount.
pub open spec fn max_amount() -> int {
    u128::MAX as int
}

/// `amount * rate / 100`, rounded down.
pub open spec fn percent_of(amount: int, rate: int) -> int {
    amount * rate / 100
}

/// Share of the pool, scaled by `PRECISION`, that `lp_amount` shares stand for.
pub open spec fn share_of(lp_amount: int, total_lp: int) -> int {
    if total_lp == 0 {
        0
    } else {
        lp_amount * PRECISION as int / total_lp
    }
}

/// Part of `reserve` paid out for a scaled `share`.
pub open spec fn payout_of(reserve: int, share: int) -> int {
    reserve * share / PRECISION as int
}

/// Reward of a holder of `user_lp` of `total_lp` shares, out of `total_fees`.
pub open spec fn reward_of(user_lp: int, total_lp: int, total_fees: int) -> int {
    (user_lp * LP_FEE_RATE as int / total_lp) * total_fees / FEE_DENOMINATOR as int
}

/// The state of the pool: reserves, fee accruals and liquidity shares.
pub struct SwapContract {
    pub admin: Vec<u8>,
    pub paused: bool,
    /// Reserve of each token.
    pub reserves: Ledger,
    /// Protocol fees accrued per token, withdrawable by the admin.
    pub protocol_fees: Ledger,
    /// LP-facing fees collected per token.
    pub collected_fees: Ledger,
    /// LP shares of each holder.
    pub lp_tokens: Ledger,
    pub total_lp_tokens: u128,
    pub total_fees: u128,
}

fn percent_part(amount: u128, rate: u128) -> (r: u128)
    requires
        rate <= 100,
    ensures
        r as int == percent_of(amount as int, rate as int),
        r <= amount,
{
    let q = amount / 100;
    let m = amount % 100;
    proof {
        let a = amount as int;
        let b = rate as int;
        assert(a == 100 * (q as int) + m as int);
        assert(a * b == 100 * (q as int * b) + m as int * b) by (nonlinear_arith)
            requires a == 100 * (q as int) + m as int;
        assert(q as int * b <= q as int * 100) by (nonlinear_arith)
            requires b <= 100, q >= 0;
        assert(m as int * b <= 99 * 100) by (nonlinear_arith)
            requires b <= 100, 0 <= m < 100;
        assert((100 * (q as int * b) + m as int * b) / 100 == q as int * b + (m as int * b) / 100)
            by (nonlinear_arith)
            requires m as int * b >= 0;
        assert(m as int * b / 100 <= m) by (nonlinear_arith)
            requires b <= 100, 0 <= m;
    }
    q * rate + m * rate / 100
}

/// The message with which the host aborts an operation refused for `err`.
pub open spec fn abort_message(err: SwapError) -> Seq<char> {
    match err {
        SwapError::InvalidToken => "Invalid token"@,
        SwapError::ContractPaused => "Contract is paused"@,
        SwapError::InvalidSlippage => "Invalid slippage rate"@,
        SwapError::SlippageExceeded => "Slippage too high"@,
        SwapError::InsufficientOutput => "Insufficient output amount"@,
        SwapError::InsufficientLiquidity => "Insufficient liquidity"@,
        SwapError::InsufficientReserve => "Insufficient reserve"@,
        SwapError::InsufficientLPShares => "Insufficient LP tokens"@,
        SwapError::NoRewardsOrShares => "No LP tokens owned"@,
        SwapError::NoFeesToWithdraw => "No fees to withdraw"@,
        SwapError::Unauthorized => "Endpoint can only be called by owner"@,
        SwapError::AmountOverflow => "Amount overflow"@,
    }
}

/// Turns a refusal into the message with which the whole operation aborts.
pub fn error_message(err: SwapError) -> (r: &'static str)
    ensures
        r@ == abort_message(err),
{
    match err {
        SwapError::InvalidToken => "Invalid token",
        SwapError::ContractPaused => "Contract is paused",
        SwapError::InvalidSlippage => "Invalid slippage rate",
        SwapError::SlippageExceeded => "Slippage too high",
        SwapError::InsufficientOutput => "Insufficient output amount",
        SwapError::InsufficientLiquidity => "Insufficient liquidity",
        SwapError::InsufficientReserve => "Insufficient reserve",
        SwapError::InsufficientLPShares => "Insufficient LP tokens",
        SwapError::NoRewardsOrShares => "No LP tokens owned",
        SwapError::NoFeesToWithdraw => "No fees to withdraw",
        SwapError::Unauthorized => "Endpoint can only be called by owner",
        SwapError::AmountOverflow => "Amount overflow",
    }
}

/// The library's side of the host's panic hook. The host halts an operation
/// that panics and discards everything it did: the pool goes back to the state
/// `before` the operation, so no partial update survives. This function only
/// restores the state; halting is the host's part and cannot be stated here.
pub fn panic_handler(state: &mut SwapContract, before: SwapContract)
    ensures
        *final(state) == before,
{
    *state = before;
}

impl SwapContract {
    /// Ledgers keep unique keys, and the LP supply is the sum of all LP balances.
    pub open spec fn wf(&self) -> bool {
        &&& self.reserves.wf()
        &&& self.protocol_fees.wf()
        &&& self.collected_fees.wf()
        &&& self.lp_tokens.wf()
        &&& self.total_lp_tokens as nat == self.lp_tokens.total()
    }

    pub open spec fn reserve(&self, t: Seq<u8>) -> int {
        self.reserves.amount_of(t) as int
    }

    /// What a swap returns, refusals included, in the order they are checked.
    pub open spec fn swap_result(
        &self,
        token_in: Seq<u8>,
        amount_in: int,
        token_out: Seq<u8>,
        min_amount_out: int,
        slippage_rate: int,
    ) -> Result<u128, SwapError> {
        let r_in = self.reserve(token_in);
        let r_out = self.reserve(token_out);
        let q = quote_of(r_in, r_out, after_fees(amount_in));
        let min_rate = q - percent_of(q, slippage_rate);
        if self.paused {
            Err(SwapError::ContractPaused)
        } else if slippage_rate > 100 {
            Err(SwapError::InvalidSlippage)
        } else if !valid_token_id(token_in) || !valid_token_id(token_out) {
            Err(SwapError::InvalidToken)
        } else if r_in == 0 || r_out == 0 {
            Err(SwapError::InsufficientLiquidity)
        } else if r_in + amount_in > max_amount()
            || self.protocol_fees.amount_of(token_in) + protocol_fee_of(amount_in) > max_amount()
            || self.collected_fees.amount_of(token_in) + lp_fee_of(amount_in) > max_amount()
            || self.total_fees + lp_fee_of(amount_in) > max_amount() {
            Err(SwapError::AmountOverflow)
        } else if min_rate < min_amount_out {
            Err(SwapError::SlippageExceeded)
        } else if q < min_amount_out {
            Err(SwapError::InsufficientOutput)
        } else {
            Ok(q as u128)
        }
    }

    /// A fresh pool administered by `caller`: unpaused, with nothing in it.
    pub fn init(caller: &Vec<u8>) -> (r: SwapContract)
        ensures
            r.wf(),
            r.admin@ == caller@,
            !r.paused,
            r.total_lp_tokens == 0,
            r.total_fees == 0,
            forall|k: Seq<u8>|
                r.reserves.amount_of(k) == 0 && r.protocol_fees.amount_of(k) == 0
                    && r.collected_fees.amount_of(k) == 0 && r.lp_tokens.amount_of(k) == 0,
    {
        SwapContract {
            admin: caller.clone(),
            paused: false,
            reserves: Ledger::new(),
            protocol_fees: Ledger::new(),
            collected_fees: Ledger::new(),
            lp_tokens: Ledger::new(),
            total_lp_tokens: 0,
            total_fees: 0,
        }
    }

    /// Sets the pause flag; only the admin may.
    pub fn set_paused(&mut self, caller: &Vec<u8>, paused: bool) -> (r: Result<(), SwapError>)
        ensures
            caller@ != old(self).admin@ ==> r == Err::<(), SwapError>(SwapError::Unauthorized)
                && *final(self) == *old(self),
            caller@ == old(self).admin@ ==> r is Ok && *final(self) == (SwapContract {
                paused,
                ..*old(self)
            }),
    {
        if !crate::ledger::bytes_eq(caller, &self.admin) {
            return Err(SwapError::Unauthorized);
        }
        self.paused = paused;
        Ok(())
    }

    pub fn is_contract_paused(&self) -> (r: bool)
        ensures
            r == self.paused,
    {
        self.paused
    }

    /// The reserve of `token_id`.
    pub fn get_balance(&self, token_id: &Vec<u8>) -> (r: u128)
        requires
            self.wf(),
        ensures
            r as int == self.reserve(token_id@),
    {
        self.reserves.get(token_id)
    }

    /// Hands the protocol fees accrued in `token_id` to the admin and clears them.
    pub fn withdraw_protocol_fees(&mut self, caller: &Vec<u8>, token_id: &Vec<u8>) -> (r: Result<
        u128,
        SwapError,
    >)
        requires
            old(self).wf(),
        ensures
            final(self).wf(),
            r is Err ==> *final(self) == *old(self),
            caller@ != old(self).admin@ ==> r == Err::<u128, SwapError>(SwapError::Unauthorized),
            caller@ == old(self).admin@ && old(self).protocol_fees.amount_of(token_id@) == 0 ==> r
                == Err::<u128, SwapError>(SwapError::NoFeesToWithdraw),
            caller@ == old(self).admin@ && old(self).protocol_fees.amount_of(token_id@) > 0 ==> r
                == Ok::<u128, SwapError>(
                old(self).protocol_fees.amount_of(token_id@) as u128,
            ),
            r is Ok ==> final(self).protocol_fees.amount_of(token_id@) == 0 && forall|k: Seq<u8>|
                k != token_id@ ==> final(self).protocol_fees.amount_of(k)
                    == old(self).protocol_fees.amount_of(k),
            r is Ok ==> final(self).reserves == old(self).reserves && final(self).lp_tokens
                == old(self).lp_tokens && final(self).collected_fees == old(self).collected_fees
                && final(self).total_lp_tokens == old(self).total_lp_tokens
                && final(self).total_fees == old(self).total_fees && final(self).paused
                == old(self).paused && final(self).admin == old(self).admin,
    {
        if !crate::ledger::bytes_eq(caller, &self.admin) {
            return Err(SwapError::Unauthorized);
        }
        let fees = self.protocol_fees.get(token_id);
        if fees == 0 {
            return Err(SwapError::NoFeesToWithdraw);
        }
        self.protocol_fees.set(token_id, 0);
        Ok(fees)
    }
    /// Credits `amount` of `token_id` to its reserve.
    pub fn deposit_token(&mut self, token_id: &Vec<u8>, amount: u128) -> (r: Result<(), SwapError>)
        requires
            old(self).wf(),
        ensures
            final(self).wf(),
            r is Err ==> *final(self) == *old(self),
            !valid_token_id(token_id@) ==> r == Err::<(), SwapError>(SwapError::InvalidToken),
            valid_token_id(token_id@) && old(self).reserve(token_id@) + amount > max_amount() ==> r
                == Err::<(), SwapError>(SwapError::AmountOverflow),
            valid_token_id(token_id@) && old(self).reserve(token_id@) + amount <= max_amount() ==> r
                is Ok,
            r is Ok ==> (SwapContract { reserves: old(self).reserves, ..*final(self) }) == *old(self)
                && forall|k: Seq<u8>|
                final(self).reserve(k) == old(self).reserve(k) + if k == token_id@ {
                    amount as int
                } else {
                    0
                },
    {
        if !is_valid_token(token_id) {
            return Err(SwapError::InvalidToken);
        }
        let balance = self.reserves.get(token_id);
        let new_balance = match balance.checked_add(amount) {
            Some(v) => v,
            None => return Err(SwapError::AmountOverflow),
        };
        self.reserves.set(token_id, new_balance);
        Ok(())
    }

    /// Mints `amount` LP shares to `address`.
    pub fn update_lp_tokens(&mut self, address: &Vec<u8>, amount: u128)
        requires
            old(self).wf(),
            old(self).total_lp_tokens + amount <= max_amount(),
        ensures
            final(self).wf(),
            final(self).total_lp_tokens == old(self).total_lp_tokens + amount,
            forall|k: Seq<u8>|
                final(self).lp_tokens.amount_of(k) == old(self).lp_tokens.amount_of(k) + if k
                    == address@ {
                    amount as int
                } else {
                    0
                },
            (SwapContract {
                lp_tokens: old(self).lp_tokens,
                total_lp_tokens: old(self).total_lp_tokens,
                ..*final(self)
            }) == *old(self),
    {
        proof {
            self.lp_tokens.lemma_amount_le_total(address@);
        }
        let balance = self.lp_tokens.get(address);
        self.lp_tokens.set(address, balance + amount);
        self.total_lp_tokens = self.total_lp_tokens + amount;
    }

    /// Credits both reserves and mints LP shares to `caller` equal to `amount_a`:
    /// shares follow the first token's contribution alone.
    pub fn add_liquidity(
        &mut self,
        caller: &Vec<u8>,
        token_a: &Vec<u8>,
        amount_a: u128,
        token_b: &Vec<u8>,
        amount_b: u128,
    ) -> (r: Result<(), SwapError>)
        requires
            old(self).wf(),
        ensures
            final(self).wf(),
            r is Err ==> *final(self) == *old(self),
            !valid_token_id(token_a@) || !valid_token_id(token_b@) ==> r == Err::<(), SwapError>(
                SwapError::InvalidToken,
            ),
            valid_token_id(token_a@) && valid_token_id(token_b@) ==> (r is Ok <==> (
            old(self).reserve(token_a@) + amount_a + if token_a@ == token_b@ {
                amount_b as int
            } else {
                0
            } <= max_amount() && old(self).reserve(token_b@) + amount_b <= max_amount()
                && old(self).total_lp_tokens + amount_a <= max_amount())),
            valid_token_id(token_a@) && valid_token_id(token_b@) && r is Err ==> r == Err::<
                (),
                SwapError,
            >(SwapError::AmountOverflow),
            r is Ok ==> forall|k: Seq<u8>|
                final(self).reserve(k) == old(self).reserve(k) + (if k == token_a@ {
                    amount_a as int
                } else {
                    0
                }) + (if k == token_b@ {
                    amount_b as int
                } else {
                    0
                }),
            r is Ok ==> final(self).total_lp_tokens == old(self).total_lp_tokens + amount_a,
            r is Ok ==> forall|k: Seq<u8>|
                final(self).lp_tokens.amount_of(k) == old(self).lp_tokens.amount_of(k) + if k
                    == caller@ {
                    amount_a as int
                } else {
                    0
                },
            r is Ok ==> (SwapContract {
                reserves: old(self).reserves,
                lp_tokens: old(self).lp_tokens,
                total_lp_tokens: old(self).total_lp_tokens,
                ..*final(self)
            }) == *old(self),
    {
        if !is_valid_token(token_a) || !is_valid_token(token_b) {
            return Err(SwapError::InvalidToken);
        }
        let bal_a = self.reserves.get(token_a);
        let bal_b = self.reserves.get(token_b);
        let new_a = match bal_a.checked_add(amount_a) {
            Some(v) => v,
            None => return Err(SwapError::AmountOverflow),
        };
        let same = crate::ledger::bytes_eq(token_a, token_b);
        let base_b = if same { new_a } else { bal_b };
        let new_b = match base_b.checked_add(amount_b) {
            Some(v) => v,
            None => return Err(SwapError::AmountOverflow),
        };
        if bal_b.checked_add(amount_b).is_none() {
            return Err(SwapError::AmountOverflow);
        }
        if self.total_lp_tokens.checked_add(amount_a).is_none() {
            return Err(SwapError::AmountOverflow);
        }
        self.reserves.set(token_a, new_a);
        self.reserves.set(token_b, new_b);
        self.update_lp_tokens(caller, amount_a);
        Ok(())
    }

    /// Constant-product output for `amount_in` of `token_in` against the
    /// reserves of `token_in` and `token_out`.
    pub fn get_swap_rate(&self, token_in: &Vec<u8>, token_out: &Vec<u8>, amount_in: u128) -> (r:
        Result<u128, SwapError>)
        requires
            self.wf(),
        ensures
            self.reserve(token_in@) == 0 || self.reserve(token_out@) == 0 ==> r == Err::<
                u128,
                SwapError,
            >(SwapError::InsufficientLiquidity),
            self.reserve(token_in@) > 0 && self.reserve(token_out@) > 0 ==> (r is Ok <==> self.reserve(
                token_in@,
            ) + amount_in <= max_amount()),
            self.reserve(token_in@) > 0 && self.reserve(token_out@) > 0 && r is Err ==> r == Err::<
                u128,
                SwapError,
            >(SwapError::AmountOverflow),
            r is Ok ==> r->Ok_0 as int == quote_of(
                self.reserve(token_in@),
                self.reserve(token_out@),
                amount_in as int,
            ),
    {
        let balance_in = self.reserves.get(token_in);
        let balance_out = self.reserves.get(token_out);
        if balance_in == 0 || balance_out == 0 {
            return Err(SwapError::InsufficientLiquidity);
        }
        match quote(balance_in, balance_out, amount_in) {
            Some(v) => Ok(v),
            None => Err(SwapError::AmountOverflow),
        }
    }
    /// Swaps `amount_in` of `token_in` for `token_out`. The whole input is
    /// credited to the reserve; the protocol fee and the LP fee are taken from it
    /// before pricing and accrued. Returns the output amount owed to the caller.
    pub fn swap_tokens(
        &mut self,
        token_in: &Vec<u8>,
        amount_in: u128,
        token_out: &Vec<u8>,
        min_amount_out: u128,
        slippage_rate: u64,
    ) -> (r: Result<u128, SwapError>)
        requires
            old(self).wf(),
        ensures
            final(self).wf(),
            r == old(self).swap_result(
                token_in@,
                amount_in as int,
                token_out@,
                min_amount_out as int,
                slippage_rate as int,
            ),
            r is Err ==> *final(self) == *old(self),
            r is Ok ==> r->Ok_0 <= old(self).reserve(token_out@),
            r is Ok ==> forall|k: Seq<u8>|
                final(self).reserve(k) == old(self).reserve(k) + (if k == token_in@ {
                    amount_in as int
                } else {
                    0
                }) - (if k == token_out@ {
                    r->Ok_0 as int
                } else {
                    0
                }),
            r is Ok ==> forall|k: Seq<u8>|
                final(self).protocol_fees.amount_of(k) == old(self).protocol_fees.amount_of(k) + if k
                    == token_in@ {
                    protocol_fee_of(amount_in as int)
                } else {
                    0
                },
            r is Ok ==> forall|k: Seq<u8>|
                final(self).collected_fees.amount_of(k) == old(self).collected_fees.amount_of(k) + if k
                    == token_in@ {
                    lp_fee_of(amount_in as int)
                } else {
                    0
                },
            r is Ok ==> final(self).total_fees == old(self).total_fees + lp_fee_of(amount_in as int),
            r is Ok ==> final(self).lp_tokens == old(self).lp_tokens && final(self).total_lp_tokens
                == old(self).total_lp_tokens && final(self).paused == old(self).paused
                && final(self).admin == old(self).admin,
    {
        if self.paused {
            return Err(SwapError::ContractPaused);
        }
        if slippage_rate > 100 {
            return Err(SwapError::InvalidSlippage);
        }
        if !is_valid_token(token_in) || !is_valid_token(token_out) {
            return Err(SwapError::InvalidToken);
        }
        let balance_in = self.reserves.get(token_in);
        let balance_out = self.reserves.get(token_out);
        if balance_in == 0 || balance_out == 0 {
            return Err(SwapError::InsufficientLiquidity);
        }
        let protocol_fee = fee_part(amount_in, PROTOCOL_FEE_RATE);
        let lp_fee = fee_part(amount_in, LP_FEE_RATE);
        let amount_after_fee = amount_after_fees(amount_in);
        let new_in = match balance_in.checked_add(amount_in) {
            Some(v) => v,
            None => return Err(SwapError::AmountOverflow),
        };
        let new_protocol = match self.protocol_fees.get(token_in).checked_add(protocol_fee) {
            Some(v) => v,
            None => return Err(SwapError::AmountOverflow),
        };
        let new_collected = match self.collected_fees.get(token_in).checked_add(lp_fee) {
            Some(v) => v,
            None => return Err(SwapError::AmountOverflow),
        };
        let new_total_fees = match self.total_fees.checked_add(lp_fee) {
            Some(v) => v,
            None => return Err(SwapError::AmountOverflow),
        };
        let rate = match quote(balance_in, balance_out, amount_after_fee) {
            Some(v) => v,
            None => return Err(SwapError::AmountOverflow),
        };
        let min_rate = rate - percent_part(rate, slippage_rate as u128);
        if min_rate < min_amount_out {
            return Err(SwapError::SlippageExceeded);
        }
        if rate < min_amount_out {
            return Err(SwapError::InsufficientOutput);
        }
        proof {
            lemma_quote_monotonic(
                balance_in as int,
                balance_out as int,
                amount_after_fee as int,
                amount_after_fee as int,
            );
        }
        self.reserves.set(token_in, new_in);
        let current_out = self.reserves.get(token_out);
        self.reserves.set(token_out, current_out - rate);
        self.protocol_fees.set(token_in, new_protocol);
        self.collected_fees.set(token_in, new_collected);
        self.total_fees = new_total_fees;
        Ok(rate)
    }
    /// Reward owed to a holder of `user_lp_tokens` of `total_lp_tokens` shares
    /// out of the fees collected so far.
    pub fn calculate_rewards(&self, user_lp_tokens: u128, total_lp_tokens: u128) -> (r: u128)
        requires
            0 < total_lp_tokens,
            user_lp_tokens <= total_lp_tokens,
        ensures
            r as int == reward_of(
                user_lp_tokens as int,
                total_lp_tokens as int,
                self.total_fees as int,
            ),
    {
        let ghost u = user_lp_tokens as int;
        let ghost t = total_lp_tokens as int;
        let reward_share: u128 = if user_lp_tokens == total_lp_tokens {
            2
        } else if user_lp_tokens >= total_lp_tokens - user_lp_tokens {
            1
        } else {
            0
        };
        proof {
            if user_lp_tokens == total_lp_tokens {
                assert(u * 2 / t == 2) by (nonlinear_arith)
                    requires u == t, t > 0;
            } else if u >= t - u {
                assert(u * 2 / t == 1) by (nonlinear_arith)
                    requires u < t, u >= t - u, t > 0;
            } else {
                assert(u * 2 / t == 0) by (nonlinear_arith)
                    requires 0 <= u, u < t - u, t > 0;
            }
        }
        fee_part(self.total_fees, reward_share)
    }

    /// The reward of `caller`, computed from its share of the LP supply.
    /// Claiming records nothing: LP shares stay with their holder, so that the
    /// LP supply remains the sum of the balances, and a holder who claims again
    /// is owed the same reward until the fees or the shares change.
    pub fn claim_rewards(&self, caller: &Vec<u8>) -> (r: Result<u128, SwapError>)
        requires
            self.wf(),
        ensures
            self.lp_tokens.amount_of(caller@) == 0 ==> r == Err::<u128, SwapError>(
                SwapError::NoRewardsOrShares,
            ),
            self.lp_tokens.amount_of(caller@) > 0 ==> r == Ok::<u128, SwapError>(
                reward_of(
                    self.lp_tokens.amount_of(caller@) as int,
                    self.total_lp_tokens as int,
                    self.total_fees as int,
                ) as u128,
            ),
    {
        let caller_lp_tokens = self.lp_tokens.get(caller);
        if caller_lp_tokens == 0 {
            return Err(SwapError::NoRewardsOrShares);
        }
        proof {
            self.lp_tokens.lemma_amount_le_total(caller@);
        }
        Ok(self.calculate_rewards(caller_lp_tokens, self.total_lp_tokens))
    }

    /// Burns `lp_amount` of `caller`'s shares and debits both reserves by the
    /// proportional amounts, which are returned for transfer to the caller.
    pub fn remove_liquidity(
        &mut self,
        caller: &Vec<u8>,
        token_a: &Vec<u8>,
        token_b: &Vec<u8>,
        lp_amount: u128,
    ) -> (r: Result<(u128, u128), SwapError>)
        requires
            old(self).wf(),
        ensures
            final(self).wf(),
            r is Err ==> *final(self) == *old(self),
            old(self).lp_tokens.amount_of(caller@) < lp_amount ==> r == Err::<
                (u128, u128),
                SwapError,
            >(SwapError::InsufficientLPShares),
            ({
                let share = share_of(lp_amount as int, old(self).total_lp_tokens as int);
                let ra = old(self).reserve(token_a@);
                let rb = old(self).reserve(token_b@);
                let amount_a = payout_of(ra, share);
                let amount_b = payout_of(rb, share);
                old(self).lp_tokens.amount_of(caller@) >= lp_amount ==> {
                    &&& (r is Err <==> (token_a@ == token_b@ && amount_a + amount_b > ra))
                    &&& r is Err ==> r == Err::<(u128, u128), SwapError>(
                        SwapError::InsufficientReserve,
                    )
                    &&& r is Ok ==> amount_a <= ra && amount_b <= rb
                    &&& r is Ok ==> r->Ok_0 == (amount_a as u128, amount_b as u128)
                    &&& r is Ok ==> forall|k: Seq<u8>|
                        final(self).reserve(k) == old(self).reserve(k) - (if k == token_a@ {
                            amount_a
                        } else {
                            0
                        }) - (if k == token_b@ {
                            amount_b
                        } else {
                            0
                        })
                }
            }),
            r is Ok ==> final(self).total_lp_tokens == old(self).total_lp_tokens - lp_amount,
            r is Ok ==> forall|k: Seq<u8>|
                final(self).lp_tokens.amount_of(k) == old(self).lp_tokens.amount_of(k) - if k
                    == caller@ {
                    lp_amount as int
                } else {
                    0
                },
            r is Ok ==> final(self).protocol_fees == old(self).protocol_fees
                && final(self).collected_fees == old(self).collected_fees && final(self).total_fees
                == old(self).total_fees && final(self).paused == old(self).paused
                && final(self).admin == old(self).admin,
    {
        let caller_lp_tokens = self.lp_tokens.get(caller);
        if caller_lp_tokens < lp_amount {
            return Err(SwapError::InsufficientLPShares);
        }
        proof {
            self.lp_tokens.lemma_amount_le_total(caller@);
        }
        let share = if self.total_lp_tokens == 0 {
            0
        } else {
            mul_div(lp_amount, PRECISION, self.total_lp_tokens)
        };
        let balance_a = self.reserves.get(token_a);
        let balance_b = self.reserves.get(token_b);
        let amount_a = mul_div(share, balance_a, PRECISION);
        let amount_b = mul_div(share, balance_b, PRECISION);
        proof {
            assert(share as int * balance_a as int == balance_a as int * share as int)
                by (nonlinear_arith);
            assert(share as int * balance_b as int == balance_b as int * share as int)
                by (nonlinear_arith);
        }
        let same = crate::ledger::bytes_eq(token_a, token_b);
        if same && amount_a > balance_a - amount_b {
            return Err(SwapError::InsufficientReserve);
        }
        self.lp_tokens.set(caller, caller_lp_tokens - lp_amount);
        self.total_lp_tokens = self.total_lp_tokens - lp_amount;
        self.reserves.set(token_a, balance_a - amount_a);
        let current_b = self.reserves.get(token_b);
        self.reserves.set(token_b, current_b - amount_b);
        Ok((amount_a, amount_b))
    }
}

/// Every reserve of a pool is a non-negative amount.
pub proof fn lemma_reserve_non_negative(c: SwapContract, t: Seq<u8>)
    ensures
        c.reserve(t) >= 0,
{
}

/// In a well-formed pool the LP supply equals the sum of all LP balances, and
/// no holder owns more than the supply.
pub proof fn lemma_lp_supply_conserved(c: SwapContract, holder: Seq<u8>)
    requires
        c.wf(),
    ensures
        c.total_lp_tokens as nat == c.lp_tokens.total(),
        c.lp_tokens.amount_of(holder) <= c.total_lp_tokens,
{
    c.lp_tokens.lemma_amount_le_total(holder);
}

/// Adding liquidity to an empty pool, which mints `amount_a` shares, and then
/// removing those same shares pays back exactly the amounts put in.
pub proof fn lemma_add_remove_round_trip(amount_a: int, amount_b: int)
    requires
        amount_a > 0,
        amount_b >= 0,
    ensures
        payout_of(amount_a, share_of(amount_a, amount_a)) == amount_a,
        payout_of(amount_b, share_of(amount_a, amount_a)) == amount_b,
{
    let p = PRECISION as int;
    assert(amount_a * p / amount_a == p) by (nonlinear_arith)
        requires amount_a > 0, p == 1000000;
    assert(amount_a * p / p == amount_a) by (nonlinear_arith)
        requires p == 1000000;
    assert(amount_b * p / p == amount_b) by (nonlinear_arith)
        requires p == 1000000;
}

/// Removing `m` of `t` LP shares pays out of a reserve `r` the exact
/// proportional part `r * m / t`, less at most `r / PRECISION + 1` of rounding,
/// and never more than that part.
pub proof fn lemma_remove_proportional(r: int, m: int, t: int)
    requires
        r >= 0,
        0 < m <= t,
    ensures
        payout_of(r, share_of(m, t)) <= r * m / t,
        r * m / t - payout_of(r, share_of(m, t)) <= r / PRECISION as int + 1,
{
    let p = PRECISION as int;
    let s = m * p / t;
    let u = r * s / p;
    let v = r * m / t;
    let w = r / p;
    vstd::arithmetic::div_mod::lemma_fundamental_div_mod(m * p, t);
    vstd::arithmetic::div_mod::lemma_mod_pos_bound(m * p, t);
    vstd::arithmetic::div_mod::lemma_fundamental_div_mod(r * m, t);
    vstd::arithmetic::div_mod::lemma_mod_pos_bound(r * m, t);
    assert(s >= 0) by (nonlinear_arith)
        requires s == m * p / t, m > 0, t > 0, p > 0;
    vstd::arithmetic::div_mod::lemma_fundamental_div_mod(r * s, p);
    vstd::arithmetic::div_mod::lemma_mod_pos_bound(r * s, p);
    vstd::arithmetic::div_mod::lemma_fundamental_div_mod(r, p);
    vstd::arithmetic::div_mod::lemma_mod_pos_bound(r, p);
    assert(s * t <= m * p < (s + 1) * t) by (nonlinear_arith)
        requires m * p == t * s + (m * p) % t, 0 <= (m * p) % t < t;
    assert(u * p <= r * s < (u + 1) * p) by (nonlinear_arith)
        requires r * s == p * u + (r * s) % p, 0 <= (r * s) % p < p;
    assert(v * t <= r * m < (v + 1) * t) by (nonlinear_arith)
        requires r * m == t * v + (r * m) % t, 0 <= (r * m) % t < t;
    assert(w * p <= r < (w + 1) * p) by (nonlinear_arith)
        requires r == p * w + r % p, 0 <= r % p < p;
    assert(u * p * t <= r * m * p) by (nonlinear_arith)
        requires u * p <= r * s, s * t <= m * p, r >= 0, t > 0;
    assert(u <= v) by (nonlinear_arith)
        requires u * p * t <= r * m * p, r * m < (v + 1) * t, p > 0, t > 0;
    assert(r * m * p <= r * (s + 1) * t) by (nonlinear_arith)
        requires m * p < (s + 1) * t, r >= 0;
    assert(v * p <= r * (s + 1)) by (nonlinear_arith)
        requires v * t <= r * m, r * m * p <= r * (s + 1) * t, t > 0, p > 0;
    assert(r * (s + 1) == r * s + r) by (nonlinear_arith);
    assert(v <= u + w + 1) by (nonlinear_arith)
        requires v * p <= r * s + r, r * s < (u + 1) * p, r < (w + 1) * p, p > 0;
}

/// Sum of the protocol fees taken from a sequence of swap inputs.
pub open spec fn sum_protocol_fees(amounts: Seq<int>) -> int
    decreases amounts.len(),
{
    if amounts.len() == 0 {
        0
    } else {
        sum_protocol_fees(amounts.drop_last()) + protocol_fee_of(amounts.last())
    }
}

/// Over a sequence of swaps on one token, where each swap adds its protocol fee
/// to the accrual, the accrual grows by the sum of those fees.
pub proof fn lemma_fee_accrual_additive(accruals: Seq<int>, amounts: Seq<int>)
    requires
        accruals.len() == amounts.len() + 1,
        forall|i: int|
            0 <= i < amounts.len() ==> accruals[i + 1] == accruals[i] + protocol_fee_of(
                #[trigger] amounts[i],
            ),
    ensures
        accruals.last() - accruals[0] == sum_protocol_fees(amounts),
    decreases amounts.len(),
{
    if amounts.len() > 0 {
        let n = amounts.len() - 1;
        assert(accruals[n + 1] == accruals[n] + protocol_fee_of(amounts[n]));
        lemma_fee_accrual_additive(accruals.drop_last(), amounts.drop_last());
    }
}

} // verus!
