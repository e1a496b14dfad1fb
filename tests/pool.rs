use swap_pool::contract::{error_message, panic_handler, SwapContract, SwapError};
use swap_pool::pricing::{amount_after_fees, fee_part, mul_div, quote};
use swap_pool::token::is_valid_token;

fn admin() -> Vec<u8> {
    b"admin-address".to_vec()
}

fn alice() -> Vec<u8> {
    b"alice-address".to_vec()
}

fn bob() -> Vec<u8> {
    b"bob-address".to_vec()
}

fn tok_a() -> Vec<u8> {
    b"TOKA-abcdef".to_vec()
}

fn tok_b() -> Vec<u8> {
    b"TOKB-123456".to_vec()
}

fn pool_with(a: u128, b: u128) -> SwapContract {
    let mut c = SwapContract::init(&admin());
    c.add_liquidity(&alice(), &tok_a(), a, &tok_b(), b).unwrap();
    c
}

#[test]
fn token_identifiers_are_validated() {
    assert!(is_valid_token(&tok_a()));
    assert!(is_valid_token(&b"ABC-000000".to_vec()));
    assert!(!is_valid_token(&b"EGLD".to_vec()));
    assert!(!is_valid_token(&b"toka-abcdef".to_vec()));
    assert!(!is_valid_token(&b"TOKA_abcdef".to_vec()));
    assert!(!is_valid_token(&b"TOKA-ABCDEF".to_vec()));
    assert!(!is_valid_token(&b"ABCDEFGHIJK-abcdef".to_vec()));
}

#[test]
fn fee_split_values() {
    assert_eq!(fee_part(5000, 1), 5);
    assert_eq!(fee_part(5000, 2), 10);
    assert_eq!(fee_part(999, 1), 0);
    assert_eq!(fee_part(u128::MAX, 2), u128::MAX / 500);
    assert_eq!(amount_after_fees(5000), 4985);
    assert_eq!(amount_after_fees(100), 100);
}

#[test]
fn scenario_swap_hundred_of_a() {
    let mut c = pool_with(1000, 1000);
    let r = c.swap_tokens(&tok_a(), 100, &tok_b(), 0, 0);
    assert_eq!(r, Ok(91));
    assert_eq!(c.get_balance(&tok_a()), 1100);
    assert_eq!(c.get_balance(&tok_b()), 909);
}

#[test]
fn quote_is_zero_for_zero_and_monotonic() {
    let c = pool_with(1000, 2000);
    assert_eq!(c.get_swap_rate(&tok_a(), &tok_b(), 0), Ok(0));
    let mut last = 0;
    for x in [1u128, 10, 100, 500, 1000, 10_000, 1_000_000] {
        let q = c.get_swap_rate(&tok_a(), &tok_b(), x).unwrap();
        assert!(q >= last);
        assert!(q <= 2000);
        last = q;
    }
    assert_eq!(quote(1000, 2000, 1000), Some(1000));
    assert_eq!(quote(u128::MAX, 2, 1), None);
    assert_eq!(quote(u128::MAX, 2, 0), Some(0));
}

#[test]
fn quote_uses_both_reserves() {
    let c = pool_with(1000, 4000);
    // 4000 - 4_000_000 / 1100 = 4000 - 3636
    assert_eq!(c.get_swap_rate(&tok_a(), &tok_b(), 100), Ok(364));
}

#[test]
fn swap_moves_reserves_by_exact_amounts() {
    let mut c = pool_with(1_000_000, 1_000_000);
    let rate = c.swap_tokens(&tok_a(), 5000, &tok_b(), 0, 50).unwrap();
    // priced on 4985 after fees
    assert_eq!(rate, 1_000_000 - 1_000_000_000_000 / 1_004_985);
    assert_eq!(c.get_balance(&tok_a()), 1_005_000);
    assert_eq!(c.get_balance(&tok_b()), 1_000_000 - rate);
    assert_eq!(c.total_fees, 10);
    assert_eq!(c.collected_fees.get(&tok_a()), 10);
}

#[test]
fn slippage_exceeded_when_min_rate_below_minimum() {
    let mut c = pool_with(1000, 1000);
    assert_eq!(
        c.swap_tokens(&tok_a(), 100, &tok_b(), 92, 0),
        Err(SwapError::SlippageExceeded)
    );
    // 91 - 91 * 10 / 100 = 82
    assert_eq!(
        c.swap_tokens(&tok_a(), 100, &tok_b(), 83, 10),
        Err(SwapError::SlippageExceeded)
    );
    assert_eq!(c.get_balance(&tok_a()), 1000);
    assert_eq!(c.swap_tokens(&tok_a(), 100, &tok_b(), 82, 10), Ok(91));
}

#[test]
fn swap_refusals() {
    let mut c = pool_with(1000, 1000);
    assert_eq!(
        c.swap_tokens(&tok_a(), 100, &tok_b(), 0, 101),
        Err(SwapError::InvalidSlippage)
    );
    assert_eq!(
        c.swap_tokens(&b"EGLD".to_vec(), 100, &tok_b(), 0, 0),
        Err(SwapError::InvalidToken)
    );
    assert_eq!(
        c.swap_tokens(&tok_a(), 100, &b"TOKC-aaaaaa".to_vec(), 0, 0),
        Err(SwapError::InsufficientLiquidity)
    );
    assert_eq!(c.set_paused(&alice(), true), Err(SwapError::Unauthorized));
    assert!(!c.is_contract_paused());
    assert_eq!(c.set_paused(&admin(), true), Ok(()));
    assert!(c.is_contract_paused());
    assert_eq!(
        c.swap_tokens(&tok_a(), 100, &tok_b(), 0, 0),
        Err(SwapError::ContractPaused)
    );
    assert_eq!(c.get_balance(&tok_a()), 1000);
}

#[test]
fn swap_overflow_is_refused() {
    let mut c = pool_with(u128::MAX - 10, 4);
    assert_eq!(
        c.swap_tokens(&tok_a(), 100, &tok_b(), 0, 0),
        Err(SwapError::AmountOverflow)
    );
    assert_eq!(c.get_balance(&tok_a()), u128::MAX - 10);
}

#[test]
fn large_reserves_still_quote_and_swap() {
    let big: u128 = 1_000_000_000_000_000_000_000_000;
    let mut c = pool_with(big, big);
    let amount: u128 = 1_000_000_000_000_000_000_000;
    let rate = c.swap_tokens(&tok_a(), amount, &tok_b(), 0, 0).unwrap();
    assert_eq!(rate, 996_006_981_039_903_216_494);
    assert_eq!(c.get_balance(&tok_a()), big + amount);
    assert_eq!(c.get_balance(&tok_b()), big - rate);
    assert_eq!(c.get_swap_rate(&tok_a(), &tok_b(), 0), Ok(0));
    let half = c.lp_tokens.get(&alice()) / 2;
    let (out_a, out_b) = c.remove_liquidity(&alice(), &tok_a(), &tok_b(), half).unwrap();
    assert_eq!(out_a, (big + amount) / 2);
    assert_eq!(out_b, (big - rate) / 2);
}

#[test]
fn mul_div_exact_values() {
    assert_eq!(mul_div(3, 10, 4), 7);
    assert_eq!(mul_div(u128::MAX, u128::MAX, u128::MAX), u128::MAX);
    assert_eq!(mul_div(u128::MAX - 1, u128::MAX, u128::MAX), u128::MAX - 1);
    assert_eq!(mul_div(1 << 127, u128::MAX, u128::MAX - 1), 1u128 << 127);
    assert_eq!(mul_div(0, 12345, 7), 0);
}

#[test]
fn panic_handler_restores_prior_state() {
    let mut c = pool_with(1000, 1000);
    let before = pool_with(1000, 1000);
    c.swap_tokens(&tok_a(), 100, &tok_b(), 0, 0).unwrap();
    panic_handler(&mut c, before);
    assert_eq!(c.get_balance(&tok_a()), 1000);
    assert_eq!(c.get_balance(&tok_b()), 1000);
}

#[test]
fn withdraw_without_fees_fails() {
    let mut c = pool_with(1000, 1000);
    assert_eq!(
        c.withdraw_protocol_fees(&admin(), &tok_a()),
        Err(SwapError::NoFeesToWithdraw)
    );
}

#[test]
fn protocol_fees_accrue_and_are_withdrawn() {
    let mut c = pool_with(1_000_000, 1_000_000);
    c.swap_tokens(&tok_a(), 5000, &tok_b(), 0, 100).unwrap();
    c.swap_tokens(&tok_a(), 3000, &tok_b(), 0, 100).unwrap();
    assert_eq!(c.protocol_fees.get(&tok_a()), 8);
    assert_eq!(
        c.withdraw_protocol_fees(&alice(), &tok_a()),
        Err(SwapError::Unauthorized)
    );
    assert_eq!(c.withdraw_protocol_fees(&admin(), &tok_a()), Ok(8));
    assert_eq!(c.protocol_fees.get(&tok_a()), 0);
    assert_eq!(
        c.withdraw_protocol_fees(&admin(), &tok_a()),
        Err(SwapError::NoFeesToWithdraw)
    );
}

#[test]
fn remove_more_than_owned_fails() {
    let mut c = pool_with(1000, 500);
    let r = c.remove_liquidity(&alice(), &tok_a(), &tok_b(), 1001);
    assert_eq!(r, Err(SwapError::InsufficientLPShares));
    assert_eq!(c.get_balance(&tok_a()), 1000);
    assert_eq!(c.get_balance(&tok_b()), 500);
    assert_eq!(c.lp_tokens.get(&alice()), 1000);
    assert_eq!(c.total_lp_tokens, 1000);
    let r = c.remove_liquidity(&bob(), &tok_a(), &tok_b(), 1);
    assert_eq!(r, Err(SwapError::InsufficientLPShares));
}

#[test]
fn add_then_remove_returns_contribution() {
    let mut c = pool_with(1000, 500);
    assert_eq!(c.remove_liquidity(&alice(), &tok_a(), &tok_b(), 1000), Ok((1000, 500)));
    assert_eq!(c.get_balance(&tok_a()), 0);
    assert_eq!(c.get_balance(&tok_b()), 0);
    assert_eq!(c.total_lp_tokens, 0);
}

#[test]
fn partial_removal_is_proportional() {
    let mut c = pool_with(1000, 500);
    c.add_liquidity(&bob(), &tok_a(), 1000, &tok_b(), 500).unwrap();
    // share = 500 * 1_000_000 / 2000 = 250_000
    assert_eq!(c.remove_liquidity(&bob(), &tok_a(), &tok_b(), 500), Ok((500, 250)));
    assert_eq!(c.lp_tokens.get(&bob()), 500);
    assert_eq!(c.total_lp_tokens, 1500);
}

#[test]
fn removal_from_one_token_twice_checks_reserve() {
    let mut c = SwapContract::init(&admin());
    c.add_liquidity(&alice(), &tok_a(), 100, &tok_a(), 100).unwrap();
    assert_eq!(c.get_balance(&tok_a()), 200);
    assert_eq!(
        c.remove_liquidity(&alice(), &tok_a(), &tok_a(), 100),
        Err(SwapError::InsufficientReserve)
    );
    assert_eq!(c.get_balance(&tok_a()), 200);
}

#[test]
fn lp_supply_is_sum_of_balances() {
    let mut c = pool_with(1000, 500);
    c.add_liquidity(&bob(), &tok_a(), 300, &tok_b(), 100).unwrap();
    c.remove_liquidity(&alice(), &tok_a(), &tok_b(), 200).unwrap();
    let sum = c.lp_tokens.get(&alice()) + c.lp_tokens.get(&bob());
    assert_eq!(c.total_lp_tokens, sum);
    assert_eq!(sum, 1100);
}

#[test]
fn add_liquidity_refusals() {
    let mut c = SwapContract::init(&admin());
    assert_eq!(
        c.add_liquidity(&alice(), &b"bad".to_vec(), 1, &tok_b(), 1),
        Err(SwapError::InvalidToken)
    );
    c.add_liquidity(&alice(), &tok_a(), u128::MAX, &tok_b(), 1).unwrap();
    assert_eq!(
        c.add_liquidity(&bob(), &tok_a(), 1, &tok_b(), 1),
        Err(SwapError::AmountOverflow)
    );
    assert_eq!(c.lp_tokens.get(&bob()), 0);
}

#[test]
fn deposit_credits_reserve() {
    let mut c = SwapContract::init(&admin());
    assert_eq!(c.deposit_token(&tok_a(), 250), Ok(()));
    assert_eq!(c.deposit_token(&tok_a(), 50), Ok(()));
    assert_eq!(c.get_balance(&tok_a()), 300);
    assert_eq!(c.deposit_token(&b"EGLD".to_vec(), 5), Err(SwapError::InvalidToken));
    assert_eq!(c.deposit_token(&tok_a(), u128::MAX), Err(SwapError::AmountOverflow));
    assert_eq!(c.get_balance(&tok_a()), 300);
}

#[test]
fn rewards_follow_lp_share() {
    let mut c = pool_with(1_000_000_000, 1_000_000_000);
    assert_eq!(c.claim_rewards(&bob()), Err(SwapError::NoRewardsOrShares));
    c.swap_tokens(&tok_a(), 500_000, &tok_b(), 0, 100).unwrap();
    assert_eq!(c.total_fees, 1000);
    // sole holder: (1000 * 2 / 1000) * 1000 / 1000
    assert_eq!(c.claim_rewards(&alice()), Ok(2));
    assert_eq!(c.calculate_rewards(1, 2), 1);
    assert_eq!(c.calculate_rewards(1, 3), 0);
}

#[test]
fn refusals_have_abort_messages() {
    assert_eq!(error_message(SwapError::ContractPaused), "Contract is paused");
    assert_eq!(error_message(SwapError::NoFeesToWithdraw), "No fees to withdraw");
    assert_eq!(error_message(SwapError::SlippageExceeded), "Slippage too high");
}

#[test]
fn removal_rounds_down_within_bound() {
    let mut c = SwapContract::init(&admin());
    c.add_liquidity(&alice(), &tok_a(), 3, &tok_b(), 1000).unwrap();
    // share = 1 * 1_000_000 / 3 = 333_333; 1000 * 333_333 / 1_000_000 = 333
    assert_eq!(c.remove_liquidity(&alice(), &tok_a(), &tok_b(), 1), Ok((0, 333)));
    assert_eq!(c.get_balance(&tok_b()), 667);
    assert_eq!(c.total_lp_tokens, 2);
}
