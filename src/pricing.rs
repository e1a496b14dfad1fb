use vstd::prelude::*;

verus! {

/// Denominator of all fee rates.
pub const FEE_DENOMINATOR: u128 = 1000;

/// Share of each swap input kept for the protocol treasury, per `FEE_DENOMINATOR`.
pub const PROTOCOL_FEE_RATE: u128 = 1;

/// Share of each swap input paid to liquidity providers, per `FEE_DENOMINATOR`.
pub const LP_FEE_RATE: u128 = 2;

/// Fixed-point scale of the share computed when liquidity is removed.
pub const PRECISION: u128 = 1_000_000;

/// `amount * rate / FEE_DENOMINATOR`, rounded down.
pub open spec fn fee_of(amount: int, rate: int) -> int {
    amount * rate / FEE_DENOMINATOR as int
}

pub open spec fn protocol_fee_of(amount: int) -> int {
    fee_of(amount, PROTOCOL_FEE_RATE as int)
}

pub open spec fn lp_fee_of(amount: int) -> int {
    fee_of(amount, LP_FEE_RATE as int)
}

/// What is priced once both fees are taken from the input.
pub open spec fn after_fees(amount: int) -> int {
    amount - protocol_fee_of(amount) - lp_fee_of(amount)
}

/// Output of the constant-product curve for reserves `r_in`, `r_out`.
pub open spec fn quote_of(r_in: int, r_out: int, amount_in: int) -> int {
    r_out - (r_in * r_out) / (r_in + amount_in)
}

/// `amount * rate / FEE_DENOMINATOR` for a rate of at most `FEE_DENOMINATOR`,
/// computed without overflow.
pub fn fee_part(amount: u128, rate: u128) -> (r: u128)
    requires
        rate <= FEE_DENOMINATOR,
    ensures
        r as int == fee_of(amount as int, rate as int),
        r <= amount,
{
    let q = amount / 1000;
    let m = amount % 1000;
    proof {
        let a = amount as int;
        let b = rate as int;
        assert(a == 1000 * (q as int) + m as int);
        assert(a * b == 1000 * (q as int * b) + m as int * b) by (nonlinear_arith)
            requires a == 1000 * (q as int) + m as int;
        assert(q as int * b <= q as int * 1000) by (nonlinear_arith)
            requires b <= 1000, q >= 0;
        assert(m as int * b <= 999 * 1000) by (nonlinear_arith)
            requires b <= 1000, 0 <= m < 1000;
        assert((1000 * (q as int * b) + m as int * b) / 1000 == q as int * b + (m as int * b) / 1000)
            by (nonlinear_arith)
            requires m as int * b >= 0;
        assert(m as int * b / 1000 <= m) by (nonlinear_arith)
            requires b <= 1000, 0 <= m;
    }
    q * rate + m * rate / 1000
}

/// Input left to price once the protocol and LP fees are taken.
pub fn amount_after_fees(amount: u128) -> (r: u128)
    ensures
        r as int == after_fees(amount as int),
{
    let p = fee_part(amount, PROTOCOL_FEE_RATE);
    let l = fee_part(amount, LP_FEE_RATE);
    proof {
        let a = amount as int;
        assert(a * 1 / 1000 + a * 2 / 1000 <= a) by (nonlinear_arith)
            requires a >= 0;
    }
    amount - p - l
}

/// Constant-product output for an input of `amount_in` against reserves
/// `r_in` and `r_out`; `None` when the grown input reserve does not fit.
pub fn quote(r_in: u128, r_out: u128, amount_in: u128) -> (r: Option<u128>)
    requires
        r_in > 0,
        r_out > 0,
    ensures
        r is Some <==> r_in as int + amount_in as int <= u128::MAX,
        r is Some ==> r->Some_0 as int == quote_of(r_in as int, r_out as int, amount_in as int),
{
    let d = match r_in.checked_add(amount_in) {
        Some(d) => d,
        None => return None,
    };
    Some(r_out - mul_div(r_in, r_out, d))
}

proof fn lemma_quote_le(r_in: int, r_out: int, x: int)
    requires
        r_in > 0,
        r_out > 0,
        x >= 0,
    ensures
        0 <= (r_in * r_out) / (r_in + x) <= r_out,
{
    assert(r_in * r_out <= (r_in + x) * r_out) by (nonlinear_arith)
        requires r_out > 0, x >= 0;
    vstd::arithmetic::div_mod::lemma_div_is_ordered(r_in * r_out, (r_in + x) * r_out, r_in + x);
    vstd::arithmetic::div_mod::lemma_div_multiples_vanish(r_out, r_in + x);
    assert((r_in + x) * r_out == r_out * (r_in + x)) by (nonlinear_arith);
    vstd::arithmetic::div_mod::lemma_div_pos_is_pos(r_in * r_out, r_in + x);
}

/// The quote never exceeds the output reserve, is zero for a zero input,
/// and does not decrease as the input grows.
pub proof fn lemma_quote_monotonic(r_in: int, r_out: int, x: int, y: int)
    requires
        r_in > 0,
        r_out > 0,
        0 <= x <= y,
    ensures
        quote_of(r_in, r_out, 0) == 0,
        0 <= quote_of(r_in, r_out, x) <= quote_of(r_in, r_out, y) <= r_out,
{
    vstd::arithmetic::div_mod::lemma_div_multiples_vanish(r_out, r_in);
    assert(r_in * r_out == r_out * r_in) by (nonlinear_arith);
    lemma_quote_le(r_in, r_out, x);
    lemma_quote_le(r_in, r_out, y);
    vstd::arithmetic::div_mod::lemma_div_is_ordered_by_denominator(r_in * r_out, r_in + x, r_in + y);
}

/// `a * m / c` rounded down, for `a < c` and `m < c`, without forming the full
/// product: for each set bit `j` of `a`, `m * 2^j` is added in quotient and
/// remainder form, the remainder kept below `c`.
fn mul_div_below(a: u128, m: u128, c: u128) -> (r: u128)
    requires
        a < c,
        m < c,
    ensures
        r as int == a as int * m as int / c as int,
{
    let mut x: u128 = a;
    let mut q: u128 = 0;
    let mut r: u128 = 0;
    let mut tq: u128 = 0;
    let mut tr: u128 = m;
    let ghost mut pw: int = 1;
    let ghost ai = a as int;
    let ghost mi = m as int;
    let ghost ci = c as int;
    while x > 0
        invariant
            0 <= ai < ci,
            0 <= mi < ci,
            ai == a,
            mi == m,
            ci == c,
            pw >= 1,
            x as int == ai / pw,
            (ai % pw) * mi == q as int * ci + r as int,
            r < c,
            x > 0 ==> mi * pw == tq as int * ci + tr as int,
            tr < c,
        decreases x,
    {
        proof {
            if pw > ai {
                vstd::arithmetic::div_mod::lemma_basic_div(ai, pw);
            }
            vstd::arithmetic::div_mod::lemma_mod_breakdown(ai, pw, 2);
            vstd::arithmetic::div_mod::lemma_div_denominator(ai, pw, 2);
            vstd::arithmetic::div_mod::lemma_fundamental_div_mod(ai, pw * 2);
            vstd::arithmetic::div_mod::lemma_mod_pos_bound(ai, pw * 2);
        }
        let ghost a_low = ai % (pw * 2);
        if x % 2 == 1 {
            proof {
                assert((ai / pw) % 2 == 1);
                let bit = (ai / pw) % 2;
                assert(pw * bit == pw) by (nonlinear_arith)
                    requires bit == 1;
                assert(a_low == pw + ai % pw);
                assert(a_low * mi == (q as int + tq as int) * ci + r as int + tr as int)
                    by (nonlinear_arith)
                    requires
                        a_low == pw + ai % pw,
                        (ai % pw) * mi == q as int * ci + r as int,
                        mi * pw == tq as int * ci + tr as int;
                assert(a_low <= ai);
            }
            if r >= c - tr {
                proof {
                    let big = q as int + tq as int + 1;
                    assert(big * ci <= a_low * mi) by (nonlinear_arith)
                        requires
                            big == q as int + tq as int + 1,
                            a_low * mi == (q as int + tq as int) * ci + r as int + tr as int,
                            r as int + tr as int >= ci;
                    assert(big <= mi) by (nonlinear_arith)
                        requires big * ci <= a_low * mi, 0 <= a_low <= ci, ci > 0, mi >= 0;
                    assert(a_low * mi == big * ci + (r as int + tr as int - ci)) by (nonlinear_arith)
                        requires
                            big == q as int + tq as int + 1,
                            a_low * mi == (q as int + tq as int) * ci + r as int + tr as int;
                }
                r = r - (c - tr);
                q = q + tq + 1;
            } else {
                proof {
                    let big = q as int + tq as int;
                    assert(big * ci <= a_low * mi) by (nonlinear_arith)
                        requires
                            big == q as int + tq as int,
                            a_low * mi == (q as int + tq as int) * ci + r as int + tr as int,
                            r >= 0,
                            tr >= 0;
                    assert(big <= mi) by (nonlinear_arith)
                        requires big * ci <= a_low * mi, 0 <= a_low <= ci, ci > 0, mi >= 0,
                            big >= 0;
                }
                r = r + tr;
                q = q + tq;
            }
        } else {
            proof {
                assert(a_low == ai % pw);
            }
        }
        let x2 = x / 2;
        if x2 > 0 {
            proof {
                if pw * 2 > ai {
                    vstd::arithmetic::div_mod::lemma_basic_div(ai, pw * 2);
                }
                assert(mi * (pw * 2) == 2 * (tq as int) * ci + 2 * (tr as int)) by (nonlinear_arith)
                    requires mi * pw == tq as int * ci + tr as int;
                assert(mi * (pw * 2) <= mi * ci) by (nonlinear_arith)
                    requires pw * 2 <= ai, ai < ci, mi >= 0;
            }
            if tr >= c - tr {
                proof {
                    assert(mi * (pw * 2) == (2 * tq as int + 1) * ci + (2 * tr as int - ci))
                        by (nonlinear_arith)
                        requires mi * (pw * 2) == 2 * (tq as int) * ci + 2 * (tr as int);
                    assert((2 * tq as int + 1) <= mi) by (nonlinear_arith)
                        requires
                            mi * (pw * 2) == (2 * tq as int + 1) * ci + (2 * tr as int - ci),
                            2 * tr as int - ci >= 0,
                            mi * (pw * 2) <= mi * ci,
                            ci > 0;
                }
                tq = 2 * tq + 1;
                tr = tr - (c - tr);
            } else {
                proof {
                    assert((2 * tq as int) <= mi) by (nonlinear_arith)
                        requires
                            mi * (pw * 2) == (2 * tq as int) * ci + 2 * tr as int,
                            tr >= 0,
                            mi * (pw * 2) <= mi * ci,
                            ci > 0;
                }
                tq = 2 * tq;
                tr = 2 * tr;
            }
        }
        x = x2;
        proof {
            pw = pw * 2;
        }
    }
    proof {
        vstd::arithmetic::div_mod::lemma_fundamental_div_mod(ai, pw);
        assert(ai / pw == 0);
        let d = ai / pw;
        assert(pw * d == 0) by (nonlinear_arith)
            requires d == 0;
        assert(ai % pw == ai);
        vstd::arithmetic::div_mod::lemma_fundamental_div_mod_converse_div(
            ai * mi,
            ci,
            q as int,
            r as int,
        );
    }
    q
}

/// `a * b / c` rounded down, for `a <= c`; the result never exceeds `b`, and
/// no intermediate value leaves 128 bits.
pub fn mul_div(a: u128, b: u128, c: u128) -> (r: u128)
    requires
        0 < c,
        a <= c,
    ensures
        r as int == a as int * b as int / c as int,
        r <= b,
{
    let ghost ai = a as int;
    let ghost bi = b as int;
    let ghost ci = c as int;
    proof {
        assert(ai * bi <= ci * bi) by (nonlinear_arith)
            requires ai <= ci, bi >= 0;
        vstd::arithmetic::div_mod::lemma_div_is_ordered(ai * bi, ci * bi, ci);
        vstd::arithmetic::div_mod::lemma_div_multiples_vanish(bi, ci);
    }
    if a == c {
        return b;
    }
    let k = b / c;
    let m = b % c;
    proof {
        vstd::arithmetic::div_mod::lemma_fundamental_div_mod(bi, ci);
        assert(ai * (k as int) <= bi) by (nonlinear_arith)
            requires bi == ci * k as int + m as int, m >= 0, 0 <= ai <= ci, k >= 0;
    }
    let lo = mul_div_below(a, m, c);
    proof {
        let rest = ai * m as int - lo as int * ci;
        vstd::arithmetic::div_mod::lemma_fundamental_div_mod(ai * m as int, ci);
        vstd::arithmetic::div_mod::lemma_mod_pos_bound(ai * m as int, ci);
        assert(lo as int * ci == ci * lo as int) by (nonlinear_arith);
        assert(0 <= rest < ci);
        assert(ai * bi == (ai * k as int + lo as int) * ci + rest) by (nonlinear_arith)
            requires bi == ci * k as int + m as int, rest == ai * m as int - lo as int * ci;
        vstd::arithmetic::div_mod::lemma_fundamental_div_mod_converse_div(
            ai * bi,
            ci,
            ai * k as int + lo as int,
            rest,
        );
    }
    a * k + lo
}

} // verus!
