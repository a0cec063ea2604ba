//! The unlock engine: per-beneficiary vesting state and the computation that
//! credits newly unlockable funds as time advances.

use vstd::prelude::*;
use vstd::arithmetic::div_mod::*;
use vstd::arithmetic::mul::*;
use vstd::arithmetic::power2::*;

verus! {

/// Number of rounds after which the per-round allowance is halved.
pub const PERIOD: i64 = 20;

/// Ticks (seconds) in one round of 30 days.
pub const TICKS_IN_ROUND: i64 = 30 * 24 * 3600;

/// Halving divisor applied to the per-round allowance every `PERIOD` rounds.
pub const FACTOR: u32 = 2;

/// Total fixed supply emitted by the engine, in the smallest unit
/// (21 million tokens of 10^18 units each).  Every intermediate value of the
/// computation is bounded by this constant, so 128-bit arithmetic never
/// overflows.
pub const TOTAL_AMOUNT: u128 = 21_000_000_000_000_000_000_000_000;

/// Per-beneficiary vesting state, persisted between calls.
#[derive(Clone, Copy, Debug, PartialEq, Eq, Structural)]
pub struct Options {
    /// Tick at which emission begins; `0` means "not yet configured".
    pub init_timestamp: i64,
    /// Index of the first round not yet fully credited.
    pub pending_round: i64,
    /// Ticks already credited within `pending_round`.
    pub unlocked_ticks: i64,
    /// Speed up fraction: when `> 1`, divides the round length.
    pub fraction_round: i64,
    /// Speed up fraction: when `> 1`, divides the halving period.
    pub fraction_peroid: i64,
}

impl Default for Options {
    /// A freshly created state: unconfigured, nothing credited.
    fn default() -> (r: Self)
        ensures
            r == (Options {
                init_timestamp: 0,
                pending_round: 0,
                unlocked_ticks: 0,
                fraction_round: 0,
                fraction_peroid: 0,
            }),
    {
        Options {
            init_timestamp: 0,
            pending_round: 0,
            unlocked_ticks: 0,
            fraction_round: 0,
            fraction_peroid: 0,
        }
    }
}

/// Round length in ticks, after applying the speed-up fraction.
pub open spec fn spec_ticks_in_round(o: Options) -> int {
    if o.fraction_round > 1 {
        TICKS_IN_ROUND as int / o.fraction_round as int
    } else {
        TICKS_IN_ROUND as int
    }
}

/// Halving period in rounds, after applying the speed-up fraction.
pub open spec fn spec_period(o: Options) -> int {
    if o.fraction_peroid > 1 {
        PERIOD as int / o.fraction_peroid as int
    } else {
        PERIOD as int
    }
}

/// Per-round allowance before any halving, chosen so that the infinite
/// geometric sum of per-round allowances converges to the total supply.
pub open spec fn spec_initial_bucket(o: Options) -> int {
    TOTAL_AMOUNT as int / (FACTOR as int * spec_period(o))
}

/// Per-round allowance for a given round: the initial allowance halved once
/// for every full period the round lies past round zero.
pub open spec fn spec_bucket(o: Options, round: int) -> int
    recommends
        round >= 0,
        spec_period(o) >= 1,
{
    spec_initial_bucket(o) / (pow2((round / spec_period(o)) as nat) as int)
}

/// Per-tick allowance within a given round.
pub open spec fn spec_tick_bucket(o: Options, round: int) -> int
    recommends
        round >= 0,
        spec_period(o) >= 1,
        spec_ticks_in_round(o) >= 1,
{
    spec_bucket(o, round) / spec_ticks_in_round(o)
}

/// Sum of the per-round allowances of rounds `0, .., n - 1`: the amount
/// credited once the first `n` rounds are fully unlocked.
pub open spec fn rounds_total(o: Options, n: int) -> int
    decreases n,
{
    if n <= 0 {
        0
    } else {
        rounds_total(o, n - 1) + spec_bucket(o, n - 1)
    }
}

/// Cumulative amount represented by a state that has fully credited every
/// round below `round` and `ticks` further ticks within `round`.
pub open spec fn credited(o: Options, round: int, ticks: int) -> int {
    rounds_total(o, round) + ticks * spec_tick_bucket(o, round)
}

/// Whether a call at `timestamp` performs any crediting at all: the state is
/// configured and the timestamp lies past the start of emission.
pub open spec fn is_active(o: Options, timestamp: i64) -> bool {
    o.init_timestamp != 0 && timestamp > o.init_timestamp
}

/// The round index that `timestamp` has fully or partially reached.
pub open spec fn spec_expected_round(o: Options, timestamp: i64) -> int {
    (timestamp - o.init_timestamp) / spec_ticks_in_round(o)
}

/// The ticks elapsed within the round that `timestamp` lies in.
pub open spec fn spec_tick_offset(o: Options, timestamp: i64) -> int {
    (timestamp - o.init_timestamp) % spec_ticks_in_round(o)
}

/// What a call of the engine at `timestamp` returns: nothing when inactive or
/// when the state is already ahead of `timestamp`, and otherwise exactly the
/// difference between the cumulative emission at `timestamp` and the
/// cumulative emission the state already accounts for.
pub open spec fn unlock_amount(o: Options, timestamp: i64) -> int {
    if !is_active(o, timestamp) || spec_expected_round(o, timestamp) < o.pending_round {
        0
    } else {
        credited(o, spec_expected_round(o, timestamp), spec_tick_offset(o, timestamp))
            - credited(o, o.pending_round as int, o.unlocked_ticks as int)
    }
}

/// The state a call of the engine at `timestamp` leaves behind.
pub open spec fn state_after_unlock(o: Options, timestamp: i64) -> Options {
    if !is_active(o, timestamp) || spec_expected_round(o, timestamp) < o.pending_round {
        o
    } else {
        Options {
            pending_round: spec_expected_round(o, timestamp) as i64,
            unlocked_ticks: spec_tick_offset(o, timestamp) as i64,
            ..o
        }
    }
}

/// The inputs on which the engine may be called.  An inactive call (timestamp
/// not past the configured start) is always allowed.  An active call asks
/// that the derived round length and period are positive (a larger speed-up
/// fraction would divide them to zero), that the state is well formed in the
/// current units, that the elapsed time fits the machine word, and that the
/// state does not already sit past `timestamp` within the current round.
pub open spec fn valid_unlock_call(o: Options, timestamp: i64) -> bool {
    is_active(o, timestamp) ==> {
        &&& spec_ticks_in_round(o) >= 1
        &&& spec_period(o) >= 1
        &&& o.pending_round >= 0
        &&& 0 <= o.unlocked_ticks < spec_ticks_in_round(o)
        &&& timestamp - o.init_timestamp <= i64::MAX
        &&& (spec_expected_round(o, timestamp) == o.pending_round
            ==> o.unlocked_ticks <= spec_tick_offset(o, timestamp))
    }
}

/// Sum of `b / 2^e` for `e = 0, .., k - 1`: the value of one round of each
/// halving step, used to bound the whole emission.
pub open spec fn halving_sum(b: int, k: nat) -> int
    decreases k,
{
    if k == 0 {
        0
    } else {
        halving_sum(b, (k - 1) as nat) + b / (pow2((k - 1) as nat) as int)
    }
}

/// Each halving step at least halves the integer quotient.
proof fn lemma_pow2_div_halves(b: int, e: nat)
    requires
        b >= 0,
    ensures
        b / (pow2(e + 1) as int) == (b / (pow2(e) as int)) / 2,
        b / (pow2(e) as int) >= 2 * (b / (pow2(e + 1) as int)),
{
    lemma_pow2_pos(e);
    lemma_pow2_pos(e + 1);
    lemma_pow2_adds(e, 1);
    lemma2_to64();
    lemma_div_denominator(b, pow2(e) as int, 2);
    assert(pow2(e + 1) == pow2(e) * 2);
    let q: int = b / (pow2(e) as int);
    lemma_fundamental_div_mod(q, 2);
    lemma_div_pos_is_pos(b, pow2(e) as int);
    lemma_mod_bound(q, 2);
}

/// The truncated geometric sum never exceeds twice its first term.
proof fn lemma_halving_sum_bound(b: int, k: nat)
    requires
        b >= 0,
    ensures
        0 <= halving_sum(b, k) <= 2 * b,
        k >= 1 ==> halving_sum(b, k) <= 2 * b - b / (pow2((k - 1) as nat) as int),
    decreases k,
{
    if k == 0 {
    } else if k == 1 {
        lemma2_to64();
        lemma_div_basics(b);
        assert(halving_sum(b, 0) == 0);
        assert(halving_sum(b, 1) == b / (pow2(0) as int));
    } else {
        let k1: nat = (k - 1) as nat;
        lemma_halving_sum_bound(b, k1);
        lemma_pow2_div_halves(b, (k1 - 1) as nat);
        lemma_pow2_pos(k1);
        lemma_div_pos_is_pos(b, pow2(k1) as int);
    }
}

/// `rounds_total` written as full periods plus a partial period: `n` rounds
/// consist of `n / period` full periods, each contributing `period` rounds of
/// one halving step, and `n % period` further rounds of the next step.
proof fn lemma_rounds_total_split(o: Options, n: int)
    requires
        n >= 0,
        spec_period(o) >= 1,
    ensures
        rounds_total(o, n) == spec_period(o) * halving_sum(
            spec_initial_bucket(o),
            (n / spec_period(o)) as nat,
        ) + (n % spec_period(o)) * (spec_initial_bucket(o) / (pow2(
            (n / spec_period(o)) as nat,
        ) as int)),
    decreases n,
{
    let p: int = spec_period(o);
    let b: int = spec_initial_bucket(o);
    if n == 0 {
        lemma_mul_basics(p);
        lemma_fundamental_div_mod_converse(n, p, 0, 0);
        assert(rounds_total(o, n) == 0);
        assert(halving_sum(b, (n / p) as nat) == 0);
        assert((n % p) * (b / (pow2((n / p) as nat) as int)) == 0);
    } else {
        lemma_rounds_total_split(o, n - 1);
        lemma_mod_bound(n - 1, p);
        lemma_fundamental_div_mod(n - 1, p);
        let k: int = (n - 1) / p;
        let j: int = (n - 1) % p;
        lemma_div_pos_is_pos(n - 1, p);
        if j + 1 < p {
            // `n` stays within the same period.
            lemma_mul_is_commutative(p, k);
            assert(n == k * p + (j + 1));
            lemma_fundamental_div_mod_converse(n, p, k, j + 1);
            assert(spec_bucket(o, n - 1) == b / (pow2(k as nat) as int));
            lemma_mul_is_distributive_add_other_way(b / (pow2(k as nat) as int), j, 1);
            lemma_mul_basics(b / (pow2(k as nat) as int));
            assert(n / p == k && n % p == j + 1);
            assert(rounds_total(o, n) == rounds_total(o, n - 1) + b / (pow2(k as nat) as int));
            assert(rounds_total(o, n - 1) == p * halving_sum(b, k as nat) + j * (b / (pow2(
                k as nat,
            ) as int)));
            assert(rounds_total(o, n) == p * halving_sum(b, k as nat) + (j + 1) * (b / (pow2(
                k as nat,
            ) as int)));
        } else {
            // `n` completes a period: fold its last round into the sum.
            assert(j + 1 == p);
            lemma_mul_is_distributive_add_other_way(p, k, 1);
            lemma_mul_basics(p);
            lemma_mul_is_commutative(p, k);
            assert((k + 1) * p == k * p + p);
            assert(n == (k + 1) * p + 0);
            lemma_fundamental_div_mod_converse(n, p, k + 1, 0);
            assert(spec_bucket(o, n - 1) == b / (pow2(k as nat) as int));
            assert(halving_sum(b, (k + 1) as nat) == halving_sum(b, k as nat) + b / (pow2(
                k as nat,
            ) as int));
            lemma_mul_is_distributive_add(p, halving_sum(b, k as nat), b / (pow2(k as nat) as int));
            lemma_mul_is_distributive_add_other_way(b / (pow2(k as nat) as int), j, 1);
            lemma_mul_basics(b / (pow2(k as nat) as int));
            assert(n / p == k + 1 && n % p == 0);
            assert(rounds_total(o, n) == rounds_total(o, n - 1) + b / (pow2(k as nat) as int));
            assert(rounds_total(o, n) == p * halving_sum(b, k as nat) + p * (b / (pow2(
                k as nat,
            ) as int)));
            assert(rounds_total(o, n) == p * halving_sum(b, (k + 1) as nat));
        }
    }
}

/// The emission never exceeds the total supply: however many rounds have
/// fully elapsed, the credited rounds sum to at most `TOTAL_AMOUNT`.
proof fn lemma_rounds_total_bounds(o: Options, n: int)
    requires
        n >= 0,
        spec_period(o) >= 1,
    ensures
        0 <= rounds_total(o, n) <= TOTAL_AMOUNT,
    decreases n,
{
    let p: int = spec_period(o);
    let b: int = spec_initial_bucket(o);
    lemma_div_pos_is_pos(TOTAL_AMOUNT as int, 2 * p);
    if n > 0 {
        lemma_rounds_total_bounds(o, n - 1);
        lemma_pow2_pos(((n - 1) / p) as nat);
        lemma_div_pos_is_pos(n - 1, p);
        lemma_div_pos_is_pos(b, pow2(((n - 1) / p) as nat) as int);
    }
    lemma_rounds_total_split(o, n);
    let k: nat = (n / p) as nat;
    let step: int = b / (pow2(k) as int);
    lemma_div_pos_is_pos(n, p);
    lemma_pow2_pos(k);
    lemma_div_pos_is_pos(b, pow2(k) as int);
    lemma_mod_bound(n, p);
    // (n % p) * step <= p * step, so n rounds fit in (k + 1) halving steps.
    lemma_mul_inequality(n % p, p, step);
    lemma_mul_is_commutative(n % p, step);
    lemma_mul_is_commutative(p, step);
    assert(halving_sum(b, k + 1) == halving_sum(b, k) + step);
    lemma_mul_is_distributive_add(p, halving_sum(b, k), step);
    lemma_halving_sum_bound(b, k + 1);
    lemma_mul_inequality(halving_sum(b, k + 1), 2 * b, p);
    lemma_mul_is_commutative(halving_sum(b, k + 1), p);
    lemma_mul_is_commutative(2 * b, p);
    // p * (2 * b) == (2 * p) * b <= TOTAL_AMOUNT, since b == TOTAL / (2 * p).
    lemma_mul_is_associative(2, p, b);
    lemma_mul_is_associative(p, 2, b);
    lemma_mul_is_commutative(p, 2);
    lemma_fundamental_div_mod(TOTAL_AMOUNT as int, 2 * p);
    lemma_mod_bound(TOTAL_AMOUNT as int, 2 * p);
}

/// Cumulative credit of a well-formed state never exceeds the total supply.
proof fn lemma_credited_bounds(o: Options, round: int, ticks: int)
    requires
        round >= 0,
        spec_period(o) >= 1,
        spec_ticks_in_round(o) >= 1,
        0 <= ticks < spec_ticks_in_round(o),
    ensures
        0 <= credited(o, round, ticks) <= TOTAL_AMOUNT,
        ticks * spec_tick_bucket(o, round) <= spec_bucket(o, round),
{
    let tir: int = spec_ticks_in_round(o);
    let bucket: int = spec_bucket(o, round);
    let tb: int = spec_tick_bucket(o, round);
    lemma_pow2_pos((round / spec_period(o)) as nat);
    lemma_div_pos_is_pos(round, spec_period(o));
    lemma_div_pos_is_pos(TOTAL_AMOUNT as int, 2 * spec_period(o));
    lemma_div_pos_is_pos(spec_initial_bucket(o), pow2((round / spec_period(o)) as nat) as int);
    lemma_div_pos_is_pos(bucket, tir);
    // ticks * tb <= (tir - 1) * tb == tir * tb - tb <= bucket.
    lemma_mul_inequality(ticks, tir - 1, tb);
    lemma_mul_is_distributive_sub_other_way(tb, tir, 1);
    lemma_mul_basics(tb);
    lemma_fundamental_div_mod(bucket, tir);
    lemma_mod_bound(bucket, tir);
    lemma_mul_nonnegative(ticks, tb);
    lemma_rounds_total_bounds(o, round);
    lemma_rounds_total_bounds(o, round + 1);
    assert(rounds_total(o, round + 1) == rounds_total(o, round) + bucket);
}

/// The unlock engine.  Stateless itself: callers load an [`Options`] record
/// from storage, let the engine advance it, and persist it back.
pub struct FundManager;

impl FundManager {
    /// Unlock address: the beneficiary's fixed ledger account, as
    /// hexadecimal text for [`crate::hex::from_hex_str`].
    pub fn beneficiary_hex() -> (r: &'static str)
        ensures
            r@ == "9621dde636de098b43efb0fa9b61facfe328f99d"@,
    {
        "9621dde636de098b43efb0fa9b61facfe328f99d"
    }

    /// The total supply in its hexadecimal form, for
    /// [`crate::hex::hex_to_u128`]; its value is [`TOTAL_AMOUNT`].
    pub fn total_amount_hex() -> (r: &'static str)
        ensures
            r@ == "115EEC47F6CF7E35000000"@,
    {
        "115EEC47F6CF7E35000000"
    }

    /// Primary unlock method: credits every tick between the position the
    /// state already accounts for and `timestamp`, and advances the state to
    /// `timestamp`'s position.
    ///
    /// Returns zero and leaves the state unchanged when emission is not
    /// configured, when `timestamp` does not lie past its start, or when the
    /// state already sits past `timestamp`.  Otherwise returns exactly the
    /// difference between the cumulative emission at `timestamp` and the
    /// cumulative emission already credited, so that splitting a time span
    /// over several calls credits the same total as one call.
    pub fn try_unlock(opts: &mut Options, timestamp: i64) -> (funding: u128)
        requires
            valid_unlock_call(*old(opts), timestamp),
        ensures
            funding as int == unlock_amount(*old(opts), timestamp),
            funding <= TOTAL_AMOUNT,
            *final(opts) == state_after_unlock(*old(opts), timestamp),
            final(opts).pending_round >= old(opts).pending_round,
            is_active(*old(opts), timestamp) ==> 0 <= final(opts).unlocked_ticks
                < spec_ticks_in_round(*old(opts)),
            !is_active(*old(opts), timestamp) ==> funding == 0 && *final(opts) == *old(opts),
    {
        let ghost o: Options = *opts;
        let init_timestamp: i64 = opts.init_timestamp;
        if timestamp <= init_timestamp || init_timestamp == 0 {
            return 0;
        }
        let fraction_r: i64 = opts.fraction_round;
        let ticks_in_round: u64 = if fraction_r > 1 {
            (TICKS_IN_ROUND as u64) / (fraction_r as u64)
        } else {
            TICKS_IN_ROUND as u64
        };
        let fraction_p: i64 = opts.fraction_peroid;
        let period: u64 = if fraction_p > 1 {
            (PERIOD as u64) / (fraction_p as u64)
        } else {
            PERIOD as u64
        };
        let delta: u64 = (timestamp - init_timestamp) as u64;
        let mut pending_round: u64 = opts.pending_round as u64;
        let mut unlocked_ticks: u64 = opts.unlocked_ticks as u64;
        let expected_round: u64 = delta / ticks_in_round;
        let mut funding: u128 = 0;
        let mut exponent: u64 = 0;
        let initial_bucket: u128 = TOTAL_AMOUNT / ((FACTOR as u128) * (period as u128));
        let mut bucket: u128 = initial_bucket;
        let mut tick_bucket: u128 = bucket / (ticks_in_round as u128);
        proof {
            lemma2_to64();
            lemma_div_basics(initial_bucket as int);
            lemma_div_pos_is_pos(delta as int, ticks_in_round as int);
            lemma_div_nonincreasing(delta as int, ticks_in_round as int);
        }
        while expected_round >= pending_round
            invariant_except_break
                unlocked_ticks as int == if pending_round as int == o.pending_round as int {
                    o.unlocked_ticks as int
                } else {
                    0int
                },
                unlocked_ticks < ticks_in_round,
                funding as int == credited(o, pending_round as int, unlocked_ticks as int)
                    - credited(o, o.pending_round as int, o.unlocked_ticks as int),
            invariant
                ticks_in_round as int == spec_ticks_in_round(o),
                1 <= ticks_in_round,
                period as int == spec_period(o),
                1 <= period,
                initial_bucket as int == spec_initial_bucket(o),
                bucket as int == spec_initial_bucket(o) / (pow2(exponent as nat) as int),
                tick_bucket as int == bucket as int / spec_ticks_in_round(o),
                *opts == o,
                valid_unlock_call(o, timestamp),
                is_active(o, timestamp),
                delta as int == timestamp - o.init_timestamp,
                expected_round as int == spec_expected_round(o, timestamp),
                o.pending_round as int <= pending_round as int,
                pending_round <= expected_round || pending_round as int == o.pending_round as int,
            ensures
                *opts == o,
                pending_round as int == state_after_unlock(o, timestamp).pending_round as int,
                unlocked_ticks as int == state_after_unlock(o, timestamp).unlocked_ticks as int,
                funding as int == unlock_amount(o, timestamp),
                pending_round as int >= o.pending_round as int,
                unlocked_ticks < ticks_in_round,
            decreases expected_round - pending_round,
        {
            let e: u64 = pending_round / period;
            if exponent != e {
                exponent = e;
                bucket = div_pow2(initial_bucket, exponent);
                tick_bucket = bucket / (ticks_in_round as u128);
            }
            proof {
                assert(bucket as int == spec_bucket(o, pending_round as int));
                assert(tick_bucket as int == spec_tick_bucket(o, pending_round as int));
                lemma_credited_bounds(o, o.pending_round as int, o.unlocked_ticks as int);
            }
            if expected_round - pending_round >= 1 {
                proof {
                    let p: int = pending_round as int;
                    let u: int = unlocked_ticks as int;
                    lemma_credited_bounds(o, p, u);
                    lemma_credited_bounds(o, p + 1, 0);
                    assert(rounds_total(o, p + 1) == rounds_total(o, p) + spec_bucket(o, p));
                    lemma_mul_basics(spec_tick_bucket(o, p + 1));
                    assert(credited(o, p + 1, 0) == rounds_total(o, p) + spec_bucket(o, p));
                }
                funding = funding + (bucket - (unlocked_ticks as u128) * tick_bucket);
                unlocked_ticks = 0;
                pending_round = pending_round + 1;
            } else {
                proof {
                    assert(pending_round == expected_round);
                    lemma_fundamental_div_mod(delta as int, ticks_in_round as int);
                    lemma_mod_bound(delta as int, ticks_in_round as int);
                    assert(spec_tick_offset(o, timestamp) == delta as int % ticks_in_round as int);
                    let rem: int = delta as int % ticks_in_round as int;
                    assert(ticks_in_round as int * (expected_round as int) <= delta as int);
                    assert(unlocked_ticks as int <= rem);
                    lemma_credited_bounds(o, expected_round as int, rem);
                    lemma_credited_bounds(o, expected_round as int, unlocked_ticks as int);
                    lemma_mul_is_distributive_sub_other_way(
                        tick_bucket as int,
                        rem,
                        unlocked_ticks as int,
                    );
                }
                let ticks: u64 = delta - ticks_in_round * pending_round - unlocked_ticks;
                funding = funding + (ticks as u128) * tick_bucket;
                unlocked_ticks = (unlocked_ticks + ticks) % ticks_in_round;
                proof {
                    lemma_small_mod(
                        (delta as int % ticks_in_round as int) as nat,
                        ticks_in_round as nat,
                    );
                    assert(unlocked_ticks as int == spec_tick_offset(o, timestamp));
                }
                break;
            }
        }
        proof {
            if spec_expected_round(o, timestamp) >= o.pending_round {
                lemma_div_pos_is_pos(delta as int, ticks_in_round as int);
                lemma_mod_bound(delta as int, ticks_in_round as int);
                lemma_credited_bounds(
                    o,
                    spec_expected_round(o, timestamp),
                    spec_tick_offset(o, timestamp),
                );
                lemma_credited_bounds(o, o.pending_round as int, o.unlocked_ticks as int);
            }
        }
        opts.pending_round = pending_round as i64;
        opts.unlocked_ticks = unlocked_ticks as i64;
        funding
    }
}

/// The emission curve depends only on the speed-up fractions: two states
/// that agree on them share every per-round allowance.
proof fn lemma_rounds_total_same(o1: Options, o2: Options, n: int)
    requires
        o1.fraction_round == o2.fraction_round,
        o1.fraction_peroid == o2.fraction_peroid,
    ensures
        rounds_total(o1, n) == rounds_total(o2, n),
    decreases n,
{
    if n > 0 {
        lemma_rounds_total_same(o1, o2, n - 1);
    }
}

/// Call-granularity invariance: however a time span is split over calls,
/// the credited total is the same.  Unlocking at `t1` and then at `t2`
/// credits in total exactly what a single call at `t2` from the initial
/// state credits, and the state the first call leaves behind is again a
/// valid input for the second.
pub proof fn lemma_unlock_split(o: Options, t1: i64, t2: i64)
    requires
        valid_unlock_call(o, t1),
        valid_unlock_call(o, t2),
        t1 <= t2,
    ensures
        unlock_amount(o, t1) + unlock_amount(state_after_unlock(o, t1), t2) == unlock_amount(
            o,
            t2,
        ),
        valid_unlock_call(state_after_unlock(o, t1), t2),
        state_after_unlock(state_after_unlock(o, t1), t2) == state_after_unlock(o, t2),
{
    let s1: Options = state_after_unlock(o, t1);
    if !is_active(o, t1) || spec_expected_round(o, t1) < o.pending_round {
        // The first call is a no-op: the state is unchanged and it credits
        // nothing, so the claim is the second call itself.
        assert(s1 == o);
    } else {
        let init: int = o.init_timestamp as int;
        let tir: int = spec_ticks_in_round(o);
        let e1: int = spec_expected_round(o, t1);
        let r1: int = spec_tick_offset(o, t1);
        let e2: int = spec_expected_round(o, t2);
        let r2: int = spec_tick_offset(o, t2);
        lemma_div_is_ordered(t1 - init, t2 - init, tir);
        lemma_div_pos_is_pos(t1 - init, tir);
        lemma_div_nonincreasing(t1 - init, tir);
        lemma_mod_bound(t1 - init, tir);
        lemma_mod_bound(t2 - init, tir);
        assert(s1.pending_round as int == e1);
        assert(s1.unlocked_ticks as int == r1);
        assert(spec_ticks_in_round(s1) == tir);
        assert(spec_period(s1) == spec_period(o));
        assert(spec_expected_round(s1, t2) == e2);
        assert(spec_tick_offset(s1, t2) == r2);
        if e2 == e1 {
            // Within one round the tick offset grows with the timestamp.
            lemma_fundamental_div_mod(t1 - init, tir);
            lemma_fundamental_div_mod(t2 - init, tir);
            assert(r1 <= r2);
        }
        lemma_rounds_total_same(o, s1, e1);
        lemma_rounds_total_same(o, s1, e2);
        assert(credited(s1, e1, r1) == credited(o, e1, r1));
        assert(credited(s1, e2, r2) == credited(o, e2, r2));
        assert(state_after_unlock(s1, t2) == state_after_unlock(o, t2));
    }
}

/// The state left behind by a whole run of calls, one per timestamp.
pub open spec fn state_after_calls(o: Options, ts: Seq<i64>) -> Options
    decreases ts.len(),
{
    if ts.len() == 0 {
        o
    } else {
        state_after_unlock(state_after_calls(o, ts.drop_last()), ts.last())
    }
}

/// The total amount credited by a whole run of calls, one per timestamp.
pub open spec fn total_unlocked(o: Options, ts: Seq<i64>) -> int
    decreases ts.len(),
{
    if ts.len() == 0 {
        0
    } else {
        total_unlocked(o, ts.drop_last()) + unlock_amount(
            state_after_calls(o, ts.drop_last()),
            ts.last(),
        )
    }
}

/// Call-granularity invariance over a whole run: for any non-decreasing
/// sequence of timestamps that are each valid calls on the initial state,
/// the amounts credited along the run sum to exactly what a single call at
/// the final timestamp credits, and the run ends in the single call's state.
pub proof fn lemma_unlock_sequence(o: Options, ts: Seq<i64>)
    requires
        ts.len() >= 1,
        forall|i: int, j: int| 0 <= i <= j < ts.len() ==> #[trigger] ts[i] <= #[trigger] ts[j],
        forall|i: int| 0 <= i < ts.len() ==> valid_unlock_call(o, #[trigger] ts[i]),
    ensures
        total_unlocked(o, ts) == unlock_amount(o, ts.last()),
        state_after_calls(o, ts) == state_after_unlock(o, ts.last()),
    decreases ts.len(),
{
    if ts.len() == 1 {
        assert(ts.drop_last().len() == 0);
        assert(total_unlocked(o, ts.drop_last()) == 0);
        assert(state_after_calls(o, ts.drop_last()) == o);
    } else {
        let head: Seq<i64> = ts.drop_last();
        assert(forall|i: int| 0 <= i < head.len() ==> head[i] == ts[i]);
        assert(head.last() == ts[ts.len() - 2]);
        lemma_unlock_sequence(o, head);
        lemma_unlock_split(o, head.last(), ts.last());
        assert(total_unlocked(o, ts) == total_unlocked(o, head) + unlock_amount(
            state_after_calls(o, head),
            ts.last(),
        ));
        assert(state_after_calls(o, ts) == state_after_unlock(
            state_after_calls(o, head),
            ts.last(),
        ));
    }
}

/// Truncated division by a power of two, by repeated halving.
fn div_pow2(x: u128, e: u64) -> (r: u128)
    ensures
        r as int == x as int / (pow2(e as nat) as int),
{
    proof {
        lemma2_to64();
    }
    if e >= 128 {
        // The quotient is zero: 2^e exceeds every 128-bit value.
        proof {
            lemma_pow2_adds(64, 64);
            if e > 128 {
                lemma_pow2_strictly_increases(128, e as nat);
            }
            lemma_pow2_pos(e as nat);
            lemma_basic_div(x as int, pow2(e as nat) as int);
        }
        0
    } else {
        let mut r: u128 = x;
        let mut i: u64 = 0;
        while i < e
            invariant
                i <= e,
                r as int == x as int / (pow2(i as nat) as int),
            decreases e - i,
        {
            proof {
                lemma_pow2_div_halves(x as int, i as nat);
            }
            r = r / 2;
            i = i + 1;
        }
        r
    }
}

} // verus!
