use fund_unlock::fund::FundManager;
use fund_unlock::fund::Options;
use fund_unlock::fund::TICKS_IN_ROUND;
use fund_unlock::fund::TOTAL_AMOUNT;

const T0: i64 = 1_000_000;

fn fresh(init_timestamp: i64) -> Options {
    Options {
        init_timestamp,
        pending_round: 0,
        unlocked_ticks: 0,
        fraction_round: 0,
        fraction_peroid: 0,
    }
}

const INITIAL_BUCKET: u128 = TOTAL_AMOUNT / 40;
const TICK_BUCKET: u128 = INITIAL_BUCKET / 2_592_000;

#[test]
fn returns_zero_before_init() {
    let mut opts = fresh(T0);
    let before = opts;
    assert_eq!(FundManager::try_unlock(&mut opts, T0 - 1), 0);
    assert!(opts == before);
    assert_eq!(FundManager::try_unlock(&mut opts, T0), 0);
    assert!(opts == before);
}

#[test]
fn returns_zero_when_unconfigured() {
    let mut opts = fresh(0);
    let before = opts;
    assert_eq!(FundManager::try_unlock(&mut opts, 123_456_789), 0);
    assert!(opts == before);
}

#[test]
fn one_full_round() {
    assert_eq!(TICKS_IN_ROUND, 2_592_000);
    let mut opts = fresh(T0);
    let funding = FundManager::try_unlock(&mut opts, T0 + 2_592_000);
    assert_eq!(funding, INITIAL_BUCKET);
    assert_eq!(funding, 525_000_000_000_000_000_000_000u128);
    assert_eq!(opts.pending_round, 1);
    assert_eq!(opts.unlocked_ticks, 0);
}

#[test]
fn tick_by_tick() {
    let mut opts = fresh(T0);
    let mut total: u128 = 0;
    total += FundManager::try_unlock(&mut opts, T0 + 1);
    total += FundManager::try_unlock(&mut opts, T0 + 2);
    total += FundManager::try_unlock(&mut opts, T0 + 3);
    assert_eq!(total, 3 * TICK_BUCKET);
    assert_eq!(total, 607_638_888_888_888_888u128);
    assert_eq!(opts.pending_round, 0);
    assert_eq!(opts.unlocked_ticks, 3);
}

#[test]
fn halving_boundary() {
    let mut opts = fresh(T0);
    let funding = FundManager::try_unlock(&mut opts, T0 + 20 * 2_592_000 + 1);
    let halved_tick_bucket = (INITIAL_BUCKET / 2) / 2_592_000;
    assert_eq!(funding, 20 * INITIAL_BUCKET + halved_tick_bucket);
    assert_eq!(funding, 10_500_000_101_273_148_148_148_148u128);
    assert_eq!(opts.pending_round, 20);
    assert_eq!(opts.unlocked_ticks, 1);
}

#[test]
fn split_equals_single() {
    let mut split = fresh(T0);
    let mut total: u128 = 0;
    total += FundManager::try_unlock(&mut split, T0 + 123_456);
    total += FundManager::try_unlock(&mut split, T0 + 5_000_000);

    let mut single = fresh(T0);
    let at_once = FundManager::try_unlock(&mut single, T0 + 5_000_000);

    assert_eq!(total, at_once);
    assert!(split == single);
}

#[test]
fn repeat_same_timestamp_credits_nothing() {
    let mut opts = fresh(T0);
    let first = FundManager::try_unlock(&mut opts, T0 + 4_000_000);
    assert!(first > 0);
    let again = FundManager::try_unlock(&mut opts, T0 + 4_000_000);
    assert_eq!(again, 0);
}

#[test]
fn stale_timestamp_is_a_no_op() {
    let mut opts = fresh(T0);
    FundManager::try_unlock(&mut opts, T0 + 3 * 2_592_000);
    let before = opts;
    assert_eq!(FundManager::try_unlock(&mut opts, T0 + 2_592_000), 0);
    assert!(opts == before);
}

#[test]
fn speed_up_fractions() {
    let mut opts = fresh(T0);
    opts.fraction_round = 4;
    opts.fraction_peroid = 2;
    // Round length shrinks to 648 000 ticks and the halving period to 10
    // rounds, so one default round of wall-clock time covers 4 rounds.
    let funding = FundManager::try_unlock(&mut opts, T0 + 2_592_000);
    assert_eq!(funding, 4 * (TOTAL_AMOUNT / 20));
    assert_eq!(funding, 4_200_000_000_000_000_000_000_000u128);
    assert_eq!(opts.pending_round, 4);
    assert_eq!(opts.unlocked_ticks, 0);
}

#[test]
fn two_halving_periods() {
    // 45 rounds: 20 at the full allowance, 20 at half, 5 at a quarter,
    // plus 10 ticks of the quarter-rate round.
    let mut opts = fresh(T0);
    let funding = FundManager::try_unlock(&mut opts, T0 + 45 * 2_592_000 + 10);
    let expected = 20 * INITIAL_BUCKET + 20 * (INITIAL_BUCKET / 2) + 5 * (INITIAL_BUCKET / 4)
        + 10 * ((INITIAL_BUCKET / 4) / 2_592_000);
    assert_eq!(funding, expected);
    assert_eq!(funding, 16_406_250_506_365_740_740_740_740u128);
    assert_eq!(opts.pending_round, 45);
    assert_eq!(opts.unlocked_ticks, 10);
}

#[test]
fn far_future_emission_converges_to_the_supply() {
    // After 130 halvings the per-round allowance has been rounded down to
    // zero; what has been emitted falls short of the supply only by the
    // accumulated truncation loss.
    let mut opts = fresh(T0);
    let funding = FundManager::try_unlock(&mut opts, T0 + 2_600 * 2_592_000);
    assert_eq!(funding, 20_999_999_999_999_999_999_999_380u128);
    assert_eq!(TOTAL_AMOUNT - funding, 620);
    assert_eq!(opts.pending_round, 2_600);
    assert_eq!(opts.unlocked_ticks, 0);
}

#[test]
fn rounds_never_decrease_and_ticks_stay_in_range() {
    let mut opts = fresh(T0);
    let timestamps = [
        T0 + 1,
        T0 + 2_000_000,
        T0 + 2_600_000,
        T0 + 9_000_000,
        T0 + 9_000_001,
        T0 + 60_000_000,
    ];
    let mut last_round = opts.pending_round;
    for t in timestamps {
        FundManager::try_unlock(&mut opts, t);
        assert!(opts.pending_round >= last_round);
        assert!(0 <= opts.unlocked_ticks && opts.unlocked_ticks < TICKS_IN_ROUND);
        last_round = opts.pending_round;
    }
}
