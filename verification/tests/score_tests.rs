use mcts_tic_tac_toe::score::{isqrt, ln_fixed, uct, LN2_SCALED, SCALE};

#[test]
fn test_isqrt_small_values() {
    assert_eq!(isqrt(0), 0);
    assert_eq!(isqrt(1), 1);
    assert_eq!(isqrt(15), 3);
    assert_eq!(isqrt(16), 4);
    assert_eq!(isqrt(1_000_000), 1000);
}

#[test]
fn test_isqrt_rounds_down() {
    for x in [2u64, 99, 12345, 987654321, u64::MAX] {
        let r = isqrt(x);
        assert!((r as u128) * (r as u128) <= x as u128);
        assert!((r as u128 + 1) * (r as u128 + 1) > x as u128);
    }
}

#[test]
fn test_ln_fixed_powers_of_two() {
    assert_eq!(ln_fixed(0), 0);
    assert_eq!(ln_fixed(1), 0);
    assert_eq!(ln_fixed(2), LN2_SCALED);
    assert_eq!(ln_fixed(4), 2 * LN2_SCALED);
    assert_eq!(ln_fixed(1024), 10 * LN2_SCALED);
}

#[test]
fn test_ln_fixed_interpolates() {
    // Halfway between 2 and 4 the interpolation adds half of ln(2)
    assert_eq!(ln_fixed(3), LN2_SCALED + LN2_SCALED / 2);
}

#[test]
fn test_uct_no_exploration_at_single_visit() {
    // ln(1) = 0: a sole visit leaves only the exploitation term
    assert_eq!(uct(1, 2, 1), SCALE);
    assert_eq!(uct(1, 1, 1), SCALE / 2);
    assert_eq!(uct(1, 0, 1), 0);
}

#[test]
fn test_uct_exploration_grows_with_parent_visits() {
    // With equal win rates, a larger parent visit count raises the score
    let low = uct(2, 0, 1);
    let high = uct(1000, 0, 1);
    assert!(low > 0);
    assert!(high > low);
}
