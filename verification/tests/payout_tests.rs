use minicact::payout::{Payout, payout_amount, tier_of_sum};

#[test]
fn payout_amounts_match_table() {
    let expected: [u16; 17] = [
        0, 36, 54, 72, 80, 108, 119, 144, 180, 252, 306, 360, 720, 1080, 1800, 3600, 10000,
    ];
    for i in 0..17 {
        assert_eq!(payout_amount(i), expected[i]);
    }
}

#[test]
fn tiers_match_table() {
    let expected: [usize; 19] = [15, 0, 11, 10, 3, 8, 4, 2, 1, 7, 2, 7, 5, 0, 9, 12, 6, 13, 14];
    for sum in 3..=21 {
        assert_eq!(tier_of_sum(sum), expected[sum - 3]);
    }
}

#[test]
fn tier_values_are_consistent() {
    // the three lowest sums of distinct digits pay the three top tiers
    assert_eq!(payout_amount(tier_of_sum(3) + 1), 10000);
    assert_eq!(payout_amount(tier_of_sum(4) + 1), 36);
    assert_eq!(payout_amount(tier_of_sum(21) + 1), 3600);
}

#[test]
fn payout_values() {
    assert_eq!(Payout::NoPayout.value(), 0);
    assert_eq!(Payout::_36.value(), 36);
    assert_eq!(Payout::_720.value(), 720);
    assert_eq!(Payout::_10000.value(), 10000);
}

#[test]
fn payout_from_value_round_trip() {
    let all = [
        Payout::_36,
        Payout::_54,
        Payout::_72,
        Payout::_80,
        Payout::_108,
        Payout::_119,
        Payout::_144,
        Payout::_180,
        Payout::_252,
        Payout::_306,
        Payout::_360,
        Payout::_720,
        Payout::_1080,
        Payout::_1800,
        Payout::_3600,
        Payout::_10000,
    ];
    for p in all {
        assert_eq!(Payout::from_value(p.value()), p);
    }
}

#[test]
fn payout_from_unknown_value_is_no_payout() {
    assert_eq!(Payout::from_value(0), Payout::NoPayout);
    assert_eq!(Payout::from_value(37), Payout::NoPayout);
    assert_eq!(Payout::from_value(9999), Payout::NoPayout);
}
