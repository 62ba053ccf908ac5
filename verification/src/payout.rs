//! Payout tiers and the two fixed tables of the game: the monetary value of
//! each tier, and the mapping from a line's digit sum to its tier.

use vstd::prelude::*;

verus! {

/// The sixteen possible payouts of a line, plus `NoPayout` for a ticket whose
/// payout has not been entered yet.
#[derive(Clone, Copy, Debug, PartialEq, Eq, Structural)]
pub enum Payout {
    NoPayout,
    _36,
    _54,
    _72,
    _80,
    _108,
    _119,
    _144,
    _180,
    _252,
    _306,
    _360,
    _720,
    _1080,
    _1800,
    _3600,
    _10000,
}

/// Position of a payout in the ascending table of monetary values:
/// 0 for `NoPayout`, 1 through 16 for the sixteen real payouts.
pub open spec fn payout_index(p: Payout) -> int {
    match p {
        Payout::NoPayout => 0,
        Payout::_36 => 1,
        Payout::_54 => 2,
        Payout::_72 => 3,
        Payout::_80 => 4,
        Payout::_108 => 5,
        Payout::_119 => 6,
        Payout::_144 => 7,
        Payout::_180 => 8,
        Payout::_252 => 9,
        Payout::_306 => 10,
        Payout::_360 => 11,
        Payout::_720 => 12,
        Payout::_1080 => 13,
        Payout::_1800 => 14,
        Payout::_3600 => 15,
        Payout::_10000 => 16,
    }
}

/// Monetary value of entry `i` of the 17-element payout table: entry 0 is the
/// zero value of "no payout", entries 1 through 16 are the ascending values of
/// the sixteen payout tiers (tier `t` pays `payout_amount_spec(t + 1)`).
pub open spec fn payout_amount_spec(i: int) -> u16 {
    if i == 0 {
        0
    } else if i == 1 {
        36
    } else if i == 2 {
        54
    } else if i == 3 {
        72
    } else if i == 4 {
        80
    } else if i == 5 {
        108
    } else if i == 6 {
        119
    } else if i == 7 {
        144
    } else if i == 8 {
        180
    } else if i == 9 {
        252
    } else if i == 10 {
        306
    } else if i == 11 {
        360
    } else if i == 12 {
        720
    } else if i == 13 {
        1080
    } else if i == 14 {
        1800
    } else if i == 15 {
        3600
    } else if i == 16 {
        10000
    } else {
        0
    }
}

/// Monetary value of entry `i` of the payout table.
pub fn payout_amount(i: usize) -> (v: u16)
    requires
        i < 17,
    ensures
        v == payout_amount_spec(i as int),
{
    match i {
        0 => 0,
        1 => 36,
        2 => 54,
        3 => 72,
        4 => 80,
        5 => 108,
        6 => 119,
        7 => 144,
        8 => 180,
        9 => 252,
        10 => 306,
        11 => 360,
        12 => 720,
        13 => 1080,
        14 => 1800,
        15 => 3600,
        _ => 10000,
    }
}

/// Payout tier (0 through 15) of a completed line whose three distinct digits
/// sum to `sum`. Sums below 3 or above 21 cannot arise from three distinct
/// digits in 0..=8; the table marks them with the unreachable sentinel 22.
pub open spec fn tier_of_sum_spec(sum: int) -> int {
    if sum == 3 {
        15
    } else if sum == 4 {
        0
    } else if sum == 5 {
        11
    } else if sum == 6 {
        10
    } else if sum == 7 {
        3
    } else if sum == 8 {
        8
    } else if sum == 9 {
        4
    } else if sum == 10 {
        2
    } else if sum == 11 {
        1
    } else if sum == 12 {
        7
    } else if sum == 13 {
        2
    } else if sum == 14 {
        7
    } else if sum == 15 {
        5
    } else if sum == 16 {
        0
    } else if sum == 17 {
        9
    } else if sum == 18 {
        12
    } else if sum == 19 {
        6
    } else if sum == 20 {
        13
    } else if sum == 21 {
        14
    } else {
        22
    }
}

/// Payout tier of a line summing to `sum`.
pub fn tier_of_sum(sum: usize) -> (t: usize)
    requires
        3 <= sum <= 21,
    ensures
        t == tier_of_sum_spec(sum as int),
        t < 16,
{
    match sum {
        3 => 15,
        4 => 0,
        5 => 11,
        6 => 10,
        7 => 3,
        8 => 8,
        9 => 4,
        10 => 2,
        11 => 1,
        12 => 7,
        13 => 2,
        14 => 7,
        15 => 5,
        16 => 0,
        17 => 9,
        18 => 12,
        19 => 6,
        20 => 13,
        _ => 14,
    }
}

impl Payout {
    /// Monetary value of this payout.
    pub fn value(&self) -> (v: u16)
        ensures
            v == payout_amount_spec(payout_index(*self)),
    {
        match self {
            Payout::NoPayout => 0,
            Payout::_36 => 36,
            Payout::_54 => 54,
            Payout::_72 => 72,
            Payout::_80 => 80,
            Payout::_108 => 108,
            Payout::_119 => 119,
            Payout::_144 => 144,
            Payout::_180 => 180,
            Payout::_252 => 252,
            Payout::_306 => 306,
            Payout::_360 => 360,
            Payout::_720 => 720,
            Payout::_1080 => 1080,
            Payout::_1800 => 1800,
            Payout::_3600 => 3600,
            Payout::_10000 => 10000,
        }
    }

    /// The payout whose monetary value is exactly `v`; any other value,
    /// including 0, means no payout.
    pub fn from_value(v: u16) -> (p: Payout)
        ensures
            p == Payout::from_value_spec(v),
    {
        match v {
            36 => Payout::_36,
            54 => Payout::_54,
            72 => Payout::_72,
            80 => Payout::_80,
            108 => Payout::_108,
            119 => Payout::_119,
            144 => Payout::_144,
            180 => Payout::_180,
            252 => Payout::_252,
            306 => Payout::_306,
            360 => Payout::_360,
            720 => Payout::_720,
            1080 => Payout::_1080,
            1800 => Payout::_1800,
            3600 => Payout::_3600,
            10000 => Payout::_10000,
            _ => Payout::NoPayout,
        }
    }

    /// Specification of `from_value`: the unique payout of value `v`, or
    /// `NoPayout` when no tier has that value.
    pub open spec fn from_value_spec(v: u16) -> Payout {
        if v == 36 {
            Payout::_36
        } else if v == 54 {
            Payout::_54
        } else if v == 72 {
            Payout::_72
        } else if v == 80 {
            Payout::_80
        } else if v == 108 {
            Payout::_108
        } else if v == 119 {
            Payout::_119
        } else if v == 144 {
            Payout::_144
        } else if v == 180 {
            Payout::_180
        } else if v == 252 {
            Payout::_252
        } else if v == 306 {
            Payout::_306
        } else if v == 360 {
            Payout::_360
        } else if v == 720 {
            Payout::_720
        } else if v == 1080 {
            Payout::_1080
        } else if v == 1800 {
            Payout::_1800
        } else if v == 3600 {
            Payout::_3600
        } else if v == 10000 {
            Payout::_10000
        } else {
            Payout::NoPayout
        }
    }
}

} // verus!
