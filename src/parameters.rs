use vstd::prelude::*;

verus! {

pub const NUM_VALUE_FEATURES_4S: usize = 51;

pub const NUM_POLICY_FEATURES_4S: usize = 74;

pub const NUM_VALUE_FEATURES_5S: usize = 69;

pub const NUM_POLICY_FEATURES_5S: usize = 93;

pub const NUM_VALUE_FEATURES_6S: usize = 72;

pub const NUM_POLICY_FEATURES_6S: usize = 124;

/// The sizes for which evaluation weights exist.
pub open spec fn has_weights(s: int) -> bool {
    s == 4 || s == 5 || s == 6
}

/// The number of value-model features for board size `s`.
pub open spec fn value_features(s: int) -> int {
    if s == 4 {
        NUM_VALUE_FEATURES_4S as int
    } else if s == 5 {
        NUM_VALUE_FEATURES_5S as int
    } else {
        NUM_VALUE_FEATURES_6S as int
    }
}

/// The number of policy-model features for board size `s`.
pub open spec fn policy_features(s: int) -> int {
    if s == 4 {
        NUM_POLICY_FEATURES_4S as int
    } else if s == 5 {
        NUM_POLICY_FEATURES_5S as int
    } else {
        NUM_POLICY_FEATURES_6S as int
    }
}

pub fn num_value_features<const S: usize>() -> (r: usize)
    requires
        has_weights(S as int),
    ensures
        r == value_features(S as int),
{
    if S == 4 {
        NUM_VALUE_FEATURES_4S
    } else if S == 5 {
        NUM_VALUE_FEATURES_5S
    } else {
        NUM_VALUE_FEATURES_6S
    }
}

pub fn num_policy_features<const S: usize>() -> (r: usize)
    requires
        has_weights(S as int),
    ensures
        r == policy_features(S as int),
{
    if S == 4 {
        NUM_POLICY_FEATURES_4S
    } else if S == 5 {
        NUM_POLICY_FEATURES_5S
    } else {
        NUM_POLICY_FEATURES_6S
    }
}

} // verus!
