//! The game's criteria cards.
//!
//! This module provides the struct `Code`, which represents a three-digit
//! solution code, together with the criteria cards in the form of functions
//! that take a code and return the category the code falls into.
//!
//! Each card partitions the codes into numbered categories; performing a
//! test reveals whether the hidden code falls into the same category as the
//! code handed in.  A card that cannot categorize a code returns `None`.
use vstd::prelude::*;

verus! {

/// A three-digit code: a blue, a yellow and a purple digit.
#[derive(Debug, Clone, Copy, PartialEq, Eq, Structural, Hash)]
pub struct Code {
    pub blue: u8,
    pub yellow: u8,
    pub purple: u8,
}

/// Category of `value` relative to `target`: 0 below, 1 equal, 2 above.
pub open spec fn spec_compare(value: int, target: int) -> Option<u8> {
    if value < target {
        Some(0u8)
    } else if value == target {
        Some(1u8)
    } else {
        Some(2u8)
    }
}

/// Category of `value` by parity: 0 even, 1 odd.
pub open spec fn spec_parity(value: int) -> Option<u8> {
    if value % 2 == 0 {
        Some(0u8)
    } else {
        Some(1u8)
    }
}

/// How many digits of `c` equal `digit`.
pub open spec fn spec_digit_count(c: Code, digit: u8) -> u8 {
    (count_one(c.blue == digit) + count_one(c.yellow == digit) + count_one(
        c.purple == digit,
    )) as u8
}

/// 1 if the condition holds, else 0.
pub open spec fn count_one(b: bool) -> int {
    if b {
        1
    } else {
        0
    }
}

/// How many digits of `c` are odd.
pub open spec fn spec_odd_count(c: Code) -> int {
    c.blue as int % 2 + c.yellow as int % 2 + c.purple as int % 2
}

/// How many unordered pairs of positions of `c` hold equal digits.
pub open spec fn spec_pair_count(c: Code) -> int {
    count_one(c.blue == c.yellow) + count_one(c.blue == c.purple) + count_one(
        c.yellow == c.purple,
    )
}

/// The category returned by the repeated-digits card: 2 where all three
/// digits differ, 1 where exactly one pair of digits matches, 0 where all
/// three digits are equal.
pub open spec fn spec_repetition_value(c: Code) -> u8 {
    if spec_pair_count(c) == 0 {
        2u8
    } else if spec_pair_count(c) == 1 {
        1u8
    } else {
        0u8
    }
}

/// How many adjacent digit positions of `c` ascend by exactly one.
pub open spec fn spec_ascending_steps(c: Code) -> u8 {
    (count_one(c.blue as int + 1 == c.yellow as int) + count_one(
        c.yellow as int + 1 == c.purple as int,
    )) as u8
}

/// How many adjacent digit positions of `c` descend by exactly one.
pub open spec fn spec_descending_steps(c: Code) -> u8 {
    (count_one(c.blue as int == c.yellow as int + 1) + count_one(
        c.yellow as int == c.purple as int + 1,
    )) as u8
}

/// The category that card `r` (0-based) assigns to code `c`, or `None`
/// where the card does not categorize the code, or where `r` names no card.
pub open spec fn spec_rule(r: int, c: Code) -> Option<u8> {
    if r == 0 {
        spec_compare(c.blue as int, 1)
    } else if r == 1 {
        spec_compare(c.blue as int, 3)
    } else if r == 2 {
        spec_compare(c.yellow as int, 3)
    } else if r == 3 {
        spec_compare(c.yellow as int, 4)
    } else if r == 4 {
        spec_parity(c.blue as int)
    } else if r == 5 {
        spec_parity(c.yellow as int)
    } else if r == 6 {
        spec_parity(c.purple as int)
    } else if r == 7 {
        Some(spec_digit_count(c, 1))
    } else if r == 8 {
        Some(spec_digit_count(c, 3))
    } else if r == 9 {
        Some(spec_digit_count(c, 4))
    } else if r == 10 {
        spec_compare(c.blue as int, c.yellow as int)
    } else if r == 11 {
        spec_compare(c.blue as int, c.purple as int)
    } else if r == 12 {
        spec_compare(c.yellow as int, c.purple as int)
    } else if r == 13 {
        if c.blue < c.yellow && c.blue < c.purple {
            Some(0u8)
        } else if c.yellow < c.blue && c.yellow < c.purple {
            Some(1u8)
        } else if c.purple < c.yellow && c.purple < c.blue {
            Some(2u8)
        } else {
            None
        }
    } else if r == 14 {
        if c.blue > c.yellow && c.blue > c.purple {
            Some(0u8)
        } else if c.yellow > c.blue && c.yellow > c.purple {
            Some(1u8)
        } else if c.purple > c.yellow && c.purple > c.blue {
            Some(2u8)
        } else {
            None
        }
    } else if r == 15 {
        if spec_odd_count(c) >= 2 {
            Some(1u8)
        } else {
            Some(0u8)
        }
    } else if r == 16 {
        Some((3 - spec_odd_count(c)) as u8)
    } else if r == 17 {
        spec_parity(c.blue as int + c.yellow as int + c.purple as int)
    } else if r == 18 {
        spec_compare(c.blue as int + c.yellow as int, 6)
    } else if r == 19 {
        Some(spec_repetition_value(c))
    } else if r == 20 {
        Some(spec_repetition_value(c) % 2)
    } else if r == 21 {
        if c.blue < c.yellow && c.yellow < c.purple {
            Some(0u8)
        } else if c.blue > c.yellow && c.yellow > c.purple {
            Some(1u8)
        } else {
            Some(2u8)
        }
    } else if r == 22 {
        spec_compare(c.blue as int + c.yellow as int + c.purple as int, 6)
    } else if r == 23 {
        Some(spec_ascending_steps(c))
    } else if r == 24 {
        if spec_ascending_steps(c) > 0 {
            Some(spec_ascending_steps(c))
        } else {
            Some(spec_descending_steps(c))
        }
    } else {
        None
    }
}

/// RULESET 1: compare a single value of the code to a fixed target value.
///
/// Returns 0 if the value is smaller than the target, 1 if the value is
/// equal to the target and 2 if the value is greater than the target.
pub fn compare_values(value: u16, target: u16) -> (r: Option<u8>)
    ensures
        r == spec_compare(value as int, target as int),
{
    if value < target {
        Some(0)
    } else if value == target {
        Some(1)
    } else {
        Some(2)
    }
}

/// compare blue to 1
pub fn rule_1(input: &Code) -> (r: Option<u8>)
    ensures
        r == spec_rule(0, *input),
{
    compare_values(input.blue as u16, 1)
}

/// compare blue to 3
pub fn rule_2(input: &Code) -> (r: Option<u8>)
    ensures
        r == spec_rule(1, *input),
{
    compare_values(input.blue as u16, 3)
}

/// compare yellow to 3
pub fn rule_3(input: &Code) -> (r: Option<u8>)
    ensures
        r == spec_rule(2, *input),
{
    compare_values(input.yellow as u16, 3)
}

/// compare yellow to 4
pub fn rule_4(input: &Code) -> (r: Option<u8>)
    ensures
        r == spec_rule(3, *input),
{
    compare_values(input.yellow as u16, 4)
}

/// RULESET 2: check a single value's parity.
///
/// Returns 0 if the value is even and 1 if the value is odd.
pub fn single_parity(value: u16) -> (r: Option<u8>)
    ensures
        r == spec_parity(value as int),
{
    if value % 2 == 0 {
        Some(0)
    } else {
        Some(1)
    }
}

/// check blue's parity
pub fn rule_5(input: &Code) -> (r: Option<u8>)
    ensures
        r == spec_rule(4, *input),
{
    single_parity(input.blue as u16)
}

/// check yellow's parity
pub fn rule_6(input: &Code) -> (r: Option<u8>)
    ensures
        r == spec_rule(5, *input),
{
    single_parity(input.yellow as u16)
}

/// check purple's parity
pub fn rule_7(input: &Code) -> (r: Option<u8>)
    ensures
        r == spec_rule(6, *input),
{
    single_parity(input.purple as u16)
}

/// RULESET 3: check how often a digit appears within the code.
///
/// Returns the number of times the digit appears.
pub fn count_digit(code: &Code, digit: u8) -> (r: Option<u8>)
    ensures
        r == Some(spec_digit_count(*code, digit)),
{
    let blue: u8 = if code.blue == digit {
        1
    } else {
        0
    };
    let yellow: u8 = if code.yellow == digit {
        1
    } else {
        0
    };
    let purple: u8 = if code.purple == digit {
        1
    } else {
        0
    };
    Some(blue + yellow + purple)
}

/// how many 1s?
pub fn rule_8(input: &Code) -> (r: Option<u8>)
    ensures
        r == spec_rule(7, *input),
{
    count_digit(input, 1)
}

/// how many 3s?
pub fn rule_9(input: &Code) -> (r: Option<u8>)
    ensures
        r == spec_rule(8, *input),
{
    count_digit(input, 3)
}

/// how many 4s?
pub fn rule_10(input: &Code) -> (r: Option<u8>)
    ensures
        r == spec_rule(9, *input),
{
    count_digit(input, 4)
}

// RULESET 4: compare two values of the code to each other.
/// compare blue to yellow
pub fn rule_11(input: &Code) -> (r: Option<u8>)
    ensures
        r == spec_rule(10, *input),
{
    compare_values(input.blue as u16, input.yellow as u16)
}

/// compare blue to purple
pub fn rule_12(input: &Code) -> (r: Option<u8>)
    ensures
        r == spec_rule(11, *input),
{
    compare_values(input.blue as u16, input.purple as u16)
}

/// compare yellow to purple
pub fn rule_13(input: &Code) -> (r: Option<u8>)
    ensures
        r == spec_rule(12, *input),
{
    compare_values(input.yellow as u16, input.purple as u16)
}

/// Look for the smallest value.
///
/// 0 -> blue, 1 -> yellow, 2 -> purple, None if there's no single smallest
/// value.
pub fn rule_14(input: &Code) -> (r: Option<u8>)
    ensures
        r == spec_rule(13, *input),
{
    if input.blue < input.yellow && input.blue < input.purple {
        return Some(0);
    }
    if input.yellow < input.blue && input.yellow < input.purple {
        return Some(1);
    }
    if input.purple < input.yellow && input.purple < input.blue {
        return Some(2);
    }
    None
}

/// Look for the greatest value.
///
/// 0 -> blue, 1 -> yellow, 2 -> purple, None if there's no single greatest
/// value.
pub fn rule_15(input: &Code) -> (r: Option<u8>)
    ensures
        r == spec_rule(14, *input),
{
    if input.blue > input.yellow && input.blue > input.purple {
        return Some(0);
    }
    if input.yellow > input.blue && input.yellow > input.purple {
        return Some(1);
    }
    if input.purple > input.yellow && input.purple > input.blue {
        return Some(2);
    }
    None
}

/// are there more odd or even digits?
///
/// even -> 0, odd -> 1
pub fn rule_16(input: &Code) -> (r: Option<u8>)
    ensures
        r == spec_rule(15, *input),
{
    let odd = input.blue % 2 + input.yellow % 2 + input.purple % 2;
    if odd >= 2 {
        Some(1)
    } else {
        Some(0)
    }
}

/// count the number of even digits.
pub fn rule_17(input: &Code) -> (r: Option<u8>)
    ensures
        r == spec_rule(16, *input),
{
    let odd = input.blue % 2 + input.yellow % 2 + input.purple % 2;
    let even = 3 - odd;
    Some(even)
}

/// is the digit sum odd or even?
///
/// even -> 0, odd -> 1
pub fn rule_18(input: &Code) -> (r: Option<u8>)
    ensures
        r == spec_rule(17, *input),
{
    single_parity(input.blue as u16 + input.yellow as u16 + input.purple as u16)
}

/// compare blue + yellow to 6
pub fn rule_19(input: &Code) -> (r: Option<u8>)
    ensures
        r == spec_rule(18, *input),
{
    compare_values(input.blue as u16 + input.yellow as u16, 6)
}

/// how repetitive is the code?
///
/// 2 -> all digits differ, 1 -> a single matching pair, 0 -> all equal.
pub fn rule_20(input: &Code) -> (r: Option<u8>)
    ensures
        r == spec_rule(19, *input),
{
    let first: u8 = if input.blue == input.yellow {
        1
    } else {
        0
    };
    let second: u8 = if input.blue == input.purple {
        1
    } else {
        0
    };
    let third: u8 = if input.yellow == input.purple {
        1
    } else {
        0
    };
    let no_pairs = first + second + third;
    match no_pairs {
        0 => Some(2),
        1 => Some(1),
        _ => Some(0),
    }
}

/// is there a single pair of same digits?
///
/// 1 -> exactly one matching pair, 0 -> all digits differ or all equal.
pub fn rule_21(input: &Code) -> (r: Option<u8>)
    ensures
        r == spec_rule(20, *input),
{
    let base = rule_20(input);
    Some(base.unwrap() % 2)
}

/// are the digits ordered?
///
/// 0 -> ascending order, 1 -> descending order, 2 -> no order.
pub fn rule_22(input: &Code) -> (r: Option<u8>)
    ensures
        r == spec_rule(21, *input),
{
    if input.blue < input.yellow && input.yellow < input.purple {
        return Some(0);
    }
    if input.blue > input.yellow && input.yellow > input.purple {
        return Some(1);
    }
    Some(2)
}

/// compare the digit sum to 6.
pub fn rule_23(input: &Code) -> (r: Option<u8>)
    ensures
        r == spec_rule(22, *input),
{
    compare_values(input.blue as u16 + input.yellow as u16 + input.purple as u16, 6)
}

/// how many ascending digits in order are there?
pub fn rule_24(input: &Code) -> (r: Option<u8>)
    ensures
        r == spec_rule(23, *input),
{
    let first: u8 = if input.blue as u16 + 1 == input.yellow as u16 {
        1
    } else {
        0
    };
    let second: u8 = if input.yellow as u16 + 1 == input.purple as u16 {
        1
    } else {
        0
    };
    Some(first + second)
}

/// how many digits that are either ascending or descending in order are
/// there?
pub fn rule_25(input: &Code) -> (r: Option<u8>)
    ensures
        r == spec_rule(24, *input),
{
    let ascending = rule_24(input);
    let r = ascending.unwrap();
    if r > 0 {
        return Some(r);
    }
    let first: u8 = if input.blue as u16 == input.yellow as u16 + 1 {
        1
    } else {
        0
    };
    let second: u8 = if input.yellow as u16 == input.purple as u16 + 1 {
        1
    } else {
        0
    };
    Some(first + second)
}

/// How many criteria cards this module defines.
pub const RULE_COUNT: usize = 25;

/// Evaluate card number `rule` (0-based) on `input`.
///
/// Stands in for the original's array of card functions: every card this
/// library knows is reachable through its number.
pub fn apply_rule(rule: usize, input: &Code) -> (r: Option<u8>)
    requires
        rule < RULE_COUNT,
    ensures
        r == spec_rule(rule as int, *input),
{
    match rule {
        0 => rule_1(input),
        1 => rule_2(input),
        2 => rule_3(input),
        3 => rule_4(input),
        4 => rule_5(input),
        5 => rule_6(input),
        6 => rule_7(input),
        7 => rule_8(input),
        8 => rule_9(input),
        9 => rule_10(input),
        10 => rule_11(input),
        11 => rule_12(input),
        12 => rule_13(input),
        13 => rule_14(input),
        14 => rule_15(input),
        15 => rule_16(input),
        16 => rule_17(input),
        17 => rule_18(input),
        18 => rule_19(input),
        19 => rule_20(input),
        20 => rule_21(input),
        21 => rule_22(input),
        22 => rule_23(input),
        23 => rule_24(input),
        _ => rule_25(input),
    }
}

} // verus!
