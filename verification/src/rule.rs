//! Wolfram rules for the elementary cellular automaton: an 8-bit code whose
//! bit at position `left*4 + center*2 + right` gives the next value of a cell
//! from its three-cell neighborhood.

use vstd::prelude::*;

verus! {

/// The index of a three-cell neighborhood into a rule's table: the three
/// cells read as a 3-bit number, the left cell most significant.
pub open spec fn nbhd_index(left: bool, center: bool, right: bool) -> u8 {
    ((if left { 4int } else { 0int }) + (if center { 2int } else { 0int })
        + (if right { 1int } else { 0int })) as u8
}

/// What a rule code says a neighborhood steps to: bit `nbhd_index(..)` of the
/// code, bit 0 the least significant.
pub open spec fn rule_applies(code: u8, left: bool, center: bool, right: bool) -> bool {
    (code >> nbhd_index(left, center, right)) & 1 == 1
}

/// Two to the power `k`, for the eight bit positions of a rule code.
pub open spec fn bit_weight(k: u8) -> u8 {
    if k == 0 {
        1
    } else if k == 1 {
        2
    } else if k == 2 {
        4
    } else if k == 3 {
        8
    } else if k == 4 {
        16
    } else if k == 5 {
        32
    } else if k == 6 {
        64
    } else {
        128
    }
}

/// What a rule returns is the code's bit at the neighborhood's index, read
/// here arithmetically: the parity of the code divided by two to that index.
pub proof fn lemma_rule_applies_is_code_bit(code: u8, left: bool, center: bool, right: bool)
    ensures
        rule_applies(code, left, center, right) == (code / bit_weight(
            nbhd_index(left, center, right),
        ) % 2 == 1),
{
    let k = nbhd_index(left, center, right);
    assert(k < 8);
    assert((1u8 << k) == bit_weight(k)) by (bit_vector)
        requires
            k < 8,
    ;
    assert(((code >> k) & 1 == 1) == ((code / (1u8 << k)) % 2 == 1)) by (bit_vector)
        requires
            k < 8,
    ;
}

/// One of Wolfram's 256 three-neighbor rules, picked by its 8-bit code.
pub struct Rule {
    pub wolfram_code: u8,
}

impl Rule {
    pub fn new(wolfram_code: u8) -> (r: Rule)
        ensures
            r.wolfram_code == wolfram_code,
    {
        Rule { wolfram_code }
    }

    /// The next value of a cell whose neighborhood is `i`: bit
    /// `i[0]*4 + i[1]*2 + i[2]` of the rule code. Total over all eight
    /// neighborhoods and all 256 codes.
    pub fn apply(&self, i: &[bool; 3]) -> (r: bool)
        ensures
            r == rule_applies(self.wolfram_code, i[0], i[1], i[2]),
    {
        let idx: u8 = (if i[0] { 4 } else { 0 }) + (if i[1] { 2 } else { 0 }) + (if i[2] {
            1
        } else {
            0
        });
        (self.wolfram_code >> idx) & 1 == 1
    }
}

} // verus!
