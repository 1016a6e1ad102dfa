//! The definition of an instruction set.

use vstd::prelude::*;
use crate::rule::Rule;

verus! {

/// An instruction set: the number of bits that one address stands for, and the rules, in the
/// order in which they are tried.
#[derive(Debug)]
pub struct Definition {
    pub align_bits: usize,
    pub rules: Vec<Rule>,
}

impl Definition {
    /// An address stands for at least one bit, and every rule can be used.
    pub open spec fn wf(self) -> bool {
        &&& self.align_bits > 0
        &&& forall|i: int|
            0 <= i < self.rules@.len() ==> (#[trigger] self.rules@[i]).wf(self.align_bits)
    }

    /// Whether programs can be assembled with the definition: see `wf`.
    pub fn is_well_formed(&self) -> (r: bool)
        ensures
            r == self.wf(),
    {
        if self.align_bits == 0 {
            return false;
        }
        let mut i: usize = 0;
        while i < self.rules.len()
            invariant
                i <= self.rules@.len(),
                self.align_bits > 0,
                forall|k: int| 0 <= k < i ==> (#[trigger] self.rules@[k]).wf(self.align_bits),
            decreases self.rules@.len() - i,
        {
            if !self.rules[i].is_well_formed(self.align_bits) {
                return false;
            }
            i = i + 1;
        }
        true
    }
}

} // verus!
