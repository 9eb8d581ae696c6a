use vstd::prelude::*;

use crate::var_label::VarLabel;

verus! {

/// A set of variables, kept as membership flags indexed by label.
pub struct VarSet {
    pub flags: Vec<bool>,
}

impl VarSet {
    pub open spec fn spec_contains(self, v: u64) -> bool {
        v < self.flags@.len() && self.flags@[v as int]
    }

    pub fn new() -> (r: VarSet)
        ensures
            forall|v: u64| !r.spec_contains(v),
    {
        VarSet { flags: Vec::new() }
    }

    pub fn insert(&mut self, v: VarLabel)
        requires
            v.0 < usize::MAX,
            old(self).flags@.len() < usize::MAX,
        ensures
            final(self).spec_contains(v.0),
            forall|w: u64| w != v.0 ==> final(self).spec_contains(w) == old(self).spec_contains(w),
    {
        let n = v.0 as usize;
        while n >= self.flags.len()
            invariant
                n < usize::MAX,
                forall|w: int|
                    0 <= w < self.flags@.len() ==> #[trigger] self.flags@[w] == (if w < old(
                        self,
                    ).flags@.len() {
                        old(self).flags@[w]
                    } else {
                        false
                    }),
                self.flags@.len() >= old(self).flags@.len(),
            decreases n + 1 - self.flags@.len(),
        {
            self.flags.push(false);
        }
        self.flags[n] = true;
    }

    pub fn contains(&self, v: VarLabel) -> (r: bool)
        ensures
            r == self.spec_contains(v.0),
    {
        if v.0 >= self.flags.len() as u64 {
            false
        } else {
            self.flags[v.0 as usize]
        }
    }
}

/// One layer of a decomposable negation normal form: the shape the fold
/// over the diagram presents to its callers.
pub enum DDNNF<T> {
    /// a decision between two branches, with the variables it decides
    Or(T, T, VarSet),
    And(T, T),
    Lit(VarLabel, bool),
    True,
    False,
}

} // verus!
