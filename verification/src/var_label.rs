use vstd::prelude::*;

verus! {

/// A variable identifier, densely numbered from zero.
#[derive(Clone, Copy, PartialEq, Eq, PartialOrd, Ord, Structural, Hash, Debug)]
pub struct VarLabel(pub u64);

impl VarLabel {
    pub fn new(v: u64) -> (r: VarLabel)
        ensures
            r.0 == v,
    {
        VarLabel(v)
    }

    pub fn value(&self) -> (r: u64)
        ensures
            r == self.0,
    {
        self.0
    }

    pub fn value_usize(&self) -> (r: usize)
        requires
            self.0 <= usize::MAX,
        ensures
            r == self.0,
    {
        self.0 as usize
    }
}

/// A variable together with a polarity.
#[derive(Clone, Copy, PartialEq, Eq, Structural, Hash, Debug)]
pub struct Literal {
    pub label: VarLabel,
    pub polarity: bool,
}

impl Literal {
    pub fn new(label: VarLabel, polarity: bool) -> (r: Literal)
        ensures
            r == (Literal { label, polarity }),
    {
        Literal { label, polarity }
    }

    pub fn get_label(&self) -> (r: VarLabel)
        ensures
            r == self.label,
    {
        self.label
    }

    pub fn get_polarity(&self) -> (r: bool)
        ensures
            r == self.polarity,
    {
        self.polarity
    }
}

/// A partial assignment: slot `v` fixes variable `v`, or leaves it free.
pub struct PartialModel {
    pub assignments: Vec<Option<bool>>,
}

impl PartialModel {
    pub fn new(assignments: Vec<Option<bool>>) -> (r: PartialModel)
        ensures
            r.assignments@ == assignments@,
    {
        PartialModel { assignments }
    }

    /// Build from a list of decided literals over `num_vars` variables.
    pub fn from_litvec(lits: &Vec<Literal>, num_vars: usize) -> (r: PartialModel)
        requires
            forall|k: int| 0 <= k < lits@.len() ==> (#[trigger] lits@[k]).label.0 < num_vars,
        ensures
            r.assignments@.len() == num_vars,
    {
        let mut assignments: Vec<Option<bool>> = Vec::new();
        let mut i: usize = 0;
        while i < num_vars
            invariant
                i <= num_vars,
                assignments@.len() == i,
            decreases num_vars - i,
        {
            assignments.push(None);
            i += 1;
        }
        let mut k: usize = 0;
        while k < lits.len()
            invariant
                k <= lits@.len(),
                assignments@.len() == num_vars,
                forall|j: int| 0 <= j < lits@.len() ==> (#[trigger] lits@[j]).label.0 < num_vars,
            decreases lits@.len() - k,
        {
            let lit = lits[k];
            assignments[lit.label.0 as usize] = Some(lit.polarity);
            k += 1;
        }
        PartialModel { assignments }
    }

    /// The decided literals, in variable order.
    pub fn assignment_iter(&self) -> (r: Vec<Literal>)
        requires
            self.assignments@.len() <= u64::MAX,
        ensures
            forall|k: int|
                0 <= k < r@.len() ==> (#[trigger] r@[k]).label.0 < self.assignments@.len()
                    && self.assignments@[r@[k].label.0 as int] == Some(r@[k].polarity),
    {
        let mut out: Vec<Literal> = Vec::new();
        let mut i: usize = 0;
        while i < self.assignments.len()
            invariant
                i <= self.assignments@.len(),
                self.assignments@.len() <= u64::MAX,
                forall|k: int|
                    0 <= k < out@.len() ==> (#[trigger] out@[k]).label.0
                        < self.assignments@.len() && self.assignments@[out@[k].label.0 as int]
                        == Some(out@[k].polarity),
            decreases self.assignments@.len() - i,
        {
            match self.assignments[i] {
                Some(b) => {
                    out.push(Literal { label: VarLabel(i as u64), polarity: b });
                },
                None => {},
            }
            i += 1;
        }
        out
    }
}

} // verus!
