use vstd::prelude::*;

use crate::var_label::VarLabel;

verus! {

/// A tagged edge of the diagram: one of the two constants, a regular edge to
/// the node stored at an index, or a complement edge to it.  A complement
/// edge denotes the negation of the function rooted at its target.
#[derive(Clone, Copy, PartialEq, Eq, Structural, Hash, Debug)]
pub enum BddPtr {
    PtrTrue,
    PtrFalse,
    Reg(usize),
    Compl(usize),
}

/// An internal decision node: branch on `var`, to `low` when the variable is
/// false and to `high` when it is true.
#[derive(Clone, Copy, PartialEq, Eq, Structural, Hash, Debug)]
pub struct BddNode {
    pub var: VarLabel,
    pub low: BddPtr,
    pub high: BddPtr,
}

impl BddNode {
    pub fn new(var: VarLabel, low: BddPtr, high: BddPtr) -> (r: BddNode)
        ensures
            r == (BddNode { var, low, high }),
    {
        BddNode { var, low, high }
    }
}

/// Negation as a pure tag flip.
pub open spec fn pneg(p: BddPtr) -> BddPtr {
    match p {
        BddPtr::PtrTrue => BddPtr::PtrFalse,
        BddPtr::PtrFalse => BddPtr::PtrTrue,
        BddPtr::Reg(i) => BddPtr::Compl(i),
        BddPtr::Compl(i) => BddPtr::Reg(i),
    }
}

pub proof fn lemma_pneg_involutive(p: BddPtr)
    ensures
        pneg(pneg(p)) == p,
{
}

impl BddPtr {
    pub fn true_ptr() -> (r: BddPtr)
        ensures
            r == BddPtr::PtrTrue,
    {
        BddPtr::PtrTrue
    }

    pub fn false_ptr() -> (r: BddPtr)
        ensures
            r == BddPtr::PtrFalse,
    {
        BddPtr::PtrFalse
    }

    pub fn is_true(&self) -> (r: bool)
        ensures
            r == (*self == BddPtr::PtrTrue),
    {
        matches!(self, BddPtr::PtrTrue)
    }

    pub fn is_false(&self) -> (r: bool)
        ensures
            r == (*self == BddPtr::PtrFalse),
    {
        matches!(self, BddPtr::PtrFalse)
    }

    pub fn is_const(&self) -> (r: bool)
        ensures
            r == (*self == BddPtr::PtrTrue || *self == BddPtr::PtrFalse),
    {
        matches!(self, BddPtr::PtrTrue | BddPtr::PtrFalse)
    }

    /// Is this a complement edge?
    pub fn is_neg(&self) -> (r: bool)
        ensures
            r == (self is Compl),
    {
        matches!(self, BddPtr::Compl(_))
    }

    /// Negation in constant time: flip the tag.
    pub fn neg(self) -> (r: BddPtr)
        ensures
            r == pneg(self),
    {
        match self {
            BddPtr::PtrTrue => BddPtr::PtrFalse,
            BddPtr::PtrFalse => BddPtr::PtrTrue,
            BddPtr::Reg(i) => BddPtr::Compl(i),
            BddPtr::Compl(i) => BddPtr::Reg(i),
        }
    }
}

} // verus!
