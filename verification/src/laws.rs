use vstd::prelude::*;

use crate::bdd_ptr::{pneg, BddNode, BddPtr};
use crate::canonicity::lemma_canonicity;
use crate::semantics::{eval, lemma_eval_neg, ptr_wf, reduced, store_wf};
use crate::var_order::VarOrder;

verus! {

/// Canonicity both ways: two reduced diagrams in one store are the same
/// tagged pointer exactly when they denote the same Boolean function.
pub proof fn lemma_canonicity_iff(nodes: Seq<BddNode>, order: VarOrder, a: BddPtr, b: BddPtr)
    requires
        store_wf(nodes, order),
        ptr_wf(nodes, a),
        ptr_wf(nodes, b),
        reduced(nodes, a),
        reduced(nodes, b),
    ensures
        (a == b) <==> (forall|env: Set<u64>| #[trigger] eval(nodes, a, env) == eval(nodes, b, env)),
{
    if forall|env: Set<u64>| #[trigger] eval(nodes, a, env) == eval(nodes, b, env) {
        lemma_canonicity(nodes, order, a, b);
    }
}

/// Double negation: flipping the complement tag twice gives the edge back.
pub proof fn lemma_double_negation(a: BddPtr)
    ensures
        pneg(pneg(a)) == a,
{
}

/// Conjunction is commutative: results built for `a and b` and for
/// `b and a` are the same pointer.
pub proof fn lemma_and_commutative(
    nodes: Seq<BddNode>,
    order: VarOrder,
    a: BddPtr,
    b: BddPtr,
    r1: BddPtr,
    r2: BddPtr,
)
    requires
        store_wf(nodes, order),
        ptr_wf(nodes, a),
        ptr_wf(nodes, b),
        ptr_wf(nodes, r1),
        ptr_wf(nodes, r2),
        reduced(nodes, r1),
        reduced(nodes, r2),
        forall|env: Set<u64>|
            #[trigger] eval(nodes, r1, env) == (eval(nodes, a, env) && eval(nodes, b, env)),
        forall|env: Set<u64>|
            #[trigger] eval(nodes, r2, env) == (eval(nodes, b, env) && eval(nodes, a, env)),
    ensures
        r1 == r2,
{
    assert forall|env: Set<u64>| #[trigger] eval(nodes, r1, env) == eval(nodes, r2, env) by {}
    lemma_canonicity(nodes, order, r1, r2);
}

/// Disjunction is commutative.
pub proof fn lemma_or_commutative(
    nodes: Seq<BddNode>,
    order: VarOrder,
    a: BddPtr,
    b: BddPtr,
    r1: BddPtr,
    r2: BddPtr,
)
    requires
        store_wf(nodes, order),
        ptr_wf(nodes, a),
        ptr_wf(nodes, b),
        ptr_wf(nodes, r1),
        ptr_wf(nodes, r2),
        reduced(nodes, r1),
        reduced(nodes, r2),
        forall|env: Set<u64>|
            #[trigger] eval(nodes, r1, env) == (eval(nodes, a, env) || eval(nodes, b, env)),
        forall|env: Set<u64>|
            #[trigger] eval(nodes, r2, env) == (eval(nodes, b, env) || eval(nodes, a, env)),
    ensures
        r1 == r2,
{
    assert forall|env: Set<u64>| #[trigger] eval(nodes, r1, env) == eval(nodes, r2, env) by {}
    lemma_canonicity(nodes, order, r1, r2);
}

/// Conjunction is idempotent: the result built for `a and a` is `a` itself.
pub proof fn lemma_and_idempotent(
    nodes: Seq<BddNode>,
    order: VarOrder,
    a: BddPtr,
    r: BddPtr,
)
    requires
        store_wf(nodes, order),
        ptr_wf(nodes, a),
        ptr_wf(nodes, r),
        reduced(nodes, a),
        reduced(nodes, r),
        forall|env: Set<u64>|
            #[trigger] eval(nodes, r, env) == (eval(nodes, a, env) && eval(nodes, a, env)),
    ensures
        r == a,
{
    lemma_canonicity(nodes, order, r, a);
}

/// Disjunction is idempotent.
pub proof fn lemma_or_idempotent(nodes: Seq<BddNode>, order: VarOrder, a: BddPtr, r: BddPtr)
    requires
        store_wf(nodes, order),
        ptr_wf(nodes, a),
        ptr_wf(nodes, r),
        reduced(nodes, a),
        reduced(nodes, r),
        forall|env: Set<u64>|
            #[trigger] eval(nodes, r, env) == (eval(nodes, a, env) || eval(nodes, a, env)),
    ensures
        r == a,
{
    lemma_canonicity(nodes, order, r, a);
}

/// De Morgan: the negation of a conjunction is the disjunction of the
/// negations, as pointers.
pub proof fn lemma_de_morgan(
    nodes: Seq<BddNode>,
    order: VarOrder,
    a: BddPtr,
    b: BddPtr,
    r_and: BddPtr,
    r_or: BddPtr,
)
    requires
        store_wf(nodes, order),
        ptr_wf(nodes, a),
        ptr_wf(nodes, b),
        ptr_wf(nodes, r_and),
        ptr_wf(nodes, r_or),
        reduced(nodes, r_and),
        reduced(nodes, r_or),
        forall|env: Set<u64>|
            #[trigger] eval(nodes, r_and, env) == (eval(nodes, a, env) && eval(nodes, b, env)),
        forall|env: Set<u64>|
            #[trigger] eval(nodes, r_or, env) == (!eval(nodes, a, env) || !eval(nodes, b, env)),
    ensures
        pneg(r_and) == r_or,
{
    crate::semantics::lemma_reduced_neg(nodes, r_and);
    assert forall|env: Set<u64>|
        #[trigger] eval(nodes, pneg(r_and), env) == eval(nodes, r_or, env) by {
        lemma_eval_neg(nodes, r_and, env);
    }
    match r_and {
        BddPtr::Reg(i) => {},
        BddPtr::Compl(i) => {},
        _ => {},
    }
    lemma_canonicity(nodes, order, pneg(r_and), r_or);
}

/// `ite(a, true, false)` is `a` itself.
pub proof fn lemma_ite_identity(nodes: Seq<BddNode>, order: VarOrder, a: BddPtr, r: BddPtr)
    requires
        store_wf(nodes, order),
        ptr_wf(nodes, a),
        ptr_wf(nodes, r),
        reduced(nodes, a),
        reduced(nodes, r),
        forall|env: Set<u64>|
            #[trigger] eval(nodes, r, env) == (if eval(nodes, a, env) {
                true
            } else {
                false
            }),
    ensures
        r == a,
{
    lemma_canonicity(nodes, order, r, a);
}

/// `ite(a, b, b)` is `b`: the condition is irrelevant.
pub proof fn lemma_ite_same_branches(
    nodes: Seq<BddNode>,
    order: VarOrder,
    a: BddPtr,
    b: BddPtr,
    r: BddPtr,
)
    requires
        store_wf(nodes, order),
        ptr_wf(nodes, a),
        ptr_wf(nodes, b),
        ptr_wf(nodes, r),
        reduced(nodes, b),
        reduced(nodes, r),
        forall|env: Set<u64>|
            #[trigger] eval(nodes, r, env) == (if eval(nodes, a, env) {
                eval(nodes, b, env)
            } else {
                eval(nodes, b, env)
            }),
    ensures
        r == b,
{
    lemma_canonicity(nodes, order, r, b);
}

/// `ite(a, b, c)` equals `ite(not a, c, b)`.
pub proof fn lemma_ite_negated_condition(
    nodes: Seq<BddNode>,
    order: VarOrder,
    a: BddPtr,
    b: BddPtr,
    c: BddPtr,
    r1: BddPtr,
    r2: BddPtr,
)
    requires
        store_wf(nodes, order),
        ptr_wf(nodes, a),
        ptr_wf(nodes, b),
        ptr_wf(nodes, c),
        ptr_wf(nodes, r1),
        ptr_wf(nodes, r2),
        reduced(nodes, r1),
        reduced(nodes, r2),
        forall|env: Set<u64>|
            #[trigger] eval(nodes, r1, env) == (if eval(nodes, a, env) {
                eval(nodes, b, env)
            } else {
                eval(nodes, c, env)
            }),
        forall|env: Set<u64>|
            #[trigger] eval(nodes, r2, env) == (if eval(nodes, pneg(a), env) {
                eval(nodes, c, env)
            } else {
                eval(nodes, b, env)
            }),
    ensures
        r1 == r2,
{
    assert forall|env: Set<u64>| #[trigger] eval(nodes, r1, env) == eval(nodes, r2, env) by {
        lemma_eval_neg(nodes, a, env);
    }
    lemma_canonicity(nodes, order, r1, r2);
}

/// Shannon expansion: `a == ite(var(v), a|v=T, a|v=F)` for any variable.
pub proof fn lemma_shannon(
    nodes: Seq<BddNode>,
    order: VarOrder,
    a: BddPtr,
    v: u64,
    rv: BddPtr,
    rt: BddPtr,
    rf: BddPtr,
    r: BddPtr,
)
    requires
        store_wf(nodes, order),
        ptr_wf(nodes, a),
        ptr_wf(nodes, rv),
        ptr_wf(nodes, rt),
        ptr_wf(nodes, rf),
        ptr_wf(nodes, r),
        reduced(nodes, a),
        reduced(nodes, r),
        forall|env: Set<u64>| #[trigger] eval(nodes, rv, env) == env.contains(v),
        forall|env: Set<u64>| #[trigger] eval(nodes, rt, env) == eval(nodes, a, env.insert(v)),
        forall|env: Set<u64>| #[trigger] eval(nodes, rf, env) == eval(nodes, a, env.remove(v)),
        forall|env: Set<u64>|
            #[trigger] eval(nodes, r, env) == (if eval(nodes, rv, env) {
                eval(nodes, rt, env)
            } else {
                eval(nodes, rf, env)
            }),
    ensures
        r == a,
{
    assert forall|env: Set<u64>| #[trigger] eval(nodes, r, env) == eval(nodes, a, env) by {
        if env.contains(v) {
            assert(env.insert(v) =~= env);
        } else {
            assert(env.remove(v) =~= env);
        }
    }
    lemma_canonicity(nodes, order, r, a);
}

} // verus!
