use vstd::prelude::*;

use crate::bdd_ptr::{BddNode, BddPtr};
use crate::semantics::{
    cof_high, cof_low, eval, lemma_cofactor, lemma_indep, node_wf, ptr_pos, ptr_wf, rank,
    reduced, store_wf, top_var,
};
use crate::var_order::VarOrder;

verus! {

pub open spec fn max_rank(a: BddPtr, b: BddPtr) -> nat {
    if rank(a) >= rank(b) {
        rank(a)
    } else {
        rank(b)
    }
}

/// If the two cofactors of a node differ at `e0`, then the node's function
/// takes different values when its variable is set true and false.
proof fn lemma_node_differs(nodes: Seq<BddNode>, order: VarOrder, p: BddPtr, e0: Set<u64>)
    requires
        store_wf(nodes, order),
        ptr_wf(nodes, p),
        p is Reg || p is Compl,
        eval(nodes, cof_low(nodes, p), e0) != eval(nodes, cof_high(nodes, p), e0),
    ensures
        eval(nodes, p, e0.insert(top_var(nodes, p))) != eval(nodes, p, e0.remove(top_var(nodes, p))),
{
    let v = top_var(nodes, p);
    let i = match p {
        BddPtr::Reg(i) => i,
        BddPtr::Compl(i) => i,
        _ => 0,
    };
    assert(node_wf(nodes, order, i as int));
    lemma_cofactor(nodes, order, p, e0.insert(v));
    lemma_cofactor(nodes, order, p, e0.remove(v));
    lemma_indep(nodes, order, cof_high(nodes, p), v, e0);
    lemma_indep(nodes, order, cof_low(nodes, p), v, e0);
}

/// Two distinct reduced pointers denote distinct functions; this returns an
/// environment on which they disagree.
pub proof fn lemma_distinct_env(
    nodes: Seq<BddNode>,
    order: VarOrder,
    a: BddPtr,
    b: BddPtr,
) -> (env: Set<u64>)
    requires
        store_wf(nodes, order),
        ptr_wf(nodes, a),
        ptr_wf(nodes, b),
        reduced(nodes, a),
        reduced(nodes, b),
        a != b,
    ensures
        eval(nodes, a, env) != eval(nodes, b, env),
    decreases max_rank(a, b), 1int,
{
    if forall|e: Set<u64>| #[trigger] eval(nodes, a, e) == eval(nodes, b, e) {
        lemma_canonicity(nodes, order, a, b);
        Set::empty()
    } else {
        choose|e: Set<u64>| eval(nodes, a, e) != eval(nodes, b, e)
    }
}

/// Canonicity: in a well-formed store, two reduced pointers that denote the
/// same Boolean function are the same tagged pointer.
pub proof fn lemma_canonicity(nodes: Seq<BddNode>, order: VarOrder, a: BddPtr, b: BddPtr)
    requires
        store_wf(nodes, order),
        ptr_wf(nodes, a),
        ptr_wf(nodes, b),
        reduced(nodes, a),
        reduced(nodes, b),
        forall|env: Set<u64>| #[trigger] eval(nodes, a, env) == eval(nodes, b, env),
    ensures
        a == b,
    decreases max_rank(a, b), 0int,
{
    let a_node = a is Reg || a is Compl;
    let b_node = b is Reg || b is Compl;
    if !a_node && !b_node {
        // two constants: they agree on the empty environment only when equal
        assert(eval(nodes, a, Set::empty()) == eval(nodes, b, Set::empty()));
    } else if a_node && !b_node {
        // a branches, so its two cofactors differ; but b is constant
        let cl = cof_low(nodes, a);
        let ch = cof_high(nodes, a);
        let i = match a {
            BddPtr::Reg(i) => i,
            BddPtr::Compl(i) => i,
            _ => 0,
        };
        assert(node_wf(nodes, order, i as int));
        proof_cofactors_distinct(nodes, order, a);
        let e0 = lemma_distinct_env(nodes, order, cl, ch);
        lemma_node_differs(nodes, order, a, e0);
        let v = top_var(nodes, a);
        assert(eval(nodes, b, e0.insert(v)) == eval(nodes, b, e0.remove(v)));
        assert(eval(nodes, a, e0.insert(v)) == eval(nodes, b, e0.insert(v)));
        assert(eval(nodes, a, e0.remove(v)) == eval(nodes, b, e0.remove(v)));
        assert(false);
    } else if !a_node && b_node {
        let cl = cof_low(nodes, b);
        let ch = cof_high(nodes, b);
        let i = match b {
            BddPtr::Reg(i) => i,
            BddPtr::Compl(i) => i,
            _ => 0,
        };
        assert(node_wf(nodes, order, i as int));
        proof_cofactors_distinct(nodes, order, b);
        let e0 = lemma_distinct_env(nodes, order, cl, ch);
        lemma_node_differs(nodes, order, b, e0);
        let v = top_var(nodes, b);
        assert(eval(nodes, a, e0.insert(v)) == eval(nodes, a, e0.remove(v)));
        assert(eval(nodes, a, e0.insert(v)) == eval(nodes, b, e0.insert(v)));
        assert(eval(nodes, a, e0.remove(v)) == eval(nodes, b, e0.remove(v)));
        assert(false);
    } else {
        let i = match a {
            BddPtr::Reg(i) => i,
            BddPtr::Compl(i) => i,
            _ => 0,
        };
        let j = match b {
            BddPtr::Reg(j) => j,
            BddPtr::Compl(j) => j,
            _ => 0,
        };
        assert(node_wf(nodes, order, i as int));
        assert(node_wf(nodes, order, j as int));
        if i == j {
            if a != b {
                // one edge is the complement of the other
                assert(eval(nodes, a, Set::empty()) == !eval(nodes, b, Set::empty()));
                assert(false);
            }
        } else {
            let pa = ptr_pos(nodes, order, a);
            let pb = ptr_pos(nodes, order, b);
            let va = top_var(nodes, a);
            let vb = top_var(nodes, b);
            if pa == pb {
                order.lemma_pos_injective(va, vb);
                assert(va == vb);
                let v = va;
                let ca0 = cof_low(nodes, a);
                let ca1 = cof_high(nodes, a);
                let cb0 = cof_low(nodes, b);
                let cb1 = cof_high(nodes, b);
                proof_cofactors_distinct(nodes, order, a);
                proof_cofactors_distinct(nodes, order, b);
                assert forall|e: Set<u64>| #[trigger] eval(nodes, ca1, e) == eval(nodes, cb1, e) by {
                    let et = e.insert(v);
                    assert(eval(nodes, a, et) == eval(nodes, b, et));
                    lemma_cofactor(nodes, order, a, et);
                    lemma_cofactor(nodes, order, b, et);
                    lemma_indep(nodes, order, ca1, v, e);
                    lemma_indep(nodes, order, cb1, v, e);
                }
                assert forall|e: Set<u64>| #[trigger] eval(nodes, ca0, e) == eval(nodes, cb0, e) by {
                    let ef = e.remove(v);
                    assert(eval(nodes, a, ef) == eval(nodes, b, ef));
                    lemma_cofactor(nodes, order, a, ef);
                    lemma_cofactor(nodes, order, b, ef);
                    lemma_indep(nodes, order, ca0, v, e);
                    lemma_indep(nodes, order, cb0, v, e);
                }
                assert(max_rank(ca1, cb1) < max_rank(a, b));
                assert(max_rank(ca0, cb0) < max_rank(a, b));
                lemma_canonicity(nodes, order, ca1, cb1);
                lemma_canonicity(nodes, order, ca0, cb0);
                match (a, b) {
                    (BddPtr::Reg(_), BddPtr::Reg(_)) => {
                        assert(nodes[i as int] == nodes[j as int]);
                        assert(false);
                    },
                    (BddPtr::Reg(_), BddPtr::Compl(_)) => {
                        // a high edge is never complemented or false, so the
                        // two high cofactors have opposite parity
                        assert(false);
                    },
                    (BddPtr::Compl(_), BddPtr::Reg(_)) => {
                        assert(false);
                    },
                    (BddPtr::Compl(_), BddPtr::Compl(_)) => {
                        assert(nodes[i as int].high == nodes[j as int].high);
                        assert(nodes[i as int].low == nodes[j as int].low);
                        assert(nodes[i as int] == nodes[j as int]);
                        assert(false);
                    },
                    _ => {},
                }
            } else if pa < pb {
                let ca0 = cof_low(nodes, a);
                let ca1 = cof_high(nodes, a);
                proof_cofactors_distinct(nodes, order, a);
                let e0 = lemma_distinct_env(nodes, order, ca0, ca1);
                lemma_node_differs(nodes, order, a, e0);
                lemma_indep(nodes, order, b, va, e0);
                assert(eval(nodes, a, e0.insert(va)) == eval(nodes, b, e0.insert(va)));
                assert(eval(nodes, a, e0.remove(va)) == eval(nodes, b, e0.remove(va)));
                assert(false);
            } else {
                let cb0 = cof_low(nodes, b);
                let cb1 = cof_high(nodes, b);
                proof_cofactors_distinct(nodes, order, b);
                let e0 = lemma_distinct_env(nodes, order, cb0, cb1);
                lemma_node_differs(nodes, order, b, e0);
                lemma_indep(nodes, order, a, vb, e0);
                assert(eval(nodes, a, e0.insert(vb)) == eval(nodes, b, e0.insert(vb)));
                assert(eval(nodes, a, e0.remove(vb)) == eval(nodes, b, e0.remove(vb)));
                assert(false);
            }
        }
    }
}

/// The parity-adjusted cofactors of a reduced node pointer are distinct
/// pointers, reduced, in bounds, and of smaller rank.
proof fn proof_cofactors_distinct(nodes: Seq<BddNode>, order: VarOrder, p: BddPtr)
    requires
        store_wf(nodes, order),
        p is Reg || p is Compl,
        ptr_wf(nodes, p),
        reduced(nodes, p),
    ensures
        cof_low(nodes, p) != cof_high(nodes, p),
        ptr_wf(nodes, cof_low(nodes, p)),
        ptr_wf(nodes, cof_high(nodes, p)),
        reduced(nodes, cof_low(nodes, p)),
        reduced(nodes, cof_high(nodes, p)),
        rank(cof_low(nodes, p)) < rank(p),
        rank(cof_high(nodes, p)) < rank(p),
{
    let i = match p {
        BddPtr::Reg(i) => i,
        BddPtr::Compl(i) => i,
        _ => 0,
    };
    let n = nodes[i as int];
    assert(node_wf(nodes, order, i as int));
    assert(reduced(nodes, BddPtr::Reg(i)));
    crate::semantics::lemma_reduced_neg(nodes, n.low);
    crate::semantics::lemma_reduced_neg(nodes, n.high);
}

} // verus!
