use vstd::arithmetic::div_mod::{lemma_add_mod_noop, lemma_mod_self_0, lemma_small_mod};
use vstd::prelude::*;

use crate::bdd_ptr::{BddNode, BddPtr};
use crate::semantics::{
    cof_high, cof_low, eval, lemma_cofactor, lemma_smoothed_neg, node_wf, ptr_pos, ptr_wf, rank,
    smoothed, store_wf, top_var,
};
use crate::semiring::{FiniteField, Semiring};
use crate::var_order::VarOrder;
use crate::wmc::{wmc_sem, WmcParams};

verus! {

/// The number of models of `p` over the variables of levels `lvl..total`,
/// with everything else fixed by `env`.
pub open spec fn count_models(
    nodes: Seq<BddNode>,
    order: VarOrder,
    p: BddPtr,
    env: Set<u64>,
    lvl: int,
    total: int,
) -> nat
    decreases total - lvl,
{
    if lvl >= total {
        if eval(nodes, p, env) {
            1
        } else {
            0
        }
    } else {
        let v = order.spec_var_at(lvl);
        count_models(nodes, order, p, env.remove(v), lvl + 1, total) + count_models(
            nodes,
            order,
            p,
            env.insert(v),
            lvl + 1,
            total,
        )
    }
}

/// A natural number as a residue.
pub open spec fn ff_of_nat<const P: u64>(n: nat) -> FiniteField<P> {
    FiniteField { value: (n % (P as nat)) as u64 }
}

/// Diagrams with the same models have the same model count.
pub proof fn lemma_count_models_congruent(
    nodes: Seq<BddNode>,
    order: VarOrder,
    a: BddPtr,
    b: BddPtr,
    env: Set<u64>,
    lvl: int,
    total: int,
)
    requires
        forall|e: Set<u64>| #[trigger] eval(nodes, a, e) == eval(nodes, b, e),
    ensures
        count_models(nodes, order, a, env, lvl, total) == count_models(
            nodes,
            order,
            b,
            env,
            lvl,
            total,
        ),
    decreases total - lvl,
{
    if lvl >= total {
    } else {
        let v = order.spec_var_at(lvl);
        lemma_count_models_congruent(nodes, order, a, b, env.remove(v), lvl + 1, total);
        lemma_count_models_congruent(nodes, order, a, b, env.insert(v), lvl + 1, total);
    }
}

/// Counting below the level of a node's variable splits through its
/// cofactor: the branch is already decided by `env`.
proof fn lemma_count_cofactor(
    nodes: Seq<BddNode>,
    order: VarOrder,
    p: BddPtr,
    env: Set<u64>,
    lvl: int,
    total: int,
)
    requires
        store_wf(nodes, order),
        ptr_wf(nodes, p),
        p is Reg || p is Compl,
        0 <= lvl,
        ptr_pos(nodes, order, p) < lvl,
        total <= order.spec_num_vars(),
    ensures
        count_models(nodes, order, p, env, lvl, total) == count_models(
            nodes,
            order,
            if env.contains(top_var(nodes, p)) {
                cof_high(nodes, p)
            } else {
                cof_low(nodes, p)
            },
            env,
            lvl,
            total,
        ),
    decreases total - lvl,
{
    let v = top_var(nodes, p);
    let c = if env.contains(v) {
        cof_high(nodes, p)
    } else {
        cof_low(nodes, p)
    };
    if lvl >= total {
        lemma_cofactor(nodes, order, p, env);
    } else {
        let u = order.spec_var_at(lvl);
        assert(u != v) by {
            let i = match p {
                BddPtr::Reg(i) => i,
                BddPtr::Compl(i) => i,
                _ => 0,
            };
            assert(node_wf(nodes, order, i as int));
            assert(order.wf());
            assert(order.pos_to_var@[lvl] == u);
            assert(order.var_to_pos@[order.pos_to_var@[lvl] as int] as int == lvl);
            assert(order.spec_pos(u) == lvl);
        }
        assert(env.remove(u).contains(v) == env.contains(v));
        assert(env.insert(u).contains(v) == env.contains(v));
        lemma_count_cofactor(nodes, order, p, env.remove(u), lvl + 1, total);
        lemma_count_cofactor(nodes, order, p, env.insert(u), lvl + 1, total);
    }
}

/// The semiring fold of a smoothed diagram under unit weights is its model
/// count over the smoothed levels, as a residue modulo `P`.
proof fn lemma_smoothed_unit_wmc<const P: u64>(
    nodes: Seq<BddNode>,
    order: VarOrder,
    p: BddPtr,
    env: Set<u64>,
    lvl: int,
    total: int,
    params: WmcParams<FiniteField<P>>,
)
    requires
        P > 0,
        store_wf(nodes, order),
        ptr_wf(nodes, p),
        smoothed(nodes, order, p, lvl, total),
        0 <= lvl <= total,
        total <= order.spec_num_vars(),
        params.zero == FiniteField::<P>::sp_zero(),
        params.one == FiniteField::<P>::sp_one(),
        forall|l: int|
            lvl <= l < total ==> {
                &&& params.weighted(#[trigger] order.spec_var_at(l))
                &&& params.spec_low(order.spec_var_at(l)) == FiniteField::<P>::sp_one()
                &&& params.spec_high(order.spec_var_at(l)) == FiniteField::<P>::sp_one()
            },
    ensures
        wmc_sem(nodes, p, params) == ff_of_nat::<P>(count_models(nodes, order, p, env, lvl, total)),
    decreases total - lvl, rank(p),
{
    if lvl >= total {
        match p {
            BddPtr::PtrTrue => {
                assert(count_models(nodes, order, p, env, lvl, total) == 1);
                assert(wmc_sem(nodes, p, params) == params.one);
                assert((1nat % (P as nat)) as int == 1 as int % P as int);
            },
            BddPtr::PtrFalse => {
                assert(count_models(nodes, order, p, env, lvl, total) == 0);
                lemma_mod_self_0(P as int);
                assert(0nat % (P as nat) == 0);
            },
            _ => {},
        }
    } else {
        match p {
            BddPtr::Compl(i) => {
                lemma_smoothed_neg(nodes, order, BddPtr::Reg(i), lvl, total);
                // handled uniformly below through the cofactors
                lemma_smoothed_unit_wmc_node(nodes, order, p, env, lvl, total, params);
            },
            BddPtr::Reg(i) => {
                lemma_smoothed_unit_wmc_node(nodes, order, p, env, lvl, total, params);
            },
            _ => {},
        }
    }
}

/// The node case of the induction above.
proof fn lemma_smoothed_unit_wmc_node<const P: u64>(
    nodes: Seq<BddNode>,
    order: VarOrder,
    p: BddPtr,
    env: Set<u64>,
    lvl: int,
    total: int,
    params: WmcParams<FiniteField<P>>,
)
    requires
        P > 0,
        store_wf(nodes, order),
        ptr_wf(nodes, p),
        p is Reg || p is Compl,
        smoothed(nodes, order, p, lvl, total),
        0 <= lvl < total,
        total <= order.spec_num_vars(),
        params.zero == FiniteField::<P>::sp_zero(),
        params.one == FiniteField::<P>::sp_one(),
        forall|l: int|
            lvl <= l < total ==> {
                &&& params.weighted(#[trigger] order.spec_var_at(l))
                &&& params.spec_low(order.spec_var_at(l)) == FiniteField::<P>::sp_one()
                &&& params.spec_high(order.spec_var_at(l)) == FiniteField::<P>::sp_one()
            },
    ensures
        wmc_sem(nodes, p, params) == ff_of_nat::<P>(count_models(nodes, order, p, env, lvl, total)),
    decreases total - lvl, rank(p), 0int,
{
    let i = match p {
        BddPtr::Reg(i) => i,
        BddPtr::Compl(i) => i,
        _ => 0,
    };
    let n = nodes[i as int];
    assert(node_wf(nodes, order, i as int));
    if p is Compl {
        lemma_smoothed_neg(nodes, order, BddPtr::Reg(i), lvl, total);
    }
    let cl = cof_low(nodes, p);
    let ch = cof_high(nodes, p);
    let v = n.var.0;
    // the node's variable is the level's variable
    assert(order.spec_pos(v) == lvl);
    assert(order.spec_var_at(lvl) == v) by {
        assert(order.wf());
    }
    // the cofactors are smoothed one level down
    assert(smoothed(nodes, order, n.low, lvl + 1, total));
    assert(smoothed(nodes, order, n.high, lvl + 1, total));
    lemma_smoothed_neg(nodes, order, n.low, lvl + 1, total);
    lemma_smoothed_neg(nodes, order, n.high, lvl + 1, total);
    assert(smoothed(nodes, order, cl, lvl + 1, total));
    assert(smoothed(nodes, order, ch, lvl + 1, total));
    assert(ptr_wf(nodes, cl) && rank(cl) < rank(p));
    assert(ptr_wf(nodes, ch) && rank(ch) < rank(p));
    // fold both cofactors
    lemma_smoothed_unit_wmc(nodes, order, cl, env.remove(v), lvl + 1, total, params);
    lemma_smoothed_unit_wmc(nodes, order, ch, env.insert(v), lvl + 1, total, params);
    let c_lo = count_models(nodes, order, cl, env.remove(v), lvl + 1, total);
    let c_hi = count_models(nodes, order, ch, env.insert(v), lvl + 1, total);
    // the overall count splits through the cofactors
    lemma_count_cofactor(nodes, order, p, env.remove(v), lvl + 1, total);
    lemma_count_cofactor(nodes, order, p, env.insert(v), lvl + 1, total);
    assert(count_models(nodes, order, p, env, lvl, total) == c_lo + c_hi);
    // the fold is the unit-weighted sum of the cofactor folds
    assert(wmc_sem(nodes, p, params) == (params.spec_low(v).sp_mul(wmc_sem(nodes, cl, params))).sp_add(
        params.spec_high(v).sp_mul(wmc_sem(nodes, ch, params)),
    ));
    // arithmetic: 1 * a + 1 * b == a + b modulo P
    let fl = ff_of_nat::<P>(c_lo);
    let fh = ff_of_nat::<P>(c_hi);
    assert(fl.value < P && fh.value < P);
    lemma_small_mod(fl.value as nat, P as nat);
    lemma_small_mod(fh.value as nat, P as nat);
    assert(FiniteField::<P>::sp_one().sp_mul(fl).value == fl.value) by {
        lemma_unit_mul::<P>(fl);
    }
    assert(FiniteField::<P>::sp_one().sp_mul(fh).value == fh.value) by {
        lemma_unit_mul::<P>(fh);
    }
    assert(fl.sp_add(fh) == ff_of_nat::<P>((c_lo + c_hi) as nat)) by {
        lemma_add_mod_noop(c_lo as int, c_hi as int, P as int);
    }
}

/// Smoothing preserves the weighted count under unit weights: the fold of
/// the smoothed diagram is the number of models of the original function
/// over all `n` levels, as a residue modulo `P`.
pub proof fn lemma_smooth_unit_wmc_counts_models<const P: u64>(
    nodes: Seq<BddNode>,
    order: VarOrder,
    a: BddPtr,
    s: BddPtr,
    n: int,
    params: WmcParams<FiniteField<P>>,
)
    requires
        P > 0,
        store_wf(nodes, order),
        ptr_wf(nodes, a),
        ptr_wf(nodes, s),
        smoothed(nodes, order, s, 0, n),
        forall|e: Set<u64>| #[trigger] eval(nodes, s, e) == eval(nodes, a, e),
        0 <= n <= order.spec_num_vars(),
        params.zero == FiniteField::<P>::sp_zero(),
        params.one == FiniteField::<P>::sp_one(),
        forall|l: int|
            0 <= l < n ==> {
                &&& params.weighted(#[trigger] order.spec_var_at(l))
                &&& params.spec_low(order.spec_var_at(l)) == FiniteField::<P>::sp_one()
                &&& params.spec_high(order.spec_var_at(l)) == FiniteField::<P>::sp_one()
            },
    ensures
        wmc_sem(nodes, s, params) == ff_of_nat::<P>(
            count_models(nodes, order, a, Set::empty(), 0, n),
        ),
{
    lemma_smoothed_unit_wmc(nodes, order, s, Set::empty(), 0, n, params);
    lemma_count_models_congruent(nodes, order, s, a, Set::empty(), 0, n);
}


/// Multiplying by the residue of one changes nothing below the modulus.
proof fn lemma_unit_mul<const P: u64>(x: FiniteField<P>)
    requires
        P > 0,
        x.value < P,
    ensures
        FiniteField::<P>::sp_one().sp_mul(x).value == x.value,
{
    let one = FiniteField::<P>::sp_one();
    if P == 1 {
        assert(x.value == 0);
        lemma_small_mod(0nat, 1nat);
        assert(one.value * x.value == 0);
    } else {
        lemma_small_mod(1nat, P as nat);
        assert(one.value == 1);
        assert(one.value * x.value == x.value);
        lemma_small_mod(x.value as nat, P as nat);
    }
}

} // verus!
