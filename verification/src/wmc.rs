use vstd::prelude::*;

use crate::bdd_ptr::{pneg, BddNode, BddPtr};
use crate::builder::RobddBuilder;
use crate::semantics::{node_wf, ptr_wf, rank};
use crate::semiring::Semiring;
use crate::var_label::{Literal, VarLabel};

verus! {

/// Weighted model counting parameters: a low and a high weight for each
/// variable, over some semiring.
pub struct WmcParams<T: Semiring> {
    pub zero: T,
    pub one: T,
    /// maps each variable label to its `(low, high)` weights
    pub var_to_val: Vec<Option<(T, T)>>,
}

/// The last weight pair a list of assignments gives to `v`, if any.
pub open spec fn lookup_last<T: Semiring>(
    s: Seq<(VarLabel, (T, T))>,
    v: u64,
) -> Option<(T, T)>
    decreases s.len(),
{
    if s.len() == 0 {
        None
    } else if s.last().0.0 == v {
        Some(s.last().1)
    } else {
        lookup_last(s.drop_last(), v)
    }
}

impl<T: Semiring> WmcParams<T> {
    /// Is a weight recorded for `v`?
    pub open spec fn weighted(self, v: u64) -> bool {
        v < self.var_to_val@.len() && self.var_to_val@[v as int] is Some
    }

    pub open spec fn spec_low(self, v: u64) -> T {
        (self.var_to_val@[v as int]->0).0
    }

    pub open spec fn spec_high(self, v: u64) -> T {
        (self.var_to_val@[v as int]->0).1
    }

    /// Parameters with the given units and no weights recorded.
    pub fn new(zero: T, one: T) -> (r: WmcParams<T>)
        ensures
            r.zero == zero,
            r.one == one,
            r.var_to_val@.len() == 0,
    {
        WmcParams { zero, one, var_to_val: Vec::new() }
    }

    /// Parameters seeded from a list of `(variable, weights)` pairs; later
    /// entries win.  Every listed variable must fit in the table, whose size
    /// is the number of entries.
    pub fn new_with_default(zero: T, one: T, var_to_val: Vec<(VarLabel, (T, T))>) -> (r:
        WmcParams<T>)
        requires
            forall|k: int|
                0 <= k < var_to_val@.len() ==> (#[trigger] var_to_val@[k]).0.0
                    < var_to_val@.len(),
        ensures
            r.zero == zero,
            r.one == one,
            r.var_to_val@.len() == var_to_val@.len(),
            forall|v: int|
                0 <= v < var_to_val@.len() ==> #[trigger] r.var_to_val@[v] == lookup_last(
                    var_to_val@,
                    v as u64,
                ),
    {
        let n = var_to_val.len();
        let mut table: Vec<Option<(T, T)>> = Vec::new();
        let mut i: usize = 0;
        while i < n
            invariant
                i <= n,
                table@.len() == i,
                forall|k: int| 0 <= k < i ==> #[trigger] table@[k] is None,
            decreases n - i,
        {
            table.push(None);
            i += 1;
        }
        proof {
            assert forall|v: int|
                0 <= v < n implies #[trigger] table@[v] == lookup_last(
                var_to_val@.take(0),
                v as u64,
            ) by {
                assert(var_to_val@.take(0).len() == 0);
            }
        }
        let mut k: usize = 0;
        while k < n
            invariant
                k <= n,
                n == var_to_val@.len(),
                table@.len() == n,
                forall|j: int|
                    0 <= j < n ==> (#[trigger] var_to_val@[j]).0.0 < n,
                forall|v: int|
                    0 <= v < n ==> #[trigger] table@[v] == lookup_last(
                        var_to_val@.take(k as int),
                        v as u64,
                    ),
            decreases n - k,
        {
            let ghost pre_table = table@;
            let entry = var_to_val[k];
            table[entry.0.0 as usize] = Some(entry.1);
            proof {
                assert forall|v: int|
                    0 <= v < n implies #[trigger] table@[v] == lookup_last(
                    var_to_val@.take(k + 1),
                    v as u64,
                ) by {
                    let t1 = var_to_val@.take(k + 1);
                    assert(t1.last() == var_to_val@[k as int]);
                    assert(t1.drop_last() == var_to_val@.take(k as int));
                    if v != entry.0.0 {
                        assert(table@[v] == pre_table[v]);
                    }
                }
            }
            k += 1;
        }
        proof {
            assert(var_to_val@.take(n as int) == var_to_val@);
        }
        WmcParams { zero, one, var_to_val: table }
    }

    /// Record the weights of one variable, growing the table as needed.
    pub fn set_weight(&mut self, lbl: VarLabel, low: T, high: T)
        requires
            old(self).var_to_val@.len() < usize::MAX,
            lbl.0 < usize::MAX,
        ensures
            final(self).zero == old(self).zero,
            final(self).one == old(self).one,
            final(self).weighted(lbl.0),
            final(self).spec_low(lbl.0) == low,
            final(self).spec_high(lbl.0) == high,
            forall|v: u64|
                v != lbl.0 && old(self).weighted(v) ==> #[trigger] final(self).weighted(v)
                    && final(self).spec_low(v) == old(self).spec_low(v) && final(self).spec_high(
                    v,
                ) == old(self).spec_high(v),
    {
        let n = lbl.0 as usize;
        while n >= self.var_to_val.len()
            invariant
                old(self).var_to_val@.len() < usize::MAX,
                n < usize::MAX,
                self.zero == old(self).zero,
                self.one == old(self).one,
                self.var_to_val@.len() >= old(self).var_to_val@.len(),
                forall|v: int|
                    0 <= v < self.var_to_val@.len() ==> #[trigger] self.var_to_val@[v] == (if v
                        < old(self).var_to_val@.len() {
                        old(self).var_to_val@[v]
                    } else {
                        Option::None
                    }),
            decreases n + 1 - self.var_to_val@.len(),
        {
            self.var_to_val.push(None);
        }
        self.var_to_val[n] = Some((low, high));
    }

    /// The `(low, high)` weights of a variable; the variable must have been
    /// assigned weights.
    pub fn get_var_weight(&self, label: VarLabel) -> (r: &(T, T))
        requires
            self.weighted(label.0),
        ensures
            r.0 == self.spec_low(label.0),
            r.1 == self.spec_high(label.0),
    {
        let n = self.var_to_val.len();
        assert(label.0 < n);
        match &self.var_to_val[label.0 as usize] {
            Some(pair) => pair,
            None => vstd::pervasive::unreached(),
        }
    }

    /// The product of the weights of a list of decided literals.
    pub fn get_weight(&self, assgn: &[Literal]) -> (r: T)
        requires
            forall|k: int| 0 <= k < assgn@.len() ==> self.weighted((#[trigger] assgn@[k]).label.0),
        ensures
            r == weight_product(*self, assgn@),
    {
        let mut prod = self.one;
        let mut i: usize = 0;
        proof {
            assert(assgn@.take(0).len() == 0);
        }
        while i < assgn.len()
            invariant
                i <= assgn@.len(),
                forall|k: int|
                    0 <= k < assgn@.len() ==> self.weighted((#[trigger] assgn@[k]).label.0),
                prod == weight_product(*self, assgn@.take(i as int)),
            decreases assgn@.len() - i,
        {
            let lit = assgn[i];
            let w = self.get_var_weight(lit.get_label());
            prod = if lit.get_polarity() {
                prod.mul(w.1)
            } else {
                prod.mul(w.0)
            };
            proof {
                let t1 = assgn@.take(i + 1);
                assert(t1.last() == assgn@[i as int]);
                assert(t1.drop_last() == assgn@.take(i as int));
            }
            i += 1;
        }
        proof {
            assert(assgn@.take(assgn@.len() as int) == assgn@);
        }
        prod
    }
}

/// The left fold of literal weights, starting from the recorded unit.
pub open spec fn weight_product<T: Semiring>(params: WmcParams<T>, s: Seq<Literal>) -> T
    decreases s.len(),
{
    if s.len() == 0 {
        params.one
    } else {
        let prev = weight_product(params, s.drop_last());
        if s.last().polarity {
            prev.sp_mul(params.spec_high(s.last().label.0))
        } else {
            prev.sp_mul(params.spec_low(s.last().label.0))
        }
    }
}


/// Weights are recorded for every variable of the diagram.
pub open spec fn vars_weighted<T: Semiring>(
    nodes: Seq<BddNode>,
    p: BddPtr,
    params: WmcParams<T>,
) -> bool
    decreases rank(p),
{
    match p {
        BddPtr::PtrTrue => true,
        BddPtr::PtrFalse => true,
        BddPtr::Compl(i) => vars_weighted(nodes, BddPtr::Reg(i), params),
        BddPtr::Reg(i) => i < nodes.len() && {
            let n = nodes[i as int];
            &&& params.weighted(n.var.0)
            &&& (if rank(n.low) < rank(p) {
                vars_weighted(nodes, n.low, params)
            } else {
                true
            })
            &&& (if rank(n.high) < rank(p) {
                vars_weighted(nodes, n.high, params)
            } else {
                true
            })
        },
    }
}

/// The parity of an edge does not change which variables it reaches.
pub proof fn lemma_vars_weighted_neg<T: Semiring>(
    nodes: Seq<BddNode>,
    p: BddPtr,
    params: WmcParams<T>,
)
    ensures
        vars_weighted(nodes, pneg(p), params) == vars_weighted(nodes, p, params),
{
}

/// The semiring fold over the DAG: terminals map to the units; a node maps
/// to `low_weight * fold(low) + high_weight * fold(high)`, with the edge's
/// parity applied to the children.  This is the specification of the
/// unsmoothed weighted model count.
pub open spec fn wmc_sem<T: Semiring>(nodes: Seq<BddNode>, p: BddPtr, params: WmcParams<T>) -> T
    decreases rank(p),
{
    match p {
        BddPtr::PtrTrue => params.one,
        BddPtr::PtrFalse => params.zero,
        BddPtr::Reg(i) => if i < nodes.len() {
            let n = nodes[i as int];
            if rank(n.low) < rank(p) && rank(n.high) < rank(p) {
                (params.spec_low(n.var.0).sp_mul(wmc_sem(nodes, n.low, params))).sp_add(
                    params.spec_high(n.var.0).sp_mul(wmc_sem(nodes, n.high, params)),
                )
            } else {
                params.zero
            }
        } else {
            params.zero
        },
        BddPtr::Compl(i) => if i < nodes.len() {
            let n = nodes[i as int];
            if rank(pneg(n.low)) < rank(p) && rank(pneg(n.high)) < rank(p) {
                (params.spec_low(n.var.0).sp_mul(wmc_sem(nodes, pneg(n.low), params))).sp_add(
                    params.spec_high(n.var.0).sp_mul(wmc_sem(nodes, pneg(n.high), params)),
                )
            } else {
                params.zero
            }
        } else {
            params.zero
        },
    }
}

/// Validity of the per-call fold memo: each slot caches the fold of the
/// complement edge and of the regular edge of its node.
pub open spec fn wmc_memo_ok<T: Semiring>(
    nodes: Seq<BddNode>,
    params: WmcParams<T>,
    memo: Seq<(Option<T>, Option<T>)>,
) -> bool {
    forall|i: int|
        0 <= i < memo.len() ==> {
            &&& ((#[trigger] memo[i]).0 is Some ==> memo[i].0->0 == wmc_sem(
                nodes,
                BddPtr::Compl(i as usize),
                params,
            ))
            &&& (memo[i].1 is Some ==> memo[i].1->0 == wmc_sem(
                nodes,
                BddPtr::Reg(i as usize),
                params,
            ))
        }
}

impl RobddBuilder {
    /// The memoized bottom-up pass of the weighted count.
    fn wmc_rec<T: Semiring>(
        &self,
        ptr: BddPtr,
        params: &WmcParams<T>,
        memo: &mut Vec<(Option<T>, Option<T>)>,
    ) -> (r: T)
        requires
            self.inv(),
            ptr_wf(self.nodes@, ptr),
            vars_weighted(self.nodes@, ptr, *params),
            old(memo)@.len() == self.nodes@.len(),
            wmc_memo_ok(self.nodes@, *params, old(memo)@),
        ensures
            final(memo)@.len() == old(memo)@.len(),
            wmc_memo_ok(self.nodes@, *params, final(memo)@),
            r == wmc_sem(self.nodes@, ptr, *params),
        decreases rank(ptr),
    {
        match ptr {
            BddPtr::PtrTrue => params.one,
            BddPtr::PtrFalse => params.zero,
            BddPtr::Reg(i) | BddPtr::Compl(i) => {
                let neg = ptr.is_neg();
                let slot = memo[i];
                if neg {
                    match slot.0 {
                        Some(v) => {
                            return v;
                        },
                        None => {},
                    }
                } else {
                    match slot.1 {
                        Some(v) => {
                            return v;
                        },
                        None => {},
                    }
                }
                proof {
                    assert(node_wf(self.nodes@, self.order, i as int));
                    if ptr is Compl {
                        assert(vars_weighted(self.nodes@, BddPtr::Reg(i), *params));
                        assert(rank(self.nodes@[i as int].low) < rank(BddPtr::Reg(i)));
                        assert(rank(self.nodes@[i as int].high) < rank(BddPtr::Reg(i)));
                    } else {
                        assert(rank(self.nodes@[i as int].low) < rank(ptr));
                        assert(rank(self.nodes@[i as int].high) < rank(ptr));
                    }
                }
                let n = self.nodes[i];
                let lc = if neg {
                    n.low.neg()
                } else {
                    n.low
                };
                let hc = if neg {
                    n.high.neg()
                } else {
                    n.high
                };
                proof {
                    lemma_vars_weighted_neg(self.nodes@, n.low, *params);
                    lemma_vars_weighted_neg(self.nodes@, n.high, *params);
                }
                let lv = self.wmc_rec(lc, params, memo);
                let hv = self.wmc_rec(hc, params, memo);
                let w = params.get_var_weight(n.var);
                let w0 = w.0;
                let w1 = w.1;
                let res = (w0.mul(lv)).add(w1.mul(hv));
                let ghost memo_before = memo@;
                let slot2 = memo[i];
                if neg {
                    memo[i] = (Some(res), slot2.1);
                } else {
                    memo[i] = (slot2.0, Some(res));
                }
                proof {
                    assert(res == wmc_sem(self.nodes@, ptr, *params));
                    assert forall|k: int|
                        0 <= k < memo@.len() implies {
                        &&& ((#[trigger] memo@[k]).0 is Some ==> memo@[k].0->0 == wmc_sem(
                            self.nodes@,
                            BddPtr::Compl(k as usize),
                            *params,
                        ))
                        &&& (memo@[k].1 is Some ==> memo@[k].1->0 == wmc_sem(
                            self.nodes@,
                            BddPtr::Reg(k as usize),
                            *params,
                        ))
                    } by {
                        if k != i as int {
                            assert(memo@[k] == memo_before[k]);
                        }
                    }
                }
                res
            },
        }
    }

    /// The weighted model count of the diagram as it stands, without
    /// smoothing: the semiring fold of the DAG under the given parameters.
    pub fn unsmoothed_wmc<T: Semiring>(&self, bdd: BddPtr, params: &WmcParams<T>) -> (r: T)
        requires
            self.inv(),
            ptr_wf(self.nodes@, bdd),
            vars_weighted(self.nodes@, bdd, *params),
        ensures
            r == wmc_sem(self.nodes@, bdd, *params),
    {
        let n = self.nodes.len();
        let mut memo: Vec<(Option<T>, Option<T>)> = Vec::new();
        let mut i: usize = 0;
        while i < n
            invariant
                i <= n,
                memo@.len() == i,
                forall|k: int|
                    0 <= k < i ==> (#[trigger] memo@[k]).0 is None && memo@[k].1 is None,
            decreases n - i,
        {
            memo.push((None, None));
            i += 1;
        }
        self.wmc_rec(bdd, params, &mut memo)
    }
}

} // verus!
