use vstd::prelude::*;

use crate::bdd_ptr::{pneg, BddNode, BddPtr};
use crate::semantics::{
    all_below, cof_high, cof_low, eval, lemma_all_below_ext, lemma_cofactor, lemma_eval_ext,
    lemma_eval_ext_all, lemma_eval_neg, lemma_has_variable_below, lemma_indep, lemma_ptr_pos_ext,
    lemma_reduced_ext, lemma_reduced_neg, lemma_smoothed_ext, lemma_smoothed_neg,
    lemma_smoothed_pos, lemma_store_wf_push, node_wf, ptr_pos, ptr_wf, rank, raw_high, raw_low,
    reduced, seq_ext, smoothed, spec_has_variable, store_wf, top_var,
};
use crate::time_check::{elapsed_exceeds, instant_now};
use crate::var_label::{PartialModel, VarLabel};
use crate::var_order::VarOrder;

verus! {

/// Capacity of the lossy apply cache: entries are overwritten on collision.
pub const ITE_CACHE_SIZE: usize = 16384;

/// One memoized `ite` triple and its result.
#[derive(Clone, Copy)]
pub struct IteEntry {
    pub f: BddPtr,
    pub g: BddPtr,
    pub h: BddPtr,
    pub r: BddPtr,
}

/// Counters the builder keeps about its own work.
#[derive(Clone, Copy, PartialEq, Eq, Structural, Debug)]
pub struct BddBuilderStats {
    pub num_recursive_calls: usize,
}

/// The manager: a hash-consed node store, the variable order, the lossy
/// apply cache for `ite`, statistics, and an optional time budget.
pub struct RobddBuilder {
    pub nodes: Vec<BddNode>,
    pub order: VarOrder,
    pub cache: Vec<Option<IteEntry>>,
    pub stats: BddBuilderStats,
    pub time_limit: Option<(std::time::Instant, std::time::Duration)>,
    /// Whether no time budget was ever armed.  Only then are results of the
    /// connectives guaranteed meaningful: a budget makes `ite` return early
    /// with a sentinel that callers must discard.
    pub clean: Ghost<bool>,
}

/// The least level among three operands.
pub open spec fn tri_minpos(
    nodes: Seq<BddNode>,
    order: VarOrder,
    f: BddPtr,
    g: BddPtr,
    h: BddPtr,
) -> int {
    let pf = ptr_pos(nodes, order, f);
    let pg = ptr_pos(nodes, order, g);
    let ph = ptr_pos(nodes, order, h);
    if pf <= pg && pf <= ph {
        pf
    } else if pg <= ph {
        pg
    } else {
        ph
    }
}

/// Structural facts that hold of a cache entry whatever the time budget did:
/// its pointers are in bounds, the result sits no higher than the operands,
/// and reduced operands gave a reduced result.
pub open spec fn entry_ok(nodes: Seq<BddNode>, order: VarOrder, e: Option<IteEntry>) -> bool {
    match e {
        None => true,
        Some(e) => {
            &&& ptr_wf(nodes, e.f)
            &&& ptr_wf(nodes, e.g)
            &&& ptr_wf(nodes, e.h)
            &&& ptr_wf(nodes, e.r)
            &&& ptr_pos(nodes, order, e.r) >= tri_minpos(nodes, order, e.f, e.g, e.h)
            &&& (reduced(nodes, e.f) && reduced(nodes, e.g) && reduced(nodes, e.h)) ==> reduced(
                nodes,
                e.r,
            )
        },
    }
}

/// The memoized result denotes `if f then g else h`.
pub open spec fn entry_sem_ok(nodes: Seq<BddNode>, e: Option<IteEntry>) -> bool {
    match e {
        None => true,
        Some(e) => forall|env: Set<u64>|
            #[trigger] eval(nodes, e.r, env) == if eval(nodes, e.f, env) {
                eval(nodes, e.g, env)
            } else {
                eval(nodes, e.h, env)
            },
    }
}

impl RobddBuilder {
    /// The builder's invariant: a well-formed store and a valid cache.
    pub open spec fn inv(self) -> bool {
        &&& store_wf(self.nodes@, self.order)
        &&& self.cache@.len() == ITE_CACHE_SIZE
        &&& forall|k: int|
            0 <= k < self.cache@.len() ==> entry_ok(self.nodes@, self.order, #[trigger] self.cache@[k])
        &&& (self.clean@ ==> self.time_limit is None)
        &&& (self.clean@ ==> forall|k: int|
            0 <= k < self.cache@.len() ==> entry_sem_ok(self.nodes@, #[trigger] self.cache@[k]))
    }
}

/// `post` continues `pre`: same order, same budget state, and every node of
/// `pre` still in place, so that old pointers keep their meaning.
pub open spec fn extends(pre: RobddBuilder, post: RobddBuilder) -> bool {
    &&& seq_ext(pre.nodes@, post.nodes@)
    &&& post.order == pre.order
    &&& post.clean == pre.clean
    &&& post.time_limit == pre.time_limit
}

/// Cache validity survives growing the store.
proof fn lemma_entries_ext(
    pre_nodes: Seq<BddNode>,
    post_nodes: Seq<BddNode>,
    order: VarOrder,
    cache: Seq<Option<IteEntry>>,
    clean: bool,
)
    requires
        seq_ext(pre_nodes, post_nodes),
        forall|k: int| 0 <= k < cache.len() ==> entry_ok(pre_nodes, order, #[trigger] cache[k]),
        clean ==> forall|k: int|
            0 <= k < cache.len() ==> entry_sem_ok(pre_nodes, #[trigger] cache[k]),
    ensures
        forall|k: int| 0 <= k < cache.len() ==> entry_ok(post_nodes, order, #[trigger] cache[k]),
        clean ==> forall|k: int|
            0 <= k < cache.len() ==> entry_sem_ok(post_nodes, #[trigger] cache[k]),
{
    assert forall|k: int|
        0 <= k < cache.len() implies entry_ok(post_nodes, order, #[trigger] cache[k]) by {
        match cache[k] {
            None => {},
            Some(e) => {
                lemma_ptr_pos_ext(pre_nodes, post_nodes, order, e.f);
                lemma_ptr_pos_ext(pre_nodes, post_nodes, order, e.g);
                lemma_ptr_pos_ext(pre_nodes, post_nodes, order, e.h);
                lemma_ptr_pos_ext(pre_nodes, post_nodes, order, e.r);
                lemma_reduced_ext(pre_nodes, post_nodes, e.f);
                lemma_reduced_ext(pre_nodes, post_nodes, e.g);
                lemma_reduced_ext(pre_nodes, post_nodes, e.h);
                lemma_reduced_ext(pre_nodes, post_nodes, e.r);
            },
        }
    }
    if clean {
        assert forall|k: int|
            0 <= k < cache.len() implies entry_sem_ok(post_nodes, #[trigger] cache[k]) by {
            match cache[k] {
                None => {},
                Some(e) => {
                    assert(entry_sem_ok(pre_nodes, cache[k]));
                    assert forall|env: Set<u64>|
                        #[trigger] eval(post_nodes, e.r, env) == if eval(post_nodes, e.f, env) {
                            eval(post_nodes, e.g, env)
                        } else {
                            eval(post_nodes, e.h, env)
                        } by {
                        lemma_eval_ext(pre_nodes, post_nodes, e.f, env);
                        lemma_eval_ext(pre_nodes, post_nodes, e.g, env);
                        lemma_eval_ext(pre_nodes, post_nodes, e.h, env);
                        lemma_eval_ext(pre_nodes, post_nodes, e.r, env);
                        assert(eval(pre_nodes, e.r, env) == if eval(pre_nodes, e.f, env) {
                            eval(pre_nodes, e.g, env)
                        } else {
                            eval(pre_nodes, e.h, env)
                        });
                    }
                },
            }
        }
    }
}

/// An empty apply cache at full capacity.
fn fresh_cache() -> (r: Vec<Option<IteEntry>>)
    ensures
        r@.len() == ITE_CACHE_SIZE,
        forall|k: int| 0 <= k < r@.len() ==> #[trigger] r@[k] is None,
{
    let mut cache: Vec<Option<IteEntry>> = Vec::new();
    let mut i: usize = 0;
    while i < ITE_CACHE_SIZE
        invariant
            i <= ITE_CACHE_SIZE,
            cache@.len() == i,
            forall|k: int| 0 <= k < i ==> #[trigger] cache@[k] is None,
        decreases ITE_CACHE_SIZE - i,
    {
        cache.push(None);
        i += 1;
    }
    cache
}

impl RobddBuilder {
    /// A fresh manager over the given order, with an optional time budget.
    pub fn new(
        order: VarOrder,
        time_limit: Option<(std::time::Instant, std::time::Duration)>,
    ) -> (r: RobddBuilder)
        requires
            order.wf(),
        ensures
            r.inv(),
            r.nodes@.len() == 0,
            r.order == order,
            r.clean@ == (time_limit is None),
    {
        let ghost clean = time_limit is None;
        let cache = fresh_cache();
        RobddBuilder {
            nodes: Vec::new(),
            order,
            cache,
            stats: BddBuilderStats { num_recursive_calls: 0 },
            time_limit,
            clean: Ghost(clean),
        }
    }

    /// A manager over `num_vars` variables in the identity order.
    pub fn new_with_linear_order(num_vars: usize) -> (r: RobddBuilder)
        ensures
            r.inv(),
            r.clean@,
            r.nodes@.len() == 0,
            r.order.wf(),
            r.order.spec_num_vars() == num_vars,
    {
        let order = VarOrder::linear_order(num_vars);
        RobddBuilder::new(order, None)
    }

    /// Arm a time budget starting now.  From here on, results of the
    /// connectives may be discarded sentinels.
    pub fn start_time_limit(&mut self, time_limit: std::time::Duration)
        requires
            old(self).inv(),
        ensures
            final(self).inv(),
            final(self).nodes@ == old(self).nodes@,
            final(self).order == old(self).order,
            !final(self).clean@,
    {
        self.time_limit = Some((instant_now(), time_limit));
        proof {
            self.clean@ = false;
        }
    }

    /// Disarm the budget.  Earlier sentinel results stay invalid.
    pub fn stop_time_limit(&mut self)
        requires
            old(self).inv(),
        ensures
            final(self).inv(),
            final(self).nodes@ == old(self).nodes@,
            final(self).order == old(self).order,
            final(self).clean@ == old(self).clean@,
    {
        self.time_limit = None;
    }

    /// Poll the budget.  Without a budget this is always false.
    pub fn check_time_limit(&self) -> (r: bool)
        ensures
            self.time_limit is None ==> r == false,
            self.clean@ && self.inv() ==> r == false,
    {
        match &self.time_limit {
            None => false,
            Some((start, limit)) => elapsed_exceeds(start, limit),
        }
    }

    /// Number of variables this manager knows.
    pub fn num_vars(&self) -> (r: usize)
        ensures
            r == self.order.spec_num_vars(),
    {
        self.order.num_vars()
    }

    /// The current variable order.
    pub fn order(&self) -> (r: &VarOrder)
        ensures
            *r == self.order,
    {
        &self.order
    }

    /// Total recursive calls made so far; a stable measure of work done.
    pub fn num_recursive_calls(&self) -> (r: usize)
        ensures
            r == self.stats.num_recursive_calls,
    {
        self.stats.num_recursive_calls
    }

    pub fn stats(&self) -> (r: BddBuilderStats)
        ensures
            r == self.stats,
    {
        BddBuilderStats { num_recursive_calls: self.stats.num_recursive_calls }
    }

    pub fn true_ptr(&self) -> (r: BddPtr)
        ensures
            r == BddPtr::PtrTrue,
    {
        BddPtr::PtrTrue
    }

    pub fn false_ptr(&self) -> (r: BddPtr)
        ensures
            r == BddPtr::PtrFalse,
    {
        BddPtr::PtrFalse
    }

    /// Does `a` branch strictly before `b` in the variable order?
    pub fn less_than(&self, a: VarLabel, b: VarLabel) -> (r: bool)
        requires
            self.inv(),
            self.order.registered(a.0),
            self.order.registered(b.0),
        ensures
            r == self.order.spec_lt(a.0, b.0),
    {
        self.order.lt(a, b)
    }

    /// Pointer equality.  By canonicity this decides Boolean equivalence of
    /// reduced diagrams (`crate::canonicity::lemma_canonicity`).
    pub fn eq(&self, a: BddPtr, b: BddPtr) -> (r: bool)
        ensures
            r == (a == b),
    {
        a == b
    }

    /// Negation in constant time; the diagram itself is untouched.
    pub fn negate(&self, bdd: BddPtr) -> (r: BddPtr)
        ensures
            r == pneg(bdd),
    {
        bdd.neg()
    }

    /// Append a fresh variable at the end of the order.
    pub fn new_label(&mut self) -> (r: VarLabel)
        requires
            old(self).inv(),
            old(self).order.spec_num_vars() < u64::MAX,
        ensures
            final(self).inv(),
            final(self).nodes@ == old(self).nodes@,
            final(self).clean@ == old(self).clean@,
            final(self).time_limit == old(self).time_limit,
            r.0 == old(self).order.spec_num_vars(),
            final(self).order.wf(),
            final(self).order.spec_num_vars() == old(self).order.spec_num_vars() + 1,
            final(self).order.registered(r.0),
            forall|v: u64|
                old(self).order.registered(v) ==> #[trigger] final(self).order.spec_pos(v) == old(
                    self,
                ).order.spec_pos(v),
    {
        let ghost pre = *self;
        let r = self.order.new_last();
        self.cache = fresh_cache();
        proof {
            lemma_inv_order_monotone(pre, *self);
        }
        r
    }

    /// Insert a fresh variable at the given position.  The apply cache is
    /// dropped: its entries relate levels that have just shifted.
    pub fn new_label_at_position(&mut self, position: usize) -> (r: VarLabel)
        requires
            old(self).inv(),
            old(self).order.spec_num_vars() < u64::MAX,
            position <= old(self).order.spec_num_vars(),
        ensures
            final(self).inv(),
            final(self).nodes@ == old(self).nodes@,
            final(self).clean@ == old(self).clean@,
            final(self).time_limit == old(self).time_limit,
            r.0 == old(self).order.spec_num_vars(),
            final(self).order.wf(),
            final(self).order.spec_num_vars() == old(self).order.spec_num_vars() + 1,
            final(self).order.registered(r.0),
            final(self).order.spec_pos(r.0) == position,
            forall|a: u64, b: u64|
                old(self).order.registered(a) && old(self).order.registered(b) ==> (
                #[trigger] final(self).order.spec_lt(a, b) == old(self).order.spec_lt(a, b)),
    {
        let ghost pre = *self;
        let r = self.order.insert_var_at_position(position);
        self.cache = fresh_cache();
        proof {
            lemma_inv_order_monotone(pre, *self);
        }
        r
    }
}

/// An order change that keeps the relative order of the registered
/// variables keeps the store well-formed; used with a cleared cache.
proof fn lemma_inv_order_monotone(pre: RobddBuilder, post: RobddBuilder)
    requires
        pre.inv(),
        post.nodes@ == pre.nodes@,
        post.cache@.len() == ITE_CACHE_SIZE,
        forall|k: int| 0 <= k < post.cache@.len() ==> #[trigger] post.cache@[k] is None,
        post.clean == pre.clean,
        post.time_limit == pre.time_limit,
        post.order.wf(),
        post.order.spec_num_vars() >= pre.order.spec_num_vars(),
        forall|a: u64, b: u64|
            pre.order.registered(a) && pre.order.registered(b) ==> (#[trigger] post.order.spec_lt(
                a,
                b,
            ) == pre.order.spec_lt(a, b)),
    ensures
        post.inv(),
{
    assert forall|i: int|
        0 <= i < post.nodes@.len() implies #[trigger] node_wf(post.nodes@, post.order, i) by {
        assert(node_wf(pre.nodes@, pre.order, i));
        let n = pre.nodes@[i];
        match n.low {
            BddPtr::Reg(j) => {
                assert(node_wf(pre.nodes@, pre.order, j as int));
                assert(pre.order.spec_lt(n.var.0, pre.nodes@[j as int].var.0));
                assert(post.order.spec_lt(n.var.0, pre.nodes@[j as int].var.0));
            },
            BddPtr::Compl(j) => {
                assert(node_wf(pre.nodes@, pre.order, j as int));
                assert(pre.order.spec_lt(n.var.0, pre.nodes@[j as int].var.0));
                assert(post.order.spec_lt(n.var.0, pre.nodes@[j as int].var.0));
            },
            _ => {},
        }
        match n.high {
            BddPtr::Reg(j) => {
                assert(node_wf(pre.nodes@, pre.order, j as int));
                assert(pre.order.spec_lt(n.var.0, pre.nodes@[j as int].var.0));
                assert(post.order.spec_lt(n.var.0, pre.nodes@[j as int].var.0));
            },
            BddPtr::Compl(j) => {
                assert(node_wf(pre.nodes@, pre.order, j as int));
                assert(pre.order.spec_lt(n.var.0, pre.nodes@[j as int].var.0));
                assert(post.order.spec_lt(n.var.0, pre.nodes@[j as int].var.0));
            },
            _ => {},
        }
    }
    assert forall|k: int|
        0 <= k < post.cache@.len() implies entry_ok(post.nodes@, post.order, #[trigger] post.cache@[k]) by {
        assert(post.cache@[k] is None);
    }
    assert forall|k: int|
        0 <= k < post.cache@.len() implies entry_sem_ok(post.nodes@, #[trigger] post.cache@[k]) by {
        assert(post.cache@[k] is None);
    }
}


impl RobddBuilder {
    /// Normalizes and fetches a node from the store.  Implements both
    /// canonicity rules: one copy per triple, and a high edge that is never
    /// complemented and never false (otherwise the De Morgan dual is stored
    /// and a complement edge returned).
    pub fn get_or_insert(&mut self, bdd: BddNode) -> (r: BddPtr)
        requires
            old(self).inv(),
            ptr_wf(old(self).nodes@, bdd.low),
            ptr_wf(old(self).nodes@, bdd.high),
            old(self).order.registered(bdd.var.0),
            ptr_pos(old(self).nodes@, old(self).order, bdd.low) > old(self).order.spec_pos(
                bdd.var.0,
            ),
            ptr_pos(old(self).nodes@, old(self).order, bdd.high) > old(self).order.spec_pos(
                bdd.var.0,
            ),
        ensures
            final(self).inv(),
            extends(*old(self), *final(self)),
            final(self).stats == old(self).stats,
            ptr_wf(final(self).nodes@, r),
            r is Reg || r is Compl,
            top_var(final(self).nodes@, r) == bdd.var.0,
            ptr_pos(final(self).nodes@, final(self).order, r) == old(self).order.spec_pos(
                bdd.var.0,
            ),
            forall|env: Set<u64>|
                #[trigger] eval(final(self).nodes@, r, env) == if env.contains(bdd.var.0) {
                    eval(old(self).nodes@, bdd.high, env)
                } else {
                    eval(old(self).nodes@, bdd.low, env)
                },
            (bdd.low != bdd.high && reduced(old(self).nodes@, bdd.low) && reduced(
                old(self).nodes@,
                bdd.high,
            )) ==> reduced(final(self).nodes@, r),
            r is Reg ==> raw_low(final(self).nodes@, r) == bdd.low && raw_high(
                final(self).nodes@,
                r,
            ) == bdd.high,
            r is Compl ==> raw_low(final(self).nodes@, r) == pneg(bdd.low) && raw_high(
                final(self).nodes@,
                r,
            ) == pneg(bdd.high),
    {
        let ghost pre = *self;
        let flip = bdd.high.is_neg() || bdd.high.is_false();
        let target = if flip {
            BddNode { var: bdd.var, low: bdd.low.neg(), high: bdd.high.neg() }
        } else {
            bdd
        };
        proof {
            lemma_eval_neg(pre.nodes@, bdd.low, Set::empty());
            lemma_reduced_neg(pre.nodes@, bdd.low);
            lemma_reduced_neg(pre.nodes@, bdd.high);
        }
        let n = self.nodes.len();
        let mut i: usize = 0;
        while i < n
            invariant
                *self == pre,
                pre == *old(self),
                pre.inv(),
                flip == (bdd.high is Compl || bdd.high == BddPtr::PtrFalse),
                target == (if flip {
                    BddNode { var: bdd.var, low: pneg(bdd.low), high: pneg(bdd.high) }
                } else {
                    bdd
                }),
                ptr_wf(pre.nodes@, bdd.low),
                ptr_wf(pre.nodes@, bdd.high),
                pre.order.registered(bdd.var.0),
                n == pre.nodes@.len(),
                i <= n,
                forall|k: int| 0 <= k < i ==> pre.nodes@[k] != target,
            decreases n - i,
        {
            if self.nodes[i] == target {
                let r = if flip {
                    BddPtr::Compl(i)
                } else {
                    BddPtr::Reg(i)
                };
                proof {
                    assert(node_wf(pre.nodes@, pre.order, i as int));
                    lemma_found_eval(pre.nodes@, pre.order, i, bdd, flip, r);
                }
                return r;
            }
            i += 1;
        }
        self.nodes.push(target);
        let r = if flip {
            BddPtr::Compl(n)
        } else {
            BddPtr::Reg(n)
        };
        proof {
            let post_nodes = self.nodes@;
            assert(post_nodes == pre.nodes@.push(target));
            lemma_store_wf_push(pre.nodes@, pre.order, target);
            assert(seq_ext(pre.nodes@, post_nodes));
            lemma_entries_ext(pre.nodes@, post_nodes, pre.order, pre.cache@, pre.clean@);
            assert(store_wf(post_nodes, pre.order));
            lemma_eval_ext_all(pre.nodes@, post_nodes, bdd.low);
            lemma_eval_ext_all(pre.nodes@, post_nodes, bdd.high);
            lemma_reduced_ext(pre.nodes@, post_nodes, bdd.low);
            lemma_reduced_ext(pre.nodes@, post_nodes, bdd.high);
            lemma_found_eval(post_nodes, pre.order, n, bdd, flip, r);
        }
        r
    }
}

/// When `nodes[i]` stores exactly the canonical form of the requested
/// triple, the returned edge denotes the requested branch.
proof fn lemma_found_eval(
    nodes: Seq<BddNode>,
    order: VarOrder,
    i: usize,
    bdd: BddNode,
    flip: bool,
    p: BddPtr,
)
    requires
        store_wf(nodes, order),
        i < nodes.len(),
        flip == (bdd.high is Compl || bdd.high == BddPtr::PtrFalse),
        p == (if flip { BddPtr::Compl(i) } else { BddPtr::Reg(i) }),
        nodes[i as int] == (if flip {
            BddNode { var: bdd.var, low: pneg(bdd.low), high: pneg(bdd.high) }
        } else {
            bdd
        }),
    ensures
        top_var(nodes, p) == bdd.var.0,
        ptr_pos(nodes, order, p) == order.spec_pos(bdd.var.0),
        forall|env: Set<u64>|
            #[trigger] eval(nodes, p, env) == if env.contains(bdd.var.0) {
                eval(nodes, bdd.high, env)
            } else {
                eval(nodes, bdd.low, env)
            },
        (bdd.low != bdd.high && reduced(nodes, bdd.low) && reduced(nodes, bdd.high)) ==> reduced(
            nodes,
            p,
        ),
{
    let stored = nodes[i as int];
    assert(node_wf(nodes, order, i as int));
    assert(rank(stored.low) < rank(BddPtr::Reg(i)));
    assert(rank(stored.high) < rank(BddPtr::Reg(i)));
    assert forall|env: Set<u64>|
        #[trigger] eval(nodes, p, env) == if env.contains(bdd.var.0) {
            eval(nodes, bdd.high, env)
        } else {
            eval(nodes, bdd.low, env)
        } by {
        if flip {
            lemma_eval_neg(nodes, bdd.low, env);
            lemma_eval_neg(nodes, bdd.high, env);
            if env.contains(bdd.var.0) {
                assert(eval(nodes, BddPtr::Reg(i), env) == eval(nodes, stored.high, env));
            } else {
                assert(eval(nodes, BddPtr::Reg(i), env) == eval(nodes, stored.low, env));
            }
        } else {
            if env.contains(bdd.var.0) {
                assert(eval(nodes, p, env) == eval(nodes, stored.high, env));
            } else {
                assert(eval(nodes, p, env) == eval(nodes, stored.low, env));
            }
        }
    }
    if bdd.low != bdd.high && reduced(nodes, bdd.low) && reduced(nodes, bdd.high) {
        lemma_reduced_neg(nodes, bdd.low);
        lemma_reduced_neg(nodes, bdd.high);
        assert(stored.low != stored.high);
        assert(reduced(nodes, BddPtr::Reg(i)));
    }
}


impl RobddBuilder {
    /// The atom for a variable: the function that is `polarity` exactly when
    /// the variable is assigned true.
    pub fn var(&mut self, label: VarLabel, polarity: bool) -> (r: BddPtr)
        requires
            old(self).inv(),
            old(self).order.registered(label.0),
        ensures
            final(self).inv(),
            extends(*old(self), *final(self)),
            final(self).stats == old(self).stats,
            ptr_wf(final(self).nodes@, r),
            r is Reg || r is Compl,
            reduced(final(self).nodes@, r),
            ptr_pos(final(self).nodes@, final(self).order, r) == old(self).order.spec_pos(
                label.0,
            ),
            forall|env: Set<u64>|
                #[trigger] eval(final(self).nodes@, r, env) == (env.contains(label.0)
                    == polarity),
    {
        let node = BddNode::new(label, BddPtr::PtrFalse, BddPtr::PtrTrue);
        proof {
            assert(old(self).order.spec_pos(label.0) < old(self).order.spec_num_vars());
        }
        let ptr = self.get_or_insert(node);
        let r = if polarity {
            ptr
        } else {
            ptr.neg()
        };
        proof {
            lemma_reduced_neg(self.nodes@, ptr);
            assert forall|env: Set<u64>|
                #[trigger] eval(self.nodes@, r, env) == (env.contains(label.0) == polarity) by {
                lemma_eval_neg(self.nodes@, ptr, env);
            }
            match ptr {
                BddPtr::Reg(i) => {
                    assert(ptr_pos(self.nodes@, self.order, r) == ptr_pos(
                        self.nodes@,
                        self.order,
                        ptr,
                    ));
                },
                BddPtr::Compl(i) => {
                    assert(ptr_pos(self.nodes@, self.order, r) == ptr_pos(
                        self.nodes@,
                        self.order,
                        ptr,
                    ));
                },
                _ => {},
            }
        }
        r
    }

    /// Append a fresh variable and return its atom.
    pub fn new_var(&mut self, polarity: bool) -> (r: (VarLabel, BddPtr))
        requires
            old(self).inv(),
            old(self).order.spec_num_vars() < u64::MAX,
        ensures
            final(self).inv(),
            seq_ext(old(self).nodes@, final(self).nodes@),
            final(self).clean@ == old(self).clean@,
            final(self).time_limit == old(self).time_limit,
            final(self).order.spec_num_vars() == old(self).order.spec_num_vars() + 1,
            r.0.0 == old(self).order.spec_num_vars(),
            ptr_wf(final(self).nodes@, r.1),
            reduced(final(self).nodes@, r.1),
            forall|env: Set<u64>|
                #[trigger] eval(final(self).nodes@, r.1, env) == (env.contains(r.0.0)
                    == polarity),
    {
        let label = self.new_label();
        let ptr = self.var(label, polarity);
        (label, ptr)
    }

    /// Insert a fresh variable at a position and return its atom.
    pub fn new_var_at_position(&mut self, position: usize, polarity: bool) -> (r: (
        VarLabel,
        BddPtr,
    ))
        requires
            old(self).inv(),
            old(self).order.spec_num_vars() < u64::MAX,
            position <= old(self).order.spec_num_vars(),
        ensures
            final(self).inv(),
            seq_ext(old(self).nodes@, final(self).nodes@),
            final(self).clean@ == old(self).clean@,
            final(self).time_limit == old(self).time_limit,
            final(self).order.spec_num_vars() == old(self).order.spec_num_vars() + 1,
            r.0.0 == old(self).order.spec_num_vars(),
            final(self).order.spec_pos(r.0.0) == position,
            ptr_wf(final(self).nodes@, r.1),
            reduced(final(self).nodes@, r.1),
            forall|env: Set<u64>|
                #[trigger] eval(final(self).nodes@, r.1, env) == (env.contains(r.0.0)
                    == polarity),
    {
        let label = self.new_label_at_position(position);
        let ptr = self.var(label, polarity);
        (label, ptr)
    }

    /// Append a fresh variable as a positive atom.
    pub fn new_pos(&mut self) -> (r: (VarLabel, BddPtr))
        requires
            old(self).inv(),
            old(self).order.spec_num_vars() < u64::MAX,
        ensures
            final(self).inv(),
            forall|env: Set<u64>|
                #[trigger] eval(final(self).nodes@, r.1, env) == env.contains(r.0.0),
    {
        self.new_var(true)
    }

    /// Append a fresh variable as a negative atom.
    pub fn new_neg(&mut self) -> (r: (VarLabel, BddPtr))
        requires
            old(self).inv(),
            old(self).order.spec_num_vars() < u64::MAX,
        ensures
            final(self).inv(),
            forall|env: Set<u64>|
                #[trigger] eval(final(self).nodes@, r.1, env) == !env.contains(r.0.0),
    {
        self.new_var(false)
    }

    /// The branching variable of a pointer, or none for a constant.
    pub fn var_safe(&self, bdd: BddPtr) -> (r: Option<VarLabel>)
        requires
            self.inv(),
            ptr_wf(self.nodes@, bdd),
        ensures
            (bdd is Reg || bdd is Compl) ==> r == Some(VarLabel(top_var(self.nodes@, bdd))),
            bdd is PtrTrue || bdd is PtrFalse ==> r is None,
    {
        match bdd {
            BddPtr::Reg(i) => Some(self.nodes[i].var),
            BddPtr::Compl(i) => Some(self.nodes[i].var),
            _ => None,
        }
    }

    /// The stored low child, unmodified by the edge's parity.
    pub fn low_raw(&self, bdd: BddPtr) -> (r: BddPtr)
        requires
            self.inv(),
            ptr_wf(self.nodes@, bdd),
            bdd is Reg || bdd is Compl,
        ensures
            r == raw_low(self.nodes@, bdd),
    {
        match bdd {
            BddPtr::Reg(i) => self.nodes[i].low,
            BddPtr::Compl(i) => self.nodes[i].low,
            _ => bdd,
        }
    }

    /// The stored high child, unmodified by the edge's parity.
    pub fn high_raw(&self, bdd: BddPtr) -> (r: BddPtr)
        requires
            self.inv(),
            ptr_wf(self.nodes@, bdd),
            bdd is Reg || bdd is Compl,
        ensures
            r == raw_high(self.nodes@, bdd),
    {
        match bdd {
            BddPtr::Reg(i) => self.nodes[i].high,
            BddPtr::Compl(i) => self.nodes[i].high,
            _ => bdd,
        }
    }

    /// The low cofactor, with the edge's parity applied.
    pub fn low(&self, bdd: BddPtr) -> (r: BddPtr)
        requires
            self.inv(),
            ptr_wf(self.nodes@, bdd),
            bdd is Reg || bdd is Compl,
        ensures
            r == cof_low(self.nodes@, bdd),
    {
        let raw = self.low_raw(bdd);
        if bdd.is_neg() {
            raw.neg()
        } else {
            raw
        }
    }

    /// The high cofactor, with the edge's parity applied.
    pub fn high(&self, bdd: BddPtr) -> (r: BddPtr)
        requires
            self.inv(),
            ptr_wf(self.nodes@, bdd),
            bdd is Reg || bdd is Compl,
        ensures
            r == cof_high(self.nodes@, bdd),
    {
        let raw = self.high_raw(bdd);
        if bdd.is_neg() {
            raw.neg()
        } else {
            raw
        }
    }

    /// Condition `f` on `lbl = value`, but only when `lbl` is exactly its
    /// top variable; used by `ite` after choosing the first essential
    /// variable.
    pub fn condition_essential(&self, f: BddPtr, lbl: VarLabel, value: bool) -> (r: BddPtr)
        requires
            self.inv(),
            ptr_wf(self.nodes@, f),
            self.order.registered(lbl.0),
            ptr_pos(self.nodes@, self.order, f) >= self.order.spec_pos(lbl.0),
        ensures
            ptr_wf(self.nodes@, r),
            ptr_pos(self.nodes@, self.order, r) > self.order.spec_pos(lbl.0),
            reduced(self.nodes@, f) ==> reduced(self.nodes@, r),
            forall|env: Set<u64>|
                #[trigger] eval(self.nodes@, r, env) == eval(
                    self.nodes@,
                    f,
                    if value {
                        env.insert(lbl.0)
                    } else {
                        env.remove(lbl.0)
                    },
                ),
    {
        proof {
            assert(self.order.spec_pos(lbl.0) < self.order.spec_num_vars());
        }
        match f {
            BddPtr::PtrTrue => f,
            BddPtr::PtrFalse => f,
            BddPtr::Reg(i) | BddPtr::Compl(i) => {
                proof {
                    assert(node_wf(self.nodes@, self.order, i as int));
                }
                let node = self.nodes[i];
                if node.var.0 != lbl.0 {
                    proof {
                        if self.order.spec_pos(top_var(self.nodes@, f)) == self.order.spec_pos(
                            lbl.0,
                        ) {
                            self.order.lemma_pos_injective(top_var(self.nodes@, f), lbl.0);
                        }
                        assert forall|env: Set<u64>|
                            #[trigger] eval(self.nodes@, f, env) == eval(
                                self.nodes@,
                                f,
                                if value {
                                    env.insert(lbl.0)
                                } else {
                                    env.remove(lbl.0)
                                },
                            ) by {
                            lemma_indep(self.nodes@, self.order, f, lbl.0, env);
                        }
                    }
                    return f;
                }
                let r_raw = if value {
                    node.high
                } else {
                    node.low
                };
                let r = if f.is_neg() {
                    r_raw.neg()
                } else {
                    r_raw
                };
                proof {
                    lemma_reduced_neg(self.nodes@, r_raw);
                    if reduced(self.nodes@, f) {
                        assert(reduced(self.nodes@, BddPtr::Reg(i)));
                        assert(rank(node.low) < rank(BddPtr::Reg(i)));
                        assert(rank(node.high) < rank(BddPtr::Reg(i)));
                        assert(reduced(self.nodes@, node.low));
                        assert(reduced(self.nodes@, node.high));
                    }
                    assert(r == if value {
                        cof_high(self.nodes@, f)
                    } else {
                        cof_low(self.nodes@, f)
                    });
                    match r {
                        BddPtr::Reg(k) => {
                            assert(ptr_pos(self.nodes@, self.order, r) > self.order.spec_pos(
                                lbl.0,
                            ));
                        },
                        BddPtr::Compl(k) => {
                            assert(ptr_pos(self.nodes@, self.order, r) > self.order.spec_pos(
                                lbl.0,
                            ));
                        },
                        _ => {},
                    }
                    assert forall|env: Set<u64>|
                        #[trigger] eval(self.nodes@, r, env) == eval(
                            self.nodes@,
                            f,
                            if value {
                                env.insert(lbl.0)
                            } else {
                                env.remove(lbl.0)
                            },
                        ) by {
                        let env2 = if value {
                            env.insert(lbl.0)
                        } else {
                            env.remove(lbl.0)
                        };
                        lemma_cofactor(self.nodes@, self.order, f, env2);
                        lemma_indep(self.nodes@, self.order, r, lbl.0, env);
                    }
                }
                r
            },
        }
    }
}


/// Every pointer's level is bounded by the number of levels; a node's level
/// is strictly below it.
proof fn lemma_pos_bounds(nodes: Seq<BddNode>, order: VarOrder, p: BddPtr)
    requires
        store_wf(nodes, order),
        ptr_wf(nodes, p),
    ensures
        ptr_pos(nodes, order, p) <= order.spec_num_vars(),
        (p is Reg || p is Compl) ==> ptr_pos(nodes, order, p) < order.spec_num_vars(),
{
    match p {
        BddPtr::Reg(i) => {
            assert(node_wf(nodes, order, i as int));
        },
        BddPtr::Compl(i) => {
            assert(node_wf(nodes, order, i as int));
        },
        _ => {},
    }
}

/// `if f then g else h`, pointwise.
pub open spec fn ite_sem(
    nodes: Seq<BddNode>,
    f: BddPtr,
    g: BddPtr,
    h: BddPtr,
    env: Set<u64>,
) -> bool {
    if eval(nodes, f, env) {
        eval(nodes, g, env)
    } else {
        eval(nodes, h, env)
    }
}

/// A 64-bit key for hashing a pointer: the tag in the low bits.
fn ptr_key(p: BddPtr) -> u64 {
    match p {
        BddPtr::PtrTrue => 0,
        BddPtr::PtrFalse => 1,
        BddPtr::Reg(i) => ((i as u64) << 2u64) | 2,
        BddPtr::Compl(i) => ((i as u64) << 2u64) | 3,
    }
}

/// The cache slot of a triple.  Collisions overwrite: the cache is lossy,
/// so nothing about this hash bears on correctness.
fn cache_index(f: BddPtr, g: BddPtr, h: BddPtr) -> (r: usize)
    ensures
        r < ITE_CACHE_SIZE,
{
    let k = ptr_key(f).wrapping_mul(0x9E3779B97F4A7C15u64).wrapping_add(ptr_key(g)).wrapping_mul(
        0x9E3779B97F4A7C15u64,
    ).wrapping_add(ptr_key(h));
    (k % (ITE_CACHE_SIZE as u64)) as usize
}

impl RobddBuilder {
    /// The level of a pointer: its top variable's position, or one past the
    /// deepest level for a constant.
    fn ptr_level(&self, p: BddPtr) -> (r: usize)
        requires
            self.inv(),
            ptr_wf(self.nodes@, p),
        ensures
            r == ptr_pos(self.nodes@, self.order, p),
    {
        match p {
            BddPtr::Reg(i) => {
                proof {
                    assert(node_wf(self.nodes@, self.order, i as int));
                }
                self.order.get(self.nodes[i].var)
            },
            BddPtr::Compl(i) => {
                proof {
                    assert(node_wf(self.nodes@, self.order, i as int));
                }
                self.order.get(self.nodes[i].var)
            },
            _ => self.order.num_vars(),
        }
    }

    /// If-then-else via Shannon expansion with normalization, the apply
    /// cache, and canonical insertion.  With no time budget armed the result
    /// denotes `if f then g else h`; with one armed, a discarded `PtrFalse`
    /// sentinel may come back instead.
    #[verifier::rlimit(100)]
    pub fn ite(&mut self, f: BddPtr, g: BddPtr, h: BddPtr) -> (r: BddPtr)
        requires
            old(self).inv(),
            ptr_wf(old(self).nodes@, f),
            ptr_wf(old(self).nodes@, g),
            ptr_wf(old(self).nodes@, h),
        ensures
            final(self).inv(),
            extends(*old(self), *final(self)),
            ptr_wf(final(self).nodes@, r),
            ptr_pos(final(self).nodes@, final(self).order, r) >= tri_minpos(
                old(self).nodes@,
                old(self).order,
                f,
                g,
                h,
            ),
            (reduced(old(self).nodes@, f) && reduced(old(self).nodes@, g) && reduced(
                old(self).nodes@,
                h,
            )) ==> reduced(final(self).nodes@, r),
            old(self).clean@ ==> forall|env: Set<u64>|
                #[trigger] eval(final(self).nodes@, r, env) == ite_sem(
                    old(self).nodes@,
                    f,
                    g,
                    h,
                    env,
                ),
        decreases old(self).order.spec_num_vars() - tri_minpos(
            old(self).nodes@,
            old(self).order,
            f,
            g,
            h,
        ),
    {
        let ghost pre = *self;
        let ghost nodes0 = pre.nodes@;
        let ghost ord = pre.order;
        let ghost f0 = f;
        let ghost g0 = g;
        let ghost h0 = h;
        proof {
            lemma_pos_bounds(nodes0, ord, f);
            lemma_pos_bounds(nodes0, ord, g);
            lemma_pos_bounds(nodes0, ord, h);
        }
        self.stats.num_recursive_calls = self.stats.num_recursive_calls.saturating_add(1);
        if self.check_time_limit() {
            // unwinding fast: the caller is responsible for noticing
            return BddPtr::PtrFalse;
        }
        // terminal shortcuts on the condition
        if f.is_true() {
            return g;
        }
        if f.is_false() {
            return h;
        }
        // collapse branches that repeat or negate the condition
        let mut g = g;
        let mut h = h;
        if g == f {
            proof {
                assert forall|env: Set<u64>|
                    ite_sem(nodes0, f, BddPtr::PtrTrue, h, env) == #[trigger] ite_sem(
                        nodes0,
                        f0,
                        g0,
                        h0,
                        env,
                    ) by {}
            }
            g = BddPtr::PtrTrue;
        } else if g == f.neg() {
            proof {
                assert forall|env: Set<u64>|
                    ite_sem(nodes0, f, BddPtr::PtrFalse, h, env) == #[trigger] ite_sem(
                        nodes0,
                        f0,
                        g0,
                        h0,
                        env,
                    ) by {
                    lemma_eval_neg(nodes0, f, env);
                }
            }
            g = BddPtr::PtrFalse;
        }
        if h == f {
            proof {
                assert forall|env: Set<u64>|
                    ite_sem(nodes0, f, g, BddPtr::PtrFalse, env) == #[trigger] ite_sem(
                        nodes0,
                        f0,
                        g0,
                        h0,
                        env,
                    ) by {}
            }
            h = BddPtr::PtrFalse;
        } else if h == f.neg() {
            proof {
                assert forall|env: Set<u64>|
                    ite_sem(nodes0, f, g, BddPtr::PtrTrue, env) == #[trigger] ite_sem(
                        nodes0,
                        f0,
                        g0,
                        h0,
                        env,
                    ) by {
                    lemma_eval_neg(nodes0, f, env);
                }
            }
            h = BddPtr::PtrTrue;
        }
        proof {
            lemma_reduced_neg(nodes0, f);
            assert(ptr_pos(nodes0, ord, g) >= tri_minpos(nodes0, ord, f0, g0, h0));
            assert(ptr_pos(nodes0, ord, h) >= tri_minpos(nodes0, ord, f0, g0, h0));
        }
        // identical branches: the condition is irrelevant
        if g == h {
            return g;
        }
        // the identity triple and its complement
        if g.is_true() && h.is_false() {
            return f;
        }
        if g.is_false() && h.is_true() {
            proof {
                lemma_reduced_neg(nodes0, f);
                assert forall|env: Set<u64>|
                    #[trigger] eval(nodes0, pneg(f), env) == ite_sem(nodes0, f0, g0, h0, env) by {
                    lemma_eval_neg(nodes0, f, env);
                }
                match f {
                    BddPtr::Reg(i) => {},
                    BddPtr::Compl(i) => {},
                    _ => {},
                }
            }
            return f.neg();
        }
        // pull the complement out of the condition
        let mut f = f;
        if f.is_neg() {
            proof {
                lemma_reduced_neg(nodes0, f);
                assert forall|env: Set<u64>|
                    ite_sem(nodes0, pneg(f), h, g, env) == #[trigger] ite_sem(
                        nodes0,
                        f0,
                        g0,
                        h0,
                        env,
                    ) by {
                    lemma_eval_neg(nodes0, f, env);
                }
                match f {
                    BddPtr::Reg(i) => {},
                    BddPtr::Compl(i) => {},
                    _ => {},
                }
            }
            f = f.neg();
            let t = g;
            g = h;
            h = t;
        }
        proof {
            assert(f is Reg);
        }
        // canonicalize the symmetric forms so that both operand orders of a
        // conjunction or disjunction share one cache entry
        if h.is_false() {
            let swap = match g {
                BddPtr::Reg(_) => self.ptr_level(g) < self.ptr_level(f),
                BddPtr::Compl(_) => self.ptr_level(g) < self.ptr_level(f),
                _ => false,
            };
            if swap {
                proof {
                    assert forall|env: Set<u64>|
                        ite_sem(nodes0, g, f, h, env) == #[trigger] ite_sem(
                            nodes0,
                            f0,
                            g0,
                            h0,
                            env,
                        ) by {}
                }
                let t = f;
                f = g;
                g = t;
            }
        } else if g.is_true() {
            let swap = match h {
                BddPtr::Reg(_) => self.ptr_level(h) < self.ptr_level(f),
                BddPtr::Compl(_) => self.ptr_level(h) < self.ptr_level(f),
                _ => false,
            };
            if swap {
                proof {
                    assert forall|env: Set<u64>|
                        ite_sem(nodes0, h, g, f, env) == #[trigger] ite_sem(
                            nodes0,
                            f0,
                            g0,
                            h0,
                            env,
                        ) by {}
                }
                let t = f;
                f = h;
                h = t;
            }
        }
        proof {
            assert(f is Reg || f is Compl);
            assert(ptr_wf(nodes0, f) && ptr_wf(nodes0, g) && ptr_wf(nodes0, h));
            assert(tri_minpos(nodes0, ord, f, g, h) >= tri_minpos(nodes0, ord, f0, g0, h0));
            assert((reduced(nodes0, f0) && reduced(nodes0, g0) && reduced(nodes0, h0)) ==> (
            reduced(nodes0, f) && reduced(nodes0, g) && reduced(nodes0, h)));
        }
        // probe the lossy apply cache
        let idx = cache_index(f, g, h);
        let probe = self.cache[idx];
        match probe {
            Some(e) => {
                if e.f == f && e.g == g && e.h == h {
                    proof {
                        assert(entry_ok(pre.nodes@, pre.order, pre.cache@[idx as int]));
                        if pre.clean@ {
                            assert(entry_sem_ok(pre.nodes@, pre.cache@[idx as int]));
                        }
                    }
                    return e.r;
                }
            },
            None => {},
        }
        // Shannon expansion on the first essential variable
        let lf = self.ptr_level(f);
        let lg = self.ptr_level(g);
        let lh = self.ptr_level(h);
        let minl = if lf <= lg && lf <= lh {
            lf
        } else if lg <= lh {
            lg
        } else {
            lh
        };
        proof {
            assert(minl == tri_minpos(nodes0, ord, f, g, h));
            assert(ptr_pos(nodes0, ord, f) < ord.spec_num_vars());
        }
        let lbl = self.order.var_at_level(minl);
        let fx = self.condition_essential(f, lbl, true);
        let gx = self.condition_essential(g, lbl, true);
        let hx = self.condition_essential(h, lbl, true);
        let fxn = self.condition_essential(f, lbl, false);
        let gxn = self.condition_essential(g, lbl, false);
        let hxn = self.condition_essential(h, lbl, false);
        let ghost mid = *self;
        proof {
            lemma_pos_bounds(nodes0, ord, fx);
            lemma_pos_bounds(nodes0, ord, gx);
            lemma_pos_bounds(nodes0, ord, hx);
            lemma_pos_bounds(nodes0, ord, fxn);
            lemma_pos_bounds(nodes0, ord, gxn);
            lemma_pos_bounds(nodes0, ord, hxn);
            assert(tri_minpos(nodes0, ord, fx, gx, hx) > minl);
            assert(tri_minpos(nodes0, ord, f0, g0, h0) <= minl);
        }
        let t = self.ite(fx, gx, hx);
        let ghost mid2 = *self;
        proof {
            lemma_eval_ext_all(nodes0, mid2.nodes@, fxn);
            lemma_eval_ext_all(nodes0, mid2.nodes@, gxn);
            lemma_eval_ext_all(nodes0, mid2.nodes@, hxn);
            lemma_ptr_pos_ext(nodes0, mid2.nodes@, ord, fxn);
            lemma_ptr_pos_ext(nodes0, mid2.nodes@, ord, gxn);
            lemma_ptr_pos_ext(nodes0, mid2.nodes@, ord, hxn);
            lemma_reduced_ext(nodes0, mid2.nodes@, fxn);
            lemma_reduced_ext(nodes0, mid2.nodes@, gxn);
            lemma_reduced_ext(nodes0, mid2.nodes@, hxn);
            assert(tri_minpos(mid2.nodes@, ord, fxn, gxn, hxn) == tri_minpos(
                nodes0,
                ord,
                fxn,
                gxn,
                hxn,
            ));
            assert(tri_minpos(mid2.nodes@, ord, fxn, gxn, hxn) > minl);
            assert(tri_minpos(mid2.nodes@, ord, fxn, gxn, hxn) <= ord.spec_num_vars());
        }
        let e = self.ite(fxn, gxn, hxn);
        let ghost fin = *self;
        proof {
            lemma_eval_ext_all(mid2.nodes@, fin.nodes@, t);
            lemma_ptr_pos_ext(mid2.nodes@, fin.nodes@, ord, t);
            lemma_reduced_ext(mid2.nodes@, fin.nodes@, t);
            if pre.clean@ {
                // Shannon: on each side of the branch variable the triple
                // agrees with its cofactors
                assert forall|env: Set<u64>|
                    #[trigger] ite_sem(nodes0, f, g, h, env) == (if env.contains(lbl.0) {
                        ite_sem(nodes0, fx, gx, hx, env)
                    } else {
                        ite_sem(nodes0, fxn, gxn, hxn, env)
                    }) by {
                    if env.contains(lbl.0) {
                        assert(env.insert(lbl.0) =~= env);
                    } else {
                        assert(env.remove(lbl.0) =~= env);
                    }
                }
            }
        }
        if t == e {
            proof {
                lemma_reduced_ext(nodes0, fin.nodes@, f);
                lemma_reduced_ext(nodes0, fin.nodes@, g);
                lemma_reduced_ext(nodes0, fin.nodes@, h);
                lemma_ptr_pos_ext(nodes0, fin.nodes@, ord, f);
                lemma_ptr_pos_ext(nodes0, fin.nodes@, ord, g);
                lemma_ptr_pos_ext(nodes0, fin.nodes@, ord, h);
                lemma_eval_ext_all(nodes0, fin.nodes@, f);
                lemma_eval_ext_all(nodes0, fin.nodes@, g);
                lemma_eval_ext_all(nodes0, fin.nodes@, h);
                if pre.clean@ {
                    assert forall|env: Set<u64>|
                        #[trigger] eval(fin.nodes@, t, env) == ite_sem(nodes0, f0, g0, h0, env) by {
                        assert(eval(fin.nodes@, t, env) == eval(mid2.nodes@, t, env));
                        assert(ite_sem(nodes0, f0, g0, h0, env) == ite_sem(nodes0, f, g, h, env));
                    }
                    assert forall|env: Set<u64>|
                        #[trigger] eval(fin.nodes@, t, env) == ite_sem(fin.nodes@, f, g, h, env) by {
                        assert(eval(fin.nodes@, t, env) == ite_sem(nodes0, f0, g0, h0, env));
                        assert(ite_sem(nodes0, f0, g0, h0, env) == ite_sem(nodes0, f, g, h, env));
                    }
                }
            }
            self.cache_insert(idx, f, g, h, t);
            return t;
        }
        if self.check_time_limit() {
            // discard: a cancelled call must not be cached
            return BddPtr::PtrFalse;
        }
        let node = BddNode::new(lbl, e, t);
        let ghost before_insert = *self;
        let r = self.get_or_insert(node);
        let ghost fin2 = *self;
        proof {
            lemma_eval_ext_all(before_insert.nodes@, fin2.nodes@, t);
            lemma_eval_ext_all(before_insert.nodes@, fin2.nodes@, e);
            lemma_reduced_ext(before_insert.nodes@, fin2.nodes@, t);
            lemma_reduced_ext(before_insert.nodes@, fin2.nodes@, e);
            lemma_ptr_pos_ext(before_insert.nodes@, fin2.nodes@, ord, t);
            lemma_ptr_pos_ext(before_insert.nodes@, fin2.nodes@, ord, e);
            if pre.clean@ {
                assert forall|env: Set<u64>|
                    #[trigger] eval(fin2.nodes@, r, env) == ite_sem(nodes0, f0, g0, h0, env) by {
                    assert(eval(fin2.nodes@, r, env) == if env.contains(lbl.0) {
                        eval(before_insert.nodes@, node.high, env)
                    } else {
                        eval(before_insert.nodes@, node.low, env)
                    });
                    assert(eval(before_insert.nodes@, t, env) == eval(mid2.nodes@, t, env));
                    assert(ite_sem(nodes0, f0, g0, h0, env) == ite_sem(nodes0, f, g, h, env));
                }
            }
            lemma_reduced_ext(nodes0, fin2.nodes@, f);
            lemma_reduced_ext(nodes0, fin2.nodes@, g);
            lemma_reduced_ext(nodes0, fin2.nodes@, h);
            lemma_ptr_pos_ext(nodes0, fin2.nodes@, ord, f);
            lemma_ptr_pos_ext(nodes0, fin2.nodes@, ord, g);
            lemma_ptr_pos_ext(nodes0, fin2.nodes@, ord, h);
            lemma_eval_ext_all(nodes0, fin2.nodes@, f);
            lemma_eval_ext_all(nodes0, fin2.nodes@, g);
            lemma_eval_ext_all(nodes0, fin2.nodes@, h);
            if pre.clean@ {
                assert forall|env: Set<u64>|
                    #[trigger] eval(fin2.nodes@, r, env) == ite_sem(fin2.nodes@, f, g, h, env) by {
                    assert(eval(fin2.nodes@, r, env) == ite_sem(nodes0, f0, g0, h0, env));
                    assert(ite_sem(nodes0, f0, g0, h0, env) == ite_sem(nodes0, f, g, h, env));
                }
            }
            assert((reduced(fin2.nodes@, f) && reduced(fin2.nodes@, g) && reduced(fin2.nodes@, h))
                ==> reduced(fin2.nodes@, r));
        }
        self.cache_insert(idx, f, g, h, r);
        r
    }
}


impl RobddBuilder {
    /// Overwrite one slot of the lossy apply cache with a memoized result.
    fn cache_insert(&mut self, idx: usize, f: BddPtr, g: BddPtr, h: BddPtr, r: BddPtr)
        requires
            old(self).inv(),
            idx < ITE_CACHE_SIZE,
            ptr_wf(old(self).nodes@, f),
            ptr_wf(old(self).nodes@, g),
            ptr_wf(old(self).nodes@, h),
            ptr_wf(old(self).nodes@, r),
            ptr_pos(old(self).nodes@, old(self).order, r) >= tri_minpos(
                old(self).nodes@,
                old(self).order,
                f,
                g,
                h,
            ),
            (reduced(old(self).nodes@, f) && reduced(old(self).nodes@, g) && reduced(
                old(self).nodes@,
                h,
            )) ==> reduced(old(self).nodes@, r),
            old(self).clean@ ==> forall|env: Set<u64>|
                #[trigger] eval(old(self).nodes@, r, env) == ite_sem(
                    old(self).nodes@,
                    f,
                    g,
                    h,
                    env,
                ),
        ensures
            final(self).inv(),
            final(self).nodes == old(self).nodes,
            final(self).order == old(self).order,
            final(self).stats == old(self).stats,
            final(self).time_limit == old(self).time_limit,
            final(self).clean == old(self).clean,
    {
        let ghost pre = *self;
        self.cache[idx] = Some(IteEntry { f, g, h, r });
        proof {
            assert forall|k: int|
                0 <= k < self.cache@.len() implies entry_ok(
                self.nodes@,
                self.order,
                #[trigger] self.cache@[k],
            ) by {
                if k != idx as int {
                    assert(self.cache@[k] == pre.cache@[k]);
                    assert(entry_ok(pre.nodes@, pre.order, pre.cache@[k]));
                }
            }
            if self.clean@ {
                assert forall|k: int|
                    0 <= k < self.cache@.len() implies entry_sem_ok(
                    self.nodes@,
                    #[trigger] self.cache@[k],
                ) by {
                    if k != idx as int {
                        assert(self.cache@[k] == pre.cache@[k]);
                        assert(entry_sem_ok(pre.nodes@, pre.cache@[k]));
                    }
                }
            }
        }
    }
}


impl RobddBuilder {
    /// Conjunction, as `ite(a, b, false)`.
    pub fn and(&mut self, a: BddPtr, b: BddPtr) -> (r: BddPtr)
        requires
            old(self).inv(),
            ptr_wf(old(self).nodes@, a),
            ptr_wf(old(self).nodes@, b),
        ensures
            final(self).inv(),
            extends(*old(self), *final(self)),
            ptr_wf(final(self).nodes@, r),
            (reduced(old(self).nodes@, a) && reduced(old(self).nodes@, b)) ==> reduced(
                final(self).nodes@,
                r,
            ),
            old(self).clean@ ==> forall|env: Set<u64>|
                #[trigger] eval(final(self).nodes@, r, env) == (eval(old(self).nodes@, a, env)
                    && eval(old(self).nodes@, b, env)),
    {
        self.ite(a, b, BddPtr::PtrFalse)
    }

    /// Disjunction, as `ite(a, true, b)`.
    pub fn or(&mut self, a: BddPtr, b: BddPtr) -> (r: BddPtr)
        requires
            old(self).inv(),
            ptr_wf(old(self).nodes@, a),
            ptr_wf(old(self).nodes@, b),
        ensures
            final(self).inv(),
            extends(*old(self), *final(self)),
            ptr_wf(final(self).nodes@, r),
            (reduced(old(self).nodes@, a) && reduced(old(self).nodes@, b)) ==> reduced(
                final(self).nodes@,
                r,
            ),
            old(self).clean@ ==> forall|env: Set<u64>|
                #[trigger] eval(final(self).nodes@, r, env) == (eval(old(self).nodes@, a, env)
                    || eval(old(self).nodes@, b, env)),
    {
        self.ite(a, BddPtr::PtrTrue, b)
    }

    /// Exclusive or, as `ite(a, not b, b)`.
    pub fn xor(&mut self, a: BddPtr, b: BddPtr) -> (r: BddPtr)
        requires
            old(self).inv(),
            ptr_wf(old(self).nodes@, a),
            ptr_wf(old(self).nodes@, b),
        ensures
            final(self).inv(),
            extends(*old(self), *final(self)),
            ptr_wf(final(self).nodes@, r),
            (reduced(old(self).nodes@, a) && reduced(old(self).nodes@, b)) ==> reduced(
                final(self).nodes@,
                r,
            ),
            old(self).clean@ ==> forall|env: Set<u64>|
                #[trigger] eval(final(self).nodes@, r, env) == (eval(old(self).nodes@, a, env)
                    != eval(old(self).nodes@, b, env)),
    {
        proof {
            lemma_reduced_neg(old(self).nodes@, b);
            assert forall|env: Set<u64>|
                #[trigger] eval(old(self).nodes@, pneg(b), env) == !eval(
                    old(self).nodes@,
                    b,
                    env,
                ) by {
                lemma_eval_neg(old(self).nodes@, b, env);
            }
        }
        self.ite(a, b.neg(), b)
    }

    /// Biconditional, as `ite(a, b, not b)`.
    pub fn iff(&mut self, a: BddPtr, b: BddPtr) -> (r: BddPtr)
        requires
            old(self).inv(),
            ptr_wf(old(self).nodes@, a),
            ptr_wf(old(self).nodes@, b),
        ensures
            final(self).inv(),
            extends(*old(self), *final(self)),
            ptr_wf(final(self).nodes@, r),
            (reduced(old(self).nodes@, a) && reduced(old(self).nodes@, b)) ==> reduced(
                final(self).nodes@,
                r,
            ),
            old(self).clean@ ==> forall|env: Set<u64>|
                #[trigger] eval(final(self).nodes@, r, env) == (eval(old(self).nodes@, a, env)
                    == eval(old(self).nodes@, b, env)),
    {
        proof {
            lemma_reduced_neg(old(self).nodes@, b);
            assert forall|env: Set<u64>|
                #[trigger] eval(old(self).nodes@, pneg(b), env) == !eval(
                    old(self).nodes@,
                    b,
                    env,
                ) by {
                lemma_eval_neg(old(self).nodes@, b, env);
            }
        }
        self.ite(a, b, b.neg())
    }
}

/// The environment conditioned on `lbl = value`.
pub open spec fn env_set(env: Set<u64>, lbl: u64, value: bool) -> Set<u64> {
    if value {
        env.insert(lbl)
    } else {
        env.remove(lbl)
    }
}

/// Validity of the per-call conditioning memo: slot `i` caches the
/// conditioned regular edge of node `i`.
pub open spec fn cond_memo_ok(
    b: RobddBuilder,
    lbl: VarLabel,
    value: bool,
    memo: Seq<Option<BddPtr>>,
) -> bool {
    forall|i: int|
        0 <= i < memo.len() ==> match #[trigger] memo[i] {
            None => true,
            Some(r) => {
                &&& ptr_wf(b.nodes@, r)
                &&& ptr_pos(b.nodes@, b.order, r) >= b.order.spec_pos(b.nodes@[i].var.0)
                &&& (reduced(b.nodes@, BddPtr::Reg(i as usize)) ==> reduced(b.nodes@, r))
                &&& forall|env: Set<u64>|
                    #[trigger] eval(b.nodes@, r, env) == eval(
                        b.nodes@,
                        BddPtr::Reg(i as usize),
                        env_set(env, lbl.0, value),
                    )
            },
        }
}

/// Memo validity survives growing the store.
proof fn lemma_cond_memo_ext(
    pre: RobddBuilder,
    post: RobddBuilder,
    lbl: VarLabel,
    value: bool,
    memo: Seq<Option<BddPtr>>,
)
    requires
        cond_memo_ok(pre, lbl, value, memo),
        extends(pre, post),
        memo.len() <= pre.nodes@.len(),
    ensures
        cond_memo_ok(post, lbl, value, memo),
{
    assert forall|i: int|
        0 <= i < memo.len() implies match #[trigger] memo[i] {
        None => true,
        Some(r) => {
            &&& ptr_wf(post.nodes@, r)
            &&& ptr_pos(post.nodes@, post.order, r) >= post.order.spec_pos(post.nodes@[i].var.0)
            &&& (reduced(post.nodes@, BddPtr::Reg(i as usize)) ==> reduced(post.nodes@, r))
            &&& forall|env: Set<u64>|
                #[trigger] eval(post.nodes@, r, env) == eval(
                    post.nodes@,
                    BddPtr::Reg(i as usize),
                    env_set(env, lbl.0, value),
                )
        },
    } by {
        match memo[i] {
            None => {},
            Some(r) => {
                assert(post.nodes@[i] == pre.nodes@[i]);
                lemma_ptr_pos_ext(pre.nodes@, post.nodes@, pre.order, r);
                lemma_reduced_ext(pre.nodes@, post.nodes@, r);
                lemma_reduced_ext(pre.nodes@, post.nodes@, BddPtr::Reg(i as usize));
                assert forall|env: Set<u64>|
                    #[trigger] eval(post.nodes@, r, env) == eval(
                        post.nodes@,
                        BddPtr::Reg(i as usize),
                        env_set(env, lbl.0, value),
                    ) by {
                    lemma_eval_ext(pre.nodes@, post.nodes@, r, env);
                    lemma_eval_ext(
                        pre.nodes@,
                        post.nodes@,
                        BddPtr::Reg(i as usize),
                        env_set(env, lbl.0, value),
                    );
                }
            },
        }
    }
}

impl RobddBuilder {
    /// One step of conditioning, with the per-call memo.
    #[verifier::rlimit(100)]
    fn cond_rec(
        &mut self,
        bdd: BddPtr,
        lbl: VarLabel,
        value: bool,
        memo: &mut Vec<Option<BddPtr>>,
    ) -> (r: BddPtr)
        requires
            old(self).inv(),
            ptr_wf(old(self).nodes@, bdd),
            old(self).order.registered(lbl.0),
            old(memo)@.len() <= old(self).nodes@.len(),
            rank(bdd) <= 2 * old(memo)@.len(),
            cond_memo_ok(*old(self), lbl, value, old(memo)@),
        ensures
            final(self).inv(),
            extends(*old(self), *final(self)),
            ptr_wf(final(self).nodes@, r),
            final(memo)@.len() == old(memo)@.len(),
            cond_memo_ok(*final(self), lbl, value, final(memo)@),
            ptr_pos(final(self).nodes@, final(self).order, r) >= ptr_pos(
                old(self).nodes@,
                old(self).order,
                bdd,
            ),
            reduced(old(self).nodes@, bdd) ==> reduced(final(self).nodes@, r),
            forall|env: Set<u64>|
                #[trigger] eval(final(self).nodes@, r, env) == eval(
                    old(self).nodes@,
                    bdd,
                    env_set(env, lbl.0, value),
                ),
        decreases rank(bdd),
    {
        let ghost pre = *self;
        self.stats.num_recursive_calls = self.stats.num_recursive_calls.saturating_add(1);
        match bdd {
            BddPtr::PtrTrue => bdd,
            BddPtr::PtrFalse => bdd,
            BddPtr::Compl(i) => {
                let rr = self.cond_rec(BddPtr::Reg(i), lbl, value, memo);
                proof {
                    lemma_reduced_neg(self.nodes@, rr);
                    lemma_reduced_ext(pre.nodes@, self.nodes@, bdd);
                    assert forall|env: Set<u64>|
                        #[trigger] eval(self.nodes@, pneg(rr), env) == eval(
                            pre.nodes@,
                            bdd,
                            env_set(env, lbl.0, value),
                        ) by {
                        lemma_eval_neg(self.nodes@, rr, env);
                    }
                    match rr {
                        BddPtr::Reg(k) => {},
                        BddPtr::Compl(k) => {},
                        _ => {},
                    }
                }
                rr.neg()
            },
            BddPtr::Reg(i) => {
                proof {
                    assert(node_wf(pre.nodes@, pre.order, i as int));
                }
                let n = self.nodes[i];
                if self.order.lt(lbl, n.var) {
                    // the variable cannot occur below this level
                    proof {
                        assert forall|env: Set<u64>|
                            #[trigger] eval(self.nodes@, bdd, env) == eval(
                                pre.nodes@,
                                bdd,
                                env_set(env, lbl.0, value),
                            ) by {
                            lemma_indep(pre.nodes@, pre.order, bdd, lbl.0, env);
                        }
                    }
                    return bdd;
                }
                if n.var.0 == lbl.0 {
                    let r = if value {
                        n.high
                    } else {
                        n.low
                    };
                    proof {
                        assert(r == if value {
                            cof_high(pre.nodes@, bdd)
                        } else {
                            cof_low(pre.nodes@, bdd)
                        });
                        if reduced(pre.nodes@, bdd) {
                            assert(rank(n.low) < rank(bdd));
                            assert(rank(n.high) < rank(bdd));
                        }
                        match r {
                            BddPtr::Reg(k) => {},
                            BddPtr::Compl(k) => {},
                            _ => {},
                        }
                        assert forall|env: Set<u64>|
                            #[trigger] eval(self.nodes@, r, env) == eval(
                                pre.nodes@,
                                bdd,
                                env_set(env, lbl.0, value),
                            ) by {
                            let env2 = env_set(env, lbl.0, value);
                            lemma_cofactor(pre.nodes@, pre.order, bdd, env2);
                            lemma_indep(pre.nodes@, pre.order, r, lbl.0, env);
                        }
                    }
                    return r;
                }
                let probe = memo[i];
                match probe {
                    Some(r) => {
                        proof {
                            assert(cond_memo_ok(pre, lbl, value, memo@));
                            assert(memo@[i as int] == Some(r));
                        }
                        return r;
                    },
                    None => {},
                }
                proof {
                    if n.var.0 == lbl.0 || pre.order.spec_pos(lbl.0) == pre.order.spec_pos(
                        n.var.0,
                    ) {
                        pre.order.lemma_pos_injective(lbl.0, n.var.0);
                    }
                }
                let l = self.cond_rec(n.low, lbl, value, memo);
                let ghost midb = *self;
                let h = self.cond_rec(n.high, lbl, value, memo);
                let ghost fin = *self;
                proof {
                    lemma_eval_ext_all(midb.nodes@, fin.nodes@, l);
                    lemma_ptr_pos_ext(midb.nodes@, fin.nodes@, pre.order, l);
                    lemma_reduced_ext(midb.nodes@, fin.nodes@, l);
                    lemma_eval_ext_all(pre.nodes@, fin.nodes@, n.low);
                    lemma_eval_ext_all(pre.nodes@, fin.nodes@, n.high);
                    lemma_reduced_ext(pre.nodes@, fin.nodes@, bdd);
                    assert(fin.nodes@[i as int] == pre.nodes@[i as int]);
                }
                proof {
                    if reduced(pre.nodes@, bdd) {
                        assert(rank(n.low) < rank(bdd));
                        assert(rank(n.high) < rank(bdd));
                        assert(reduced(pre.nodes@, n.low));
                        assert(reduced(pre.nodes@, n.high));
                        lemma_reduced_ext(pre.nodes@, midb.nodes@, n.high);
                        assert(reduced(midb.nodes@, l));
                        assert(reduced(fin.nodes@, l));
                        assert(reduced(fin.nodes@, h));
                    }
                }
                let res = if l == h {
                    proof {
                        assert forall|env: Set<u64>|
                            #[trigger] eval(fin.nodes@, l, env) == eval(
                                pre.nodes@,
                                bdd,
                                env_set(env, lbl.0, value),
                            ) by {
                            let env2 = env_set(env, lbl.0, value);
                            assert(env2.contains(n.var.0) == env.contains(n.var.0));
                            assert(rank(n.low) < rank(bdd));
                            assert(rank(n.high) < rank(bdd));
                            assert(eval(midb.nodes@, l, env) == eval(pre.nodes@, n.low, env2));
                            assert(eval(fin.nodes@, l, env) == eval(midb.nodes@, l, env));
                            assert(eval(fin.nodes@, h, env) == eval(midb.nodes@, n.high, env2));
                            lemma_eval_ext(pre.nodes@, midb.nodes@, n.high, env2);
                        }
                    }
                    l
                } else if l == n.low && h == n.high {
                    proof {
                        assert forall|env: Set<u64>|
                            #[trigger] eval(fin.nodes@, bdd, env) == eval(
                                pre.nodes@,
                                bdd,
                                env_set(env, lbl.0, value),
                            ) by {
                            let env2 = env_set(env, lbl.0, value);
                            assert(env2.contains(n.var.0) == env.contains(n.var.0));
                            assert(rank(n.low) < rank(bdd));
                            assert(rank(n.high) < rank(bdd));
                            lemma_eval_ext(pre.nodes@, fin.nodes@, bdd, env);
                            assert(eval(midb.nodes@, l, env) == eval(pre.nodes@, n.low, env2));
                            lemma_eval_ext(pre.nodes@, midb.nodes@, n.low, env);
                            assert(eval(fin.nodes@, h, env) == eval(midb.nodes@, n.high, env2));
                            lemma_eval_ext(pre.nodes@, midb.nodes@, n.high, env2);
                            lemma_eval_ext(pre.nodes@, fin.nodes@, n.high, env);
                            assert(eval(pre.nodes@, n.low, env2) == eval(pre.nodes@, n.low, env));
                            assert(eval(pre.nodes@, n.high, env2) == eval(
                                pre.nodes@,
                                n.high,
                                env,
                            ));
                        }
                    }
                    bdd
                } else {
                    let ghost before = *self;
                    let res0 = self.get_or_insert(BddNode::new(n.var, l, h));
                    proof {
                        lemma_eval_ext_all(before.nodes@, self.nodes@, l);
                        lemma_eval_ext_all(before.nodes@, self.nodes@, h);
                        lemma_reduced_ext(before.nodes@, self.nodes@, l);
                        lemma_reduced_ext(before.nodes@, self.nodes@, h);
                        lemma_cond_memo_ext(fin, *self, lbl, value, memo@);
                        assert forall|env: Set<u64>|
                            #[trigger] eval(self.nodes@, res0, env) == eval(
                                pre.nodes@,
                                bdd,
                                env_set(env, lbl.0, value),
                            ) by {
                            let env2 = env_set(env, lbl.0, value);
                            assert(env2.contains(n.var.0) == env.contains(n.var.0));
                            assert(rank(n.low) < rank(bdd));
                            assert(rank(n.high) < rank(bdd));
                            assert(eval(self.nodes@, res0, env) == if env.contains(n.var.0) {
                                eval(before.nodes@, h, env)
                            } else {
                                eval(before.nodes@, l, env)
                            });
                            assert(eval(midb.nodes@, l, env) == eval(pre.nodes@, n.low, env2));
                            assert(eval(fin.nodes@, l, env) == eval(midb.nodes@, l, env));
                            assert(eval(before.nodes@, l, env) == eval(fin.nodes@, l, env));
                            assert(eval(fin.nodes@, h, env) == eval(midb.nodes@, n.high, env2));
                            assert(eval(before.nodes@, h, env) == eval(fin.nodes@, h, env));
                            lemma_eval_ext(pre.nodes@, midb.nodes@, n.high, env2);
                        }
                        if reduced(pre.nodes@, bdd) {
                            assert(reduced(before.nodes@, l));
                            assert(reduced(before.nodes@, h));
                        }
                    }
                    res0
                };
                let ghost fin2 = *self;
                let ghost memo_before = memo@;
                proof {
                    lemma_cond_memo_ext(fin, fin2, lbl, value, memo_before);
                    lemma_ptr_pos_ext(pre.nodes@, fin2.nodes@, pre.order, bdd);
                    lemma_reduced_ext(pre.nodes@, fin2.nodes@, bdd);
                    match res {
                        BddPtr::Reg(k) => {},
                        BddPtr::Compl(k) => {},
                        _ => {},
                    }
                    // the facts the memo slot records, in the final store
                    assert(ptr_wf(fin2.nodes@, res));
                    assert(ptr_pos(fin2.nodes@, fin2.order, res) >= fin2.order.spec_pos(n.var.0))
                        by {
                        if l == h {
                            lemma_ptr_pos_ext(midb.nodes@, fin2.nodes@, pre.order, l);
                            assert(ptr_pos(midb.nodes@, pre.order, l) >= ptr_pos(
                                pre.nodes@,
                                pre.order,
                                n.low,
                            ));
                        }
                    }
                    assert(reduced(fin2.nodes@, bdd) ==> reduced(fin2.nodes@, res)) by {
                        if reduced(fin2.nodes@, bdd) {
                            assert(reduced(pre.nodes@, bdd));
                        }
                    }
                    assert forall|env: Set<u64>|
                        #[trigger] eval(fin2.nodes@, res, env) == eval(
                            fin2.nodes@,
                            bdd,
                            env_set(env, lbl.0, value),
                        ) by {
                        lemma_eval_ext(pre.nodes@, fin2.nodes@, bdd, env_set(env, lbl.0, value));
                    }
                }
                memo[i] = Some(res);
                proof {
                    assert forall|k: int|
                        0 <= k < memo@.len() implies match #[trigger] memo@[k] {
                        None => true,
                        Some(r) => {
                            &&& ptr_wf(fin2.nodes@, r)
                            &&& ptr_pos(fin2.nodes@, fin2.order, r) >= fin2.order.spec_pos(
                                fin2.nodes@[k].var.0,
                            )
                            &&& (reduced(fin2.nodes@, BddPtr::Reg(k as usize)) ==> reduced(
                                fin2.nodes@,
                                r,
                            ))
                            &&& forall|env: Set<u64>|
                                #[trigger] eval(fin2.nodes@, r, env) == eval(
                                    fin2.nodes@,
                                    BddPtr::Reg(k as usize),
                                    env_set(env, lbl.0, value),
                                )
                        },
                    } by {
                        if k != i as int {
                            assert(memo@[k] == memo_before[k]);
                            assert(cond_memo_ok(fin2, lbl, value, memo_before));
                        } else {
                            assert(memo@[k] == Some(res));
                            assert(fin2.nodes@[k] == pre.nodes@[k]);
                        }
                    }
                    assert(cond_memo_ok(fin2, lbl, value, memo@));
                }
                res
            },
        }
    }

    /// Compute `bdd` with `lbl` fixed to `value`.
    pub fn condition(&mut self, bdd: BddPtr, lbl: VarLabel, value: bool) -> (r: BddPtr)
        requires
            old(self).inv(),
            ptr_wf(old(self).nodes@, bdd),
            old(self).order.registered(lbl.0),
        ensures
            final(self).inv(),
            extends(*old(self), *final(self)),
            ptr_wf(final(self).nodes@, r),
            ptr_pos(final(self).nodes@, final(self).order, r) >= ptr_pos(
                old(self).nodes@,
                old(self).order,
                bdd,
            ),
            reduced(old(self).nodes@, bdd) ==> reduced(final(self).nodes@, r),
            forall|env: Set<u64>|
                #[trigger] eval(final(self).nodes@, r, env) == eval(
                    old(self).nodes@,
                    bdd,
                    env_set(env, lbl.0, value),
                ),
    {
        let n = self.nodes.len();
        let mut memo: Vec<Option<BddPtr>> = Vec::new();
        let mut i: usize = 0;
        while i < n
            invariant
                i <= n,
                memo@.len() == i,
                forall|k: int| 0 <= k < i ==> #[trigger] memo@[k] is None,
            decreases n - i,
        {
            memo.push(None);
            i += 1;
        }
        proof {
            assert(cond_memo_ok(*self, lbl, value, memo@));
            match bdd {
                BddPtr::Reg(k) => {},
                BddPtr::Compl(k) => {},
                _ => {},
            }
        }
        self.cond_rec(bdd, lbl, value, &mut memo)
    }
}


/// The environment with the decided slots of a partial model forced.
pub open spec fn env_override(env: Set<u64>, m: Seq<Option<bool>>, k: int) -> Set<u64> {
    Set::new(
        |v: u64|
            if 0 <= v < k && v < m.len() && m[v as int] is Some {
                m[v as int]->0
            } else {
                env.contains(v)
            },
    )
}

impl RobddBuilder {
    /// Existential quantification: `bdd[lbl := true] or bdd[lbl := false]`.
    pub fn exists_var(&mut self, bdd: BddPtr, lbl: VarLabel) -> (r: BddPtr)
        requires
            old(self).inv(),
            ptr_wf(old(self).nodes@, bdd),
            old(self).order.registered(lbl.0),
        ensures
            final(self).inv(),
            extends(*old(self), *final(self)),
            ptr_wf(final(self).nodes@, r),
            reduced(old(self).nodes@, bdd) ==> reduced(final(self).nodes@, r),
            old(self).clean@ ==> forall|env: Set<u64>|
                #[trigger] eval(final(self).nodes@, r, env) == (eval(
                    old(self).nodes@,
                    bdd,
                    env.insert(lbl.0),
                ) || eval(old(self).nodes@, bdd, env.remove(lbl.0))),
    {
        let ghost pre = *self;
        let t = self.condition(bdd, lbl, true);
        let ghost m1 = *self;
        let f = self.condition(bdd, lbl, false);
        let ghost m2 = *self;
        proof {
            lemma_eval_ext_all(m1.nodes@, m2.nodes@, t);
            lemma_reduced_ext(m1.nodes@, m2.nodes@, t);
            lemma_eval_ext_all(pre.nodes@, m1.nodes@, bdd);
            lemma_reduced_ext(pre.nodes@, m1.nodes@, bdd);
        }
        let r = self.or(t, f);
        proof {
            if pre.clean@ {
                assert forall|env: Set<u64>|
                    #[trigger] eval(self.nodes@, r, env) == (eval(
                        pre.nodes@,
                        bdd,
                        env.insert(lbl.0),
                    ) || eval(pre.nodes@, bdd, env.remove(lbl.0))) by {
                    assert(eval(self.nodes@, r, env) == (eval(m2.nodes@, t, env) || eval(
                        m2.nodes@,
                        f,
                        env,
                    )));
                    assert(eval(m2.nodes@, t, env) == eval(m1.nodes@, t, env));
                    assert(eval(m1.nodes@, t, env) == eval(pre.nodes@, bdd, env.insert(lbl.0)));
                    assert(eval(m2.nodes@, f, env) == eval(m1.nodes@, bdd, env.remove(lbl.0)));
                    lemma_eval_ext(pre.nodes@, m1.nodes@, bdd, env.remove(lbl.0));
                }
            }
        }
        r
    }

    /// Substitution of `g` for `lbl` in `f`, as `ite(g, f|lbl=T, f|lbl=F)`.
    pub fn compose(&mut self, f: BddPtr, lbl: VarLabel, g: BddPtr) -> (r: BddPtr)
        requires
            old(self).inv(),
            ptr_wf(old(self).nodes@, f),
            ptr_wf(old(self).nodes@, g),
            old(self).order.registered(lbl.0),
        ensures
            final(self).inv(),
            extends(*old(self), *final(self)),
            ptr_wf(final(self).nodes@, r),
            (reduced(old(self).nodes@, f) && reduced(old(self).nodes@, g)) ==> reduced(
                final(self).nodes@,
                r,
            ),
            old(self).clean@ ==> forall|env: Set<u64>|
                #[trigger] eval(final(self).nodes@, r, env) == (if eval(
                    old(self).nodes@,
                    g,
                    env,
                ) {
                    eval(old(self).nodes@, f, env.insert(lbl.0))
                } else {
                    eval(old(self).nodes@, f, env.remove(lbl.0))
                }),
    {
        let ghost pre = *self;
        let ft = self.condition(f, lbl, true);
        let ghost m1 = *self;
        let ff = self.condition(f, lbl, false);
        let ghost m2 = *self;
        proof {
            lemma_eval_ext_all(m1.nodes@, m2.nodes@, ft);
            lemma_reduced_ext(m1.nodes@, m2.nodes@, ft);
            lemma_eval_ext_all(pre.nodes@, m1.nodes@, f);
            lemma_reduced_ext(pre.nodes@, m1.nodes@, f);
            lemma_eval_ext_all(pre.nodes@, m2.nodes@, g);
            lemma_reduced_ext(pre.nodes@, m2.nodes@, g);
        }
        let r = self.ite(g, ft, ff);
        proof {
            if pre.clean@ {
                assert forall|env: Set<u64>|
                    #[trigger] eval(self.nodes@, r, env) == (if eval(pre.nodes@, g, env) {
                        eval(pre.nodes@, f, env.insert(lbl.0))
                    } else {
                        eval(pre.nodes@, f, env.remove(lbl.0))
                    }) by {
                    assert(eval(self.nodes@, r, env) == ite_sem(m2.nodes@, g, ft, ff, env));
                    assert(eval(m2.nodes@, g, env) == eval(pre.nodes@, g, env));
                    assert(eval(m2.nodes@, ft, env) == eval(m1.nodes@, ft, env));
                    assert(eval(m1.nodes@, ft, env) == eval(pre.nodes@, f, env.insert(lbl.0)));
                    assert(eval(m2.nodes@, ff, env) == eval(m1.nodes@, f, env.remove(lbl.0)));
                    lemma_eval_ext(pre.nodes@, m1.nodes@, f, env.remove(lbl.0));
                }
            }
        }
        r
    }

    /// Does the variable label any node of the diagram?
    pub fn has_variable(&self, bdd: BddPtr, var: VarLabel) -> (r: bool)
        requires
            self.inv(),
            ptr_wf(self.nodes@, bdd),
            self.order.registered(var.0),
        ensures
            r == spec_has_variable(self.nodes@, bdd, var.0),
        decreases rank(bdd),
    {
        match bdd {
            BddPtr::PtrTrue => false,
            BddPtr::PtrFalse => false,
            BddPtr::Compl(i) => self.has_variable(BddPtr::Reg(i), var),
            BddPtr::Reg(i) => {
                proof {
                    assert(node_wf(self.nodes@, self.order, i as int));
                }
                let node = self.nodes[i];
                if node.var.0 == var.0 {
                    true
                } else if self.order.lt(var, node.var) {
                    // the order has passed `var`: it cannot occur below
                    proof {
                        lemma_has_variable_below(self.nodes@, self.order, bdd, var.0);
                    }
                    false
                } else {
                    proof {
                        assert(rank(node.low) < rank(bdd));
                        assert(rank(node.high) < rank(bdd));
                    }
                    self.has_variable(node.low, var) || self.has_variable(node.high, var)
                }
            },
        }
    }

    /// Condition on every decided variable of a partial model.
    fn cond_model_h(&mut self, bdd: BddPtr, m: &PartialModel) -> (r: BddPtr)
        requires
            old(self).inv(),
            ptr_wf(old(self).nodes@, bdd),
            m.assignments@.len() <= old(self).order.spec_num_vars(),
        ensures
            final(self).inv(),
            extends(*old(self), *final(self)),
            ptr_wf(final(self).nodes@, r),
            reduced(old(self).nodes@, bdd) ==> reduced(final(self).nodes@, r),
            forall|env: Set<u64>|
                #[trigger] eval(final(self).nodes@, r, env) == eval(
                    old(self).nodes@,
                    bdd,
                    env_override(env, m.assignments@, m.assignments@.len() as int),
                ),
    {
        let ghost pre = *self;
        let ghost ms = m.assignments@;
        let mut cur = bdd;
        let mut i: usize = 0;
        let n = m.assignments.len();
        proof {
            assert forall|env: Set<u64>|
                #[trigger] eval(self.nodes@, cur, env) == eval(
                    pre.nodes@,
                    bdd,
                    env_override(env, ms, 0),
                ) by {
                assert(env_override(env, ms, 0) =~= env);
            }
        }
        while i < n
            invariant
                self.inv(),
                extends(pre, *self),
                ms == m.assignments@,
                n == ms.len(),
                ms.len() <= pre.order.spec_num_vars(),
                ptr_wf(pre.nodes@, bdd),
                i <= n,
                ptr_wf(self.nodes@, cur),
                reduced(pre.nodes@, bdd) ==> reduced(self.nodes@, cur),
                forall|env: Set<u64>|
                    #[trigger] eval(self.nodes@, cur, env) == eval(
                        pre.nodes@,
                        bdd,
                        env_override(env, ms, i as int),
                    ),
            decreases n - i,
        {
            let ghost loop_pre = *self;
            let ghost cur0 = cur;
            match m.assignments[i] {
                Some(b) => {
                    cur = self.condition(cur, VarLabel(i as u64), b);
                    proof {
                        assert forall|env: Set<u64>|
                            #[trigger] eval(self.nodes@, cur, env) == eval(
                                pre.nodes@,
                                bdd,
                                env_override(env, ms, i + 1 as int),
                            ) by {
                            assert(eval(self.nodes@, cur, env) == eval(
                                loop_pre.nodes@,
                                cur0,
                                env_set(env, i as u64, b),
                            ));
                            assert(eval(loop_pre.nodes@, cur0, env_set(env, i as u64, b)) == eval(
                                pre.nodes@,
                                bdd,
                                env_override(env_set(env, i as u64, b), ms, i as int),
                            ));
                            assert(env_override(env_set(env, i as u64, b), ms, i as int)
                                =~= env_override(env, ms, i + 1 as int));
                        }
                    }
                },
                None => {
                    proof {
                        assert forall|env: Set<u64>|
                            #[trigger] eval(self.nodes@, cur, env) == eval(
                                pre.nodes@,
                                bdd,
                                env_override(env, ms, i + 1 as int),
                            ) by {
                            assert(env_override(env, ms, i as int) =~= env_override(
                                env,
                                ms,
                                i + 1 as int,
                            ));
                        }
                    }
                },
            }
            i += 1;
        }
        cur
    }

    /// The Boolean function `bdd` with every decided variable of the model
    /// fixed to its value.
    pub fn condition_model(&mut self, bdd: BddPtr, m: &PartialModel) -> (r: BddPtr)
        requires
            old(self).inv(),
            ptr_wf(old(self).nodes@, bdd),
            m.assignments@.len() <= old(self).order.spec_num_vars(),
        ensures
            final(self).inv(),
            extends(*old(self), *final(self)),
            ptr_wf(final(self).nodes@, r),
            reduced(old(self).nodes@, bdd) ==> reduced(final(self).nodes@, r),
            forall|env: Set<u64>|
                #[trigger] eval(final(self).nodes@, r, env) == eval(
                    old(self).nodes@,
                    bdd,
                    env_override(env, m.assignments@, m.assignments@.len() as int),
                ),
    {
        self.cond_model_h(bdd, m)
    }
}


impl RobddBuilder {
    /// One level of smoothing: ensure the variable of each level from
    /// `current` up to `total` appears on every path.
    #[verifier::rlimit(100)]
    fn smooth_rec(&mut self, bdd: BddPtr, current: usize, total: usize) -> (r: BddPtr)
        requires
            old(self).inv(),
            ptr_wf(old(self).nodes@, bdd),
            current <= total,
            total <= old(self).order.spec_num_vars(),
            ptr_pos(old(self).nodes@, old(self).order, bdd) >= current,
            all_below(old(self).nodes@, old(self).order, bdd, total as int),
        ensures
            final(self).inv(),
            extends(*old(self), *final(self)),
            ptr_wf(final(self).nodes@, r),
            smoothed(final(self).nodes@, final(self).order, r, current as int, total as int),
            forall|env: Set<u64>|
                #[trigger] eval(final(self).nodes@, r, env) == eval(old(self).nodes@, bdd, env),
        decreases total - current, rank(bdd),
    {
        let ghost pre = *self;
        if current >= total {
            proof {
                // below the last level the diagram has no variables left, so
                // it must be a constant
                match bdd {
                    BddPtr::Reg(i) => {
                        assert(all_below(pre.nodes@, pre.order, bdd, total as int));
                        assert(pre.order.spec_pos(pre.nodes@[i as int].var.0) < total as int);
                        assert(ptr_pos(pre.nodes@, pre.order, bdd) >= current);
                        assert(false);
                    },
                    BddPtr::Compl(i) => {
                        assert(all_below(pre.nodes@, pre.order, bdd, total as int));
                        assert(all_below(pre.nodes@, pre.order, BddPtr::Reg(i), total as int));
                        assert(pre.order.spec_pos(pre.nodes@[i as int].var.0) < total as int);
                        assert(ptr_pos(pre.nodes@, pre.order, bdd) >= current);
                        assert(false);
                    },
                    _ => {},
                }
            }
            return bdd;
        }
        match bdd {
            BddPtr::Compl(i) => {
                let rr = self.smooth_rec(BddPtr::Reg(i), current, total);
                proof {
                    lemma_smoothed_neg(
                        self.nodes@,
                        self.order,
                        rr,
                        current as int,
                        total as int,
                    );
                    assert forall|env: Set<u64>|
                        #[trigger] eval(self.nodes@, pneg(rr), env) == eval(
                            pre.nodes@,
                            bdd,
                            env,
                        ) by {
                        lemma_eval_neg(self.nodes@, rr, env);
                        lemma_eval_ext(pre.nodes@, self.nodes@, BddPtr::Reg(i), env);
                    }
                    match rr {
                        BddPtr::Reg(k) => {},
                        BddPtr::Compl(k) => {},
                        _ => {},
                    }
                }
                rr.neg()
            },
            _ => {
                let is_here = match bdd {
                    BddPtr::Reg(i) => {
                        proof {
                            assert(node_wf(pre.nodes@, pre.order, i as int));
                        }
                        self.ptr_level(bdd) == current
                    },
                    _ => false,
                };
                if is_here {
                    let i = match bdd {
                        BddPtr::Reg(i) => i,
                        _ => 0,
                    };
                    let n = self.nodes[i];
                    proof {
                        assert(node_wf(pre.nodes@, pre.order, i as int));
                        assert(rank(n.low) < rank(bdd));
                        assert(rank(n.high) < rank(bdd));
                        assert(all_below(pre.nodes@, pre.order, n.low, total as int));
                        assert(all_below(pre.nodes@, pre.order, n.high, total as int));
                    }
                    let l = self.smooth_rec(n.low, current + 1, total);
                    let ghost m1 = *self;
                    proof {
                        lemma_all_below_ext(pre.nodes@, m1.nodes@, pre.order, n.high, total as int);
                        lemma_ptr_pos_ext(pre.nodes@, m1.nodes@, pre.order, n.high);
                    }
                    let h = self.smooth_rec(n.high, current + 1, total);
                    let ghost m2 = *self;
                    proof {
                        lemma_smoothed_ext(
                            m1.nodes@,
                            m2.nodes@,
                            pre.order,
                            l,
                            current + 1 as int,
                            total as int,
                        );
                        lemma_eval_ext_all(m1.nodes@, m2.nodes@, l);
                        lemma_smoothed_pos(
                            m2.nodes@,
                            pre.order,
                            l,
                            current + 1 as int,
                            total as int,
                        );
                        lemma_smoothed_pos(
                            m2.nodes@,
                            pre.order,
                            h,
                            current + 1 as int,
                            total as int,
                        );
                    }
                    let ghost before = *self;
                    let r = self.get_or_insert(BddNode::new(n.var, l, h));
                    proof {
                        lemma_smoothed_ext(
                            before.nodes@,
                            self.nodes@,
                            pre.order,
                            l,
                            current + 1 as int,
                            total as int,
                        );
                        lemma_smoothed_ext(
                            before.nodes@,
                            self.nodes@,
                            pre.order,
                            h,
                            current + 1 as int,
                            total as int,
                        );
                        lemma_smoothed_neg(
                            self.nodes@,
                            self.order,
                            l,
                            current + 1 as int,
                            total as int,
                        );
                        lemma_smoothed_neg(
                            self.nodes@,
                            self.order,
                            h,
                            current + 1 as int,
                            total as int,
                        );
                        match r {
                            BddPtr::Reg(k) => {
                                assert(self.nodes@[k as int].low == l);
                                assert(self.nodes@[k as int].high == h);
                                assert(self.nodes@[k as int].var.0 == n.var.0);
                            },
                            BddPtr::Compl(k) => {
                                assert(self.nodes@[k as int].low == pneg(l));
                                assert(self.nodes@[k as int].high == pneg(h));
                                assert(self.nodes@[k as int].var.0 == n.var.0);
                                assert(smoothed(
                                    self.nodes@,
                                    self.order,
                                    BddPtr::Reg(k),
                                    current as int,
                                    total as int,
                                ));
                            },
                            _ => {},
                        }
                        assert(smoothed(
                            self.nodes@,
                            self.order,
                            r,
                            current as int,
                            total as int,
                        ));
                        assert forall|env: Set<u64>|
                            #[trigger] eval(self.nodes@, r, env) == eval(pre.nodes@, bdd, env) by {
                            assert(eval(self.nodes@, r, env) == if env.contains(n.var.0) {
                                eval(before.nodes@, h, env)
                            } else {
                                eval(before.nodes@, l, env)
                            });
                            assert(eval(m2.nodes@, h, env) == eval(m1.nodes@, n.high, env));
                            lemma_eval_ext(pre.nodes@, m1.nodes@, n.high, env);
                            assert(eval(m2.nodes@, l, env) == eval(m1.nodes@, l, env));
                            assert(eval(m1.nodes@, l, env) == eval(pre.nodes@, n.low, env));
                            assert(rank(n.low) < rank(bdd));
                            assert(rank(n.high) < rank(bdd));
                        }
                    }
                    r
                } else {
                    // the level's variable is missing here: insert a fresh
                    // node with equal children
                    let vcur = self.order.var_at_level(current);
                    proof {
                        match bdd {
                            BddPtr::Reg(i) => {
                                assert(node_wf(pre.nodes@, pre.order, i as int));
                            },
                            _ => {},
                        }
                    }
                    let c = self.smooth_rec(bdd, current + 1, total);
                    let ghost m1 = *self;
                    proof {
                        lemma_smoothed_pos(
                            m1.nodes@,
                            pre.order,
                            c,
                            current + 1 as int,
                            total as int,
                        );
                    }
                    let ghost before = *self;
                    let r = self.get_or_insert(BddNode::new(vcur, c, c));
                    proof {
                        lemma_smoothed_ext(
                            before.nodes@,
                            self.nodes@,
                            pre.order,
                            c,
                            current + 1 as int,
                            total as int,
                        );
                        lemma_smoothed_neg(
                            self.nodes@,
                            self.order,
                            c,
                            current + 1 as int,
                            total as int,
                        );
                        match r {
                            BddPtr::Reg(k) => {
                                assert(self.nodes@[k as int].low == c);
                                assert(self.nodes@[k as int].high == c);
                                assert(self.nodes@[k as int].var.0 == vcur.0);
                            },
                            BddPtr::Compl(k) => {
                                assert(self.nodes@[k as int].low == pneg(c));
                                assert(self.nodes@[k as int].high == pneg(c));
                                assert(self.nodes@[k as int].var.0 == vcur.0);
                                assert(smoothed(
                                    self.nodes@,
                                    self.order,
                                    BddPtr::Reg(k),
                                    current as int,
                                    total as int,
                                ));
                            },
                            _ => {},
                        }
                        assert(smoothed(
                            self.nodes@,
                            self.order,
                            r,
                            current as int,
                            total as int,
                        ));
                        assert forall|env: Set<u64>|
                            #[trigger] eval(self.nodes@, r, env) == eval(pre.nodes@, bdd, env) by {
                            assert(eval(self.nodes@, r, env) == if env.contains(vcur.0) {
                                eval(before.nodes@, c, env)
                            } else {
                                eval(before.nodes@, c, env)
                            });
                            lemma_eval_ext(pre.nodes@, before.nodes@, bdd, env);
                        }
                    }
                    r
                }
            },
        }
    }

    /// Return a smoothed version of the diagram: the same Boolean function,
    /// with every path branching on the variable of every level up to
    /// `num_vars`.  For a diagram of this manager smoothed over the whole
    /// order, `crate::semantics::lemma_all_below_num_vars` discharges the
    /// last requirement.
    pub fn smooth(&mut self, bdd: BddPtr, num_vars: usize) -> (r: BddPtr)
        requires
            old(self).inv(),
            ptr_wf(old(self).nodes@, bdd),
            num_vars <= old(self).order.spec_num_vars(),
            all_below(old(self).nodes@, old(self).order, bdd, num_vars as int),
        ensures
            final(self).inv(),
            extends(*old(self), *final(self)),
            ptr_wf(final(self).nodes@, r),
            smoothed(final(self).nodes@, final(self).order, r, 0, num_vars as int),
            forall|env: Set<u64>|
                #[trigger] eval(final(self).nodes@, r, env) == eval(old(self).nodes@, bdd, env),
    {
        self.smooth_rec(bdd, 0, num_vars)
    }
}


impl RobddBuilder {
    /// Compile a CNF: disjoin the literals of each clause, conjoin the
    /// clauses.  The result denotes exactly the CNF's models.
    #[verifier::rlimit(100)]
    pub fn compile_cnf(&mut self, cnf: &crate::cnf::Cnf) -> (r: BddPtr)
        requires
            old(self).inv(),
            cnf.wf(),
            cnf.num_vars <= old(self).order.spec_num_vars(),
        ensures
            final(self).inv(),
            extends(*old(self), *final(self)),
            ptr_wf(final(self).nodes@, r),
            reduced(final(self).nodes@, r),
            old(self).clean@ ==> forall|env: Set<u64>|
                #[trigger] eval(final(self).nodes@, r, env) == cnf.spec_sem(env),
    {
        let ghost pre = *self;
        let mut acc = BddPtr::PtrTrue;
        let nclauses = cnf.clauses.len();
        let mut c: usize = 0;
        proof {
            assert(cnf.clauses@.take(0).len() == 0);
        }
        while c < nclauses
            invariant
                self.inv(),
                extends(pre, *self),
                pre.inv(),
                cnf.wf(),
                cnf.num_vars <= pre.order.spec_num_vars(),
                nclauses == cnf.clauses@.len(),
                c <= nclauses,
                ptr_wf(self.nodes@, acc),
                reduced(self.nodes@, acc),
                pre.clean@ ==> forall|env: Set<u64>|
                    #[trigger] eval(self.nodes@, acc, env) == crate::cnf::cnf_sem_vecs(
                        cnf.clauses@.take(c as int),
                        env,
                    ),
            decreases nclauses - c,
        {
            let ghost outer_pre = *self;
            let clause = &cnf.clauses[c];
            let mut cl = BddPtr::PtrFalse;
            let nlits = clause.len();
            let mut k: usize = 0;
            proof {
                assert(clause@.take(0).len() == 0);
            }
            while k < nlits
                invariant
                    self.inv(),
                    extends(pre, *self),
                    extends(outer_pre, *self),
                    pre.inv(),
                    cnf.wf(),
                    cnf.num_vars <= pre.order.spec_num_vars(),
                    nclauses == cnf.clauses@.len(),
                    c < nclauses,
                    clause@ == cnf.clauses@[c as int]@,
                    nlits == clause@.len(),
                    k <= nlits,
                    ptr_wf(self.nodes@, cl),
                    reduced(self.nodes@, cl),
                    pre.clean@ ==> forall|env: Set<u64>|
                        #[trigger] eval(self.nodes@, cl, env) == crate::cnf::clause_sem(
                            clause@.take(k as int),
                            env,
                        ),
                decreases nlits - k,
            {
                let lit = clause[k];
                let ghost s1 = *self;
                let v = self.var(lit.get_label(), lit.get_polarity());
                let ghost s2 = *self;
                proof {
                    lemma_eval_ext_all(s1.nodes@, s2.nodes@, cl);
                    lemma_reduced_ext(s1.nodes@, s2.nodes@, cl);
                }
                let ghost cl0 = cl;
                cl = self.or(cl, v);
                proof {
                    if pre.clean@ {
                        assert forall|env: Set<u64>|
                            #[trigger] eval(self.nodes@, cl, env) == crate::cnf::clause_sem(
                                clause@.take(k + 1),
                                env,
                            ) by {
                            assert(eval(self.nodes@, cl, env) == (eval(s2.nodes@, cl0, env)
                                || eval(s2.nodes@, v, env)));
                            assert(eval(s2.nodes@, cl0, env) == eval(s1.nodes@, cl0, env));
                            crate::cnf::lemma_clause_sem_push(clause@, k as int, env);
                        }
                    }
                }
                k += 1;
            }
            let ghost s3 = *self;
            proof {
                lemma_eval_ext_all(outer_pre.nodes@, s3.nodes@, acc);
                lemma_reduced_ext(outer_pre.nodes@, s3.nodes@, acc);
            }
            let ghost acc0 = acc;
            acc = self.and(acc, cl);
            proof {
                if pre.clean@ {
                    assert forall|env: Set<u64>|
                        #[trigger] eval(self.nodes@, acc, env) == crate::cnf::cnf_sem_vecs(
                            cnf.clauses@.take(c + 1),
                            env,
                        ) by {
                        assert(eval(self.nodes@, acc, env) == (eval(s3.nodes@, acc0, env) && eval(
                            s3.nodes@,
                            cl,
                            env,
                        )));
                        assert(eval(s3.nodes@, acc0, env) == eval(outer_pre.nodes@, acc0, env));
                        assert(clause@.take(nlits as int) == clause@);
                        crate::cnf::lemma_cnf_sem_push(cnf.clauses@, c as int, env);
                    }
                }
            }
            c += 1;
        }
        proof {
            assert(cnf.clauses@.take(nclauses as int) == cnf.clauses@);
        }
        acc
    }
}


/// Relies on the std Display implementation for u64: the decimal digits of
/// the number, used only to label diagram printouts.
#[verifier::external_body]
fn u64_string(x: u64) -> String {
    format!("{}", x)
}

impl RobddBuilder {
    /// A parenthesized rendering of the diagram, for debugging output.
    fn print_rec(&self, p: BddPtr) -> String
        requires
            self.inv(),
            ptr_wf(self.nodes@, p),
        decreases rank(p),
    {
        match p {
            BddPtr::PtrTrue => "T".to_owned(),
            BddPtr::PtrFalse => "F".to_owned(),
            BddPtr::Compl(i) => {
                let inner = self.print_rec(BddPtr::Reg(i));
                let mut out = String::new();
                out.append("!");
                out.append(inner.as_str());
                out
            },
            BddPtr::Reg(i) => {
                proof {
                    assert(node_wf(self.nodes@, self.order, i as int));
                }
                let n = self.nodes[i];
                proof {
                    assert(rank(n.low) < rank(p));
                    assert(rank(n.high) < rank(p));
                }
                let l = self.print_rec(n.low);
                let h = self.print_rec(n.high);
                let v = u64_string(n.var.0);
                let mut out = String::new();
                out.append("(");
                out.append(v.as_str());
                out.append(", ");
                out.append(l.as_str());
                out.append(", ");
                out.append(h.as_str());
                out.append(")");
                out
            },
        }
    }

    /// Render a diagram as text for failure messages and debugging.
    pub fn to_string_debug(&self, bdd: BddPtr) -> String
        requires
            self.inv(),
            ptr_wf(self.nodes@, bdd),
    {
        self.print_rec(bdd)
    }
}

} // verus!
