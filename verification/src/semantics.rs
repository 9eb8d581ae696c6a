use vstd::prelude::*;

use crate::bdd_ptr::{pneg, BddNode, BddPtr};
use crate::var_order::VarOrder;

verus! {

/// A termination measure on pointers into the node store.  Children of the
/// node at index `i` always have smaller indices, so every recursion that
/// follows edges decreases this rank.
pub open spec fn rank(p: BddPtr) -> nat {
    match p {
        BddPtr::PtrTrue => 0,
        BddPtr::PtrFalse => 0,
        BddPtr::Reg(i) => 2 * (i as nat) + 1,
        BddPtr::Compl(i) => 2 * (i as nat) + 2,
    }
}

/// A pointer is meaningful for a store when its index is in bounds.
pub open spec fn ptr_wf(nodes: Seq<BddNode>, p: BddPtr) -> bool {
    match p {
        BddPtr::Reg(i) => i < nodes.len(),
        BddPtr::Compl(i) => i < nodes.len(),
        _ => true,
    }
}

/// The Boolean function denoted by a pointer, as a function of the set of
/// variables that are assigned true.  A complement edge negates its target.
pub open spec fn eval(nodes: Seq<BddNode>, p: BddPtr, env: Set<u64>) -> bool
    decreases rank(p),
{
    match p {
        BddPtr::PtrTrue => true,
        BddPtr::PtrFalse => false,
        BddPtr::Compl(i) => !eval(nodes, BddPtr::Reg(i), env),
        BddPtr::Reg(i) => if i < nodes.len() {
            let n = nodes[i as int];
            let c = if env.contains(n.var.0) {
                n.high
            } else {
                n.low
            };
            if rank(c) < rank(p) {
                eval(nodes, c, env)
            } else {
                false
            }
        } else {
            false
        },
    }
}

/// A child edge of the node at index `i` points strictly earlier in the
/// store and strictly later in the variable order.
pub open spec fn child_ok(nodes: Seq<BddNode>, order: VarOrder, i: int, c: BddPtr) -> bool {
    match c {
        BddPtr::Reg(j) => j < i && order.spec_pos(nodes[j as int].var.0) > order.spec_pos(
            nodes[i].var.0,
        ),
        BddPtr::Compl(j) => j < i && order.spec_pos(nodes[j as int].var.0) > order.spec_pos(
            nodes[i].var.0,
        ),
        _ => true,
    }
}

/// Well-formedness of one stored node: its variable is registered, its
/// children point down in store and order, and its high edge is neither a
/// complement edge nor the false constant (complement-edge canonicity).
pub open spec fn node_wf(nodes: Seq<BddNode>, order: VarOrder, i: int) -> bool {
    let n = nodes[i];
    &&& order.registered(n.var.0)
    &&& child_ok(nodes, order, i, n.low)
    &&& child_ok(nodes, order, i, n.high)
    &&& !(n.high is Compl)
    &&& n.high != BddPtr::PtrFalse
}

/// The store invariant: ordered nodes, canonical high edges, and at most one
/// copy of each `(var, low, high)` triple.
pub open spec fn store_wf(nodes: Seq<BddNode>, order: VarOrder) -> bool {
    &&& order.wf()
    &&& forall|i: int| 0 <= i < nodes.len() ==> #[trigger] node_wf(nodes, order, i)
    &&& forall|i: int, j: int|
        0 <= i < nodes.len() && 0 <= j < nodes.len() && i != j ==> #[trigger] nodes[i]
            != #[trigger] nodes[j]
}

/// The level of a pointer: the position of its top variable, or the number
/// of positions for a constant (deeper than every variable).
pub open spec fn ptr_pos(nodes: Seq<BddNode>, order: VarOrder, p: BddPtr) -> int {
    match p {
        BddPtr::Reg(i) => order.spec_pos(nodes[i as int].var.0),
        BddPtr::Compl(i) => order.spec_pos(nodes[i as int].var.0),
        _ => order.spec_num_vars(),
    }
}

/// No node reachable from `p` has equal children.  The connectives only
/// build reduced diagrams; smoothing deliberately does not.
pub open spec fn reduced(nodes: Seq<BddNode>, p: BddPtr) -> bool
    decreases rank(p),
{
    match p {
        BddPtr::PtrTrue => true,
        BddPtr::PtrFalse => true,
        BddPtr::Compl(i) => reduced(nodes, BddPtr::Reg(i)),
        BddPtr::Reg(i) => if i < nodes.len() {
            let n = nodes[i as int];
            &&& n.low != n.high
            &&& if rank(n.low) < rank(p) {
                reduced(nodes, n.low)
            } else {
                false
            }
            &&& if rank(n.high) < rank(p) {
                reduced(nodes, n.high)
            } else {
                false
            }
        } else {
            false
        },
    }
}

/// The branching variable of a node pointer.
pub open spec fn top_var(nodes: Seq<BddNode>, p: BddPtr) -> u64 {
    match p {
        BddPtr::Reg(i) => nodes[i as int].var.0,
        BddPtr::Compl(i) => nodes[i as int].var.0,
        _ => 0,
    }
}

/// The low cofactor of a node pointer, with the parity of the edge applied.
pub open spec fn cof_low(nodes: Seq<BddNode>, p: BddPtr) -> BddPtr {
    match p {
        BddPtr::Reg(i) => nodes[i as int].low,
        BddPtr::Compl(i) => pneg(nodes[i as int].low),
        _ => p,
    }
}

/// The high cofactor of a node pointer, with the parity of the edge applied.
pub open spec fn cof_high(nodes: Seq<BddNode>, p: BddPtr) -> BddPtr {
    match p {
        BddPtr::Reg(i) => nodes[i as int].high,
        BddPtr::Compl(i) => pneg(nodes[i as int].high),
        _ => p,
    }
}

/// The stored low child, without the edge's parity.
pub open spec fn raw_low(nodes: Seq<BddNode>, p: BddPtr) -> BddPtr {
    match p {
        BddPtr::Reg(i) => nodes[i as int].low,
        BddPtr::Compl(i) => nodes[i as int].low,
        _ => p,
    }
}

/// The stored high child, without the edge's parity.
pub open spec fn raw_high(nodes: Seq<BddNode>, p: BddPtr) -> BddPtr {
    match p {
        BddPtr::Reg(i) => nodes[i as int].high,
        BddPtr::Compl(i) => nodes[i as int].high,
        _ => p,
    }
}

/// Shannon reading of one node: branch on the top variable, then follow the
/// parity-adjusted child.
pub proof fn lemma_cofactor(nodes: Seq<BddNode>, order: VarOrder, p: BddPtr, env: Set<u64>)
    requires
        store_wf(nodes, order),
        ptr_wf(nodes, p),
        p is Reg || p is Compl,
    ensures
        eval(nodes, p, env) == if env.contains(top_var(nodes, p)) {
            eval(nodes, cof_high(nodes, p), env)
        } else {
            eval(nodes, cof_low(nodes, p), env)
        },
{
    match p {
        BddPtr::Reg(i) => {
            assert(node_wf(nodes, order, i as int));
            let n = nodes[i as int];
            assert(cof_high(nodes, p) == n.high);
            assert(cof_low(nodes, p) == n.low);
            assert(top_var(nodes, p) == n.var.0);
            assert(rank(n.low) < rank(p));
            assert(rank(n.high) < rank(p));
            if env.contains(n.var.0) {
                assert(eval(nodes, p, env) == eval(nodes, n.high, env));
            } else {
                assert(eval(nodes, p, env) == eval(nodes, n.low, env));
            }
        },
        BddPtr::Compl(i) => {
            assert(node_wf(nodes, order, i as int));
            let n = nodes[i as int];
            assert(cof_high(nodes, p) == pneg(n.high));
            assert(cof_low(nodes, p) == pneg(n.low));
            assert(top_var(nodes, p) == n.var.0);
            assert(rank(n.low) < rank(BddPtr::Reg(i)));
            assert(rank(n.high) < rank(BddPtr::Reg(i)));
            lemma_eval_neg(nodes, n.high, env);
            lemma_eval_neg(nodes, n.low, env);
            if env.contains(n.var.0) {
                assert(eval(nodes, BddPtr::Reg(i), env) == eval(nodes, n.high, env));
            } else {
                assert(eval(nodes, BddPtr::Reg(i), env) == eval(nodes, n.low, env));
            }
        },
        _ => {},
    }
}

/// Negating an edge negates the function it denotes.
pub proof fn lemma_eval_neg(nodes: Seq<BddNode>, p: BddPtr, env: Set<u64>)
    ensures
        eval(nodes, pneg(p), env) == !eval(nodes, p, env),
{
}

/// Reducedness ignores the parity of the root edge.
pub proof fn lemma_reduced_neg(nodes: Seq<BddNode>, p: BddPtr)
    ensures
        reduced(nodes, pneg(p)) == reduced(nodes, p),
{
}

/// `post` extends `pre`: the existing nodes are unchanged.
pub open spec fn seq_ext(pre: Seq<BddNode>, post: Seq<BddNode>) -> bool {
    &&& pre.len() <= post.len()
    &&& forall|i: int| 0 <= i < pre.len() ==> post[i] == pre[i]
}

/// Evaluation only reads nodes below the pointer's index, so extending the
/// store changes no existing function.
pub proof fn lemma_eval_ext(pre: Seq<BddNode>, post: Seq<BddNode>, p: BddPtr, env: Set<u64>)
    requires
        seq_ext(pre, post),
        ptr_wf(pre, p),
    ensures
        eval(post, p, env) == eval(pre, p, env),
    decreases rank(p),
{
    match p {
        BddPtr::PtrTrue => {},
        BddPtr::PtrFalse => {},
        BddPtr::Compl(i) => {
            lemma_eval_ext(pre, post, BddPtr::Reg(i), env);
        },
        BddPtr::Reg(i) => {
            let n = pre[i as int];
            let c = if env.contains(n.var.0) {
                n.high
            } else {
                n.low
            };
            if rank(c) < rank(p) {
                lemma_eval_ext(pre, post, c, env);
            }
        },
    }
}

/// The same, for every environment at once.
pub proof fn lemma_eval_ext_all(pre: Seq<BddNode>, post: Seq<BddNode>, p: BddPtr)
    requires
        seq_ext(pre, post),
        ptr_wf(pre, p),
    ensures
        forall|env: Set<u64>| #[trigger] eval(post, p, env) == eval(pre, p, env),
{
    assert forall|env: Set<u64>| #[trigger] eval(post, p, env) == eval(pre, p, env) by {
        lemma_eval_ext(pre, post, p, env);
    }
}

/// Reducedness is likewise preserved when the store grows.
pub proof fn lemma_reduced_ext(pre: Seq<BddNode>, post: Seq<BddNode>, p: BddPtr)
    requires
        seq_ext(pre, post),
        ptr_wf(pre, p),
    ensures
        reduced(post, p) == reduced(pre, p),
    decreases rank(p),
{
    match p {
        BddPtr::PtrTrue => {},
        BddPtr::PtrFalse => {},
        BddPtr::Compl(i) => {
            lemma_reduced_ext(pre, post, BddPtr::Reg(i));
        },
        BddPtr::Reg(i) => {
            let n = pre[i as int];
            if rank(n.low) < rank(p) {
                lemma_reduced_ext(pre, post, n.low);
            }
            if rank(n.high) < rank(p) {
                lemma_reduced_ext(pre, post, n.high);
            }
        },
    }
}

/// Every variable reachable from `p` sits at a level below `total`.
pub open spec fn all_below(nodes: Seq<BddNode>, order: VarOrder, p: BddPtr, total: int) -> bool
    decreases rank(p),
{
    match p {
        BddPtr::PtrTrue => true,
        BddPtr::PtrFalse => true,
        BddPtr::Compl(i) => all_below(nodes, order, BddPtr::Reg(i), total),
        BddPtr::Reg(i) => if i < nodes.len() {
            let n = nodes[i as int];
            &&& order.spec_pos(n.var.0) < total
            &&& (if rank(n.low) < rank(p) {
                all_below(nodes, order, n.low, total)
            } else {
                false
            })
            &&& (if rank(n.high) < rank(p) {
                all_below(nodes, order, n.high, total)
            } else {
                false
            })
        } else {
            false
        },
    }
}

/// In a well-formed store every diagram lives below the number of levels.
pub proof fn lemma_all_below_num_vars(nodes: Seq<BddNode>, order: VarOrder, p: BddPtr)
    requires
        store_wf(nodes, order),
        ptr_wf(nodes, p),
    ensures
        all_below(nodes, order, p, order.spec_num_vars()),
    decreases rank(p),
{
    match p {
        BddPtr::PtrTrue => {},
        BddPtr::PtrFalse => {},
        BddPtr::Compl(i) => {
            lemma_all_below_num_vars(nodes, order, BddPtr::Reg(i));
        },
        BddPtr::Reg(i) => {
            let n = nodes[i as int];
            assert(node_wf(nodes, order, i as int));
            lemma_all_below_num_vars(nodes, order, n.low);
            lemma_all_below_num_vars(nodes, order, n.high);
        },
    }
}

/// `all_below` is untouched by growing the store.
pub proof fn lemma_all_below_ext(
    pre: Seq<BddNode>,
    post: Seq<BddNode>,
    order: VarOrder,
    p: BddPtr,
    total: int,
)
    requires
        seq_ext(pre, post),
        ptr_wf(pre, p),
    ensures
        all_below(post, order, p, total) == all_below(pre, order, p, total),
    decreases rank(p),
{
    match p {
        BddPtr::PtrTrue => {},
        BddPtr::PtrFalse => {},
        BddPtr::Compl(i) => {
            lemma_all_below_ext(pre, post, order, BddPtr::Reg(i), total);
        },
        BddPtr::Reg(i) => {
            let n = pre[i as int];
            if rank(n.low) < rank(p) {
                lemma_all_below_ext(pre, post, order, n.low, total);
            }
            if rank(n.high) < rank(p) {
                lemma_all_below_ext(pre, post, order, n.high, total);
            }
        },
    }
}

/// A smoothed diagram between levels `lvl` and `total`: every root-to-leaf
/// path branches on the variable of every level in turn.
pub open spec fn smoothed(
    nodes: Seq<BddNode>,
    order: VarOrder,
    p: BddPtr,
    lvl: int,
    total: int,
) -> bool
    decreases total - lvl, rank(p),
{
    if lvl >= total {
        p is PtrTrue || p is PtrFalse
    } else {
        match p {
            BddPtr::Compl(i) => smoothed(nodes, order, BddPtr::Reg(i), lvl, total),
            BddPtr::Reg(i) => if i < nodes.len() {
                let n = nodes[i as int];
                &&& order.spec_pos(n.var.0) == lvl
                &&& smoothed(nodes, order, n.low, lvl + 1, total)
                &&& smoothed(nodes, order, n.high, lvl + 1, total)
            } else {
                false
            },
            _ => false,
        }
    }
}

/// Smoothness ignores the parity of an edge.
pub proof fn lemma_smoothed_neg(
    nodes: Seq<BddNode>,
    order: VarOrder,
    p: BddPtr,
    lvl: int,
    total: int,
)
    ensures
        smoothed(nodes, order, pneg(p), lvl, total) == smoothed(nodes, order, p, lvl, total),
{
}

/// Smoothness survives growing the store.
pub proof fn lemma_smoothed_ext(
    pre: Seq<BddNode>,
    post: Seq<BddNode>,
    order: VarOrder,
    p: BddPtr,
    lvl: int,
    total: int,
)
    requires
        seq_ext(pre, post),
        ptr_wf(pre, p),
        smoothed(pre, order, p, lvl, total),
    ensures
        smoothed(post, order, p, lvl, total),
    decreases total - lvl, rank(p),
{
    if lvl >= total {
    } else {
        match p {
            BddPtr::Compl(i) => {
                lemma_smoothed_ext(pre, post, order, BddPtr::Reg(i), lvl, total);
            },
            BddPtr::Reg(i) => {
                let n = pre[i as int];
                assert(smoothed(pre, order, n.low, lvl + 1, total));
                assert(smoothed(pre, order, n.high, lvl + 1, total));
                assert(ptr_wf(pre, n.low)) by {
                    if lvl + 1 < total {
                        match n.low {
                            BddPtr::Compl(j) => {
                                assert(smoothed(pre, order, BddPtr::Reg(j), lvl + 1, total));
                            },
                            _ => {},
                        }
                    }
                }
                assert(ptr_wf(pre, n.high)) by {
                    if lvl + 1 < total {
                        match n.high {
                            BddPtr::Compl(j) => {
                                assert(smoothed(pre, order, BddPtr::Reg(j), lvl + 1, total));
                            },
                            _ => {},
                        }
                    }
                }
                lemma_smoothed_ext(pre, post, order, n.low, lvl + 1, total);
                lemma_smoothed_ext(pre, post, order, n.high, lvl + 1, total);
            },
            _ => {},
        }
    }
}

/// A smoothed pointer below the last level is a node at exactly its level;
/// at the last level it is a constant.
pub proof fn lemma_smoothed_pos(
    nodes: Seq<BddNode>,
    order: VarOrder,
    p: BddPtr,
    lvl: int,
    total: int,
)
    requires
        smoothed(nodes, order, p, lvl, total),
        total <= order.spec_num_vars(),
    ensures
        lvl < total ==> (p is Reg || p is Compl) && ptr_pos(nodes, order, p) == lvl,
        lvl >= total ==> ptr_pos(nodes, order, p) == order.spec_num_vars(),
{
    if lvl < total {
        match p {
            BddPtr::Compl(i) => {
                assert(smoothed(nodes, order, BddPtr::Reg(i), lvl, total));
            },
            _ => {},
        }
    }
}

/// Whether the variable `v` labels some node reachable from `p`.
pub open spec fn spec_has_variable(nodes: Seq<BddNode>, p: BddPtr, v: u64) -> bool
    decreases rank(p),
{
    match p {
        BddPtr::PtrTrue => false,
        BddPtr::PtrFalse => false,
        BddPtr::Compl(i) => spec_has_variable(nodes, BddPtr::Reg(i), v),
        BddPtr::Reg(i) => if i < nodes.len() {
            let n = nodes[i as int];
            ||| n.var.0 == v
            ||| (if rank(n.low) < rank(p) {
                spec_has_variable(nodes, n.low, v)
            } else {
                false
            })
            ||| (if rank(n.high) < rank(p) {
                spec_has_variable(nodes, n.high, v)
            } else {
                false
            })
        } else {
            false
        },
    }
}

/// Every variable reachable from `p` sits at or below `p`'s own level, so a
/// search may stop as soon as the order passes the sought variable.
pub proof fn lemma_has_variable_below(nodes: Seq<BddNode>, order: VarOrder, p: BddPtr, v: u64)
    requires
        store_wf(nodes, order),
        ptr_wf(nodes, p),
        order.registered(v),
        ptr_pos(nodes, order, p) > order.spec_pos(v),
    ensures
        !spec_has_variable(nodes, p, v),
    decreases rank(p),
{
    match p {
        BddPtr::PtrTrue => {},
        BddPtr::PtrFalse => {},
        BddPtr::Compl(i) => {
            lemma_has_variable_below(nodes, order, BddPtr::Reg(i), v);
        },
        BddPtr::Reg(i) => {
            let n = nodes[i as int];
            assert(node_wf(nodes, order, i as int));
            assert(n.var.0 != v) by {
                if n.var.0 == v {
                    assert(order.spec_pos(n.var.0) == order.spec_pos(v));
                }
            }
            lemma_has_variable_below(nodes, order, n.low, v);
            lemma_has_variable_below(nodes, order, n.high, v);
        },
    }
}

/// A pointer's level does not change when the store grows.
pub proof fn lemma_ptr_pos_ext(pre: Seq<BddNode>, post: Seq<BddNode>, order: VarOrder, p: BddPtr)
    requires
        seq_ext(pre, post),
        ptr_wf(pre, p),
    ensures
        ptr_pos(post, order, p) == ptr_pos(pre, order, p),
{
    match p {
        BddPtr::Reg(i) => {
            assert(post[i as int] == pre[i as int]);
        },
        BddPtr::Compl(i) => {
            assert(post[i as int] == pre[i as int]);
        },
        _ => {},
    }
}

/// Appending a fresh, well-formed, unduplicated node keeps the store
/// invariant.
pub proof fn lemma_store_wf_push(nodes: Seq<BddNode>, order: VarOrder, n: BddNode)
    requires
        store_wf(nodes, order),
        ptr_wf(nodes, n.low),
        ptr_wf(nodes, n.high),
        order.registered(n.var.0),
        ptr_pos(nodes, order, n.low) > order.spec_pos(n.var.0),
        ptr_pos(nodes, order, n.high) > order.spec_pos(n.var.0),
        !(n.high is Compl),
        n.high != BddPtr::PtrFalse,
        forall|i: int| 0 <= i < nodes.len() ==> nodes[i] != n,
    ensures
        store_wf(nodes.push(n), order),
{
    let post = nodes.push(n);
    let m = nodes.len() as int;
    assert forall|i: int| 0 <= i < post.len() implies #[trigger] node_wf(post, order, i) by {
        if i < m {
            assert(node_wf(nodes, order, i));
            assert(post[i] == nodes[i]);
            match nodes[i].low {
                BddPtr::Reg(j) => {
                    assert(post[j as int] == nodes[j as int]);
                },
                BddPtr::Compl(j) => {
                    assert(post[j as int] == nodes[j as int]);
                },
                _ => {},
            }
            match nodes[i].high {
                BddPtr::Reg(j) => {
                    assert(post[j as int] == nodes[j as int]);
                },
                BddPtr::Compl(j) => {
                    assert(post[j as int] == nodes[j as int]);
                },
                _ => {},
            }
        } else {
            assert(post[i] == n);
            match n.low {
                BddPtr::Reg(j) => {
                    assert(post[j as int] == nodes[j as int]);
                },
                BddPtr::Compl(j) => {
                    assert(post[j as int] == nodes[j as int]);
                },
                _ => {},
            }
            match n.high {
                BddPtr::Reg(j) => {
                    assert(post[j as int] == nodes[j as int]);
                },
                BddPtr::Compl(j) => {
                    assert(post[j as int] == nodes[j as int]);
                },
                _ => {},
            }
        }
    }
}

/// A function does not depend on a variable that sits above its root in the
/// order: every node below branches on a deeper variable.
pub proof fn lemma_indep(
    nodes: Seq<BddNode>,
    order: VarOrder,
    p: BddPtr,
    v: u64,
    env: Set<u64>,
)
    requires
        store_wf(nodes, order),
        ptr_wf(nodes, p),
        order.registered(v),
        ptr_pos(nodes, order, p) > order.spec_pos(v),
    ensures
        eval(nodes, p, env.insert(v)) == eval(nodes, p, env),
        eval(nodes, p, env.remove(v)) == eval(nodes, p, env),
    decreases rank(p),
{
    match p {
        BddPtr::PtrTrue => {},
        BddPtr::PtrFalse => {},
        BddPtr::Compl(i) => {
            lemma_indep(nodes, order, BddPtr::Reg(i), v, env);
        },
        BddPtr::Reg(i) => {
            let n = nodes[i as int];
            assert(node_wf(nodes, order, i as int));
            assert(n.var.0 != v) by {
                if n.var.0 == v {
                    assert(order.spec_pos(n.var.0) == order.spec_pos(v));
                }
            }
            assert(env.insert(v).contains(n.var.0) == env.contains(n.var.0));
            assert(env.remove(v).contains(n.var.0) == env.contains(n.var.0));
            assert(order.spec_pos(v) < order.spec_num_vars()) by {
                assert(order.wf());
            }
            lemma_indep(nodes, order, n.low, v, env);
            lemma_indep(nodes, order, n.high, v, env);
        },
    }
}

} // verus!
