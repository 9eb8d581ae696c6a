use vstd::prelude::*;

use crate::var_label::VarLabel;

verus! {

/// A total order on variables: a bijection between the labels `0..n` and the
/// positions `0..n`.  Fresh variables may be appended or inserted at a
/// position; the relative order of the existing variables never changes.
pub struct VarOrder {
    /// position of each label; indexed by label value
    pub var_to_pos: Vec<usize>,
    /// label at each position; indexed by position
    pub pos_to_var: Vec<u64>,
}

impl VarOrder {
    /// The two maps are mutually inverse bijections on `0..n`.
    pub open spec fn wf(self) -> bool {
        &&& self.var_to_pos@.len() == self.pos_to_var@.len()
        &&& forall|v: int|
            0 <= v < self.var_to_pos@.len() ==> {
                &&& (#[trigger] self.var_to_pos@[v]) < self.pos_to_var@.len()
                &&& self.pos_to_var@[self.var_to_pos@[v] as int] as int == v
            }
        &&& forall|p: int|
            0 <= p < self.pos_to_var@.len() ==> {
                &&& (#[trigger] self.pos_to_var@[p]) < self.var_to_pos@.len() as u64
                &&& self.var_to_pos@[self.pos_to_var@[p] as int] as int == p
            }
    }

    pub open spec fn spec_num_vars(self) -> int {
        self.var_to_pos@.len() as int
    }

    /// Whether a label is known to this order.
    pub open spec fn registered(self, v: u64) -> bool {
        v < self.spec_num_vars()
    }

    /// The position of a registered label.
    pub open spec fn spec_pos(self, v: u64) -> int {
        self.var_to_pos@[v as int] as int
    }

    /// The label at a position.
    pub open spec fn spec_var_at(self, p: int) -> u64 {
        self.pos_to_var@[p]
    }

    pub open spec fn spec_lt(self, a: u64, b: u64) -> bool {
        self.spec_pos(a) < self.spec_pos(b)
    }

    /// Distinct registered labels sit at distinct positions.
    pub proof fn lemma_pos_injective(self, a: u64, b: u64)
        requires
            self.wf(),
            self.registered(a),
            self.registered(b),
            self.spec_pos(a) == self.spec_pos(b),
        ensures
            a == b,
    {
        assert(self.pos_to_var@[self.spec_pos(a)] == a);
        assert(self.pos_to_var@[self.spec_pos(b)] == b);
    }

    /// The identity order on `n` variables.
    pub fn linear_order(num_vars: usize) -> (r: VarOrder)
        ensures
            r.wf(),
            r.spec_num_vars() == num_vars,
            forall|v: u64| r.registered(v) ==> r.spec_pos(v) == v,
    {
        let mut var_to_pos: Vec<usize> = Vec::new();
        let mut pos_to_var: Vec<u64> = Vec::new();
        let mut i: usize = 0;
        while i < num_vars
            invariant
                i <= num_vars,
                var_to_pos@.len() == i,
                pos_to_var@.len() == i,
                forall|k: int| 0 <= k < i ==> #[trigger] var_to_pos@[k] == k,
                forall|k: int| 0 <= k < i ==> #[trigger] pos_to_var@[k] == k,
            decreases num_vars - i,
        {
            var_to_pos.push(i);
            pos_to_var.push(i as u64);
            i += 1;
        }
        VarOrder { var_to_pos, pos_to_var }
    }

    pub fn num_vars(&self) -> (r: usize)
        ensures
            r == self.spec_num_vars(),
    {
        self.var_to_pos.len()
    }

    /// The position of `v` in the order (its level).
    pub fn get(&self, v: VarLabel) -> (r: usize)
        requires
            self.wf(),
            self.registered(v.0),
        ensures
            r == self.spec_pos(v.0),
    {
        let n = self.var_to_pos.len();
        assert(v.0 < n);
        self.var_to_pos[v.0 as usize]
    }

    /// Strict order: does `a` come before `b`?
    pub fn lt(&self, a: VarLabel, b: VarLabel) -> (r: bool)
        requires
            self.wf(),
            self.registered(a.0),
            self.registered(b.0),
        ensures
            r == self.spec_lt(a.0, b.0),
    {
        let n = self.var_to_pos.len();
        assert(a.0 < n && b.0 < n);
        self.var_to_pos[a.0 as usize] < self.var_to_pos[b.0 as usize]
    }

    /// The label at position `p`.
    pub fn var_at_level(&self, p: usize) -> (r: VarLabel)
        requires
            self.wf(),
            p < self.spec_num_vars(),
        ensures
            self.registered(r.0),
            self.spec_pos(r.0) == p,
    {
        VarLabel(self.pos_to_var[p])
    }

    /// Append a fresh variable at the end of the order.
    pub fn new_last(&mut self) -> (r: VarLabel)
        requires
            old(self).wf(),
            old(self).spec_num_vars() < u64::MAX,
        ensures
            final(self).wf(),
            r.0 == old(self).spec_num_vars(),
            final(self).spec_num_vars() == old(self).spec_num_vars() + 1,
            final(self).spec_pos(r.0) == old(self).spec_num_vars(),
            forall|v: u64|
                old(self).registered(v) ==> #[trigger] final(self).spec_pos(v) == old(self).spec_pos(v),
    {
        let n = self.var_to_pos.len();
        self.var_to_pos.push(n);
        self.pos_to_var.push(n as u64);
        VarLabel(n as u64)
    }

    /// Insert a fresh variable at position `pos`; existing variables keep
    /// their relative order, those at or after `pos` shift one level down.
    pub fn insert_var_at_position(&mut self, pos: usize) -> (r: VarLabel)
        requires
            old(self).wf(),
            old(self).spec_num_vars() < u64::MAX,
            pos <= old(self).spec_num_vars(),
        ensures
            final(self).wf(),
            r.0 == old(self).spec_num_vars(),
            final(self).spec_num_vars() == old(self).spec_num_vars() + 1,
            final(self).spec_pos(r.0) == pos,
            forall|v: u64|
                old(self).registered(v) ==> #[trigger] final(self).spec_pos(v) == (if old(self).spec_pos(v) < pos {
                    old(self).spec_pos(v)
                } else {
                    old(self).spec_pos(v) + 1
                }),
            forall|a: u64, b: u64|
                old(self).registered(a) && old(self).registered(b) ==> (#[trigger] final(self).spec_lt(a, b) == old(self).spec_lt(a, b)),
    {
        let ghost pre = *self;
        let n = self.var_to_pos.len();
        self.pos_to_var.insert(pos, n as u64);
        let mut vtp: Vec<usize> = Vec::new();
        let mut v: usize = 0;
        while v < n
            invariant
                v <= n,
                n == pre.var_to_pos@.len(),
                pos <= n,
                pre.wf(),
                self.var_to_pos@ == pre.var_to_pos@,
                vtp@.len() == v,
                forall|k: int|
                    0 <= k < v ==> #[trigger] vtp@[k] == (if pre.var_to_pos@[k] < pos {
                        pre.var_to_pos@[k] as int
                    } else {
                        pre.var_to_pos@[k] + 1
                    }),
            decreases n - v,
        {
            let op = self.var_to_pos[v];
            vtp.push(if op < pos { op } else { op + 1 });
            v += 1;
        }
        vtp.push(pos);
        self.var_to_pos = vtp;
        proof {
            let post = *self;
            assert(post.pos_to_var@ == pre.pos_to_var@.insert(pos as int, n as u64));
            assert forall|q: int| 0 <= q < post.pos_to_var@.len() implies {
                &&& (#[trigger] post.pos_to_var@[q]) < post.var_to_pos@.len() as u64
                &&& post.var_to_pos@[post.pos_to_var@[q] as int] == q as usize
            } by {
                if q < pos {
                    assert(post.pos_to_var@[q] == pre.pos_to_var@[q]);
                    let w = pre.pos_to_var@[q] as int;
                    assert(pre.var_to_pos@[w] == q as usize);
                } else if q == pos {
                    assert(post.pos_to_var@[q] == n as u64);
                } else {
                    assert(post.pos_to_var@[q] == pre.pos_to_var@[q - 1]);
                    let w = pre.pos_to_var@[q - 1] as int;
                    assert(pre.var_to_pos@[w] == (q - 1) as usize);
                }
            }
            assert forall|w: int| 0 <= w < post.var_to_pos@.len() implies {
                &&& (#[trigger] post.var_to_pos@[w]) < post.pos_to_var@.len()
                &&& post.pos_to_var@[post.var_to_pos@[w] as int] == w as u64
            } by {
                if w < n {
                    let q = pre.var_to_pos@[w] as int;
                    assert(pre.pos_to_var@[q] == w as u64);
                    if q < pos {
                        assert(post.pos_to_var@[q] == pre.pos_to_var@[q]);
                    } else {
                        assert(post.pos_to_var@[q + 1] == pre.pos_to_var@[q]);
                    }
                } else {
                    assert(post.var_to_pos@[w] == pos);
                    assert(post.pos_to_var@[pos as int] == n as u64);
                }
            }
            assert forall|a: u64, b: u64|
                pre.registered(a) && pre.registered(b) implies (#[trigger] post.spec_lt(a, b)
                == pre.spec_lt(a, b)) by {
                assert(post.var_to_pos@[a as int] == (if pre.var_to_pos@[a as int] < pos {
                    pre.var_to_pos@[a as int] as int
                } else {
                    pre.var_to_pos@[a as int] + 1
                }));
            }
        }
        VarLabel(n as u64)
    }
}

} // verus!
