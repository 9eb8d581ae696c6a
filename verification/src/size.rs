use vstd::prelude::*;
use vstd::set_lib::{lemma_int_range, lemma_len_subset, set_int_range};

use crate::bdd_ptr::{BddNode, BddPtr};
use crate::builder::RobddBuilder;
use crate::semantics::{node_wf, ptr_wf, rank};

verus! {

/// The indices of the nodes reachable from a pointer.
pub open spec fn reach(nodes: Seq<BddNode>, p: BddPtr) -> Set<int>
    decreases rank(p),
{
    match p {
        BddPtr::PtrTrue => Set::empty(),
        BddPtr::PtrFalse => Set::empty(),
        BddPtr::Compl(i) => reach(nodes, BddPtr::Reg(i)),
        BddPtr::Reg(i) => if i < nodes.len() {
            let n = nodes[i as int];
            if rank(n.low) < rank(p) && rank(n.high) < rank(p) {
                reach(nodes, n.low).union(reach(nodes, n.high)).insert(i as int)
            } else {
                Set::empty().insert(i as int)
            }
        } else {
            Set::empty()
        },
    }
}

/// The indices a mark vector has marked.
pub open spec fn mark_set(marks: Seq<bool>) -> Set<int> {
    Set::new(|j: int| 0 <= j < marks.len() && marks[j])
}

/// Marks are closed under children: whatever is marked has its children
/// marked too, so everything below it has been visited.
pub open spec fn marks_closed(nodes: Seq<BddNode>, marks: Seq<bool>) -> bool {
    forall|i: int|
        0 <= i < marks.len() && #[trigger] marks[i] ==> {
            &&& (match nodes[i].low {
                BddPtr::Reg(j) => j < marks.len() && marks[j as int],
                BddPtr::Compl(j) => j < marks.len() && marks[j as int],
                _ => true,
            })
            &&& (match nodes[i].high {
                BddPtr::Reg(j) => j < marks.len() && marks[j as int],
                BddPtr::Compl(j) => j < marks.len() && marks[j as int],
                _ => true,
            })
        }
}

/// Marks bounded by the store are a subset of an integer range, hence
/// finite and no larger than the store.
proof fn lemma_mark_set_bound(marks: Seq<bool>)
    ensures
        mark_set(marks).finite(),
        mark_set(marks).len() <= marks.len(),
{
    let r = set_int_range(0, marks.len() as int);
    lemma_int_range(0, marks.len() as int);
    assert(mark_set(marks).subset_of(r));
    lemma_len_subset(mark_set(marks), r);
}

/// A marked node has everything it reaches marked, when marks are closed.
proof fn lemma_closed_reach(nodes: Seq<BddNode>, marks: Seq<bool>, p: BddPtr)
    requires
        marks.len() == nodes.len(),
        marks_closed(nodes, marks),
        ptr_wf(nodes, p),
        match p {
            BddPtr::Reg(i) => marks[i as int],
            BddPtr::Compl(i) => marks[i as int],
            _ => true,
        },
    ensures
        reach(nodes, p).subset_of(mark_set(marks)),
    decreases rank(p),
{
    match p {
        BddPtr::PtrTrue => {},
        BddPtr::PtrFalse => {},
        BddPtr::Compl(i) => {
            lemma_closed_reach(nodes, marks, BddPtr::Reg(i));
        },
        BddPtr::Reg(i) => {
            let n = nodes[i as int];
            if rank(n.low) < rank(p) && rank(n.high) < rank(p) {
                lemma_closed_reach(nodes, marks, n.low);
                lemma_closed_reach(nodes, marks, n.high);
            }
        },
    }
}

impl RobddBuilder {
    /// Depth-first marking; `count` tracks how many marks stand.
    fn count_rec(&self, p: BddPtr, marks: &mut Vec<bool>, count: &mut usize)
        requires
            self.inv(),
            ptr_wf(self.nodes@, p),
            old(marks)@.len() == self.nodes@.len(),
            marks_closed(self.nodes@, old(marks)@),
            *old(count) == mark_set(old(marks)@).len(),
        ensures
            final(marks)@.len() == old(marks)@.len(),
            marks_closed(self.nodes@, final(marks)@),
            mark_set(final(marks)@) == mark_set(old(marks)@).union(reach(self.nodes@, p)),
            *final(count) == mark_set(final(marks)@).len(),
        decreases rank(p),
    {
        match p {
            BddPtr::PtrTrue => {
                proof {
                    assert(mark_set(marks@) =~= mark_set(marks@).union(reach(self.nodes@, p)));
                }
            },
            BddPtr::PtrFalse => {
                proof {
                    assert(mark_set(marks@) =~= mark_set(marks@).union(reach(self.nodes@, p)));
                }
            },
            BddPtr::Compl(i) => {
                self.count_rec(BddPtr::Reg(i), marks, count);
            },
            BddPtr::Reg(i) => {
                proof {
                    assert(node_wf(self.nodes@, self.order, i as int));
                }
                if marks[i] {
                    proof {
                        lemma_closed_reach(self.nodes@, marks@, p);
                        assert(mark_set(marks@) =~= mark_set(marks@).union(
                            reach(self.nodes@, p),
                        ));
                    }
                    return ;
                }
                let n = self.nodes[i];
                proof {
                    assert(rank(n.low) < rank(p));
                    assert(rank(n.high) < rank(p));
                }
                let ghost m0 = marks@;
                self.count_rec(n.low, marks, count);
                let ghost m1 = marks@;
                self.count_rec(n.high, marks, count);
                let ghost m2 = marks@;
                let nn = marks.len();
                proof {
                    assert(nn == m2.len());
                    // the recursive passes cannot have marked this node:
                    // edges only point to smaller indices
                    lemma_reach_below(self.nodes@, n.low, i as int);
                    lemma_reach_below(self.nodes@, n.high, i as int);
                    assert(!mark_set(m2).contains(i as int));
                    // room for one more mark
                    let r = set_int_range(0, m2.len() as int);
                    lemma_int_range(0, m2.len() as int);
                    lemma_mark_set_bound(m2);
                    vstd::set::axiom_set_insert_len(mark_set(m2), i as int);
                    assert(mark_set(m2).insert(i as int).subset_of(r));
                    lemma_len_subset(mark_set(m2).insert(i as int), r);
                    assert(mark_set(m2).len() + 1 <= m2.len());
                }
                marks[i] = true;
                *count += 1;
                proof {
                    assert(mark_set(marks@) =~= mark_set(m2).insert(i as int));
                    assert(mark_set(marks@) =~= mark_set(m0).union(reach(self.nodes@, p)));
                    assert forall|k: int|
                        0 <= k < marks@.len() && #[trigger] marks@[k] implies {
                        &&& (match self.nodes@[k].low {
                            BddPtr::Reg(j) => j < marks@.len() && marks@[j as int],
                            BddPtr::Compl(j) => j < marks@.len() && marks@[j as int],
                            _ => true,
                        })
                        &&& (match self.nodes@[k].high {
                            BddPtr::Reg(j) => j < marks@.len() && marks@[j as int],
                            BddPtr::Compl(j) => j < marks@.len() && marks@[j as int],
                            _ => true,
                        })
                    } by {
                        assert(marks@ == m2.update(i as int, true));
                        assert(!m2[i as int]);
                        if k == i as int {
                            match n.low {
                                BddPtr::Reg(j) => {
                                    assert(j < i);
                                    assert(j < self.nodes@.len());
                                    assert(reach(self.nodes@, BddPtr::Reg(j)).contains(j as int));
                                    assert(mark_set(m1).contains(j as int));
                                    assert(mark_set(m2).contains(j as int));
                                    assert(m2[j as int] && j != i);
                                    assert(marks@[j as int]);
                                },
                                BddPtr::Compl(j) => {
                                    assert(j < i);
                                    assert(j < self.nodes@.len());
                                    assert(reach(self.nodes@, n.low) == reach(
                                        self.nodes@,
                                        BddPtr::Reg(j),
                                    ));
                                    assert(reach(self.nodes@, BddPtr::Reg(j)).contains(j as int));
                                    assert(mark_set(m1).contains(j as int));
                                    assert(mark_set(m2).contains(j as int));
                                    assert(m2[j as int] && j != i);
                                    assert(marks@[j as int]);
                                },
                                _ => {},
                            }
                            match n.high {
                                BddPtr::Reg(j) => {
                                    assert(j < i);
                                    assert(j < self.nodes@.len());
                                    assert(reach(self.nodes@, BddPtr::Reg(j)).contains(j as int));
                                    assert(mark_set(m2).contains(j as int));
                                    assert(m2[j as int] && j != i);
                                    assert(marks@[j as int]);
                                },
                                BddPtr::Compl(j) => {
                                    assert(j < i);
                                    assert(j < self.nodes@.len());
                                    assert(reach(self.nodes@, n.high) == reach(
                                        self.nodes@,
                                        BddPtr::Reg(j),
                                    ));
                                    assert(reach(self.nodes@, BddPtr::Reg(j)).contains(j as int));
                                    assert(mark_set(m2).contains(j as int));
                                    assert(m2[j as int] && j != i);
                                    assert(marks@[j as int]);
                                },
                                _ => {},
                            }
                        } else {
                            assert(m2[k]);
                            assert(marks_closed(self.nodes@, m2));
                            match self.nodes@[k].low {
                                BddPtr::Reg(j) => {
                                    assert(m2[j as int] && j != i);
                                    assert(marks@[j as int]);
                                },
                                BddPtr::Compl(j) => {
                                    assert(m2[j as int] && j != i);
                                    assert(marks@[j as int]);
                                },
                                _ => {},
                            }
                            match self.nodes@[k].high {
                                BddPtr::Reg(j) => {
                                    assert(m2[j as int] && j != i);
                                    assert(marks@[j as int]);
                                },
                                BddPtr::Compl(j) => {
                                    assert(m2[j as int] && j != i);
                                    assert(marks@[j as int]);
                                },
                                _ => {},
                            }
                        }
                    }
                }
            },
        }
    }

    /// The number of distinct nodes in the diagram rooted at `bdd`.
    pub fn count_nodes(&self, bdd: BddPtr) -> (r: usize)
        requires
            self.inv(),
            ptr_wf(self.nodes@, bdd),
        ensures
            r == reach(self.nodes@, bdd).len(),
    {
        let n = self.nodes.len();
        let mut marks: Vec<bool> = Vec::new();
        let mut i: usize = 0;
        while i < n
            invariant
                i <= n,
                marks@.len() == i,
                forall|k: int| 0 <= k < i ==> !(#[trigger] marks@[k]),
            decreases n - i,
        {
            marks.push(false);
            i += 1;
        }
        let mut count: usize = 0;
        proof {
            assert(mark_set(marks@) =~= Set::empty());
        }
        self.count_rec(bdd, &mut marks, &mut count);
        proof {
            assert(mark_set(marks@) =~= reach(self.nodes@, bdd));
        }
        count
    }
}

/// Nothing reachable from a child sits at or above the parent's index.
proof fn lemma_reach_below(nodes: Seq<BddNode>, p: BddPtr, bound: int)
    requires
        rank(p) <= 2 * bound,
    ensures
        forall|j: int| #[trigger] reach(nodes, p).contains(j) ==> j < bound,
    decreases rank(p),
{
    match p {
        BddPtr::PtrTrue => {
            assert(reach(nodes, p) =~= Set::empty());
        },
        BddPtr::PtrFalse => {
            assert(reach(nodes, p) =~= Set::empty());
        },
        BddPtr::Compl(i) => {
            lemma_reach_below(nodes, BddPtr::Reg(i), bound);
            assert(reach(nodes, p) == reach(nodes, BddPtr::Reg(i)));
        },
        BddPtr::Reg(i) => {
            assert(i < bound);
            if i < nodes.len() {
                let n = nodes[i as int];
                if rank(n.low) < rank(p) && rank(n.high) < rank(p) {
                    lemma_reach_below(nodes, n.low, bound);
                    lemma_reach_below(nodes, n.high, bound);
                    assert forall|j: int| #[trigger] reach(nodes, p).contains(j) implies j
                        < bound by {
                        if j != i {
                            assert(reach(nodes, n.low).contains(j) || reach(
                                nodes,
                                n.high,
                            ).contains(j));
                        }
                    }
                } else {
                    assert(reach(nodes, p) =~= Set::empty().insert(i as int));
                }
            } else {
                assert(reach(nodes, p) =~= Set::empty());
            }
        },
    }
}

} // verus!
