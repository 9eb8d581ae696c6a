use vstd::prelude::*;

use crate::var_label::{Literal, VarLabel};

verus! {

/// A formula in conjunctive normal form: a conjunction of clauses, each a
/// disjunction of literals over variables `0..num_vars`.
pub struct Cnf {
    pub clauses: Vec<Vec<Literal>>,
    pub num_vars: usize,
}

/// A clause holds when one of its literals matches the environment.
pub open spec fn clause_sem(clause: Seq<Literal>, env: Set<u64>) -> bool {
    exists|k: int|
        0 <= k < clause.len() && (#[trigger] clause[k]).polarity == env.contains(
            clause[k].label.0,
        )
}

impl Cnf {
    /// All literals speak of variables below `num_vars`.
    pub open spec fn wf(self) -> bool {
        forall|c: int, k: int|
            0 <= c < self.clauses@.len() && 0 <= k < self.clauses@[c]@.len()
                ==> (#[trigger] self.clauses@[c]@[k]).label.0 < self.num_vars
    }

    pub open spec fn spec_sem(self, env: Set<u64>) -> bool {
        cnf_sem_vecs(self.clauses@, env)
    }

    /// Wrap a clause list, sizing the variable range to the largest label.
    pub fn new(clauses: Vec<Vec<Literal>>) -> (r: Cnf)
        requires
            forall|c: int, k: int|
                0 <= c < clauses@.len() && 0 <= k < clauses@[c]@.len()
                    ==> (#[trigger] clauses@[c]@[k]).label.0 < usize::MAX,
        ensures
            r.wf(),
            r.clauses@ == clauses@,
    {
        let mut num_vars: usize = 0;
        let mut c: usize = 0;
        while c < clauses.len()
            invariant
                c <= clauses@.len(),
                forall|ci: int, k: int|
                    0 <= ci < clauses@.len() && 0 <= k < clauses@[ci]@.len()
                        ==> (#[trigger] clauses@[ci]@[k]).label.0 < usize::MAX,
                forall|ci: int, k: int|
                    0 <= ci < c && 0 <= k < clauses@[ci]@.len()
                        ==> (#[trigger] clauses@[ci]@[k]).label.0 < num_vars,
            decreases clauses@.len() - c,
        {
            let clause = &clauses[c];
            let mut k: usize = 0;
            while k < clause.len()
                invariant
                    k <= clause@.len(),
                    clause@ == clauses@[c as int]@,
                    c < clauses@.len(),
                    forall|ci: int, kk: int|
                        0 <= ci < clauses@.len() && 0 <= kk < clauses@[ci]@.len()
                            ==> (#[trigger] clauses@[ci]@[kk]).label.0 < usize::MAX,
                    forall|ci: int, kk: int|
                        0 <= ci < c && 0 <= kk < clauses@[ci]@.len()
                            ==> (#[trigger] clauses@[ci]@[kk]).label.0 < num_vars,
                    forall|kk: int|
                        0 <= kk < k ==> (#[trigger] clause@[kk]).label.0 < num_vars,
                decreases clause@.len() - k,
            {
                let lbl = clause[k].get_label().0;
                if lbl >= num_vars as u64 {
                    num_vars = (lbl as usize) + 1;
                }
                k += 1;
            }
            c += 1;
        }
        Cnf { clauses, num_vars }
    }

    pub fn num_vars(&self) -> (r: usize)
        ensures
            r == self.num_vars,
    {
        self.num_vars
    }

    /// Parse the DIMACS format: a `p cnf <vars> <clauses>` header, comment
    /// lines starting with `c`, and clauses of signed 1-based literals each
    /// ended by `0`.  Malformed pieces are skipped; the variable range
    /// covers both the header and every literal seen.
    pub fn from_dimacs(input: &str) -> (r: Cnf)
        ensures
            r.wf(),
    {
        let bytes = input.as_bytes();
        let n = bytes.len();
        let mut clauses: Vec<Vec<Literal>> = Vec::new();
        let mut current: Vec<Literal> = Vec::new();
        let mut header_vars: u64 = 0;
        let mut i: usize = 0;
        while i < n
            invariant
                i <= n,
                n == bytes@.len(),
                forall|c: int, k: int|
                    0 <= c < clauses@.len() && 0 <= k < clauses@[c]@.len()
                        ==> (#[trigger] clauses@[c]@[k]).label.0 < 0x8000_0000u64,
                forall|k: int|
                    0 <= k < current@.len() ==> (#[trigger] current@[k]).label.0 < 0x8000_0000u64,
            decreases n - i,
        {
            let b = bytes[i];
            if b == 99u8 || b == 112u8 {
                // 'c' comment or 'p' header: for the header, read the first
                // number (the variable count) before skipping the line
                if b == 112u8 {
                    let mut j = i + 1;
                    // skip until a digit or end of line
                    while j < n && bytes[j] != 10u8 && !(48u8 <= bytes[j] && bytes[j] <= 57u8)
                        invariant
                            i < j <= n,
                            n == bytes@.len(),
                        decreases n - j,
                    {
                        j += 1;
                    }
                    let mut val: u64 = 0;
                    while j < n && 48u8 <= bytes[j] && bytes[j] <= 57u8
                        invariant
                            j <= n,
                            n == bytes@.len(),
                        decreases n - j,
                    {
                        if val <= 0x7FF_FFFFu64 {
                            val = val * 10 + ((bytes[j] - 48u8) as u64);
                        }
                        j += 1;
                    }
                    header_vars = val;
                }
                // skip past this character to the end of the line
                let ghost i0 = i;
                i += 1;
                while i < n && bytes[i] != 10u8
                    invariant
                        i0 < i <= n,
                        n == bytes@.len(),
                    decreases n - i,
                {
                    i += 1;
                }
            } else if b == 45u8 || (48u8 <= b && b <= 57u8) {
                let negated = b == 45u8;
                let mut j = if negated {
                    i + 1
                } else {
                    i
                };
                let mut val: u64 = 0;
                while j < n && 48u8 <= bytes[j] && bytes[j] <= 57u8
                    invariant
                        i <= j <= n,
                        n == bytes@.len(),
                        val < 0x8000_0000u64,
                    decreases n - j,
                {
                    if val <= 0x7FF_FFFFu64 {
                        val = val * 10 + ((bytes[j] - 48u8) as u64);
                    }
                    j += 1;
                }
                if val == 0 {
                    // end of clause
                    clauses.push(current);
                    current = Vec::new();
                } else {
                    current.push(Literal::new(VarLabel::new(val - 1), !negated));
                }
                i = if j > i {
                    j
                } else {
                    i + 1
                };
            } else {
                i += 1;
            }
        }
        if current.len() > 0 {
            clauses.push(current);
        }
        let mut cnf = Cnf::new(clauses);
        if header_vars > cnf.num_vars as u64 && header_vars <= usize::MAX as u64 {
            cnf.num_vars = header_vars as usize;
        }
        cnf
    }

    /// Parse the compact clause syntax `(a || -b) && (c || d)`: clauses are
    /// separated by `&&`, literals are signed 0-based variable numbers.
    pub fn from_string(input: &str) -> (r: Cnf)
        ensures
            r.wf(),
    {
        let bytes = input.as_bytes();
        let n = bytes.len();
        let mut clauses: Vec<Vec<Literal>> = Vec::new();
        let mut current: Vec<Literal> = Vec::new();
        let mut i: usize = 0;
        while i < n
            invariant
                i <= n,
                n == bytes@.len(),
                forall|c: int, k: int|
                    0 <= c < clauses@.len() && 0 <= k < clauses@[c]@.len()
                        ==> (#[trigger] clauses@[c]@[k]).label.0 < 0x8000_0000u64,
                forall|k: int|
                    0 <= k < current@.len() ==> (#[trigger] current@[k]).label.0 < 0x8000_0000u64,
            decreases n - i,
        {
            let b = bytes[i];
            if b == 38u8 {
                // '&': a new clause starts
                if current.len() > 0 {
                    clauses.push(current);
                    current = Vec::new();
                }
                i += 1;
            } else if b == 45u8 || (48u8 <= b && b <= 57u8) {
                let negated = b == 45u8;
                let mut j = if negated {
                    i + 1
                } else {
                    i
                };
                let mut val: u64 = 0;
                let mut saw_digit = false;
                while j < n && 48u8 <= bytes[j] && bytes[j] <= 57u8
                    invariant
                        i <= j <= n,
                        n == bytes@.len(),
                        val < 0x8000_0000u64,
                    decreases n - j,
                {
                    if val <= 0x7FF_FFFFu64 {
                        val = val * 10 + ((bytes[j] - 48u8) as u64);
                    }
                    saw_digit = true;
                    j += 1;
                }
                if saw_digit {
                    current.push(Literal::new(VarLabel::new(val), !negated));
                }
                i = if j > i {
                    j
                } else {
                    i + 1
                };
            } else {
                i += 1;
            }
        }
        if current.len() > 0 {
            clauses.push(current);
        }
        Cnf::new(clauses)
    }
}

/// A CNF holds when every clause does.
pub open spec fn cnf_sem_vecs(clauses: Seq<Vec<Literal>>, env: Set<u64>) -> bool {
    forall|c: int| 0 <= c < clauses.len() ==> clause_sem((#[trigger] clauses[c])@, env)
}


/// Extending a clause prefix by one literal adds exactly that literal's
/// satisfaction as a new way to satisfy the clause.
pub proof fn lemma_clause_sem_push(clause: Seq<Literal>, k: int, env: Set<u64>)
    requires
        0 <= k < clause.len(),
    ensures
        clause_sem(clause.take(k + 1), env) == (clause_sem(clause.take(k), env) || (
        clause[k].polarity == env.contains(clause[k].label.0))),
{
    let t1 = clause.take(k + 1);
    let t0 = clause.take(k);
    if clause_sem(t0, env) {
        let j = choose|j: int|
            0 <= j < t0.len() && (#[trigger] t0[j]).polarity == env.contains(t0[j].label.0);
        assert(t1[j] == t0[j]);
        assert(clause_sem(t1, env));
    }
    if clause[k].polarity == env.contains(clause[k].label.0) {
        assert(t1[k] == clause[k]);
        assert(clause_sem(t1, env));
    }
    if clause_sem(t1, env) {
        let j = choose|j: int|
            0 <= j < t1.len() && (#[trigger] t1[j]).polarity == env.contains(t1[j].label.0);
        if j < k {
            assert(t0[j] == t1[j]);
            assert(clause_sem(t0, env));
        } else {
            assert(t1[j] == clause[k]);
        }
    }
}

/// Extending a CNF prefix by one clause conjoins exactly that clause.
pub proof fn lemma_cnf_sem_push(clauses: Seq<Vec<Literal>>, c: int, env: Set<u64>)
    requires
        0 <= c < clauses.len(),
    ensures
        cnf_sem_vecs(clauses.take(c + 1), env) == (cnf_sem_vecs(clauses.take(c), env)
            && clause_sem(clauses[c]@, env)),
{
    let t1 = clauses.take(c + 1);
    let t0 = clauses.take(c);
    if cnf_sem_vecs(t0, env) && clause_sem(clauses[c]@, env) {
        assert forall|ci: int| 0 <= ci < t1.len() implies clause_sem((#[trigger] t1[ci])@, env) by {
            if ci < c {
                assert(t1[ci] == t0[ci]);
                assert(clause_sem(t0[ci]@, env));
            } else {
                assert(t1[ci] == clauses[c]);
            }
        }
    }
    if cnf_sem_vecs(t1, env) {
        assert forall|ci: int| 0 <= ci < t0.len() implies clause_sem((#[trigger] t0[ci])@, env) by {
            assert(t0[ci] == t1[ci]);
            assert(clause_sem(t1[ci]@, env));
        }
        assert(t1[c] == clauses[c]);
        assert(clause_sem(t1[c]@, env));
    }
}

} // verus!
