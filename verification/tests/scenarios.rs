use rsdd::{
    BddPtr, Cnf, FiniteField, Literal, PartialModel, RobddBuilder, Semiring, VarLabel, VarSet,
    WmcParams,
};

// (v0 or v1) and v0 collapses to the atom v0
#[test]
fn scenario_absorption() {
    let mut builder = RobddBuilder::new_with_linear_order(3);
    let v0 = builder.var(VarLabel::new(0), true);
    let v1 = builder.var(VarLabel::new(1), true);
    let disj = builder.or(v0, v1);
    let conj = builder.and(disj, v0);
    assert!(builder.eq(conj, v0));
}

// conditioning the absorbed formula on v1 = false leaves the atom
#[test]
fn scenario_absorption_conditioned() {
    let mut builder = RobddBuilder::new_with_linear_order(3);
    let v0 = builder.var(VarLabel::new(0), true);
    let v1 = builder.var(VarLabel::new(1), true);
    let disj = builder.or(v0, v1);
    let conj = builder.and(disj, v0);
    let cond = builder.condition(conj, VarLabel::new(1), false);
    assert!(builder.eq(cond, v0));
}

// quantifying the middle variable out of a three-way conjunction
#[test]
fn scenario_exists_middle() {
    let mut builder = RobddBuilder::new_with_linear_order(3);
    let v0 = builder.var(VarLabel::new(0), true);
    let v1 = builder.var(VarLabel::new(1), true);
    let v2 = builder.var(VarLabel::new(2), true);
    let a = builder.and(v0, v1);
    let b = builder.and(a, v2);
    let expected = builder.and(v0, v2);
    let res = builder.exists_var(b, VarLabel::new(1));
    assert!(builder.eq(res, expected));
}

// a one-clause CNF counts 3 models unsmoothed and 7 after smoothing
#[test]
fn scenario_smooth_counts() {
    let cnf = Cnf::from_dimacs("p cnf 3 1\n1 2 3 0\n");
    assert_eq!(cnf.num_vars(), 3);
    let mut builder = RobddBuilder::new_with_linear_order(3);
    let bdd = builder.compile_cnf(&cnf);
    let smoothed = builder.smooth(bdd, 3);
    let weights = WmcParams::<FiniteField<1000001>>::new_with_default(
        FiniteField::zero(),
        FiniteField::one(),
        vec![
            (VarLabel::new(0), (FiniteField::new(1), FiniteField::new(1))),
            (VarLabel::new(1), (FiniteField::new(1), FiniteField::new(1))),
            (VarLabel::new(2), (FiniteField::new(1), FiniteField::new(1))),
        ],
    );
    assert_eq!(builder.unsmoothed_wmc(bdd, &weights).value(), 3);
    assert_eq!(builder.unsmoothed_wmc(smoothed, &weights).value(), 7);
}

// composing a conjunction into a variable
#[test]
fn scenario_compose_conjunction() {
    let mut builder = RobddBuilder::new_with_linear_order(4);
    let v0 = builder.var(VarLabel::new(0), true);
    let v1 = builder.var(VarLabel::new(1), true);
    let v2 = builder.var(VarLabel::new(2), true);
    let v3 = builder.var(VarLabel::new(3), true);
    let f = builder.and(v0, v1);
    let g = builder.and(v2, v3);
    let res = builder.compose(f, VarLabel::new(1), g);
    let inner = builder.and(v2, v3);
    let expected = builder.and(v0, inner);
    assert!(builder.eq(res, expected));
}

// double negation gives the very same tagged pointer
#[test]
fn law_double_negation() {
    let mut builder = RobddBuilder::new_with_linear_order(2);
    let v0 = builder.var(VarLabel::new(0), true);
    let v1 = builder.var(VarLabel::new(1), false);
    let f = builder.or(v0, v1);
    let once = builder.negate(f);
    let twice = builder.negate(once);
    assert!(builder.eq(twice, f));
    assert_eq!(v0.neg().neg(), v0);
}

// both operand orders of a conjunction and of a disjunction agree
#[test]
fn law_commutativity() {
    let mut builder = RobddBuilder::new_with_linear_order(3);
    let v0 = builder.var(VarLabel::new(0), true);
    let v1 = builder.var(VarLabel::new(1), false);
    let v2 = builder.var(VarLabel::new(2), true);
    let a = builder.or(v0, v2);
    let b = builder.and(v1, v2);
    let ab = builder.and(a, b);
    let ba = builder.and(b, a);
    assert!(builder.eq(ab, ba));
    let oab = builder.or(a, b);
    let oba = builder.or(b, a);
    assert!(builder.eq(oab, oba));
}

// conjunction and disjunction with oneself change nothing
#[test]
fn law_idempotence() {
    let mut builder = RobddBuilder::new_with_linear_order(3);
    let v0 = builder.var(VarLabel::new(0), true);
    let v1 = builder.var(VarLabel::new(1), true);
    let a = builder.iff(v0, v1);
    let aa = builder.and(a, a);
    let oa = builder.or(a, a);
    assert!(builder.eq(aa, a));
    assert!(builder.eq(oa, a));
}

// the negation of a conjunction is the disjunction of the negations
#[test]
fn law_de_morgan() {
    let mut builder = RobddBuilder::new_with_linear_order(3);
    let v0 = builder.var(VarLabel::new(0), true);
    let v1 = builder.var(VarLabel::new(1), true);
    let a = builder.or(v0, v1);
    let b = builder.var(VarLabel::new(2), false);
    let conj = builder.and(a, b);
    let not_conj = builder.negate(conj);
    let na = builder.negate(a);
    let nb = builder.negate(b);
    let disj = builder.or(na, nb);
    assert!(builder.eq(not_conj, disj));
}

// the three if-then-else identities on concrete diagrams
#[test]
fn law_ite_identities() {
    let mut builder = RobddBuilder::new_with_linear_order(3);
    let v0 = builder.var(VarLabel::new(0), true);
    let v1 = builder.var(VarLabel::new(1), true);
    let v2 = builder.var(VarLabel::new(2), false);
    let a = builder.xor(v0, v1);
    let r1 = builder.ite(a, BddPtr::true_ptr(), BddPtr::false_ptr());
    assert!(builder.eq(r1, a));
    let r2 = builder.ite(a, v2, v2);
    assert!(builder.eq(r2, v2));
    let r3 = builder.ite(a, v1, v2);
    let na = builder.negate(a);
    let r4 = builder.ite(na, v2, v1);
    assert!(builder.eq(r3, r4));
}

// Shannon expansion rebuilds the diagram exactly, for every variable
#[test]
fn law_shannon() {
    let mut builder = RobddBuilder::new_with_linear_order(3);
    let v0 = builder.var(VarLabel::new(0), true);
    let v1 = builder.var(VarLabel::new(1), true);
    let v2 = builder.var(VarLabel::new(2), true);
    let i1 = builder.and(v0, v1);
    let a = builder.or(i1, v2);
    for v in 0..3u64 {
        let atom = builder.var(VarLabel::new(v), true);
        let at = builder.condition(a, VarLabel::new(v), true);
        let af = builder.condition(a, VarLabel::new(v), false);
        let rebuilt = builder.ite(atom, at, af);
        assert!(builder.eq(rebuilt, a));
    }
}

// constants and atoms
#[test]
fn atoms_and_constants() {
    let mut builder = RobddBuilder::new_with_linear_order(2);
    let t = builder.true_ptr();
    let f = builder.false_ptr();
    assert!(t.is_true() && !t.is_false() && t.is_const());
    assert!(f.is_false() && f.is_const());
    assert_eq!(t.neg(), f);
    let v0 = builder.var(VarLabel::new(0), true);
    let n0 = builder.var(VarLabel::new(0), false);
    assert_eq!(v0.neg(), n0);
    assert!(!v0.is_const());
    assert!(n0.is_neg());
}

// an empty CNF compiles to the tautology; an empty clause to the contradiction
#[test]
fn compile_cnf_edges() {
    let mut builder = RobddBuilder::new_with_linear_order(2);
    let empty = Cnf::new(vec![]);
    let t = builder.compile_cnf(&empty);
    assert!(t.is_true());
    let contradiction = Cnf::new(vec![vec![]]);
    let f = builder.compile_cnf(&contradiction);
    assert!(f.is_false());
}

// conditioning on a variable the diagram never mentions changes nothing
#[test]
fn condition_absent_variable() {
    let mut builder = RobddBuilder::new_with_linear_order(3);
    let v0 = builder.var(VarLabel::new(0), true);
    let v2 = builder.var(VarLabel::new(2), true);
    let a = builder.and(v0, v2);
    let c = builder.condition(a, VarLabel::new(1), true);
    assert!(builder.eq(c, a));
}

// has_variable sees exactly the mentioned variables
#[test]
fn has_variable_exact() {
    let mut builder = RobddBuilder::new_with_linear_order(3);
    let v0 = builder.var(VarLabel::new(0), true);
    let v2 = builder.var(VarLabel::new(2), true);
    let a = builder.and(v0, v2);
    assert!(builder.has_variable(a, VarLabel::new(0)));
    assert!(!builder.has_variable(a, VarLabel::new(1)));
    assert!(builder.has_variable(a, VarLabel::new(2)));
    assert!(!builder.has_variable(v0, VarLabel::new(2)));
}

// conditioning on a partial model fixes each decided variable
#[test]
fn condition_model_two_vars() {
    let mut builder = RobddBuilder::new_with_linear_order(3);
    let v0 = builder.var(VarLabel::new(0), true);
    let v1 = builder.var(VarLabel::new(1), true);
    let v2 = builder.var(VarLabel::new(2), true);
    let i1 = builder.and(v0, v1);
    let a = builder.and(i1, v2);
    let m = PartialModel::new(vec![Some(true), None, Some(true)]);
    let r = builder.condition_model(a, &m);
    assert!(builder.eq(r, v1));
}

// inserting a fresh variable at a position keeps the old relative order
#[test]
fn new_var_positions() {
    let mut builder = RobddBuilder::new_with_linear_order(2);
    let (l2, _) = builder.new_var_at_position(1, true);
    assert_eq!(l2.value(), 2);
    let order = builder.order();
    assert_eq!(order.var_at_level(0).value(), 0);
    assert_eq!(order.var_at_level(1).value(), 2);
    assert_eq!(order.var_at_level(2).value(), 1);
    assert!(order.lt(VarLabel::new(0), VarLabel::new(2)));
    assert!(order.lt(VarLabel::new(2), VarLabel::new(1)));
    assert!(order.lt(VarLabel::new(0), VarLabel::new(1)));
}

// fresh positive and negative atoms behave like their polarity
#[test]
fn new_pos_and_neg() {
    let mut builder = RobddBuilder::new_with_linear_order(0);
    let (l0, p) = builder.new_pos();
    let (l1, n) = builder.new_neg();
    assert_eq!(l0.value(), 0);
    assert_eq!(l1.value(), 1);
    assert_eq!(builder.num_vars(), 2);
    assert!(!p.is_neg());
    assert!(n.is_neg());
    let conj = builder.and(p, n);
    let c1 = builder.condition(conj, l0, true);
    let c2 = builder.condition(c1, l1, false);
    assert!(c2.is_true());
}

// finite-field arithmetic is exact and modular
#[test]
fn finite_field_arithmetic() {
    let a = FiniteField::<7>::new(5);
    let b = FiniteField::<7>::new(4);
    assert_eq!(a.add(b).value(), 2);
    assert_eq!(a.mul(b).value(), 6);
    assert_eq!(FiniteField::<7>::zero().value(), 0);
    assert_eq!(FiniteField::<7>::one().value(), 1);
    assert_eq!(FiniteField::<7>::new(23).value(), 2);
}

// weight bookkeeping: set, read back, and multiply along an assignment
#[test]
fn wmc_params_weights() {
    let mut params = WmcParams::<FiniteField<97>>::new(FiniteField::zero(), FiniteField::one());
    params.set_weight(VarLabel::new(0), FiniteField::new(3), FiniteField::new(5));
    params.set_weight(VarLabel::new(2), FiniteField::new(7), FiniteField::new(11));
    let w0 = params.get_var_weight(VarLabel::new(0));
    assert_eq!(w0.0.value(), 3);
    assert_eq!(w0.1.value(), 5);
    let assignment = vec![
        Literal::new(VarLabel::new(0), true),
        Literal::new(VarLabel::new(2), false),
    ];
    // 5 * 7 = 35
    assert_eq!(params.get_weight(&assignment).value(), 35);
}

// the time budget machinery: no budget means never exceeded
#[test]
fn time_limit_poll() {
    let mut builder = RobddBuilder::new_with_linear_order(2);
    assert!(!builder.check_time_limit());
    builder.start_time_limit(std::time::Duration::from_secs(3600));
    let _ = builder.check_time_limit();
    builder.stop_time_limit();
    assert!(!builder.check_time_limit());
}

// work counters move as operations run
#[test]
fn recursive_call_stats() {
    let mut builder = RobddBuilder::new_with_linear_order(2);
    assert_eq!(builder.num_recursive_calls(), 0);
    let v0 = builder.var(VarLabel::new(0), true);
    let v1 = builder.var(VarLabel::new(1), true);
    let _ = builder.and(v0, v1);
    assert!(builder.num_recursive_calls() > 0);
    assert_eq!(builder.stats().num_recursive_calls, builder.num_recursive_calls());
}

// variable sets record exactly what was inserted
#[test]
fn var_set_membership() {
    let mut s = VarSet::new();
    assert!(!s.contains(VarLabel::new(0)));
    s.insert(VarLabel::new(3));
    assert!(s.contains(VarLabel::new(3)));
    assert!(!s.contains(VarLabel::new(1)));
}

// a partial model lists its decided literals
#[test]
fn partial_model_literals() {
    let lits = vec![
        Literal::new(VarLabel::new(1), false),
        Literal::new(VarLabel::new(3), true),
    ];
    let m = PartialModel::from_litvec(&lits, 5);
    let listed = m.assignment_iter();
    assert_eq!(listed.len(), 2);
    assert_eq!(listed[0].get_label().value(), 1);
    assert!(!listed[0].get_polarity());
    assert_eq!(listed[1].get_label().value(), 3);
    assert!(listed[1].get_polarity());
}

// the textual rendering distinguishes a diagram from its negation
#[test]
fn debug_rendering() {
    let mut builder = RobddBuilder::new_with_linear_order(2);
    let v0 = builder.var(VarLabel::new(0), true);
    let n0 = builder.var(VarLabel::new(0), false);
    let s_pos = builder.to_string_debug(v0);
    let s_neg = builder.to_string_debug(n0);
    assert!(s_pos.contains('0'));
    assert_ne!(s_pos, s_neg);
    assert_eq!(builder.to_string_debug(BddPtr::true_ptr()), "T");
    assert_eq!(builder.to_string_debug(BddPtr::false_ptr()), "F");
}

// xor agrees with its truth table through conditioning
#[test]
fn xor_truth_table() {
    let mut builder = RobddBuilder::new_with_linear_order(2);
    let v0 = builder.var(VarLabel::new(0), true);
    let v1 = builder.var(VarLabel::new(1), true);
    let x = builder.xor(v0, v1);
    for a in [false, true] {
        for b in [false, true] {
            let c1 = builder.condition(x, VarLabel::new(0), a);
            let c2 = builder.condition(c1, VarLabel::new(1), b);
            assert_eq!(c2.is_true(), a != b);
        }
    }
}

// the node count is the number of distinct branching nodes
#[test]
fn count_nodes_sizes() {
    let mut builder = RobddBuilder::new_with_linear_order(3);
    assert_eq!(builder.count_nodes(BddPtr::true_ptr()), 0);
    let v0 = builder.var(VarLabel::new(0), true);
    assert_eq!(builder.count_nodes(v0), 1);
    let v1 = builder.var(VarLabel::new(1), true);
    let conj = builder.and(v0, v1);
    assert_eq!(builder.count_nodes(conj), 2);
    // sharing: the negation reuses the same nodes
    let n = builder.negate(conj);
    assert_eq!(builder.count_nodes(n), 2);
}
