use rsdd::{BddPtr, Cnf, FiniteField, RobddBuilder, Semiring, VarLabel, WmcParams};

// check that (a \/ b) /\ a === a
#[test]
fn simple_equality() {
    let mut builder = RobddBuilder::new_with_linear_order(3);
    let v1 = builder.var(VarLabel::new(0), true);
    let v2 = builder.var(VarLabel::new(1), true);
    let r1 = builder.or(v1, v2);
    let r2 = builder.and(r1, v1);
    assert!(
        builder.eq(v1, r2),
        "Not eq:\n {}\n{}",
        builder.to_string_debug(v1),
        builder.to_string_debug(r2)
    );
}

#[test]
fn simple_ite1() {
    let mut builder = RobddBuilder::new_with_linear_order(3);
    let v1 = builder.var(VarLabel::new(0), true);
    let v2 = builder.var(VarLabel::new(1), true);
    let r1 = builder.or(v1, v2);
    let r2 = builder.ite(r1, v1, BddPtr::false_ptr());
    assert!(
        builder.eq(v1, r2),
        "Not eq:\n {}\n{}",
        builder.to_string_debug(v1),
        builder.to_string_debug(r2)
    );
}

#[test]
fn test_newvar() {
    let mut builder = RobddBuilder::new_with_linear_order(0);
    let l1 = builder.new_label();
    let l2 = builder.new_label();
    let v1 = builder.var(l1, true);
    let v2 = builder.var(l2, true);
    let r1 = builder.or(v1, v2);
    let r2 = builder.and(r1, v1);
    assert!(
        builder.eq(v1, r2),
        "Not eq:\n {}\n{}",
        builder.to_string_debug(v1),
        builder.to_string_debug(r2)
    );
}

#[test]
fn test_condition() {
    let mut builder = RobddBuilder::new_with_linear_order(3);
    let v1 = builder.var(VarLabel::new(0), true);
    let v2 = builder.var(VarLabel::new(1), true);
    let r1 = builder.or(v1, v2);
    let r3 = builder.condition(r1, VarLabel::new(1), false);
    assert!(builder.eq(r3, v1));
}

#[test]
fn test_condition_compl() {
    let mut builder = RobddBuilder::new_with_linear_order(3);
    let v1 = builder.var(VarLabel::new(0), false);
    let v2 = builder.var(VarLabel::new(1), false);
    let r1 = builder.and(v1, v2);
    let r3 = builder.condition(r1, VarLabel::new(1), false);
    assert!(
        builder.eq(r3, v1),
        "Not eq:\nOne: {}\nTwo: {}",
        builder.to_string_debug(r3),
        builder.to_string_debug(v1)
    );
}

#[test]
fn test_exist() {
    let mut builder = RobddBuilder::new_with_linear_order(3);
    // 1 /\ 2 /\ 3
    let v1 = builder.var(VarLabel::new(0), true);
    let v2 = builder.var(VarLabel::new(1), true);
    let v3 = builder.var(VarLabel::new(2), true);
    let a1 = builder.and(v1, v2);
    let r1 = builder.and(a1, v3);
    let r_expected = builder.and(v1, v3);
    let res = builder.exists_var(r1, VarLabel::new(1));
    assert!(
        builder.eq(r_expected, res),
        "Got:\nOne: {}\nExpected: {}",
        builder.to_string_debug(res),
        builder.to_string_debug(r_expected)
    );
}

#[test]
fn test_exist_compl() {
    let mut builder = RobddBuilder::new_with_linear_order(3);
    // 1 /\ 2 /\ 3
    let v1 = builder.var(VarLabel::new(0), false);
    let v2 = builder.var(VarLabel::new(1), false);
    let v3 = builder.var(VarLabel::new(2), false);
    let a1 = builder.and(v1, v2);
    let r1 = builder.and(a1, v3);
    let r_expected = builder.and(v1, v3);
    let res = builder.exists_var(r1, VarLabel::new(1));
    assert!(
        builder.eq(r_expected, res),
        "Got:\n: {}\nExpected: {}",
        builder.to_string_debug(res),
        builder.to_string_debug(r_expected)
    );
}

#[test]
fn test_compose() {
    let mut builder = RobddBuilder::new_with_linear_order(3);
    let v0 = builder.var(VarLabel::new(0), true);
    let v1 = builder.var(VarLabel::new(1), true);
    let v2 = builder.var(VarLabel::new(2), true);
    let v0_and_v1 = builder.and(v0, v1);
    let v0_and_v2 = builder.and(v0, v2);
    let res = builder.compose(v0_and_v1, VarLabel::new(1), v2);
    assert!(
        builder.eq(res, v0_and_v2),
        "\nGot: {}\nExpected: {}",
        builder.to_string_debug(res),
        builder.to_string_debug(v0_and_v2)
    );
}

#[test]
fn test_compose_2() {
    let mut builder = RobddBuilder::new_with_linear_order(4);
    let v0 = builder.var(VarLabel::new(0), true);
    let v1 = builder.var(VarLabel::new(1), true);
    let v2 = builder.var(VarLabel::new(2), true);
    let v3 = builder.var(VarLabel::new(3), true);
    let v0_and_v1 = builder.and(v0, v1);
    let v2_and_v3 = builder.and(v2, v3);
    let v0v2v3 = builder.and(v0, v2_and_v3);
    let res = builder.compose(v0_and_v1, VarLabel::new(1), v2_and_v3);
    assert!(
        builder.eq(res, v0v2v3),
        "\nGot: {}\nExpected: {}",
        builder.to_string_debug(res),
        builder.to_string_debug(v0v2v3)
    );
}

#[test]
fn test_compose_3() {
    let mut builder = RobddBuilder::new_with_linear_order(4);
    let v0 = builder.var(VarLabel::new(0), true);
    let v1 = builder.var(VarLabel::new(1), true);
    let v2 = builder.var(VarLabel::new(2), true);
    let f = builder.ite(v0, BddPtr::false_ptr(), v1);
    let res = builder.compose(f, VarLabel::new(1), v2);
    let expected = builder.ite(v0, BddPtr::false_ptr(), v2);
    assert!(
        builder.eq(res, expected),
        "\nGot: {}\nExpected: {}",
        builder.to_string_debug(res),
        builder.to_string_debug(expected)
    );
}

#[test]
fn test_compose_4() {
    let mut builder = RobddBuilder::new_with_linear_order(20);
    let v0 = builder.var(VarLabel::new(4), true);
    let v1 = builder.var(VarLabel::new(5), true);
    let v2 = builder.var(VarLabel::new(6), true);
    let f = builder.ite(v1, BddPtr::false_ptr(), v2);
    let res = builder.compose(f, VarLabel::new(6), v0);
    let expected = builder.ite(v1, BddPtr::false_ptr(), v0);
    assert!(
        builder.eq(res, expected),
        "\nGot: {}\nExpected: {}",
        builder.to_string_debug(res),
        builder.to_string_debug(expected)
    );
}

#[test]
fn test_new_label() {
    let mut builder = RobddBuilder::new_with_linear_order(0);
    let vlbl1 = builder.new_label();
    let vlbl2 = builder.new_label();
    let v1 = builder.var(vlbl1, false);
    let v2 = builder.var(vlbl2, false);
    let r1 = builder.and(v1, v2);
    let r3 = builder.condition(r1, VarLabel::new(1), false);
    assert!(
        builder.eq(r3, v1),
        "Not eq:\nOne: {}\nTwo: {}",
        builder.to_string_debug(r3),
        builder.to_string_debug(v1)
    );
}

#[test]
fn circuit1() {
    let mut builder = RobddBuilder::new_with_linear_order(3);
    let x = builder.var(VarLabel::new(0), false);
    let y = builder.var(VarLabel::new(1), true);
    let delta = builder.and(x, y);
    let yp = builder.var(VarLabel::new(2), true);
    let inner = builder.iff(yp, y);
    let conj = builder.and(inner, delta);
    let res = builder.exists_var(conj, VarLabel::new(1));

    let expected = builder.and(x, yp);
    assert!(
        builder.eq(res, expected),
        "Not eq:\nGot: {}\nExpected: {}",
        builder.to_string_debug(res),
        builder.to_string_debug(expected)
    );
}

#[test]
fn simple_cond() {
    let mut builder = RobddBuilder::new_with_linear_order(3);
    let x = builder.var(VarLabel::new(0), true);
    let y = builder.var(VarLabel::new(1), false);
    let z = builder.var(VarLabel::new(2), false);
    let r1 = builder.and(x, y);
    let r2 = builder.and(r1, z);
    // now r2 is x /\ !y /\ !z

    let res = builder.condition(r2, VarLabel::new(1), true); // condition on y=T
    let expected = BddPtr::false_ptr();
    assert!(
        builder.eq(res, expected),
        "\nOriginal BDD: {}\nNot eq:\nGot: {}\nExpected: {}",
        builder.to_string_debug(r2),
        builder.to_string_debug(res),
        builder.to_string_debug(expected)
    );
}

#[test]
fn test_ite_1() {
    let mut builder = RobddBuilder::new_with_linear_order(16);
    let c1 = Cnf::from_string("(1 || 2) && (0 || -2)");
    let c2 = Cnf::from_string("(0 || 1) && (-4 || -7)");
    let cnf1 = builder.compile_cnf(&c1);
    let cnf2 = builder.compile_cnf(&c2);
    let iff1 = builder.iff(cnf1, cnf2);

    let clause1 = builder.and(cnf1, cnf2);
    let clause2 = builder.and(cnf1.neg(), cnf2.neg());
    let and = builder.or(clause1, clause2);

    if and != iff1 {
        println!("cnf1: {}", "(1 || 2) && (0 || -2)");
        println!("cnf2: {}", "(0 || 1) && (-4 || -7)");
        println!(
            "not equal:\nBdd1: {}\nBdd2: {}",
            builder.to_string_debug(and),
            builder.to_string_debug(iff1)
        );
    }
    assert_eq!(and, iff1);
}

#[test]
fn smoothed_model_count_with_finite_field_simple() {
    static CNF: &str = "
        p cnf 3 1
        1 2 3 0
        ";
    let cnf = Cnf::from_dimacs(CNF);

    let mut builder = RobddBuilder::new_with_linear_order(cnf.num_vars());

    let bdd = builder.compile_cnf(&cnf);

    let smoothed = builder.smooth(bdd, cnf.num_vars());

    let weights = WmcParams::<FiniteField<1000001>>::new_with_default(
        FiniteField::zero(),
        FiniteField::one(),
        vec![
            (VarLabel::new(0), (FiniteField::new(1), FiniteField::new(1))),
            (VarLabel::new(1), (FiniteField::new(1), FiniteField::new(1))),
            (VarLabel::new(2), (FiniteField::new(1), FiniteField::new(1))),
        ],
    );

    let unsmoothed_model_count = builder.unsmoothed_wmc(bdd, &weights);

    let smoothed_model_count = builder.unsmoothed_wmc(smoothed, &weights);

    assert_eq!(unsmoothed_model_count.value(), 3);
    assert_eq!(smoothed_model_count.value(), 7);
}

#[test]
fn wmc_test_with_finite_field_complex() {
    static CNF: &str = "
        p cnf 6 3
        c weights 0.05 0.10 0.15 0.20 0.25 0.30 0.35 0.40 0.45 0.50 0.55 0.60
        1 2 3 4 0
        -2 -3 4 5 0
        -4 -5 6 6 0
        ";
    let cnf = Cnf::from_dimacs(CNF);

    let mut builder = RobddBuilder::new_with_linear_order(cnf.num_vars());

    let bdd = builder.compile_cnf(&cnf);

    let smoothed = builder.smooth(bdd, cnf.num_vars());

    let model_count = builder.unsmoothed_wmc(
        smoothed,
        &WmcParams::<FiniteField<1000001>>::new_with_default(
            FiniteField::zero(),
            FiniteField::one(),
            vec![
                (VarLabel::new(0), (FiniteField::new(1), FiniteField::new(1))),
                (VarLabel::new(1), (FiniteField::new(1), FiniteField::new(1))),
                (VarLabel::new(2), (FiniteField::new(1), FiniteField::new(1))),
                (VarLabel::new(3), (FiniteField::new(1), FiniteField::new(1))),
                (VarLabel::new(4), (FiniteField::new(1), FiniteField::new(1))),
                (VarLabel::new(5), (FiniteField::new(1), FiniteField::new(1))),
            ],
        ),
    );

    assert_eq!(model_count.value(), 48);
}
