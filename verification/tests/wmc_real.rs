use rsdd::{Cnf, RobddBuilder, Semiring, VarLabel, WmcParams};

/// Real-valued weights for weighted model counting over `f64`.
#[derive(Clone, Copy, Debug, PartialEq)]
struct RealSemiring(pub f64);

impl Semiring for RealSemiring {
    fn zero() -> Self {
        RealSemiring(0.0)
    }

    fn one() -> Self {
        RealSemiring(1.0)
    }

    fn add(self, o: Self) -> Self {
        RealSemiring(self.0 + o.0)
    }

    fn mul(self, o: Self) -> Self {
        RealSemiring(self.0 * o.0)
    }
}

#[test]
fn test_wmc() {
    let mut builder = RobddBuilder::new_with_linear_order(2);
    let v1 = builder.var(VarLabel::new(0), true);
    let v2 = builder.var(VarLabel::new(1), true);
    let r1 = builder.or(v1, v2);
    let params = WmcParams::new_with_default(
        RealSemiring(0.0),
        RealSemiring(1.0),
        vec![
            (VarLabel::new(0), (RealSemiring(0.2), RealSemiring(0.8))),
            (VarLabel::new(1), (RealSemiring(0.1), RealSemiring(0.9))),
        ],
    );
    let wmc = builder.unsmoothed_wmc(r1, &params);
    assert!((wmc.0 - (1.0 - 0.2 * 0.1)).abs() < 0.000001);
}

#[test]
fn wmc_test_2() {
    let mut builder = RobddBuilder::new_with_linear_order(4);
    let x = builder.var(VarLabel::new(0), true);
    let y = builder.var(VarLabel::new(1), true);
    let f1 = builder.var(VarLabel::new(2), true);
    let f2 = builder.var(VarLabel::new(3), true);

    let wmc = WmcParams::new_with_default(
        RealSemiring(0.0),
        RealSemiring(1.0),
        vec![
            (VarLabel::new(0), (RealSemiring(1.0), RealSemiring(1.0))),
            (VarLabel::new(1), (RealSemiring(1.0), RealSemiring(1.0))),
            (VarLabel::new(2), (RealSemiring(0.8), RealSemiring(0.2))),
            (VarLabel::new(3), (RealSemiring(0.7), RealSemiring(0.3))),
        ],
    );
    let iff1 = builder.iff(x, f1);
    let iff2 = builder.iff(y, f2);
    let obs = builder.or(x, y);
    let and1 = builder.and(iff1, iff2);
    let f = builder.and(and1, obs);
    assert_eq!(
        builder.unsmoothed_wmc(f, &wmc).0,
        0.2 * 0.3 + 0.2 * 0.7 + 0.8 * 0.3
    );
}

#[test]
fn smoothed_weighted_model_count_with_finite_field_simple() {
    // weighted model counting on a two-variable CNF with real weights
    static CNF: &str = "
        p cnf 2 2
        c weights 0.4 0.6 0.3 0.7
        -1 2 0
        1 -2 0
        ";
    let cnf = Cnf::from_dimacs(CNF);

    let mut builder = RobddBuilder::new_with_linear_order(cnf.num_vars());

    let bdd = builder.compile_cnf(&cnf);

    let smoothed = builder.smooth(bdd, cnf.num_vars());

    let weighted_model_count = builder.unsmoothed_wmc(
        smoothed,
        &WmcParams::<RealSemiring>::new_with_default(
            RealSemiring(0.0),
            RealSemiring(1.0),
            vec![
                (VarLabel::new(0), (RealSemiring(0.4), RealSemiring(0.6))),
                (VarLabel::new(1), (RealSemiring(0.3), RealSemiring(0.7))),
            ],
        ),
    );

    assert_eq!(weighted_model_count.0, 0.54);
}
