pub mod bdd_ptr;
pub mod builder;
pub mod canonicity;
pub mod cnf;
pub mod counting;
pub mod ddnnf;
pub mod laws;
pub mod semantics;
pub mod semiring;
pub mod size;
mod time_check;
pub mod var_label;
pub mod var_order;
pub mod wmc;

pub use bdd_ptr::{BddNode, BddPtr};
pub use builder::{BddBuilderStats, RobddBuilder};
pub use cnf::Cnf;
pub use ddnnf::{VarSet, DDNNF};
pub use semiring::{FiniteField, Semiring};
pub use var_label::{Literal, PartialModel, VarLabel};
pub use var_order::VarOrder;
pub use wmc::WmcParams;
