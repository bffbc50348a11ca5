//! Learns a linear temporal logic formula over finite traces (LTLf) that
//! separates positive from negative example traces, by reducing the synthesis
//! problem to propositional satisfiability for a bounded formula size.

pub mod bool_logic;
pub mod context;
pub mod transform;
pub mod enforcers;
pub mod sat;
pub mod ltl;
pub mod driver;
