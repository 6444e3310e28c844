//! The operators of the core: delay, negation, sum, trace and exchange.

pub mod communication;
pub mod neg;
pub mod sum;
pub mod trace;
pub mod z1;

pub use neg::UnaryMinus;
pub use sum::Sum;
pub use trace::TraceAppend;
pub use trace::UntimedTraceAppend;
pub use trace::Z1Trace;
pub use z1::Z1Nested;
pub use z1::Z1;
