pub mod derivative;
pub mod fraction;
pub mod gcd;
pub mod integral;
pub mod inverse;
pub mod liate;
pub mod limits;
pub mod logarithm;
pub mod util;
