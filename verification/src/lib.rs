pub mod bignum;
pub mod clock;
pub mod dec;
pub mod lattice;
pub mod linalg;
pub mod reduce;
pub mod solve;
pub mod driver;
