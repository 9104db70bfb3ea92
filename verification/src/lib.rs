//! Verified core of the Nockchain mining node and its zkVM jets: arithmetic in the
//! Goldilocks field, batch field operations, FFTs, polynomial multiplication, the
//! noun data model that jets read and write, the mining kernel pool and the mining
//! driver's decisions.
pub mod field;
pub mod roots;
pub mod cyclic;
pub mod sums;
pub mod par;
pub mod batch;
pub mod fft;
pub mod dft;
pub mod poly_mul;
pub mod conv;
pub mod noun;
pub mod jets;
pub mod driver;
pub mod kernel_pool;
pub mod mining;
pub mod jet_laws;
