//! The CSS stream cipher — two linear-feedback shift registers combined by
//! carry-propagating addition — together with a two-stage known-plaintext
//! key-recovery attack against it, and an exhaustive baseline attack kept as
//! a correctness reference.

pub mod attack;
pub mod cipher;
pub mod lfsr;
