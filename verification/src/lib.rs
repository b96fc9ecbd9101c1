//! Zero-knowledge circuit gadgets over a rank-1 constraint system: a
//! field/integer bridge, a bit-decomposition range gadget, a less-than-constant
//! gadget and a Euclidean-division (modulo) gadget, with proofs of what
//! constraints each gadget emits and when the prover's witness satisfies them.

pub mod bigint;
pub mod bridge;
pub mod gadgets;
pub mod numeric;
pub mod r1cs;
pub mod scalars;
