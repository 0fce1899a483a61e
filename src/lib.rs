//! Anonymous group membership: identities, the lean incremental Merkle tree
//! that holds their commitments, and the checks that come before a
//! membership proof is handed to a proving backend.
pub mod group;
pub mod identity;
pub mod prover;
