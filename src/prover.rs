//! What comes before and after the proving backend: the check that the
//! prover is a member, and the members that the backend rebuilds the tree
//! from.
use crate::group::{arrays_view, Group, NodeHash};
use crate::identity::{decimal_value, le_value, Identity};
use vstd::prelude::*;

verus! {

/// Why a membership proof could not be made, exported, read or checked.
#[derive(Debug, Clone, Copy, PartialEq, Eq, Structural)]
pub enum ProofError {
    InvalidGroup,
    InvalidProof,
    InvalidProofExport,
    InvalidProofImport,
}

/// `e` is the 32-byte leaf of the commitment written `commitment` in decimal.
pub open spec fn is_element_of(e: Seq<u8>, commitment: Seq<char>) -> bool {
    e.len() == 32 && le_value(e) == decimal_value(commitment)
}

/// Some leaf of `leaves` is the element of `commitment`.
pub open spec fn holds_commitment(leaves: Seq<Seq<u8>>, commitment: Seq<char>) -> bool {
    exists|i: int| 0 <= i < leaves.len() && is_element_of(#[trigger] leaves[i], commitment)
}

/// Bytes of one length are equal when their values are.
proof fn lemma_le_value_injective(a: Seq<u8>, b: Seq<u8>)
    requires
        a.len() == b.len(),
        le_value(a) == le_value(b),
    ensures
        a == b,
    decreases a.len(),
{
    if a.len() > 0 {
        let x = le_value(a.drop_first());
        let y = le_value(b.drop_first());
        let a0 = a[0] as int;
        let b0 = b[0] as int;
        assert(a0 + 256 * x == b0 + 256 * y);
        assert(a0 == b0 && x == y) by (nonlinear_arith)
            requires
                a0 + 256 * x == b0 + 256 * y,
                0 <= a0 < 256,
                0 <= b0 < 256,
        ;
        lemma_le_value_injective(a.drop_first(), b.drop_first());
        assert(a =~= b) by {
            assert forall|i: int| 0 <= i < a.len() implies a[i] == b[i] by {
                if i > 0 {
                    assert(a[i] == a.drop_first()[i - 1]);
                    assert(b[i] == b.drop_first()[i - 1]);
                }
            };
        };
    } else {
        assert(a =~= b);
    }
}

/// The leaves that the proving backend rebuilds the group's tree from, once
/// the identity's commitment is found among them. A prover who is not a
/// member cannot make a proof: that is `InvalidProof`, before the backend
/// is asked.
pub fn proof_members<H: NodeHash>(identity: &Identity, group: &Group<H>) -> (r: Result<
    Vec<[u8; 32]>,
    ProofError,
>)
    ensures
        match r {
            Ok(ms) => holds_commitment(group@, identity.commitment_view()) && arrays_view(ms@)
                == group@,
            Err(e) => e == ProofError::InvalidProof && !holds_commitment(
                group@,
                identity.commitment_view(),
            ),
        },
{
    let element = identity.to_element();
    if !group.holds(&element) {
        proof {
            if holds_commitment(group@, identity.commitment_view()) {
                let i = choose|i: int|
                    0 <= i < group@.len() && is_element_of(
                        #[trigger] group@[i],
                        identity.commitment_view(),
                    );
                lemma_le_value_injective(group@[i], element@);
                assert(group@.contains(element@));
            }
        }
        return Err(ProofError::InvalidProof);
    }
    proof {
        let i = choose|i: int| 0 <= i < group@.len() && group@[i] == element@;
        assert(is_element_of(group@[i], identity.commitment_view()));
    }
    Ok(group.leaf_arrays())
}

} // verus!
