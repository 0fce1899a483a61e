use semaphore_bindings::group::{Group, NodeHash};
use semaphore_bindings::identity::Identity;
use semaphore_bindings::prover::{proof_members, ProofError};

struct XorHash;

impl NodeHash for XorHash {
    fn node_hash(input: &[u8]) -> [u8; 32] {
        let mut out = [0u8; 32];
        for (i, b) in input.iter().enumerate() {
            out[i % 32] ^= b.rotate_left((i / 32) as u32 + 1);
        }
        out
    }
}

fn identity(commitment: &str) -> Identity {
    Identity::from_parts(b"secret".to_vec(), "7".to_string(), commitment.to_string()).unwrap()
}

#[test]
fn member_gets_the_group_leaves() {
    let i1 = identity("1001");
    let i2 = identity("2002");
    let group: Group<XorHash> = Group::new(vec![i1.to_element(), i2.to_element()]).unwrap();
    let members = proof_members(&i1, &group).unwrap();
    let as_vecs: Vec<Vec<u8>> = members.iter().map(|m| m.to_vec()).collect();
    assert_eq!(as_vecs, group.members());
}

#[test]
fn non_member_cannot_prove() {
    let i1 = identity("1001");
    let outsider = identity("3003");
    let group: Group<XorHash> = Group::new(vec![i1.to_element()]).unwrap();
    assert_eq!(proof_members(&outsider, &group).err(), Some(ProofError::InvalidProof));
}

#[test]
fn removed_member_cannot_prove() {
    let i1 = identity("1001");
    let i2 = identity("2002");
    let mut group: Group<XorHash> = Group::new(vec![i1.to_element(), i2.to_element()]).unwrap();
    group.remove_member(0).unwrap();
    assert_eq!(proof_members(&i1, &group).err(), Some(ProofError::InvalidProof));
    assert!(proof_members(&i2, &group).is_ok());
}
