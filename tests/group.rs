use semaphore_bindings::group::{Group, GroupError, NodeHash};
use semaphore_bindings::identity::Identity;
use std::collections::hash_map::DefaultHasher;
use std::hash::{Hash, Hasher};

struct TestHash;

impl NodeHash for TestHash {
    fn node_hash(input: &[u8]) -> [u8; 32] {
        let mut out = [0u8; 32];
        for k in 0..4u8 {
            let mut h = DefaultHasher::new();
            k.hash(&mut h);
            input.hash(&mut h);
            let start = 8 * k as usize;
            out[start..start + 8].copy_from_slice(&h.finish().to_le_bytes());
        }
        out
    }
}

fn element(b: u8) -> Vec<u8> {
    let mut e = vec![0u8; 32];
    e[0] = b;
    e
}

fn group_of(bs: &[u8]) -> Group<TestHash> {
    Group::new(bs.iter().map(|&b| element(b)).collect()).unwrap()
}

#[test]
fn test_group() {
    let identity = Identity::from_parts(b"secret".to_vec(), "17".to_string(), "1234".to_string()).unwrap();
    let identity2 = Identity::from_parts(b"secret2".to_vec(), "18".to_string(), "5678".to_string()).unwrap();
    let group: Group<TestHash> = Group::new(vec![identity.to_element(), identity2.to_element()]).unwrap();
    println!("{:?}", group.root());
    assert!(group.root().is_some());
    assert_eq!(group.depth(), 1);
    assert_eq!(group.members(), vec![identity.to_element(), identity2.to_element()]);
}

#[test]
fn empty_group_has_no_root() {
    let group: Group<TestHash> = Group::new(vec![]).unwrap();
    assert_eq!(group.root(), None);
    assert_eq!(group.depth(), 0);
    assert!(group.members().is_empty());
}

#[test]
fn single_leaf_root_is_the_leaf() {
    let group = group_of(&[7]);
    assert_eq!(group.root(), Some(element(7)));
    assert_eq!(group.depth(), 0);
}

#[test]
fn two_leaves_root_is_their_hash() {
    let group = group_of(&[1, 2]);
    let mut input = element(1);
    input.extend(element(2));
    assert_eq!(group.root(), Some(TestHash::node_hash(&input).to_vec()));
}

#[test]
fn lone_node_is_carried_up_unhashed() {
    let group = group_of(&[1, 2, 3]);
    let mut left = element(1);
    left.extend(element(2));
    let mut top = TestHash::node_hash(&left).to_vec();
    top.extend(element(3));
    assert_eq!(group.root(), Some(TestHash::node_hash(&top).to_vec()));
}

#[test]
fn new_rejects_the_empty_element() {
    let r: Result<Group<TestHash>, GroupError> = Group::new(vec![element(1), vec![0u8; 32]]);
    assert_eq!(r.err(), Some(GroupError::EmptyLeaf));
}

#[test]
fn new_rejects_a_short_member() {
    let r: Result<Group<TestHash>, GroupError> = Group::new(vec![vec![0u8; 32], vec![1u8; 31]]);
    assert_eq!(r.err(), Some(GroupError::InvalidMemberLength));
}

#[test]
fn add_member_then_index_of() {
    let mut group = group_of(&[1, 2]);
    let before = group.root();
    assert_eq!(group.add_member(element(9)), Ok(()));
    assert_eq!(group.index_of(element(9)), Some(2));
    assert_ne!(group.root(), before);
    assert_eq!(group.members().len(), 3);
}

#[test]
fn index_of_gives_first_match_or_none() {
    let group = group_of(&[4, 5, 4]);
    assert_eq!(group.index_of(element(4)), Some(0));
    assert_eq!(group.index_of(element(5)), Some(1));
    assert_eq!(group.index_of(element(6)), None);
}

#[test]
fn add_member_errors_leave_group_unchanged() {
    let mut group = group_of(&[1, 2]);
    let root = group.root();
    assert_eq!(group.add_member(vec![0u8; 32]), Err(GroupError::EmptyLeaf));
    assert_eq!(group.add_member(vec![1u8; 33]), Err(GroupError::InvalidMemberLength));
    assert_eq!(group.root(), root);
    assert_eq!(group.members(), vec![element(1), element(2)]);
}

#[test]
fn remove_twice_fails_the_second_time() {
    let mut group = group_of(&[1, 2, 3]);
    let root = group.root();
    assert_eq!(group.remove_member(1), Ok(()));
    let removed_root = group.root();
    assert_ne!(removed_root, root);
    assert_eq!(group.members()[1], vec![0u8; 32]);
    assert_eq!(group.members().len(), 3);
    assert_eq!(group.remove_member(1), Err(GroupError::EmptyLeaf));
    assert_eq!(group.root(), removed_root);
}

#[test]
fn remove_out_of_range_fails() {
    let mut group = group_of(&[1]);
    assert_eq!(group.remove_member(1), Err(GroupError::EmptyLeaf));
    assert_eq!(group.members(), vec![element(1)]);
}

#[test]
fn update_member_overwrites_in_place() {
    let mut group = group_of(&[1, 2, 3]);
    assert_eq!(group.update_member(2, element(8)), Ok(()));
    assert_eq!(group.members(), vec![element(1), element(2), element(8)]);
    assert_eq!(group.root(), group_of(&[1, 2, 8]).root());
}

#[test]
fn update_member_errors() {
    let mut group = group_of(&[1, 2]);
    assert_eq!(group.update_member(5, element(8)), Err(GroupError::EmptyLeaf));
    assert_eq!(group.update_member(0, vec![8u8; 3]), Err(GroupError::InvalidMemberLength));
    group.remove_member(0).unwrap();
    assert_eq!(group.update_member(0, element(8)), Err(GroupError::EmptyLeaf));
    assert_eq!(group.members(), vec![vec![0u8; 32], element(2)]);
}

#[test]
fn batch_matches_one_at_a_time() {
    let mut batch = group_of(&[1, 2, 3]);
    let mut each = group_of(&[1, 2, 3]);
    batch.add_members(vec![element(4), element(5), element(6)]).unwrap();
    for b in [4u8, 5, 6] {
        each.add_member(element(b)).unwrap();
    }
    assert_eq!(batch.root(), each.root());
    assert_eq!(batch.depth(), each.depth());
    assert_eq!(batch.members(), each.members());
    assert_eq!(batch.root(), group_of(&[1, 2, 3, 4, 5, 6]).root());
}

#[test]
fn empty_batch_changes_nothing() {
    let mut group = group_of(&[1, 2, 3]);
    let root = group.root();
    assert_eq!(group.add_members(vec![]), Ok(()));
    assert_eq!(group.root(), root);
    assert_eq!(group.members().len(), 3);
}

#[test]
fn batch_errors_leave_group_unchanged() {
    let mut group = group_of(&[1]);
    assert_eq!(group.add_members(vec![element(2), vec![0u8; 32]]), Err(GroupError::EmptyLeaf));
    assert_eq!(group.add_members(vec![vec![0u8; 32], vec![2u8; 5]]), Err(GroupError::InvalidMemberLength));
    assert_eq!(group.members(), vec![element(1)]);
}

#[test]
fn same_members_give_same_root_and_depth() {
    let a = group_of(&[3, 1, 4, 1, 5]);
    let b = group_of(&[3, 1, 4, 1, 5]);
    assert_eq!(a.root(), b.root());
    assert_eq!(a.depth(), b.depth());
}

#[test]
fn depth_is_least_power_of_two_cover() {
    let mut group: Group<TestHash> = Group::new(vec![]).unwrap();
    let expected = [0u32, 1, 2, 2, 3, 3, 3, 3, 4];
    for (k, &d) in expected.iter().enumerate() {
        group.add_member(element(k as u8 + 1)).unwrap();
        assert_eq!(group.depth(), d);
    }
    let batch = group_of(&[1, 2, 3, 4, 5, 6, 7, 8, 9]);
    assert_eq!(batch.depth(), 4);
}
