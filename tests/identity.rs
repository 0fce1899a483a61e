use semaphore_bindings::identity::Identity;

const TWO_POW_256: &str =
    "115792089237316195423570985008687907853269984665640564039457584007913129639936";
const TWO_POW_256_MINUS_ONE: &str =
    "115792089237316195423570985008687907853269984665640564039457584007913129639935";

#[test]
fn accessors_return_the_parts() {
    let id = Identity::from_parts(vec![1, 2, 3], "42".to_string(), "99".to_string()).unwrap();
    assert_eq!(id.private_key(), vec![1, 2, 3]);
    assert_eq!(id.secret_scalar(), "42");
    assert_eq!(id.commitment(), "99");
}

#[test]
fn to_element_is_little_endian_and_padded() {
    let id = Identity::from_parts(b"secret".to_vec(), "1".to_string(), "258".to_string()).unwrap();
    let mut expected = vec![0u8; 32];
    expected[0] = 2;
    expected[1] = 1;
    assert_eq!(id.to_element(), expected);
}

#[test]
fn to_element_of_zero_is_all_zero() {
    let id = Identity::from_parts(vec![], "0".to_string(), "0".to_string()).unwrap();
    assert_eq!(id.to_element(), vec![0u8; 32]);
}

#[test]
fn largest_commitment_fills_every_byte() {
    let id = Identity::from_parts(vec![], "5".to_string(), TWO_POW_256_MINUS_ONE.to_string()).unwrap();
    assert_eq!(id.to_element(), vec![0xffu8; 32]);
}

#[test]
fn commitment_past_one_element_is_refused() {
    assert!(Identity::from_parts(vec![], "5".to_string(), TWO_POW_256.to_string()).is_none());
}

#[test]
fn non_decimal_parts_are_refused() {
    assert!(Identity::from_parts(vec![], "5".to_string(), "-12".to_string()).is_none());
    assert!(Identity::from_parts(vec![], "5".to_string(), "".to_string()).is_none());
    assert!(Identity::from_parts(vec![], "0x5".to_string(), "12".to_string()).is_none());
    assert!(Identity::from_parts(vec![], "5".to_string(), "1_2".to_string()).is_none());
}

#[test]
fn test_identity() {
    let identity = Identity::from_parts(b"secret".to_vec(), "77".to_string(), "4660".to_string()).unwrap();
    println!("{}", identity.commitment());
    println!("{:?}", identity.private_key());
    println!("{}", identity.secret_scalar());
    println!("{:?}", identity.to_element());
    let mut expected = vec![0u8; 32];
    expected[0] = 0x34;
    expected[1] = 0x12;
    assert_eq!(identity.to_element(), expected);
}
