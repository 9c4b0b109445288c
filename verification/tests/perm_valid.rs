use grafpe::irs::{Irs, IrsCtx};
use grafpe::perm::error::PermutationError;
use grafpe::perm::valid::{is_pair_valid, is_valid, new, permute};
use grafpe::prng::{CipherKind, Prng};

fn get_irs() -> Irs {
    let key = hex::decode("01230123012301230123012301230123").unwrap();
    let iv = hex::decode("00001111222233330000111122223333").unwrap();

    Irs::new(Prng::from_cipher(CipherKind::Ctr, &key, &iv))
}

#[test]
fn test_new() {
    let mut irs = get_irs();
    assert!(new(0, &mut irs).is_err());
    assert!(new(1, &mut irs).is_err());
    assert!(new(2, &mut irs).is_err());
    assert_eq!(new(3, &mut irs).unwrap(), vec![1, 2, 0]);
    assert_eq!(new(4, &mut irs).unwrap(), vec![3, 0, 1, 2]);
    assert_eq!(new(5, &mut irs).unwrap(), vec![1, 3, 0, 4, 2]);
}

#[test]
fn test_valid() {
    assert!(!is_valid(&Vec::new()));
    assert!(!is_valid(&vec![0]));
}

#[test]
fn duplicate_values() {
    // is_valid doesn't check if the vector is a permutation
    assert!(is_valid(&vec![1, 2, 0, 1]));
    assert!(!is_valid(&vec![1, 1, 1, 1]));
}

#[test]
fn new_are_valid() {
    let mut irs = get_irs();
    for i in 10..20 {
        assert!(is_valid(&new(i, &mut irs).unwrap()));
    }
}

#[test]
fn new_size_too_small_error() {
    let mut irs = get_irs();
    assert_eq!(new(2, &mut irs), Err(PermutationError::SizeTooSmall));
}

#[test]
fn permute_budget_exhausts_on_singleton() {
    // A single element can never satisfy `p[p[i]] != i`, so the
    // validity retry runs its budget out and reports it.
    let mut irs = get_irs();
    let mut numbers: Vec<u64> = vec![0];
    let ctx = IrsCtx::new(&numbers);
    match permute(&mut numbers, &mut irs, ctx) {
        Err(e) => assert_eq!(e, PermutationError::RetriesExhausted),
        Ok(_) => panic!("a singleton must never become valid"),
    }
}

#[test]
fn pair_valid_small_perms() {
    let a = vec![7, 0, 6, 1, 5, 3, 4, 2];
    let b = vec![5, 6, 1, 4, 7, 2, 0, 3];
    assert!(is_valid(&a));
    assert!(is_valid(&b));
    assert!(is_pair_valid(&a, &b));
    assert!(is_pair_valid(&b, &a));
}
