use core::str::FromStr;
use grafpe::crypt::Grafpe;
use grafpe::fpe::ccn::{luhn, Digit16Ccn};
use grafpe::graph::srw::UndirectedSrw;
use grafpe::graph::{ConstructionMethod, ValidGraph};
use grafpe::irs::Irs;
use grafpe::prng::{CipherKind, Prng};

#[test]
fn test_from_str_success() {
    let ccn = Digit16Ccn::from_str("0123456789876543");
    assert!(ccn.is_ok());
    let ccn = ccn.unwrap();
    assert_eq!(ccn, Digit16Ccn::new(123456789876543));
}

#[test]
fn test_to_str() {
    let num = "0123456789876543";
    assert_eq!(num, &Digit16Ccn::from_str(num).unwrap().to_string());
}

#[test]
fn test_from_str_rejects_bad_input() {
    assert!(Digit16Ccn::from_str("123456789876543").is_err());
    assert!(Digit16Ccn::from_str("0123456789876_43").is_err());
    assert!(Digit16Ccn::from_str("01234567898765432").is_err());
}

#[test]
fn luhn_known_values() {
    // 4539 1488 0343 6467 is a textbook Luhn-valid number.
    assert!(luhn(4539148803436467));
    assert!(!luhn(4539148803436468));
    assert!(luhn(0));
}

fn build_ccn_cipher() -> Grafpe<UndirectedSrw> {
    let key = hex::decode("01230123012301230123012301230123").unwrap();
    let iv = hex::decode("00001111222233330000111122223333").unwrap();

    let mut irs = Irs::new(Prng::from_cipher(CipherKind::Ctr, &key, &iv));
    let graph = ValidGraph::new(ConstructionMethod::Naive, 10000, 4, &mut irs).unwrap();

    Grafpe::new(UndirectedSrw::new(&graph), &key, 600)
}

#[test]
fn ccn_test_encrypt_decrypt() {
    let grafpe = build_ccn_cipher();

    let ccn = Digit16Ccn::from_str("1234567890123456").unwrap();
    assert_eq!(ccn, ccn.encrypt(&grafpe).decrypt(&grafpe));
}

#[test]
fn test_encrypt_decrypt_with_luhn() {
    let grafpe = build_ccn_cipher();

    for i in 0..1000 {
        let i = i as u64 + 10_u64.pow(15);
        if !luhn(i) {
            continue;
        }
        let encrypted = Digit16Ccn::new(i).encrypt_with_luhn(&grafpe).unwrap();
        assert_ne!(i, encrypted.ccn());
        assert_eq!(i, encrypted.decrypt_with_luhn(&grafpe).unwrap().ccn());
    }
}
