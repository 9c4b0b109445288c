use grafpe::irs::{Irs, IrsCtx};
use grafpe::prng::{CipherKind, Prng};

/// 6000 independent generator draws of a size-3 permutation: each of
/// the 3! orderings should appear with frequency consistent with the
/// uniform distribution.  The chi-square statistic over 5 degrees of
/// freedom stays below 20.5 except with probability about 0.001; a
/// comfortable 25.0 is used as the tolerance.
#[test]
fn generator_draws_are_close_to_uniform() {
    let key = hex::decode("01230123012301230123012301230123").unwrap();
    let iv = hex::decode("00001111222233330000111122223333").unwrap();
    let mut irs = Irs::new(Prng::from_cipher(CipherKind::Ctr, &key, &iv));

    let orders: [[u64; 3]; 6] = [
        [0, 1, 2],
        [0, 2, 1],
        [1, 0, 2],
        [1, 2, 0],
        [2, 0, 1],
        [2, 1, 0],
    ];
    let mut counts = [0u64; 6];

    let draws = 6000;
    for _ in 0..draws {
        let mut numbers: Vec<u64> = vec![0, 1, 2];
        let ctx = IrsCtx::new(&numbers);
        irs.permute(&mut numbers, ctx).unwrap();
        let idx = orders
            .iter()
            .position(|o| o[0] == numbers[0] && o[1] == numbers[1] && o[2] == numbers[2])
            .unwrap();
        counts[idx] += 1;
    }

    let expected = draws as f64 / 6.0;
    let chi2: f64 = counts
        .iter()
        .map(|&c| {
            let d = c as f64 - expected;
            d * d / expected
        })
        .sum();
    assert!(chi2 < 25.0, "chi-square statistic too large: {}", chi2);
}
