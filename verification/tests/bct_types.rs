use curl_troika_benchmark::bct_types::{Trit128, Trit64, Trits128, Trits64};

#[test]
fn default_trit64() {
    let trit = Trit64::default();

    assert_eq!(0, trit.lo);
    assert_eq!(0, trit.hi);
}

#[test]
fn default_trit128() {
    let trit = Trit128::default();

    assert_eq!(0, trit.lo);
    assert_eq!(0, trit.hi);
}

#[test]
fn default_trits64() {
    let trits = Trits64::default();

    assert_eq!(0, trits.lo.len());
    assert_eq!(0, trits.hi.len());
}

#[test]
fn default_trits128() {
    let trits = Trits128::default();

    assert_eq!(0, trits.lo.len());
    assert_eq!(0, trits.hi.len());
}

#[test]
fn trits_from_keeps_words() {
    let trits = Trits64::from(vec![1, 2], vec![3, 4]);
    assert_eq!(vec![1u64, 2], trits.lo);
    assert_eq!(vec![3u64, 4], trits.hi);

    let trits = Trits128::from(vec![5], vec![6]);
    assert_eq!(vec![5u128], trits.lo);
    assert_eq!(vec![6u128], trits.hi);
}
