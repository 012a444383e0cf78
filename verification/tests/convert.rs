use curl_troika_benchmark::convert::{
    ascii_to_tryte_table, from_tryte_string, string_from_trytes, trytes_from_trits,
};

#[test]
fn tryte_string_to_trits() {
    assert_eq!(vec![0i8, 0, 0, 1, 0, 0, -1, 0, 0, 1, 1, 1, -1, -1, -1], from_tryte_string("9AZMN"));
    assert!(from_tryte_string("").is_empty());
}

#[test]
fn trits_to_trytes() {
    assert_eq!(b"9AZMN".to_vec(), trytes_from_trits(&[0, 0, 0, 1, 0, 0, -1, 0, 0, 1, 1, 1, -1, -1, -1]));
    assert_eq!(b"B".to_vec(), trytes_from_trits(&[-1, 1, 0]));
}

#[test]
fn tryte_string_round_trip() {
    let s = "ABCDEFGHIJKLMNOPQRSTUVWXYZ9";
    assert_eq!(s, string_from_trytes(&trytes_from_trits(&from_tryte_string(s))));
}

#[test]
fn string_from_tryte_bytes() {
    assert_eq!("HELLO9", string_from_trytes(b"HELLO9"));
}

#[test]
fn trits_round_trip() {
    let trits: Vec<i8> = (0..81).map(|i| ((i * 7) % 3) as i8 - 1).collect();
    let trytes = trytes_from_trits(&trits);
    assert_eq!(27, trytes.len());
    assert_eq!(trits, from_tryte_string(&string_from_trytes(&trytes)));
}

#[test]
fn ascii_to_tryte_table_holds_the_alphabet() {
    let table = ascii_to_tryte_table();
    assert_eq!(27, table.len());
    assert_eq!(Some(&0usize), table.get(&b'9'));
    assert_eq!(Some(&1usize), table.get(&b'A'));
    assert_eq!(Some(&13usize), table.get(&b'M'));
    assert_eq!(Some(&26usize), table.get(&b'Z'));
    assert_eq!(None, table.get(&b'a'));
    assert_eq!(None, table.get(&b'0'));
}

#[test]
fn trits_through_string_and_back() {
    let trits: Vec<i8> = (0..300).map(|i| ((i * 5 + i / 7) % 3) as i8 - 1).collect();
    let s = string_from_trytes(&trytes_from_trits(&trits));
    assert_eq!(100, s.len());
    assert_eq!(trits, from_tryte_string(&s));
    assert_eq!(s.as_bytes().to_vec(), trytes_from_trits(&from_tryte_string(&s)));
}
