//! Conversions between tryte strings, trytes and balanced trits.
use vstd::prelude::*;
use vstd::utf8::{valid_utf8, decode_utf8, encode_utf8, partial_valid_utf8, is_leading_byte_width_1};
use vstd::string::StringSliceAdditionalSpecFns;
use crate::curl_spec::{is_trit, all_trits};
use std::collections::HashMap;

verus! {

/// The tryte alphabet, by tryte value: '9' is 0, 'A' to 'Z' are 1 to 26.
pub const TRYTE_TO_ASCII: [u8; 27] = [
    57, 65, 66, 67, 68, 69, 70, 71, 72, 73, 74, 75, 76, 77, 78, 79, 80, 81, 82, 83, 84, 85, 86, 87,
    88, 89, 90,
];

/// The three balanced trits of each tryte value, least significant first.
pub const TRYTE_TO_TRIT_TRIPLET: [[i8; 3]; 27] = [
    [0, 0, 0],  // 9 => 0
    [1, 0, 0],  // A => 1
    [-1, 1, 0],  // B => 2
    [0, 1, 0],  // C => 3
    [1, 1, 0],  // D => 4
    [-1, -1, 1],  // E => 5
    [0, -1, 1],  // F => 6
    [1, -1, 1],  // G => 7
    [-1, 0, 1],  // H => 8
    [0, 0, 1],  // I => 9
    [1, 0, 1],  // J => 10
    [-1, 1, 1],  // K => 11
    [0, 1, 1],  // L => 12
    [1, 1, 1],  // M => 13
    [-1, -1, -1],  // N => -13
    [0, -1, -1],  // O => -12
    [1, -1, -1],  // P => -11
    [-1, 0, -1],  // Q => -10
    [0, 0, -1],  // R => -9
    [1, 0, -1],  // S => -8
    [-1, 1, -1],  // T => -7
    [0, 1, -1],  // U => -6
    [1, 1, -1],  // V => -5
    [-1, -1, 0],  // W => -4
    [0, -1, 0],  // X => -3
    [1, -1, 0],  // Y => -2
    [-1, 0, 0],  // Z => -1
];

/// A character of the tryte alphabet: '9' or 'A' to 'Z'.
pub open spec fn is_tryte(c: u8) -> bool {
    c == 57 || 65 <= c <= 90
}

/// The value of a tryte character, 0 to 26.
pub open spec fn tryte_value(c: u8) -> int {
    if c == 57 {
        0
    } else {
        c - 64
    }
}

/// The trits of a tryte string: three for each character.
pub open spec fn trits_of_trytes(bytes: Seq<u8>) -> Seq<i8> {
    Seq::new(3 * bytes.len(), |k: int| TRYTE_TO_TRIT_TRIPLET[tryte_value(bytes[k / 3])][k % 3])
}

/// The integer that three trits stand for, least significant first.
pub open spec fn triple_value(t0: i8, t1: i8, t2: i8) -> int {
    t0 + 3 * t1 + 9 * t2
}

/// The tryte value of three trits: their integer, taken modulo 27.
pub open spec fn tryte_index(t0: i8, t1: i8, t2: i8) -> int {
    let v = triple_value(t0, t1, t2);
    if v < 0 {
        v + 27
    } else {
        v
    }
}

/// Three trits can be turned into a tryte without an overflow of `i8` and
/// stand for an integer from -27 to 26.
pub open spec fn triple_ok(t0: i8, t1: i8, t2: i8) -> bool {
    &&& -128 <= 3 * t1 <= 127
    &&& -128 <= t0 + 3 * t1 <= 127
    &&& -128 <= 9 * t2 <= 127
    &&& -27 <= triple_value(t0, t1, t2) <= 26
}

/// Every group of three trits of `trits` can be turned into a tryte.
pub open spec fn trits_convertible(trits: Seq<i8>) -> bool {
    &&& trits.len() % 3 == 0
    &&& forall|i: int|
        0 <= i < trits.len() / 3 ==> #[trigger] triple_ok(trits[3 * i], trits[3 * i + 1], trits[3 * i + 2])
}

/// The tryte characters of a sequence of trits, one for each three.
pub open spec fn trytes_of_trits(trits: Seq<i8>) -> Seq<u8> {
    Seq::new(
        trits.len() / 3,
        |i: int| TRYTE_TO_ASCII[tryte_index(trits[3 * i], trits[3 * i + 1], trits[3 * i + 2])],
    )
}

/// What the table from tryte characters to tryte values holds: each
/// character of the tryte alphabet, mapped to its value.
pub open spec fn ascii_to_tryte_map() -> Map<u8, usize> {
    Map::new(|c: u8| is_tryte(c), |c: u8| tryte_value(c) as usize)
}

/// The table from tryte characters to tryte values: the tryte alphabet,
/// each character mapped to its position in it.
pub fn ascii_to_tryte_table() -> (r: HashMap<u8, usize>)
    ensures
        r@ == ascii_to_tryte_map(),
{
    broadcast use vstd::std_specs::hash::group_hash_axioms;

    proof {
        lemma_tryte_alphabet();
    }
    let mut table: HashMap<u8, usize> = HashMap::new();
    for v in 0..27
        invariant
            forall|w: int| 0 <= w < 27 ==> #[trigger] TRYTE_TO_ASCII[w] == if w == 0 {
                57
            } else {
                64 + w
            },
            forall|c: u8| #[trigger]
                table@.contains_key(c) <==> is_tryte(c) && tryte_value(c) < v,
            forall|c: u8| #[trigger] table@.contains_key(c) ==> table@[c] == tryte_value(c),
    {
        let c = TRYTE_TO_ASCII[v];
        assert(is_tryte(c) && tryte_value(c) == v);
        table.insert(c, v);
    }
    assert(table@ =~= ascii_to_tryte_map());
    table
}

/// The tryte alphabet is '9' then 'A' to 'Z'.
proof fn lemma_tryte_alphabet()
    ensures
        forall|w: int| 0 <= w < 27 ==> #[trigger] TRYTE_TO_ASCII[w] == if w == 0 {
            57
        } else {
            64 + w
        },
{
    assert forall|w: int| 0 <= w < 27 implies #[trigger] TRYTE_TO_ASCII[w] == if w == 0 {
        57
    } else {
        64 + w
    } by {
        assert(TRYTE_TO_ASCII@ == seq![
            57u8, 65, 66, 67, 68, 69, 70, 71, 72, 73, 74, 75, 76, 77, 78, 79, 80, 81, 82, 83, 84, 85,
            86, 87, 88, 89, 90,
        ]);
    }
}

/// The trits of the tryte string `tryte_string`, three for each character.
pub fn from_tryte_string(tryte_string: &str) -> (r: Vec<i8>)
    requires
        forall|i: int|
            0 <= i < tryte_string.spec_bytes().len() ==> is_tryte(
                #[trigger] tryte_string.spec_bytes()[i],
            ),
        3 * tryte_string.spec_bytes().len() <= usize::MAX,
    ensures
        r@ == trits_of_trytes(tryte_string.spec_bytes()),
{
    broadcast use vstd::std_specs::hash::group_hash_axioms;

    let table = ascii_to_tryte_table();
    let bytes = tryte_string.as_bytes();
    let n = bytes.len();

    let mut trits = vec![0i8; n * 3];

    for i in 0..n
        invariant
            n == bytes@.len(),
            bytes@ == tryte_string.spec_bytes(),
            3 * n <= usize::MAX,
            trits@.len() == 3 * n,
            table@ == ascii_to_tryte_map(),
            forall|j: int| 0 <= j < n ==> is_tryte(#[trigger] bytes@[j]),
            forall|k: int| 0 <= k < 3 * i ==> trits@[k] == trits_of_trytes(bytes@)[k],
    {
        let c = bytes[i];
        assert(table@.contains_key(c));
        let v = *table.get(&c).unwrap();
        trits[i * 3] = TRYTE_TO_TRIT_TRIPLET[v][0];
        trits[i * 3 + 1] = TRYTE_TO_TRIT_TRIPLET[v][1];
        trits[i * 3 + 2] = TRYTE_TO_TRIT_TRIPLET[v][2];
        proof {
            assert forall|k: int| 3 * i <= k < 3 * i + 3 implies trits@[k] == trits_of_trytes(
                bytes@,
            )[k] by {
                assert(k / 3 == i as int);
                assert(k % 3 == k - 3 * i);
            }
        }
    }
    assert(trits@ =~= trits_of_trytes(tryte_string.spec_bytes()));
    trits
}

/// The tryte characters of `trits`, one for each three trits.
pub fn trytes_from_trits(trits: &[i8]) -> (r: Vec<u8>)
    requires
        trits_convertible(trits@),
    ensures
        r@ == trytes_of_trits(trits@),
{
    let n = trits.len() / 3;
    let mut trytes = vec![TRYTE_TO_ASCII[0]; n];
    let mut index: i8;

    for i in 0..n
        invariant
            n == trits@.len() / 3,
            3 * n == trits.len(),
            trits_convertible(trits@),
            trytes@.len() == n,
            forall|k: int| 0 <= k < i ==> trytes@[k] == trytes_of_trits(trits@)[k],
    {
        proof {
            assert(triple_ok(trits@[3 * i], trits@[3 * i + 1], trits@[3 * i + 2]));
        }
        index = trits[i * 3] + 3 * trits[i * 3 + 1] + 9 * trits[i * 3 + 2];
        index = if index < 0 {
            index + 27
        } else {
            index
        };
        trytes[i] = TRYTE_TO_ASCII[index as usize];
    }
    assert(trytes@ =~= trytes_of_trits(trits@));
    trytes
}

/// `String::from_utf8` on `bytes`: the contract claims that it succeeds
/// exactly when `bytes` is valid UTF-8, and that the string then holds the
/// characters that `bytes` encodes.
#[verifier::external_body]
fn string_from_utf8(bytes: Vec<u8>) -> (r: Option<String>)
    ensures
        r is Some <==> valid_utf8(bytes@),
        r matches Some(s) ==> s@ == decode_utf8(bytes@),
{
    match String::from_utf8(bytes) {
        Ok(s) => Some(s),
        Err(_) => None,
    }
}

/// The string of the tryte characters `trytes`.
pub fn string_from_trytes(trytes: &[u8]) -> (r: String)
    requires
        valid_utf8(trytes@),
    ensures
        r@ == decode_utf8(trytes@),
{
    string_from_utf8(vstd::slice::slice_to_vec(trytes)).unwrap()
}

/// Entry `v` of the trit table is the balanced ternary representation of
/// `v`, taken from -13 to 13, least significant trit first.
pub proof fn lemma_trit_triplet(v: int)
    requires
        0 <= v < 27,
    ensures
        is_trit(TRYTE_TO_TRIT_TRIPLET[v][0]),
        is_trit(TRYTE_TO_TRIT_TRIPLET[v][1]),
        is_trit(TRYTE_TO_TRIT_TRIPLET[v][2]),
        triple_value(TRYTE_TO_TRIT_TRIPLET[v][0], TRYTE_TO_TRIT_TRIPLET[v][1], TRYTE_TO_TRIT_TRIPLET[v][2])
            == if v <= 13 {
            v
        } else {
            v - 27
        },
{
}

/// Three balanced trits are the table entry of their tryte value.
proof fn lemma_triple_of_trits(t0: i8, t1: i8, t2: i8)
    requires
        is_trit(t0),
        is_trit(t1),
        is_trit(t2),
    ensures
        triple_ok(t0, t1, t2),
        0 <= tryte_index(t0, t1, t2) < 27,
        TRYTE_TO_TRIT_TRIPLET[tryte_index(t0, t1, t2)][0] == t0,
        TRYTE_TO_TRIT_TRIPLET[tryte_index(t0, t1, t2)][1] == t1,
        TRYTE_TO_TRIT_TRIPLET[tryte_index(t0, t1, t2)][2] == t2,
{
}

/// Turning a tryte string into trits and back into trytes gives the string
/// back; the trits are balanced and can be turned into trytes.
pub proof fn lemma_trytes_trits_trytes(bytes: Seq<u8>)
    requires
        forall|i: int| 0 <= i < bytes.len() ==> is_tryte(#[trigger] bytes[i]),
    ensures
        all_trits(trits_of_trytes(bytes)),
        trits_convertible(trits_of_trytes(bytes)),
        trytes_of_trits(trits_of_trytes(bytes)) == bytes,
{
    let t = trits_of_trytes(bytes);
    lemma_tryte_alphabet();
    assert forall|k: int| 0 <= k < t.len() implies is_trit(#[trigger] t[k]) by {
        lemma_trit_triplet(tryte_value(bytes[k / 3]));
    }
    assert forall|i: int| 0 <= i < t.len() / 3 implies #[trigger] triple_ok(
        t[3 * i],
        t[3 * i + 1],
        t[3 * i + 2],
    ) && TRYTE_TO_ASCII[tryte_index(t[3 * i], t[3 * i + 1], t[3 * i + 2])] == bytes[i] by {
        let v = tryte_value(bytes[i]);
        assert((3 * i) / 3 == i && (3 * i + 1) / 3 == i && (3 * i + 2) / 3 == i);
        assert((3 * i) % 3 == 0 && (3 * i + 1) % 3 == 1 && (3 * i + 2) % 3 == 2);
        lemma_trit_triplet(v);
        lemma_triple_of_trits(t[3 * i], t[3 * i + 1], t[3 * i + 2]);
        assert(tryte_index(t[3 * i], t[3 * i + 1], t[3 * i + 2]) == v);
    }
    assert(trytes_of_trits(t) =~= bytes);
}

/// Turning balanced trits into trytes and back into trits gives them back;
/// the trytes are characters of the tryte alphabet.
pub proof fn lemma_trits_trytes_trits(trits: Seq<i8>)
    requires
        all_trits(trits),
        trits.len() % 3 == 0,
    ensures
        trits_convertible(trits),
        forall|i: int|
            0 <= i < trytes_of_trits(trits).len() ==> is_tryte(#[trigger] trytes_of_trits(trits)[i]),
        trits_of_trytes(trytes_of_trits(trits)) == trits,
{
    let b = trytes_of_trits(trits);
    lemma_tryte_alphabet();
    assert forall|i: int| 0 <= i < trits.len() / 3 implies #[trigger] triple_ok(
        trits[3 * i],
        trits[3 * i + 1],
        trits[3 * i + 2],
    ) && is_tryte(b[i]) && tryte_value(b[i]) == tryte_index(
        trits[3 * i],
        trits[3 * i + 1],
        trits[3 * i + 2],
    ) by {
        lemma_triple_of_trits(trits[3 * i], trits[3 * i + 1], trits[3 * i + 2]);
    }
    assert forall|k: int| 0 <= k < trits.len() implies #[trigger] trits_of_trytes(b)[k] == trits[k] by {
        let i = k / 3;
        assert(3 * i <= k < 3 * i + 3);
        assert(triple_ok(trits[3 * i], trits[3 * i + 1], trits[3 * i + 2]));
        lemma_triple_of_trits(trits[3 * i], trits[3 * i + 1], trits[3 * i + 2]);
    }
    assert(trits_of_trytes(b) =~= trits);
}

/// Bytes of the tryte alphabet are valid UTF-8, one character each.
pub proof fn lemma_trytes_valid_utf8(bytes: Seq<u8>)
    requires
        forall|i: int| 0 <= i < bytes.len() ==> is_tryte(#[trigger] bytes[i]),
    ensures
        valid_utf8(bytes),
        encode_utf8(decode_utf8(bytes)) == bytes,
{
    assert forall|i: int| 0 <= i < bytes.len() implies #[trigger] is_leading_byte_width_1(bytes[i]) by {
        assert(is_tryte(bytes[i]));
    }
    assert(bytes.subrange(0, 0) =~= Seq::<u8>::empty());
    assert(partial_valid_utf8(bytes, 0));
    vstd::utf8::partial_valid_utf8_extend_ascii_block(bytes, 0, bytes.len() as int);
    assert(bytes.subrange(0, bytes.len() as int) =~= bytes);
    vstd::utf8::decode_utf8_encode_utf8(bytes);
}

/// Balanced trits turned into trytes, the trytes into a string, and the
/// bytes of that string back into trits give the trits back.
pub proof fn lemma_trits_string_trits(trits: Seq<i8>)
    requires
        all_trits(trits),
        trits.len() % 3 == 0,
    ensures
        trits_convertible(trits),
        valid_utf8(trytes_of_trits(trits)),
        forall|i: int|
            0 <= i < encode_utf8(decode_utf8(trytes_of_trits(trits))).len() ==> is_tryte(
                #[trigger] encode_utf8(decode_utf8(trytes_of_trits(trits)))[i],
            ),
        trits_of_trytes(encode_utf8(decode_utf8(trytes_of_trits(trits)))) == trits,
{
    lemma_trits_trytes_trits(trits);
    lemma_trytes_valid_utf8(trytes_of_trits(trits));
}

/// A tryte string turned into trits, the trits into trytes and the trytes
/// into a string gives the string back.
pub proof fn lemma_string_trits_string(chars: Seq<char>)
    requires
        forall|i: int| 0 <= i < encode_utf8(chars).len() ==> is_tryte(#[trigger] encode_utf8(chars)[i]),
    ensures
        trits_convertible(trits_of_trytes(encode_utf8(chars))),
        valid_utf8(trytes_of_trits(trits_of_trytes(encode_utf8(chars)))),
        decode_utf8(trytes_of_trits(trits_of_trytes(encode_utf8(chars)))) == chars,
{
    lemma_trytes_trits_trytes(encode_utf8(chars));
    vstd::utf8::encode_utf8_valid_utf8(chars);
    vstd::utf8::encode_utf8_decode_utf8(chars);
}

} // verus!
