use curl_troika_benchmark::troika::{add_column_parity, STATE_SIZE};

#[test]
fn column_parity_spreads_to_neighbour_columns() {
    let mut state = vec![0u8; STATE_SIZE + 2];
    state[0] = 1;
    state[STATE_SIZE] = 2;
    add_column_parity(&mut state);
    let mut expected = vec![0u8; STATE_SIZE + 2];
    // the trit itself gets nothing from its neighbours
    expected[0] = 1;
    // column 1 of slice 0 has column 0 of slice 0 to its left
    expected[1] = 1;
    expected[10] = 1;
    expected[19] = 1;
    // column 8 of slice 26 has column 0 of slice 0 to its right
    expected[26 * 27 + 8] = 1;
    expected[26 * 27 + 17] = 1;
    expected[26 * 27 + 26] = 1;
    // past the state nothing changes
    expected[STATE_SIZE] = 2;
    assert_eq!(expected, state);
}

#[test]
fn column_parity_is_taken_modulo_3() {
    let mut state = vec![2u8; STATE_SIZE];
    add_column_parity(&mut state);
    // each column sums to 6, of parity 0
    assert_eq!(vec![2u8; STATE_SIZE], state);
    let mut state = vec![1u8; STATE_SIZE];
    add_column_parity(&mut state);
    // each column sums to 3, of parity 0
    assert_eq!(vec![1u8; STATE_SIZE], state);
}
