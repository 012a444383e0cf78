//! Troika: its constants and the column parity step of its permutation.
use vstd::prelude::*;

verus! {

/// A trit of Troika: 0, 1 or 2.
pub type Trit = u8;

/// Number of rounds of the Troika permutation.
pub const NUM_ROUNDS: usize = 24;

/// Number of trits absorbed or squeezed at a time.
pub const TROIKA_RATE: usize = 243;

/// Columns of a slice of the state.
pub const COLUMNS: usize = 9;

/// Rows of a slice of the state.
pub const ROWS: usize = 3;

/// Slices of the state.
pub const SLICES: usize = 27;

/// Trits in a slice.
pub const SLICE_SIZE: usize = COLUMNS * ROWS;

/// Trits in the state.
pub const STATE_SIZE: usize = COLUMNS * ROWS * SLICES;

/// S-boxes applied in a round, one for each tryte of the state.
pub const NUM_SBOXES: usize = STATE_SIZE / 3;

/// The trit that closes the message.
pub const PADDING: Trit = 0x1;

/// The sum of the three trits of column `col` of slice `slice`.
pub open spec fn column_sum(s: Seq<u8>, slice: int, col: int) -> int {
    s[27 * slice + col] + s[27 * slice + 9 + col] + s[27 * slice + 18 + col]
}

/// The parity of column `col` of slice `slice`: the sum of its trits modulo 3.
pub open spec fn column_parity(s: Seq<u8>, slice: int, col: int) -> int {
    column_sum(s, slice, col) % 3
}

/// The parity that is added to a trit in column `col` of slice `slice`: that
/// of the column to its left in the same slice, plus that of the column to
/// its right in the next slice.
pub open spec fn parity_to_add(s: Seq<u8>, slice: int, col: int) -> int {
    column_parity(s, slice, (col + 8) % 9) + column_parity(s, (slice + 1) % 27, (col + 1) % 9)
}

/// Trit `(slice, row, col)` after adding column parities.
pub open spec fn parity_added(s: Seq<u8>, slice: int, row: int, col: int) -> int {
    (s[27 * slice + 9 * row + col] + parity_to_add(s, slice, col)) % 3
}

/// The state after adding column parities: every trit of the first 729 gets
/// `parity_to_add` of its slice and column, modulo 3.
pub open spec fn column_parity_added(s: Seq<u8>) -> Seq<u8> {
    Seq::new(
        s.len(),
        |idx: int|
            if idx < 729 {
                parity_added(s, idx / 27, (idx % 27) / 9, idx % 9) as u8
            } else {
                s[idx]
            },
    )
}

/// Adding the parities to trit `(slice, row, col)` needs no sum past 255.
pub open spec fn cell_fits(s: Seq<u8>, slice: int, row: int, col: int) -> bool {
    s[27 * slice + 9 * row + col] + parity_to_add(s, slice, col) <= 255
}

/// Adding column parities to `s` needs no sum past 255.
pub open spec fn column_parity_fits(s: Seq<u8>) -> bool {
    &&& s.len() >= 729
    &&& forall|slice: int, col: int|
        0 <= slice < 27 && 0 <= col < 9 ==> #[trigger] column_sum(s, slice, col) <= 255
    &&& forall|slice: int, row: int, col: int|
        0 <= slice < 27 && 0 <= row < 3 && 0 <= col < 9 ==> #[trigger] cell_fits(s, slice, row, col)
}

/// Adding column parities, trit by trit: the trit at `(slice, row, col)`
/// becomes the sum, modulo 3, of itself, the three trits of the column to
/// its left in the same slice and the three trits of the column to its right
/// in the next slice (columns and slices wrap around); so every trit of the
/// first 729 ends in 0..=2, and the trits past them are left alone.
pub proof fn lemma_column_parity_law(s: Seq<u8>)
    requires
        s.len() >= 729,
    ensures
        column_parity_added(s).len() == s.len(),
        forall|i: int| 0 <= i < 729 ==> #[trigger] column_parity_added(s)[i] < 3,
        forall|slice: int, row: int, col: int|
            0 <= slice < 27 && 0 <= row < 3 && 0 <= col < 9 ==> #[trigger] column_parity_added(s)[27
                * slice + 9 * row + col] as int == (s[27 * slice + 9 * row + col] + s[27 * slice + (
            col + 8) % 9] + s[27 * slice + 9 + (col + 8) % 9] + s[27 * slice + 18 + (col + 8) % 9]
                + s[27 * ((slice + 1) % 27) + (col + 1) % 9] + s[27 * ((slice + 1) % 27) + 9 + (col
                + 1) % 9] + s[27 * ((slice + 1) % 27) + 18 + (col + 1) % 9]) % 3,
        forall|i: int| 729 <= i < s.len() ==> #[trigger] column_parity_added(s)[i] == s[i],
{
    let t = column_parity_added(s);
    assert forall|i: int| 0 <= i < 729 implies #[trigger] t[i] < 3 by {
        let v = parity_added(s, i / 27, (i % 27) / 9, i % 9);
        assert(0 <= v < 3);
    }
    assert forall|slice: int, row: int, col: int|
        0 <= slice < 27 && 0 <= row < 3 && 0 <= col < 9 implies #[trigger] t[27 * slice + 9 * row
        + col] as int == (s[27 * slice + 9 * row + col] + s[27 * slice + (col + 8) % 9] + s[27
        * slice + 9 + (col + 8) % 9] + s[27 * slice + 18 + (col + 8) % 9] + s[27 * ((slice + 1)
        % 27) + (col + 1) % 9] + s[27 * ((slice + 1) % 27) + 9 + (col + 1) % 9] + s[27 * ((slice
        + 1) % 27) + 18 + (col + 1) % 9]) % 3 by {
        let idx = 27 * slice + 9 * row + col;
        assert(idx / 27 == slice && (idx % 27) / 9 == row && idx % 9 == col) by (nonlinear_arith)
            requires
                idx == 27 * slice + 9 * row + col,
                0 <= slice < 27,
                0 <= row < 3,
                0 <= col < 9,
        ;
        let x = s[idx] as int;
        let a = column_sum(s, slice, (col + 8) % 9);
        let b = column_sum(s, (slice + 1) % 27, (col + 1) % 9);
        vstd::arithmetic::div_mod::lemma_add_mod_noop_right(x + a % 3, b, 3);
        vstd::arithmetic::div_mod::lemma_add_mod_noop_right(x + b, a, 3);
        assert(x + a % 3 + b == x + b + a % 3);
        assert(parity_added(s, slice, row, col) == (x + a + b) % 3);
        assert(0 <= (x + a + b) % 3 < 3);
    }
}

/// Adds to every trit the parities of two neighbouring columns.
pub fn add_column_parity(state: &mut [Trit])
    requires
        column_parity_fits(old(state)@),
    ensures
        final(state)@ == column_parity_added(old(state)@),
        forall|i: int| 0 <= i < 729 ==> #[trigger] final(state)@[i] < 3,
{
    let ghost s0 = state@;
    let mut parity: Vec<u8> = vec![0u8; SLICES * COLUMNS];

    // First compute parity for each column
    for slice in 0..SLICES
        invariant
            state@ == s0,
            column_parity_fits(s0),
            parity@.len() == 243,
            forall|sl: int, c: int|
                0 <= sl < slice && 0 <= c < 9 ==> parity@[9 * sl + c] == #[trigger] column_parity(
                    s0,
                    sl,
                    c,
                ),
    {
        for col in 0..COLUMNS
            invariant
                state@ == s0,
                column_parity_fits(s0),
                slice < 27,
                parity@.len() == 243,
                forall|sl: int, c: int|
                    (0 <= sl < slice && 0 <= c < 9) || (sl == slice && 0 <= c < col) ==> parity@[9
                        * sl + c] == #[trigger] column_parity(s0, sl, c),
        {
            let ghost sum = column_sum(s0, slice as int, col as int);
            assert(sum <= 255);
            let mut col_sum: u8 = 0;
            for row in 0..ROWS
                invariant
                    state@ == s0,
                    s0.len() >= 729,
                    slice < 27,
                    col < 9,
                    sum == column_sum(s0, slice as int, col as int),
                    sum <= 255,
                    col_sum == if row == 0 {
                        0
                    } else if row == 1 {
                        s0[27 * slice + col] as int
                    } else if row == 2 {
                        s0[27 * slice + col] + s0[27 * slice + 9 + col]
                    } else {
                        sum
                    },
            {
                col_sum += state[SLICE_SIZE * slice + COLUMNS * row + col];
            }
            parity[COLUMNS * slice + col] = col_sum % 3;
        }
    }

    // Add parity
    for slice in 0..SLICES
        invariant
            column_parity_fits(s0),
            state@.len() == s0.len(),
            parity@.len() == 243,
            forall|sl: int, c: int|
                0 <= sl < 27 && 0 <= c < 9 ==> parity@[9 * sl + c] == #[trigger] column_parity(s0, sl, c),
            forall|sl: int, r: int, c: int|
                0 <= sl < slice && 0 <= r < 3 && 0 <= c < 9 ==> state@[27 * sl + 9 * r + c]
                    == #[trigger] parity_added(s0, sl, r, c),
            forall|idx: int| 27 * slice <= idx < s0.len() ==> state@[idx] == s0[idx],
    {
        for row in 0..ROWS
            invariant
                column_parity_fits(s0),
                slice < 27,
                state@.len() == s0.len(),
                parity@.len() == 243,
                forall|sl: int, c: int|
                    0 <= sl < 27 && 0 <= c < 9 ==> parity@[9 * sl + c] == #[trigger] column_parity(s0, sl, c),
                forall|sl: int, r: int, c: int|
                    ((0 <= sl < slice && 0 <= r < 3) || (sl == slice && 0 <= r < row)) && 0 <= c < 9
                        ==> state@[27 * sl + 9 * r + c] == #[trigger] parity_added(s0, sl, r, c),
                forall|idx: int| 27 * slice + 9 * row <= idx < s0.len() ==> state@[idx] == s0[idx],
        {
            for col in 0..COLUMNS
                invariant
                    column_parity_fits(s0),
                    slice < 27,
                    row < 3,
                    state@.len() == s0.len(),
                    parity@.len() == 243,
                    forall|sl: int, c: int|
                        0 <= sl < 27 && 0 <= c < 9 ==> parity@[9 * sl + c] == #[trigger] column_parity(
                            s0,
                            sl,
                            c,
                        ),
                    forall|sl: int, r: int, c: int|
                        ((0 <= sl < slice && 0 <= r < 3) || (sl == slice && 0 <= r < row && 0 <= c < 9)
                            || (sl == slice && r == row && 0 <= c < col)) && 0 <= c < 9 ==> state@[27
                            * sl + 9 * r + c] == #[trigger] parity_added(s0, sl, r, c),
                    forall|idx: int|
                        27 * slice + 9 * row + col <= idx < s0.len() ==> state@[idx] == s0[idx],
            {
                let idx = SLICE_SIZE * slice + COLUMNS * row + col;
                proof {
                    assert(cell_fits(s0, slice as int, row as int, col as int));
                    assert(column_parity(s0, slice as int, (col + 8) % 9) == parity@[9 * slice + (col
                        + 8) % 9]);
                    assert(column_parity(s0, (slice + 1) % 27, (col + 1) % 9) == parity@[9 * ((slice
                        + 1) % 27) + (col + 1) % 9]);
                }
                let sum_to_add = parity[(col + 8) % 9 + COLUMNS * slice]
                    + parity[(col + 1) % 9 + COLUMNS * ((slice + 1) % SLICES)];
                state[idx] = (state[idx] + sum_to_add) % 3;
                proof {
                    assert(state@[27 * slice + 9 * row + col] == parity_added(
                        s0,
                        slice as int,
                        row as int,
                        col as int,
                    ));
                }
            }
        }
    }
    assert forall|idx: int| 0 <= idx < s0.len() implies #[trigger] state@[idx]
        == column_parity_added(s0)[idx] by {
        if idx < 729 {
            let sl = idx / 27;
            let r = (idx % 27) / 9;
            let c = idx % 9;
            assert(idx == 27 * sl + 9 * r + c);
            assert(0 <= sl < 27 && 0 <= r < 3 && 0 <= c < 9);
            assert(state@[27 * sl + 9 * r + c] == parity_added(s0, sl, r, c));
        }
    }
    assert(state@ =~= column_parity_added(s0));
    proof {
        lemma_column_parity_law(s0);
    }
}

} // verus!
