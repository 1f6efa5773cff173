//! Planetary magic-square cipher: a letter's ordinal (A=1) is looked up in
//! a fixed magic square, and its 1-based row and column are written out,
//! joined by a coordinate separator; coordinate tokens are joined by a main
//! separator. Letters past the square's capacity, and everything that is
//! not a letter, pass through unchanged.
use vstd::prelude::*;

use crate::Cipher;
use crate::text::{
    chars_to_string, digit_char, digit_char_of, digit_of, digit_value, first_index, is_digit_char,
    is_letter, lemma_first_index, letter, letter_offset, str_to_chars, to_upper, upper_char,
};

verus! {

/// The Saturn square, 3x3, row-major.
pub open spec fn saturn_rows() -> Seq<Seq<u32>> {
    seq![
        seq![2u32, 7u32, 6u32],
        seq![9u32, 5u32, 1u32],
        seq![4u32, 3u32, 8u32],
    ]
}

/// The Saturn square flattened row-major.
pub open spec fn saturn_flat() -> Seq<u32> {
    seq![2u32, 7u32, 6u32, 9u32, 5u32, 1u32, 4u32, 3u32, 8u32]
}

/// For each value of the Saturn square, its position in the flattened square.
spec fn saturn_pos() -> Seq<int> {
    seq![5int, 0int, 7int, 6int, 4int, 2int, 1int, 8int, 3int]
}

/// The Jupiter square, 4x4, row-major.
pub open spec fn jupiter_rows() -> Seq<Seq<u32>> {
    seq![
        seq![4u32, 14u32, 15u32, 1u32],
        seq![9u32, 7u32, 6u32, 12u32],
        seq![5u32, 11u32, 10u32, 8u32],
        seq![16u32, 2u32, 3u32, 13u32],
    ]
}

/// The Jupiter square flattened row-major.
pub open spec fn jupiter_flat() -> Seq<u32> {
    seq![4u32, 14u32, 15u32, 1u32, 9u32, 7u32, 6u32, 12u32, 5u32, 11u32, 10u32, 8u32, 16u32, 2u32, 3u32, 13u32]
}

/// For each value of the Jupiter square, its position in the flattened square.
spec fn jupiter_pos() -> Seq<int> {
    seq![3int, 13int, 14int, 0int, 8int, 6int, 5int, 11int, 4int, 10int, 9int, 7int, 15int, 1int, 2int, 12int]
}

/// The Mars square, 5x5, row-major.
pub open spec fn mars_rows() -> Seq<Seq<u32>> {
    seq![
        seq![11u32, 24u32, 7u32, 20u32, 3u32],
        seq![4u32, 12u32, 25u32, 8u32, 16u32],
        seq![17u32, 5u32, 13u32, 21u32, 9u32],
        seq![10u32, 18u32, 1u32, 14u32, 22u32],
        seq![23u32, 6u32, 19u32, 2u32, 15u32],
    ]
}

/// The Mars square flattened row-major.
pub open spec fn mars_flat() -> Seq<u32> {
    seq![11u32, 24u32, 7u32, 20u32, 3u32, 4u32, 12u32, 25u32, 8u32, 16u32, 17u32, 5u32, 13u32, 21u32, 9u32, 10u32, 18u32, 1u32, 14u32, 22u32, 23u32, 6u32, 19u32, 2u32, 15u32]
}

/// For each value of the Mars square, its position in the flattened square.
spec fn mars_pos() -> Seq<int> {
    seq![17int, 23int, 4int, 5int, 11int, 21int, 2int, 8int, 14int, 15int, 0int, 6int, 12int, 18int, 24int, 9int, 10int, 16int, 22int, 3int, 13int, 19int, 20int, 1int, 7int]
}

/// The Sun square, 6x6, row-major.
pub open spec fn sun_rows() -> Seq<Seq<u32>> {
    seq![
        seq![6u32, 32u32, 3u32, 34u32, 35u32, 1u32],
        seq![7u32, 11u32, 27u32, 28u32, 8u32, 30u32],
        seq![19u32, 14u32, 16u32, 15u32, 23u32, 24u32],
        seq![18u32, 20u32, 22u32, 21u32, 17u32, 13u32],
        seq![25u32, 29u32, 10u32, 9u32, 26u32, 12u32],
        seq![36u32, 5u32, 33u32, 4u32, 2u32, 31u32],
    ]
}

/// The Sun square flattened row-major.
pub open spec fn sun_flat() -> Seq<u32> {
    seq![6u32, 32u32, 3u32, 34u32, 35u32, 1u32, 7u32, 11u32, 27u32, 28u32, 8u32, 30u32, 19u32, 14u32, 16u32, 15u32, 23u32, 24u32, 18u32, 20u32, 22u32, 21u32, 17u32, 13u32, 25u32, 29u32, 10u32, 9u32, 26u32, 12u32, 36u32, 5u32, 33u32, 4u32, 2u32, 31u32]
}

/// For each value of the Sun square, its position in the flattened square.
spec fn sun_pos() -> Seq<int> {
    seq![5int, 34int, 2int, 33int, 31int, 0int, 6int, 10int, 27int, 26int, 7int, 29int, 23int, 13int, 15int, 14int, 22int, 18int, 12int, 19int, 21int, 20int, 16int, 17int, 24int, 28int, 8int, 9int, 25int, 11int, 35int, 1int, 32int, 3int, 4int, 30int]
}

/// The Venus square, 7x7, row-major.
pub open spec fn venus_rows() -> Seq<Seq<u32>> {
    seq![
        seq![22u32, 47u32, 16u32, 41u32, 10u32, 35u32, 4u32],
        seq![5u32, 23u32, 48u32, 17u32, 42u32, 11u32, 29u32],
        seq![30u32, 6u32, 24u32, 49u32, 18u32, 36u32, 12u32],
        seq![13u32, 31u32, 7u32, 25u32, 43u32, 19u32, 37u32],
        seq![38u32, 14u32, 32u32, 1u32, 26u32, 44u32, 20u32],
        seq![21u32, 39u32, 8u32, 33u32, 2u32, 27u32, 45u32],
        seq![46u32, 15u32, 40u32, 9u32, 34u32, 3u32, 28u32],
    ]
}

/// The Venus square flattened row-major.
pub open spec fn venus_flat() -> Seq<u32> {
    seq![22u32, 47u32, 16u32, 41u32, 10u32, 35u32, 4u32, 5u32, 23u32, 48u32, 17u32, 42u32, 11u32, 29u32, 30u32, 6u32, 24u32, 49u32, 18u32, 36u32, 12u32, 13u32, 31u32, 7u32, 25u32, 43u32, 19u32, 37u32, 38u32, 14u32, 32u32, 1u32, 26u32, 44u32, 20u32, 21u32, 39u32, 8u32, 33u32, 2u32, 27u32, 45u32, 46u32, 15u32, 40u32, 9u32, 34u32, 3u32, 28u32]
}

/// For each value of the Venus square, its position in the flattened square.
spec fn venus_pos() -> Seq<int> {
    seq![31int, 39int, 47int, 6int, 7int, 15int, 23int, 37int, 45int, 4int, 12int, 20int, 21int, 29int, 43int, 2int, 10int, 18int, 26int, 34int, 35int, 0int, 8int, 16int, 24int, 32int, 40int, 48int, 13int, 14int, 22int, 30int, 38int, 46int, 5int, 19int, 27int, 28int, 36int, 44int, 3int, 11int, 25int, 33int, 41int, 42int, 1int, 9int, 17int]
}

/// The Mercury square, 8x8, row-major.
pub open spec fn mercury_rows() -> Seq<Seq<u32>> {
    seq![
        seq![8u32, 58u32, 59u32, 5u32, 4u32, 62u32, 63u32, 1u32],
        seq![49u32, 15u32, 14u32, 52u32, 53u32, 11u32, 10u32, 56u32],
        seq![41u32, 23u32, 22u32, 44u32, 45u32, 19u32, 18u32, 48u32],
        seq![32u32, 34u32, 35u32, 29u32, 28u32, 38u32, 39u32, 25u32],
        seq![40u32, 26u32, 27u32, 37u32, 36u32, 30u32, 31u32, 33u32],
        seq![17u32, 47u32, 46u32, 20u32, 21u32, 43u32, 42u32, 24u32],
        seq![9u32, 55u32, 54u32, 12u32, 13u32, 51u32, 50u32, 16u32],
        seq![64u32, 2u32, 3u32, 61u32, 60u32, 6u32, 7u32, 57u32],
    ]
}

/// The Mercury square flattened row-major.
pub open spec fn mercury_flat() -> Seq<u32> {
    seq![8u32, 58u32, 59u32, 5u32, 4u32, 62u32, 63u32, 1u32, 49u32, 15u32, 14u32, 52u32, 53u32, 11u32, 10u32, 56u32, 41u32, 23u32, 22u32, 44u32, 45u32, 19u32, 18u32, 48u32, 32u32, 34u32, 35u32, 29u32, 28u32, 38u32, 39u32, 25u32, 40u32, 26u32, 27u32, 37u32, 36u32, 30u32, 31u32, 33u32, 17u32, 47u32, 46u32, 20u32, 21u32, 43u32, 42u32, 24u32, 9u32, 55u32, 54u32, 12u32, 13u32, 51u32, 50u32, 16u32, 64u32, 2u32, 3u32, 61u32, 60u32, 6u32, 7u32, 57u32]
}

/// For each value of the Mercury square, its position in the flattened square.
spec fn mercury_pos() -> Seq<int> {
    seq![7int, 57int, 58int, 4int, 3int, 61int, 62int, 0int, 48int, 14int, 13int, 51int, 52int, 10int, 9int, 55int, 40int, 22int, 21int, 43int, 44int, 18int, 17int, 47int, 31int, 33int, 34int, 28int, 27int, 37int, 38int, 24int, 39int, 25int, 26int, 36int, 35int, 29int, 30int, 32int, 16int, 46int, 45int, 19int, 20int, 42int, 41int, 23int, 8int, 54int, 53int, 11int, 12int, 50int, 49int, 15int, 63int, 1int, 2int, 60int, 59int, 5int, 6int, 56int]
}

/// The Moon square, 9x9, row-major.
pub open spec fn moon_rows() -> Seq<Seq<u32>> {
    seq![
        seq![37u32, 78u32, 29u32, 70u32, 21u32, 62u32, 13u32, 54u32, 5u32],
        seq![6u32, 38u32, 79u32, 30u32, 71u32, 22u32, 63u32, 14u32, 46u32],
        seq![47u32, 7u32, 39u32, 80u32, 31u32, 72u32, 23u32, 55u32, 15u32],
        seq![16u32, 48u32, 8u32, 40u32, 81u32, 32u32, 64u32, 24u32, 56u32],
        seq![57u32, 17u32, 49u32, 9u32, 41u32, 73u32, 33u32, 65u32, 25u32],
        seq![26u32, 58u32, 18u32, 50u32, 1u32, 42u32, 74u32, 34u32, 66u32],
        seq![67u32, 27u32, 59u32, 10u32, 51u32, 2u32, 43u32, 75u32, 35u32],
        seq![36u32, 68u32, 19u32, 60u32, 11u32, 52u32, 3u32, 44u32, 76u32],
        seq![77u32, 28u32, 69u32, 20u32, 61u32, 12u32, 53u32, 4u32, 45u32],
    ]
}

/// The Moon square flattened row-major.
pub open spec fn moon_flat() -> Seq<u32> {
    seq![37u32, 78u32, 29u32, 70u32, 21u32, 62u32, 13u32, 54u32, 5u32, 6u32, 38u32, 79u32, 30u32, 71u32, 22u32, 63u32, 14u32, 46u32, 47u32, 7u32, 39u32, 80u32, 31u32, 72u32, 23u32, 55u32, 15u32, 16u32, 48u32, 8u32, 40u32, 81u32, 32u32, 64u32, 24u32, 56u32, 57u32, 17u32, 49u32, 9u32, 41u32, 73u32, 33u32, 65u32, 25u32, 26u32, 58u32, 18u32, 50u32, 1u32, 42u32, 74u32, 34u32, 66u32, 67u32, 27u32, 59u32, 10u32, 51u32, 2u32, 43u32, 75u32, 35u32, 36u32, 68u32, 19u32, 60u32, 11u32, 52u32, 3u32, 44u32, 76u32, 77u32, 28u32, 69u32, 20u32, 61u32, 12u32, 53u32, 4u32, 45u32]
}

/// For each value of the Moon square, its position in the flattened square.
spec fn moon_pos() -> Seq<int> {
    seq![49int, 59int, 69int, 79int, 8int, 9int, 19int, 29int, 39int, 57int, 67int, 77int, 6int, 16int, 26int, 27int, 37int, 47int, 65int, 75int, 4int, 14int, 24int, 34int, 44int, 45int, 55int, 73int, 2int, 12int, 22int, 32int, 42int, 52int, 62int, 63int, 0int, 10int, 20int, 30int, 40int, 50int, 60int, 70int, 80int, 17int, 18int, 28int, 38int, 48int, 58int, 68int, 78int, 7int, 25int, 35int, 36int, 46int, 56int, 66int, 76int, 5int, 15int, 33int, 43int, 53int, 54int, 64int, 74int, 3int, 13int, 23int, 41int, 51int, 61int, 71int, 72int, 1int, 11int, 21int, 31int]
}

/// The sum of the values of one row.
pub open spec fn row_sum(r: Seq<u32>) -> int
    decreases r.len(),
{
    if r.len() == 0 {
        0
    } else {
        row_sum(r.drop_last()) + r.last()
    }
}

/// The sum of the values of column `c`.
pub open spec fn col_sum(sq: Seq<Seq<u32>>, c: int) -> int
    decreases sq.len(),
{
    if sq.len() == 0 {
        0
    } else {
        col_sum(sq.drop_last(), c) + sq.last()[c]
    }
}

/// The sum of the first `k` cells of the main diagonal.
pub open spec fn diag_main_sum(sq: Seq<Seq<u32>>, k: int) -> int
    decreases (if k > 0 { k } else { 0 }),
{
    if k <= 0 {
        0
    } else {
        diag_main_sum(sq, k - 1) + sq[k - 1][k - 1]
    }
}

/// The sum of the first `k` cells of the other diagonal of an `n`-sized
/// square.
pub open spec fn diag_anti_sum(sq: Seq<Seq<u32>>, n: int, k: int) -> int
    decreases (if k > 0 { k } else { 0 }),
{
    if k <= 0 {
        0
    } else {
        diag_anti_sum(sq, n, k - 1) + sq[k - 1][n - k]
    }
}

/// The rows of a square laid out one after another.
pub open spec fn flatten_sq(sq: Seq<Seq<u32>>) -> Seq<u32>
    decreases sq.len(),
{
    if sq.len() == 0 {
        Seq::empty()
    } else {
        sq[0] + flatten_sq(sq.drop_first())
    }
}

/// How many cells of `s` hold the value `v`.
pub open spec fn count_val(s: Seq<u32>, v: int) -> int
    decreases s.len(),
{
    if s.len() == 0 {
        0
    } else {
        count_val(s.drop_last(), v) + if s.last() == v {
            1int
        } else {
            0int
        }
    }
}

/// The magic constant of an `n`-sized square.
pub open spec fn magic_sum(n: int) -> int {
    n * (n * n + 1) / 2
}

/// An `n` by `n` square of the values 1 through n*n, each exactly once,
/// with every row, every column and both diagonals summing to the magic
/// constant.
pub open spec fn is_magic(sq: Seq<Seq<u32>>, n: int) -> bool {
    &&& sq.len() == n
    &&& (forall|r: int| 0 <= r < n ==> (#[trigger] sq[r]).len() == n)
    &&& (forall|r: int| 0 <= r < n ==> row_sum(#[trigger] sq[r]) == magic_sum(n))
    &&& (forall|c: int| 0 <= c < n ==> #[trigger] col_sum(sq, c) == magic_sum(n))
    &&& diag_main_sum(sq, n) == magic_sum(n)
    &&& diag_anti_sum(sq, n, n) == magic_sum(n)
    &&& (forall|v: int| 1 <= v <= n * n ==> #[trigger] count_val(flatten_sq(sq), v) == 1)
}

/// A value held by no cell has count zero.
proof fn lemma_count_none(f: Seq<u32>, v: int)
    requires
        forall|j: int| 0 <= j < f.len() ==> f[j] != v,
    ensures
        count_val(f, v) == 0,
    decreases f.len(),
{
    if f.len() > 0 {
        lemma_count_none(f.drop_last(), v);
    }
}

/// A value held by exactly one cell has count one.
proof fn lemma_count_unique(f: Seq<u32>, v: int, idx: int)
    requires
        0 <= idx < f.len(),
        f[idx] == v,
        forall|j: int| 0 <= j < f.len() && j != idx ==> f[j] != v,
    ensures
        count_val(f, v) == 1,
    decreases f.len(),
{
    if idx == f.len() - 1 {
        lemma_count_none(f.drop_last(), v);
    } else {
        lemma_count_unique(f.drop_last(), v, idx);
    }
}

/// A position table that inverts the flattened square shows every value in
/// range to occur exactly once.
proof fn lemma_cover_unique(f: Seq<u32>, pos: Seq<int>, n2: int)
    requires
        f.len() == n2,
        pos.len() == n2,
        forall|i: int| 0 <= i < n2 ==> 1 <= #[trigger] f[i] <= n2,
        forall|i: int| 0 <= i < n2 ==> pos[#[trigger] f[i] - 1] == i,
        forall|v: int| 1 <= v <= n2 ==> 0 <= #[trigger] pos[v - 1] < n2 && f[pos[v - 1]] == v,
    ensures
        forall|v: int| 1 <= v <= n2 ==> #[trigger] count_val(f, v) == 1,
{
    assert forall|v: int| 1 <= v <= n2 implies #[trigger] count_val(f, v) == 1 by {
        let idx = pos[v - 1];
        assert forall|j: int| 0 <= j < n2 && j != idx implies f[j] != v by {
            if f[j] == v {
                assert(pos[f[j] - 1] == j);
            }
        }
        lemma_count_unique(f, v, idx);
    }
}

/// The Saturn square satisfies the magic property.
#[verifier::rlimit(100)]
proof fn lemma_saturn_magic()
    ensures
        is_magic(saturn_rows(), 3),
{
    let sq = saturn_rows();
    let f = saturn_flat();
    let pos = saturn_pos();
    reveal_with_fuel(flatten_sq, 5);
    assert(flatten_sq(sq) =~= f);
    reveal_with_fuel(row_sum, 5);
    assert forall|r: int| 0 <= r < 3 implies row_sum(sq[r]) == 15 by {
        if r == 0 {
            assert(row_sum(sq[0]) == 15);
        } else if r == 1 {
            assert(row_sum(sq[1]) == 15);
        } else {
            assert(row_sum(sq[2]) == 15);
        }
    }
    reveal_with_fuel(col_sum, 5);
    assert forall|c: int| 0 <= c < 3 implies col_sum(sq, c) == 15 by {
        if c == 0 {
            assert(col_sum(sq, 0) == 15);
        } else if c == 1 {
            assert(col_sum(sq, 1) == 15);
        } else {
            assert(col_sum(sq, 2) == 15);
        }
    }
    reveal_with_fuel(diag_main_sum, 5);
    assert(diag_main_sum(sq, 3) == 15);
    reveal_with_fuel(diag_anti_sum, 5);
    assert(diag_anti_sum(sq, 3, 3) == 15);
    assert forall|i: int| 0 <= i < 9 implies 1 <= #[trigger] f[i] <= 9 by {}
    assert forall|i: int| 0 <= i < 9 implies pos[#[trigger] f[i] - 1] == i by {}
    assert forall|v: int| 1 <= v <= 9 implies 0 <= #[trigger] pos[v - 1] < 9 && f[pos[v - 1]]
        == v by {}
    lemma_cover_unique(f, pos, 9);
}

/// The Jupiter square satisfies the magic property.
#[verifier::rlimit(100)]
proof fn lemma_jupiter_magic()
    ensures
        is_magic(jupiter_rows(), 4),
{
    let sq = jupiter_rows();
    let f = jupiter_flat();
    let pos = jupiter_pos();
    reveal_with_fuel(flatten_sq, 6);
    assert(flatten_sq(sq) =~= f);
    reveal_with_fuel(row_sum, 6);
    assert forall|r: int| 0 <= r < 4 implies row_sum(sq[r]) == 34 by {
        if r == 0 {
            assert(row_sum(sq[0]) == 34);
        } else if r == 1 {
            assert(row_sum(sq[1]) == 34);
        } else if r == 2 {
            assert(row_sum(sq[2]) == 34);
        } else {
            assert(row_sum(sq[3]) == 34);
        }
    }
    reveal_with_fuel(col_sum, 6);
    assert forall|c: int| 0 <= c < 4 implies col_sum(sq, c) == 34 by {
        if c == 0 {
            assert(col_sum(sq, 0) == 34);
        } else if c == 1 {
            assert(col_sum(sq, 1) == 34);
        } else if c == 2 {
            assert(col_sum(sq, 2) == 34);
        } else {
            assert(col_sum(sq, 3) == 34);
        }
    }
    reveal_with_fuel(diag_main_sum, 6);
    assert(diag_main_sum(sq, 4) == 34);
    reveal_with_fuel(diag_anti_sum, 6);
    assert(diag_anti_sum(sq, 4, 4) == 34);
    assert forall|i: int| 0 <= i < 16 implies 1 <= #[trigger] f[i] <= 16 by {}
    assert forall|i: int| 0 <= i < 16 implies pos[#[trigger] f[i] - 1] == i by {}
    assert forall|v: int| 1 <= v <= 16 implies 0 <= #[trigger] pos[v - 1] < 16 && f[pos[v - 1]]
        == v by {}
    lemma_cover_unique(f, pos, 16);
}

/// The Mars square satisfies the magic property.
#[verifier::rlimit(100)]
proof fn lemma_mars_magic()
    ensures
        is_magic(mars_rows(), 5),
{
    let sq = mars_rows();
    let f = mars_flat();
    let pos = mars_pos();
    reveal_with_fuel(flatten_sq, 7);
    assert(flatten_sq(sq) =~= f);
    reveal_with_fuel(row_sum, 7);
    assert forall|r: int| 0 <= r < 5 implies row_sum(sq[r]) == 65 by {
        if r == 0 {
            assert(row_sum(sq[0]) == 65);
        } else if r == 1 {
            assert(row_sum(sq[1]) == 65);
        } else if r == 2 {
            assert(row_sum(sq[2]) == 65);
        } else if r == 3 {
            assert(row_sum(sq[3]) == 65);
        } else {
            assert(row_sum(sq[4]) == 65);
        }
    }
    reveal_with_fuel(col_sum, 7);
    assert forall|c: int| 0 <= c < 5 implies col_sum(sq, c) == 65 by {
        if c == 0 {
            assert(col_sum(sq, 0) == 65);
        } else if c == 1 {
            assert(col_sum(sq, 1) == 65);
        } else if c == 2 {
            assert(col_sum(sq, 2) == 65);
        } else if c == 3 {
            assert(col_sum(sq, 3) == 65);
        } else {
            assert(col_sum(sq, 4) == 65);
        }
    }
    reveal_with_fuel(diag_main_sum, 7);
    assert(diag_main_sum(sq, 5) == 65);
    reveal_with_fuel(diag_anti_sum, 7);
    assert(diag_anti_sum(sq, 5, 5) == 65);
    assert forall|i: int| 0 <= i < 25 implies 1 <= #[trigger] f[i] <= 25 by {}
    assert forall|i: int| 0 <= i < 25 implies pos[#[trigger] f[i] - 1] == i by {}
    assert forall|v: int| 1 <= v <= 25 implies 0 <= #[trigger] pos[v - 1] < 25 && f[pos[v - 1]]
        == v by {}
    lemma_cover_unique(f, pos, 25);
}

/// The Sun square satisfies the magic property.
#[verifier::rlimit(100)]
proof fn lemma_sun_magic()
    ensures
        is_magic(sun_rows(), 6),
{
    let sq = sun_rows();
    let f = sun_flat();
    let pos = sun_pos();
    reveal_with_fuel(flatten_sq, 8);
    assert(flatten_sq(sq) =~= f);
    reveal_with_fuel(row_sum, 8);
    assert forall|r: int| 0 <= r < 6 implies row_sum(sq[r]) == 111 by {
        if r == 0 {
            assert(row_sum(sq[0]) == 111);
        } else if r == 1 {
            assert(row_sum(sq[1]) == 111);
        } else if r == 2 {
            assert(row_sum(sq[2]) == 111);
        } else if r == 3 {
            assert(row_sum(sq[3]) == 111);
        } else if r == 4 {
            assert(row_sum(sq[4]) == 111);
        } else {
            assert(row_sum(sq[5]) == 111);
        }
    }
    reveal_with_fuel(col_sum, 8);
    assert forall|c: int| 0 <= c < 6 implies col_sum(sq, c) == 111 by {
        if c == 0 {
            assert(col_sum(sq, 0) == 111);
        } else if c == 1 {
            assert(col_sum(sq, 1) == 111);
        } else if c == 2 {
            assert(col_sum(sq, 2) == 111);
        } else if c == 3 {
            assert(col_sum(sq, 3) == 111);
        } else if c == 4 {
            assert(col_sum(sq, 4) == 111);
        } else {
            assert(col_sum(sq, 5) == 111);
        }
    }
    reveal_with_fuel(diag_main_sum, 8);
    assert(diag_main_sum(sq, 6) == 111);
    reveal_with_fuel(diag_anti_sum, 8);
    assert(diag_anti_sum(sq, 6, 6) == 111);
    assert forall|i: int| 0 <= i < 36 implies 1 <= #[trigger] f[i] <= 36 by {}
    assert forall|i: int| 0 <= i < 36 implies pos[#[trigger] f[i] - 1] == i by {}
    assert forall|v: int| 1 <= v <= 36 implies 0 <= #[trigger] pos[v - 1] < 36 && f[pos[v - 1]]
        == v by {}
    lemma_cover_unique(f, pos, 36);
}

/// The Venus square satisfies the magic property.
#[verifier::rlimit(100)]
proof fn lemma_venus_magic()
    ensures
        is_magic(venus_rows(), 7),
{
    let sq = venus_rows();
    let f = venus_flat();
    let pos = venus_pos();
    reveal_with_fuel(flatten_sq, 9);
    assert(flatten_sq(sq) =~= f);
    reveal_with_fuel(row_sum, 9);
    assert forall|r: int| 0 <= r < 7 implies row_sum(sq[r]) == 175 by {
        if r == 0 {
            assert(row_sum(sq[0]) == 175);
        } else if r == 1 {
            assert(row_sum(sq[1]) == 175);
        } else if r == 2 {
            assert(row_sum(sq[2]) == 175);
        } else if r == 3 {
            assert(row_sum(sq[3]) == 175);
        } else if r == 4 {
            assert(row_sum(sq[4]) == 175);
        } else if r == 5 {
            assert(row_sum(sq[5]) == 175);
        } else {
            assert(row_sum(sq[6]) == 175);
        }
    }
    reveal_with_fuel(col_sum, 9);
    assert forall|c: int| 0 <= c < 7 implies col_sum(sq, c) == 175 by {
        if c == 0 {
            assert(col_sum(sq, 0) == 175);
        } else if c == 1 {
            assert(col_sum(sq, 1) == 175);
        } else if c == 2 {
            assert(col_sum(sq, 2) == 175);
        } else if c == 3 {
            assert(col_sum(sq, 3) == 175);
        } else if c == 4 {
            assert(col_sum(sq, 4) == 175);
        } else if c == 5 {
            assert(col_sum(sq, 5) == 175);
        } else {
            assert(col_sum(sq, 6) == 175);
        }
    }
    reveal_with_fuel(diag_main_sum, 9);
    assert(diag_main_sum(sq, 7) == 175);
    reveal_with_fuel(diag_anti_sum, 9);
    assert(diag_anti_sum(sq, 7, 7) == 175);
    assert forall|i: int| 0 <= i < 49 implies 1 <= #[trigger] f[i] <= 49 by {}
    assert forall|i: int| 0 <= i < 49 implies pos[#[trigger] f[i] - 1] == i by {}
    assert forall|v: int| 1 <= v <= 49 implies 0 <= #[trigger] pos[v - 1] < 49 && f[pos[v - 1]]
        == v by {}
    lemma_cover_unique(f, pos, 49);
}

/// The Mercury square satisfies the magic property.
#[verifier::rlimit(100)]
proof fn lemma_mercury_magic()
    ensures
        is_magic(mercury_rows(), 8),
{
    let sq = mercury_rows();
    let f = mercury_flat();
    let pos = mercury_pos();
    reveal_with_fuel(flatten_sq, 10);
    assert(flatten_sq(sq) =~= f);
    reveal_with_fuel(row_sum, 10);
    assert forall|r: int| 0 <= r < 8 implies row_sum(sq[r]) == 260 by {
        if r == 0 {
            assert(row_sum(sq[0]) == 260);
        } else if r == 1 {
            assert(row_sum(sq[1]) == 260);
        } else if r == 2 {
            assert(row_sum(sq[2]) == 260);
        } else if r == 3 {
            assert(row_sum(sq[3]) == 260);
        } else if r == 4 {
            assert(row_sum(sq[4]) == 260);
        } else if r == 5 {
            assert(row_sum(sq[5]) == 260);
        } else if r == 6 {
            assert(row_sum(sq[6]) == 260);
        } else {
            assert(row_sum(sq[7]) == 260);
        }
    }
    reveal_with_fuel(col_sum, 10);
    assert forall|c: int| 0 <= c < 8 implies col_sum(sq, c) == 260 by {
        if c == 0 {
            assert(col_sum(sq, 0) == 260);
        } else if c == 1 {
            assert(col_sum(sq, 1) == 260);
        } else if c == 2 {
            assert(col_sum(sq, 2) == 260);
        } else if c == 3 {
            assert(col_sum(sq, 3) == 260);
        } else if c == 4 {
            assert(col_sum(sq, 4) == 260);
        } else if c == 5 {
            assert(col_sum(sq, 5) == 260);
        } else if c == 6 {
            assert(col_sum(sq, 6) == 260);
        } else {
            assert(col_sum(sq, 7) == 260);
        }
    }
    reveal_with_fuel(diag_main_sum, 10);
    assert(diag_main_sum(sq, 8) == 260);
    reveal_with_fuel(diag_anti_sum, 10);
    assert(diag_anti_sum(sq, 8, 8) == 260);
    assert forall|i: int| 0 <= i < 64 implies 1 <= #[trigger] f[i] <= 64 by {}
    assert forall|i: int| 0 <= i < 64 implies pos[#[trigger] f[i] - 1] == i by {}
    assert forall|v: int| 1 <= v <= 64 implies 0 <= #[trigger] pos[v - 1] < 64 && f[pos[v - 1]]
        == v by {}
    lemma_cover_unique(f, pos, 64);
}

/// The Moon square satisfies the magic property.
#[verifier::rlimit(100)]
proof fn lemma_moon_magic()
    ensures
        is_magic(moon_rows(), 9),
{
    let sq = moon_rows();
    let f = moon_flat();
    let pos = moon_pos();
    reveal_with_fuel(flatten_sq, 11);
    assert(flatten_sq(sq) =~= f);
    reveal_with_fuel(row_sum, 11);
    assert forall|r: int| 0 <= r < 9 implies row_sum(sq[r]) == 369 by {
        if r == 0 {
            assert(row_sum(sq[0]) == 369);
        } else if r == 1 {
            assert(row_sum(sq[1]) == 369);
        } else if r == 2 {
            assert(row_sum(sq[2]) == 369);
        } else if r == 3 {
            assert(row_sum(sq[3]) == 369);
        } else if r == 4 {
            assert(row_sum(sq[4]) == 369);
        } else if r == 5 {
            assert(row_sum(sq[5]) == 369);
        } else if r == 6 {
            assert(row_sum(sq[6]) == 369);
        } else if r == 7 {
            assert(row_sum(sq[7]) == 369);
        } else {
            assert(row_sum(sq[8]) == 369);
        }
    }
    reveal_with_fuel(col_sum, 11);
    assert forall|c: int| 0 <= c < 9 implies col_sum(sq, c) == 369 by {
        if c == 0 {
            assert(col_sum(sq, 0) == 369);
        } else if c == 1 {
            assert(col_sum(sq, 1) == 369);
        } else if c == 2 {
            assert(col_sum(sq, 2) == 369);
        } else if c == 3 {
            assert(col_sum(sq, 3) == 369);
        } else if c == 4 {
            assert(col_sum(sq, 4) == 369);
        } else if c == 5 {
            assert(col_sum(sq, 5) == 369);
        } else if c == 6 {
            assert(col_sum(sq, 6) == 369);
        } else if c == 7 {
            assert(col_sum(sq, 7) == 369);
        } else {
            assert(col_sum(sq, 8) == 369);
        }
    }
    reveal_with_fuel(diag_main_sum, 11);
    assert(diag_main_sum(sq, 9) == 369);
    reveal_with_fuel(diag_anti_sum, 11);
    assert(diag_anti_sum(sq, 9, 9) == 369);
    assert forall|i: int| 0 <= i < 81 implies 1 <= #[trigger] f[i] <= 81 by {}
    assert forall|i: int| 0 <= i < 81 implies pos[#[trigger] f[i] - 1] == i by {}
    assert forall|v: int| 1 <= v <= 81 implies 0 <= #[trigger] pos[v - 1] < 81 && f[pos[v - 1]]
        == v by {}
    lemma_cover_unique(f, pos, 81);
}

/// The seven classical planetary squares.
#[derive(Clone, Copy, PartialEq, Eq, Structural)]
pub enum Planet {
    Saturn,
    Jupiter,
    Mars,
    Sun,
    Venus,
    Mercury,
    Moon,
}

impl Planet {
    /// The side length of this planet's square.
    pub open spec fn spec_size(self) -> int {
        match self {
            Planet::Saturn => 3,
            Planet::Jupiter => 4,
            Planet::Mars => 5,
            Planet::Sun => 6,
            Planet::Venus => 7,
            Planet::Mercury => 8,
            Planet::Moon => 9,
        }
    }

    /// This planet's square.
    pub open spec fn spec_square(self) -> Seq<Seq<u32>> {
        match self {
            Planet::Saturn => saturn_rows(),
            Planet::Jupiter => jupiter_rows(),
            Planet::Mars => mars_rows(),
            Planet::Sun => sun_rows(),
            Planet::Venus => venus_rows(),
            Planet::Mercury => mercury_rows(),
            Planet::Moon => moon_rows(),
        }
    }

    /// Returns the size of this planet's magic square.
    pub fn size(self) -> (n: usize)
        ensures
            n == self.spec_size(),
    {
        match self {
            Planet::Saturn => 3,
            Planet::Jupiter => 4,
            Planet::Mars => 5,
            Planet::Sun => 6,
            Planet::Venus => 7,
            Planet::Mercury => 8,
            Planet::Moon => 9,
        }
    }

    /// Returns the magic constant: the sum of each row, column and
    /// diagonal of this planet's square.
    pub fn magic_constant(self) -> (m: u32)
        ensures
            m == magic_sum(self.spec_size()),
    {
        let n = self.size() as u32;
        n * (n * n + 1) / 2
    }
}

/// Each planet's fixed square is magic: rows, columns and both diagonals
/// sum to the planet's magic constant, and the values 1 through n*n each
/// appear exactly once.
pub proof fn lemma_planet_square_magic(p: Planet)
    ensures
        is_magic(p.spec_square(), p.spec_size()),
{
    match p {
        Planet::Saturn => lemma_saturn_magic(),
        Planet::Jupiter => lemma_jupiter_magic(),
        Planet::Mars => lemma_mars_magic(),
        Planet::Sun => lemma_sun_magic(),
        Planet::Venus => lemma_venus_magic(),
        Planet::Mercury => lemma_mercury_magic(),
        Planet::Moon => lemma_moon_magic(),
    }
}


/// True when `pat` occurs in `t` as a contiguous run.
pub open spec fn contains_sub(t: Seq<char>, pat: Seq<char>) -> bool {
    exists|k: int|
        0 <= k && k + pat.len() <= t.len() && #[trigger] t.subrange(k, k + pat.len()) == pat
}

/// The position of the first occurrence of `pat` in `s`, or -1 when absent.
pub open spec fn first_occurrence(s: Seq<char>, pat: Seq<char>) -> int
    decreases s.len(),
{
    if pat.len() == 0 {
        0
    } else if s.len() < pat.len() {
        -1
    } else if s.subrange(0, pat.len() as int) == pat {
        0
    } else {
        let r = first_occurrence(s.drop_first(), pat);
        if r < 0 {
            -1
        } else {
            1 + r
        }
    }
}

/// What `first_occurrence` returns: the earliest position where `pat`
/// stands in `s`, or -1 when it stands nowhere.
pub proof fn lemma_first_occurrence(s: Seq<char>, pat: Seq<char>)
    requires
        pat.len() >= 1,
    ensures
        first_occurrence(s, pat) == -1 || (0 <= first_occurrence(s, pat) && first_occurrence(s, pat)
            + pat.len() <= s.len()),
        first_occurrence(s, pat) >= 0 ==> s.subrange(
            first_occurrence(s, pat),
            first_occurrence(s, pat) + pat.len() as int,
        ) == pat && forall|q: int|
            0 <= q < first_occurrence(s, pat) ==> #[trigger] s.subrange(q, q + pat.len() as int)
                != pat,
        first_occurrence(s, pat) == -1 ==> forall|q: int|
            0 <= q && q + pat.len() <= s.len() ==> #[trigger] s.subrange(q, q + pat.len() as int)
                != pat,
    decreases s.len(),
{
    let m = pat.len() as int;
    if s.len() < pat.len() {
    } else if s.subrange(0, m) == pat {
        assert(first_occurrence(s, pat) == 0);
    } else {
        lemma_first_occurrence(s.drop_first(), pat);
        assert forall|q: int| 1 <= q && q + m <= s.len() implies #[trigger] s.subrange(q, q + m)
            == s.drop_first().subrange(q - 1, q - 1 + m) by {
            assert(s.subrange(q, q + m) =~= s.drop_first().subrange(q - 1, q - 1 + m));
        }
    }
}

/// Each character of `s` as a one-character piece, in order.
pub open spec fn singleton_pieces(s: Seq<char>) -> Seq<Seq<char>>
    decreases s.len(),
{
    if s.len() == 0 {
        Seq::empty()
    } else {
        singleton_pieces(s.drop_last()) + seq![seq![s.last()]]
    }
}

/// The pieces of `s` between occurrences of `sep`, left to right. An empty
/// separator splits at every character boundary, the ends included.
pub open spec fn split_by(s: Seq<char>, sep: Seq<char>) -> Seq<Seq<char>>
    decreases s.len(),
{
    if sep.len() == 0 {
        seq![Seq::<char>::empty()] + singleton_pieces(s) + seq![Seq::<char>::empty()]
    } else {
        let k = first_occurrence(s, sep);
        if 0 <= k && k + sep.len() <= s.len() {
            seq![s.take(k)] + split_by(s.skip(k + sep.len() as int), sep)
        } else {
            seq![s]
        }
    }
}

/// True when `s` is a nonempty run of digit characters.
pub open spec fn all_digits(s: Seq<char>) -> bool {
    s.len() > 0 && forall|i: int| 0 <= i < s.len() ==> is_digit_char(#[trigger] s[i])
}

/// The number a run of digit characters writes out.
pub open spec fn digits_value(s: Seq<char>) -> int
    decreases s.len(),
{
    if s.len() == 0 {
        0
    } else {
        digits_value(s.drop_last()) * 10 + digit_value(s.last())
    }
}

/// The decimal digits of `n`, most significant first; empty when `n` is
/// not positive.
pub open spec fn dec_digits(n: int) -> Seq<char>
    decreases (if n > 0 { n } else { 0 }),
{
    if n <= 0 {
        Seq::empty()
    } else if n < 10 {
        seq![digit_char_of(n)]
    } else {
        dec_digits(n / 10).push(digit_char_of(n % 10))
    }
}

/// The first cell holding `v`, searched row by row: its 0-based row and
/// column.
pub open spec fn find_in_rows(sq: Seq<Seq<u32>>, v: u32) -> Option<(int, int)>
    decreases sq.len(),
{
    if sq.len() == 0 {
        None
    } else {
        let c = first_index(sq[0], v);
        if c >= 0 {
            Some((0int, c))
        } else {
            match find_in_rows(sq.drop_first(), v) {
                None => None,
                Some((r, cc)) => Some((r + 1, cc)),
            }
        }
    }
}

/// The token one character becomes: the 1-based coordinates of its
/// ordinal's cell, joined by the coordinate separator, when the ordinal
/// fits the square; the character itself otherwise.
pub open spec fn ms_token(sq: Seq<Seq<u32>>, size: int, csep: Seq<char>, c: char) -> Seq<char> {
    if is_letter(c) {
        let v = letter_offset(to_upper(c)) + 1;
        if v <= size * size {
            match find_in_rows(sq, v as u32) {
                Some((r, cc)) => dec_digits(r + 1) + csep + dec_digits(cc + 1),
                None => seq![c],
            }
        } else {
            seq![c]
        }
    } else {
        seq![c]
    }
}

/// The token of every character of the text, in order.
pub open spec fn ms_tokens(sq: Seq<Seq<u32>>, size: int, csep: Seq<char>, s: Seq<char>) -> Seq<
    Seq<char>,
>
    decreases s.len(),
{
    if s.len() == 0 {
        Seq::empty()
    } else {
        seq![ms_token(sq, size, csep, s[0])] + ms_tokens(sq, size, csep, s.drop_first())
    }
}

/// Tokens written out in order; the main separator stands only between two
/// consecutive tokens that hold the coordinate separator. `prev` says
/// whether such a token came just before.
pub open spec fn ms_join(
    tokens: Seq<Seq<char>>,
    prev: bool,
    sep: Seq<char>,
    csep: Seq<char>,
) -> Seq<char>
    decreases tokens.len(),
{
    if tokens.len() == 0 {
        Seq::empty()
    } else {
        (if prev && contains_sub(tokens[0], csep) {
            sep
        } else {
            Seq::empty()
        }) + tokens[0] + ms_join(tokens.drop_first(), contains_sub(tokens[0], csep), sep, csep)
    }
}

/// What encryption returns for a given square and pair of separators.
pub open spec fn ms_encrypt_spec(
    sq: Seq<Seq<u32>>,
    size: int,
    sep: Seq<char>,
    csep: Seq<char>,
    s: Seq<char>,
) -> Seq<char> {
    ms_join(ms_tokens(sq, size, csep, s), false, sep, csep)
}

/// What one piece of the split input decrypts to: a piece of the shape
/// row, coordinate separator, column, with both numbers in range, becomes
/// the letter of the value at that cell; every other piece stands as
/// itself.
pub open spec fn ms_decrypt_part(
    sq: Seq<Seq<u32>>,
    size: int,
    csep: Seq<char>,
    part: Seq<char>,
) -> Seq<char> {
    if contains_sub(part, csep) {
        let pieces = split_by(part, csep);
        if pieces.len() == 2 && all_digits(pieces[0]) && all_digits(pieces[1]) {
            let row = digits_value(pieces[0]);
            let col = digits_value(pieces[1]);
            if 1 <= row <= size && 1 <= col <= size && row - 1 < sq.len() && col - 1 < sq[row
                - 1].len() {
                let v = sq[row - 1][col - 1];
                if 1 <= v <= 26 {
                    seq![((64 + v) as char)]
                } else {
                    part
                }
            } else {
                part
            }
        } else {
            part
        }
    } else {
        part
    }
}

/// The decryption of every piece, written out in order.
pub open spec fn ms_decrypt_parts(
    sq: Seq<Seq<u32>>,
    size: int,
    csep: Seq<char>,
    parts: Seq<Seq<char>>,
) -> Seq<char>
    decreases parts.len(),
{
    if parts.len() == 0 {
        Seq::empty()
    } else {
        ms_decrypt_part(sq, size, csep, parts[0]) + ms_decrypt_parts(
            sq,
            size,
            csep,
            parts.drop_first(),
        )
    }
}

/// What decryption returns for a given square and pair of separators.
pub open spec fn ms_decrypt_spec(
    sq: Seq<Seq<u32>>,
    size: int,
    sep: Seq<char>,
    csep: Seq<char>,
    s: Seq<char>,
) -> Seq<char> {
    ms_decrypt_parts(sq, size, csep, split_by(s, sep))
}

/// True when `pat` occurs somewhere in `t`.
fn contains_exec(t: &Vec<char>, pat: &Vec<char>) -> (r: bool)
    ensures
        r == contains_sub(t@, pat@),
{
    if pat.len() == 0 {
        proof {
            assert(t@.subrange(0, 0 + pat@.len() as int) =~= pat@);
        }
        return true;
    }
    proof {
        assert(t@.skip(0) =~= t@);
        lemma_first_occurrence(t@, pat@);
    }
    match find_occ(t, 0, pat) {
        Some(_k) => true,
        None => {
            proof {
                assert forall|k: int|
                    0 <= k && k + pat@.len() <= t@.len() implies #[trigger] t@.subrange(
                    k,
                    k + pat@.len(),
                ) != pat@ by {}
            }
            false
        },
    }
}

/// The 0-based offset of the first run of `pat` at or after `from` in `s`.
fn find_occ(s: &Vec<char>, from: usize, pat: &Vec<char>) -> (r: Option<usize>)
    requires
        from <= s@.len(),
        pat@.len() >= 1,
    ensures
        match r {
            Some(k) => from + k + pat@.len() <= s@.len() && k as int == first_occurrence(
                s@.skip(from as int),
                pat@,
            ),
            None => first_occurrence(s@.skip(from as int), pat@) == -1,
        },
{
    let ghost sub = s@.skip(from as int);
    proof {
        lemma_first_occurrence(sub, pat@);
    }
    let m = pat.len();
    if m > s.len() - from {
        return None;
    }
    let last = s.len() - from - m;
    let mut k: usize = 0;
    while k <= last
        invariant
            sub == s@.skip(from as int),
            pat@.len() == m,
            1 <= m,
            from + m <= s@.len(),
            last == s@.len() - from - m,
            s@.len() <= usize::MAX,
            k <= last + 1,
            forall|q: int| 0 <= q < k ==> #[trigger] sub.subrange(q, q + pat@.len()) != pat@,
        decreases last + 1 - k,
    {
        let mut t: usize = 0;
        while t < m && s[from + k + t] == pat[t]
            invariant
                t <= m,
                m == pat@.len(),
                k <= last,
                last == s@.len() - from - m,
                s@.len() <= usize::MAX,
                sub == s@.skip(from as int),
                forall|u: int| 0 <= u < t ==> s@[from + k + u] == pat@[u],
            decreases m - t,
        {
            t += 1;
        }
        proof {
            assert forall|u: int| 0 <= u < m implies #[trigger] sub.subrange(k as int, k + m)[u]
                == s@[from + k + u] by {}
        }
        if t == m {
            proof {
                assert(sub.subrange(k as int, k + m) =~= pat@);
                lemma_first_occurrence(sub, pat@);
                let fo = first_occurrence(sub, pat@);
                if fo == -1 {
                    assert(sub.subrange(k as int, k + m) != pat@);
                }
                if 0 <= fo < k {
                    assert(sub.subrange(fo, fo + m) != pat@);
                }
                if fo > k {
                    assert(sub.subrange(k as int, k + m) != pat@);
                }
            }
            return Some(k);
        }
        proof {
            assert(s@[from + k + t] != pat@[t as int]);
            assert(sub.subrange(k as int, k + m)[t as int] != pat@[t as int]);
            assert(sub.subrange(k as int, k + m) != pat@);
        }
        k += 1;
    }
    proof {
        lemma_first_occurrence(sub, pat@);
        let fo = first_occurrence(sub, pat@);
        if fo >= 0 {
            assert(sub.subrange(fo, fo + m) == pat@);
            assert(fo < k);
        }
    }
    None
}

/// The characters of `s` between positions `a` and `b`.
fn copy_range(s: &Vec<char>, a: usize, b: usize) -> (out: Vec<char>)
    requires
        a <= b <= s@.len(),
    ensures
        out@ == s@.subrange(a as int, b as int),
{
    let mut out: Vec<char> = Vec::new();
    let mut i: usize = a;
    proof {
        assert(out@ =~= s@.subrange(a as int, a as int));
    }
    while i < b
        invariant
            a <= i <= b <= s@.len(),
            out@ == s@.subrange(a as int, i as int),
        decreases b - i,
    {
        out.push(s[i]);
        i += 1;
        proof {
            assert(out@ =~= s@.subrange(a as int, i as int));
        }
    }
    out
}

/// The pieces of `s` between occurrences of `sep`, as `split_by` lists
/// them.
fn split_exec(s: &Vec<char>, sep: &Vec<char>) -> (parts: Vec<Vec<char>>)
    ensures
        parts@.map_values(|p: Vec<char>| p@) == split_by(s@, sep@),
{
    let mut parts: Vec<Vec<char>> = Vec::new();
    if sep.len() == 0 {
        parts.push(Vec::new());
        proof {
            assert(s@.take(0) =~= Seq::<char>::empty());
            assert(parts@.map_values(|p: Vec<char>| p@) =~~= seq![Seq::<char>::empty()]
                + singleton_pieces(s@.take(0)));
        }
        let mut i: usize = 0;
        while i < s.len()
            invariant
                i <= s@.len(),
                parts@.map_values(|p: Vec<char>| p@) == seq![Seq::<char>::empty()]
                    + singleton_pieces(s@.take(i as int)),
            decreases s@.len() - i,
        {
            let mut one: Vec<char> = Vec::new();
            one.push(s[i]);
            let ghost one_view = one@;
            let ghost before = parts@.map_values(|p: Vec<char>| p@);
            parts.push(one);
            i += 1;
            proof {
                let views = parts@.map_values(|p: Vec<char>| p@);
                assert forall|q: int| 0 <= q < views.len() implies views[q] == (before + seq![
                    one_view,
                ])[q] by {
                    if q < views.len() - 1 {
                        assert(parts@[q] == parts@.subrange(0, parts@.len() - 1)[q]);
                    }
                }
                assert(views =~~= before + seq![one_view]);
                assert(s@.take(i as int).drop_last() =~= s@.take(i - 1));
                assert(s@.take(i as int).last() == s@[i - 1]);
                assert(one_view =~= seq![s@[i - 1]]);
                assert(views =~~= seq![Seq::<char>::empty()] + singleton_pieces(s@.take(i as int)));
            }
        }
        parts.push(Vec::new());
        proof {
            assert(s@.take(s@.len() as int) =~= s@);
            assert(parts@.map_values(|p: Vec<char>| p@) =~~= split_by(s@, sep@));
        }
        return parts;
    }
    let n = s.len();
    let mut p: usize = 0;
    let mut done = false;
    proof {
        assert(n == s@.len());
        assert(s@.skip(0) =~= s@);
    }
    while !done
        invariant
            p <= s@.len(),
            s@.len() <= usize::MAX,
            sep@.len() >= 1,
            !done ==> split_by(s@, sep@) == parts@.map_values(|x: Vec<char>| x@) + split_by(
                s@.skip(p as int),
                sep@,
            ),
            done ==> split_by(s@, sep@) == parts@.map_values(|x: Vec<char>| x@),
        decreases s@.len() - p + (if done {
            0int
        } else {
            1int
        }),
    {
        let ghost old_views = parts@.map_values(|x: Vec<char>| x@);
        let ghost tail = s@.skip(p as int);
        match find_occ(s, p, sep) {
            Some(k) => {
                let piece = copy_range(s, p, p + k);
                parts.push(piece);
                p = p + k + sep.len();
                proof {
                    assert(tail.take(k as int) =~= s@.subrange(p - k - sep@.len(), p - sep@.len()));
                    assert(tail.skip(k + sep@.len()) =~= s@.skip(p as int));
                    assert(split_by(tail, sep@) == seq![tail.take(k as int)] + split_by(
                        s@.skip(p as int),
                        sep@,
                    ));
                    assert(parts@.map_values(|x: Vec<char>| x@) =~~= old_views + seq![
                        tail.take(k as int),
                    ]);
                    assert((old_views + seq![tail.take(k as int)]) + split_by(
                        s@.skip(p as int),
                        sep@,
                    ) =~~= old_views + (seq![tail.take(k as int)] + split_by(
                        s@.skip(p as int),
                        sep@,
                    )));
                }
            },
            None => {
                let piece = copy_range(s, p, s.len());
                parts.push(piece);
                done = true;
                proof {
                    assert(piece@ =~= tail);
                    assert(split_by(tail, sep@) == seq![tail]);
                    assert(parts@.map_values(|x: Vec<char>| x@) =~~= old_views + seq![tail]);
                    assert(old_views + seq![tail] =~~= old_views + split_by(tail, sep@));
                }
            },
        }
    }
    parts
}

/// The number a piece writes out, when it is all digits and lies in
/// 1 through `size`.
fn parse_in_range(piece: &Vec<char>, size: usize) -> (r: Option<u32>)
    requires
        size <= 9,
    ensures
        match r {
            Some(v) => all_digits(piece@) && 1 <= v <= size && v as int == digits_value(piece@),
            None => !(all_digits(piece@) && 1 <= digits_value(piece@) && digits_value(piece@)
                <= size),
        },
{
    if piece.len() == 0 {
        return None;
    }
    let mut value: u32 = 0;
    let mut i: usize = 0;
    proof {
        assert(piece@.take(0) =~= Seq::<char>::empty());
    }
    while i < piece.len()
        invariant
            i <= piece@.len(),
            forall|j: int| 0 <= j < i ==> is_digit_char(#[trigger] piece@[j]),
            digits_value(piece@.take(i as int)) >= 0,
            value <= 101,
            digits_value(piece@.take(i as int)) <= 100 ==> value as int == digits_value(
                piece@.take(i as int),
            ),
            digits_value(piece@.take(i as int)) > 100 ==> value == 101,
        decreases piece@.len() - i,
    {
        let c = piece[i];
        if !digit_char(c) {
            return None;
        }
        let d = (c as u32) - 48;
        let vv = value * 10 + d;
        proof {
            assert(piece@.take(i + 1).drop_last() =~= piece@.take(i as int));
            assert(piece@.take(i + 1).last() == piece@[i as int]);
            let dv = digits_value(piece@.take(i as int));
            assert(digits_value(piece@.take(i + 1)) == dv * 10 + digit_value(piece@[i as int]));
        }
        if vv > 100 {
            value = 101;
        } else {
            value = vv;
        }
        i += 1;
    }
    proof {
        assert(piece@.take(piece@.len() as int) =~= piece@);
    }
    if 1 <= value && value <= size as u32 {
        Some(value)
    } else {
        None
    }
}

/// The 0-based position of the first cell of `row` holding `v`.
fn row_find(row: &Vec<u32>, v: u32) -> (r: Option<usize>)
    ensures
        match r {
            Some(c) => c < row@.len() && c as int == first_index(row@, v),
            None => first_index(row@, v) == -1,
        },
{
    proof {
        lemma_first_index(row@, v);
    }
    let mut c: usize = 0;
    while c < row.len()
        invariant
            c <= row@.len(),
            forall|j: int| 0 <= j < c ==> row@[j] != v,
        decreases row@.len() - c,
    {
        if row[c] == v {
            proof {
                lemma_first_index(row@, v);
                let f = first_index(row@, v);
                assert(f >= 0);
                if f < c {
                    assert(row@[f] != v);
                }
                if f > c {
                    assert(row@[c as int] != v);
                }
            }
            return Some(c);
        }
        c += 1;
    }
    None
}

/// Planetary magic-square cipher: a fixed square, the separator between
/// coordinate tokens, and the separator inside one token.
pub struct MagicSquare {
    square: Vec<Vec<u32>>,
    size: usize,
    separator: Vec<char>,
    coord_separator: Vec<char>,
}

impl MagicSquare {
    #[verifier::type_invariant]
    spec fn wf(self) -> bool {
        &&& 3 <= self.size <= 9
        &&& self.square@.len() == self.size
        &&& forall|r: int|
            0 <= r < self.square@.len() ==> (#[trigger] self.square@[r])@.len() == self.size
    }

    /// The square's rows.
    pub closed spec fn spec_square(self) -> Seq<Seq<u32>> {
        self.square@.map_values(|row: Vec<u32>| row@)
    }

    /// The square's side length.
    pub closed spec fn spec_size(self) -> int {
        self.size as int
    }

    /// The separator between coordinate tokens.
    pub closed spec fn spec_sep(self) -> Seq<char> {
        self.separator@
    }

    /// The separator between the row and column of one token.
    pub closed spec fn spec_csep(self) -> Seq<char> {
        self.coord_separator@
    }

    /// The stored square, row by row.
    pub fn square(&self) -> (r: &Vec<Vec<u32>>)
        ensures
            r@.map_values(|row: Vec<u32>| row@) == self.spec_square(),
            r@.len() == self.spec_size(),
    {
        proof {
            use_type_invariant(&*self);
        }
        &self.square
    }

    fn generate_square(planet: Planet) -> (g: Vec<Vec<u32>>)
        ensures
            g@.map_values(|row: Vec<u32>| row@) == planet.spec_square(),
            g@.len() == planet.spec_size(),
            forall|r: int| 0 <= r < g@.len() ==> (#[trigger] g@[r])@.len() == planet.spec_size(),
    {
        match planet {
            Planet::Saturn => Self::saturn_square(),
            Planet::Jupiter => Self::jupiter_square(),
            Planet::Mars => Self::mars_square(),
            Planet::Sun => Self::sun_square(),
            Planet::Venus => Self::venus_square(),
            Planet::Mercury => Self::mercury_square(),
            Planet::Moon => Self::moon_square(),
        }
    }

    fn saturn_square() -> (g: Vec<Vec<u32>>)
        ensures
            g@.map_values(|row: Vec<u32>| row@) == saturn_rows(),
            g@.len() == 3,
            forall|r: int| 0 <= r < g@.len() ==> (#[trigger] g@[r])@.len() == 3,
    {
        let g: Vec<Vec<u32>> = vec![
            vec![2u32, 7, 6],
            vec![9u32, 5, 1],
            vec![4u32, 3, 8],
        ];
        proof {
            assert(g@.map_values(|row: Vec<u32>| row@) =~~= saturn_rows());
            assert forall|r: int| 0 <= r < g@.len() implies (#[trigger] g@[r])@.len() == 3 by {
                assert(g@[r]@ == saturn_rows()[r]);
            }
        }
        g
    }

    fn jupiter_square() -> (g: Vec<Vec<u32>>)
        ensures
            g@.map_values(|row: Vec<u32>| row@) == jupiter_rows(),
            g@.len() == 4,
            forall|r: int| 0 <= r < g@.len() ==> (#[trigger] g@[r])@.len() == 4,
    {
        let g: Vec<Vec<u32>> = vec![
            vec![4u32, 14, 15, 1],
            vec![9u32, 7, 6, 12],
            vec![5u32, 11, 10, 8],
            vec![16u32, 2, 3, 13],
        ];
        proof {
            assert(g@.map_values(|row: Vec<u32>| row@) =~~= jupiter_rows());
            assert forall|r: int| 0 <= r < g@.len() implies (#[trigger] g@[r])@.len() == 4 by {
                assert(g@[r]@ == jupiter_rows()[r]);
            }
        }
        g
    }

    fn mars_square() -> (g: Vec<Vec<u32>>)
        ensures
            g@.map_values(|row: Vec<u32>| row@) == mars_rows(),
            g@.len() == 5,
            forall|r: int| 0 <= r < g@.len() ==> (#[trigger] g@[r])@.len() == 5,
    {
        let g: Vec<Vec<u32>> = vec![
            vec![11u32, 24, 7, 20, 3],
            vec![4u32, 12, 25, 8, 16],
            vec![17u32, 5, 13, 21, 9],
            vec![10u32, 18, 1, 14, 22],
            vec![23u32, 6, 19, 2, 15],
        ];
        proof {
            assert(g@.map_values(|row: Vec<u32>| row@) =~~= mars_rows());
            assert forall|r: int| 0 <= r < g@.len() implies (#[trigger] g@[r])@.len() == 5 by {
                assert(g@[r]@ == mars_rows()[r]);
            }
        }
        g
    }

    fn sun_square() -> (g: Vec<Vec<u32>>)
        ensures
            g@.map_values(|row: Vec<u32>| row@) == sun_rows(),
            g@.len() == 6,
            forall|r: int| 0 <= r < g@.len() ==> (#[trigger] g@[r])@.len() == 6,
    {
        let g: Vec<Vec<u32>> = vec![
            vec![6u32, 32, 3, 34, 35, 1],
            vec![7u32, 11, 27, 28, 8, 30],
            vec![19u32, 14, 16, 15, 23, 24],
            vec![18u32, 20, 22, 21, 17, 13],
            vec![25u32, 29, 10, 9, 26, 12],
            vec![36u32, 5, 33, 4, 2, 31],
        ];
        proof {
            assert(g@.map_values(|row: Vec<u32>| row@) =~~= sun_rows());
            assert forall|r: int| 0 <= r < g@.len() implies (#[trigger] g@[r])@.len() == 6 by {
                assert(g@[r]@ == sun_rows()[r]);
            }
        }
        g
    }

    fn venus_square() -> (g: Vec<Vec<u32>>)
        ensures
            g@.map_values(|row: Vec<u32>| row@) == venus_rows(),
            g@.len() == 7,
            forall|r: int| 0 <= r < g@.len() ==> (#[trigger] g@[r])@.len() == 7,
    {
        let g: Vec<Vec<u32>> = vec![
            vec![22u32, 47, 16, 41, 10, 35, 4],
            vec![5u32, 23, 48, 17, 42, 11, 29],
            vec![30u32, 6, 24, 49, 18, 36, 12],
            vec![13u32, 31, 7, 25, 43, 19, 37],
            vec![38u32, 14, 32, 1, 26, 44, 20],
            vec![21u32, 39, 8, 33, 2, 27, 45],
            vec![46u32, 15, 40, 9, 34, 3, 28],
        ];
        proof {
            assert(g@.map_values(|row: Vec<u32>| row@) =~~= venus_rows());
            assert forall|r: int| 0 <= r < g@.len() implies (#[trigger] g@[r])@.len() == 7 by {
                assert(g@[r]@ == venus_rows()[r]);
            }
        }
        g
    }

    fn mercury_square() -> (g: Vec<Vec<u32>>)
        ensures
            g@.map_values(|row: Vec<u32>| row@) == mercury_rows(),
            g@.len() == 8,
            forall|r: int| 0 <= r < g@.len() ==> (#[trigger] g@[r])@.len() == 8,
    {
        let g: Vec<Vec<u32>> = vec![
            vec![8u32, 58, 59, 5, 4, 62, 63, 1],
            vec![49u32, 15, 14, 52, 53, 11, 10, 56],
            vec![41u32, 23, 22, 44, 45, 19, 18, 48],
            vec![32u32, 34, 35, 29, 28, 38, 39, 25],
            vec![40u32, 26, 27, 37, 36, 30, 31, 33],
            vec![17u32, 47, 46, 20, 21, 43, 42, 24],
            vec![9u32, 55, 54, 12, 13, 51, 50, 16],
            vec![64u32, 2, 3, 61, 60, 6, 7, 57],
        ];
        proof {
            assert(g@.map_values(|row: Vec<u32>| row@) =~~= mercury_rows());
            assert forall|r: int| 0 <= r < g@.len() implies (#[trigger] g@[r])@.len() == 8 by {
                assert(g@[r]@ == mercury_rows()[r]);
            }
        }
        g
    }

    fn moon_square() -> (g: Vec<Vec<u32>>)
        ensures
            g@.map_values(|row: Vec<u32>| row@) == moon_rows(),
            g@.len() == 9,
            forall|r: int| 0 <= r < g@.len() ==> (#[trigger] g@[r])@.len() == 9,
    {
        let g: Vec<Vec<u32>> = vec![
            vec![37u32, 78, 29, 70, 21, 62, 13, 54, 5],
            vec![6u32, 38, 79, 30, 71, 22, 63, 14, 46],
            vec![47u32, 7, 39, 80, 31, 72, 23, 55, 15],
            vec![16u32, 48, 8, 40, 81, 32, 64, 24, 56],
            vec![57u32, 17, 49, 9, 41, 73, 33, 65, 25],
            vec![26u32, 58, 18, 50, 1, 42, 74, 34, 66],
            vec![67u32, 27, 59, 10, 51, 2, 43, 75, 35],
            vec![36u32, 68, 19, 60, 11, 52, 3, 44, 76],
            vec![77u32, 28, 69, 20, 61, 12, 53, 4, 45],
        ];
        proof {
            assert(g@.map_values(|row: Vec<u32>| row@) =~~= moon_rows());
            assert forall|r: int| 0 <= r < g@.len() implies (#[trigger] g@[r])@.len() == 9 by {
                assert(g@[r]@ == moon_rows()[r]);
            }
        }
        g
    }


    /// Creates a magic square cipher for the given planet, writing " "
    /// between coordinate tokens and "," inside them.
    pub fn new(planet: Planet) -> (r: Self)
        ensures
            r.spec_square() == planet.spec_square(),
            r.spec_size() == planet.spec_size(),
            r.spec_sep() == seq![' '],
            r.spec_csep() == seq![','],
    {
        let square = Self::generate_square(planet);
        let size = planet.size();
        let separator: Vec<char> = vec![' '];
        let coord_separator: Vec<char> = vec![','];
        let r = MagicSquare { square, size, separator, coord_separator };
        proof {
            assert(r.spec_sep() =~= seq![' ']);
            assert(r.spec_csep() =~= seq![',']);
        }
        r
    }

    /// The Saturn cipher, 3 by 3.
    pub fn saturn() -> (r: Self)
        ensures
            r.spec_square() == saturn_rows(),
            r.spec_size() == 3,
            r.spec_sep() == seq![' '],
            r.spec_csep() == seq![','],
    {
        Self::new(Planet::Saturn)
    }

    /// The Jupiter cipher, 4 by 4.
    pub fn jupiter() -> (r: Self)
        ensures
            r.spec_square() == jupiter_rows(),
            r.spec_size() == 4,
            r.spec_sep() == seq![' '],
            r.spec_csep() == seq![','],
    {
        Self::new(Planet::Jupiter)
    }

    /// The Mars cipher, 5 by 5.
    pub fn mars() -> (r: Self)
        ensures
            r.spec_square() == mars_rows(),
            r.spec_size() == 5,
            r.spec_sep() == seq![' '],
            r.spec_csep() == seq![','],
    {
        Self::new(Planet::Mars)
    }

    /// The Sun cipher, 6 by 6.
    pub fn sun() -> (r: Self)
        ensures
            r.spec_square() == sun_rows(),
            r.spec_size() == 6,
            r.spec_sep() == seq![' '],
            r.spec_csep() == seq![','],
    {
        Self::new(Planet::Sun)
    }

    /// The Venus cipher, 7 by 7.
    pub fn venus() -> (r: Self)
        ensures
            r.spec_square() == venus_rows(),
            r.spec_size() == 7,
            r.spec_sep() == seq![' '],
            r.spec_csep() == seq![','],
    {
        Self::new(Planet::Venus)
    }

    /// The Mercury cipher, 8 by 8.
    pub fn mercury() -> (r: Self)
        ensures
            r.spec_square() == mercury_rows(),
            r.spec_size() == 8,
            r.spec_sep() == seq![' '],
            r.spec_csep() == seq![','],
    {
        Self::new(Planet::Mercury)
    }

    /// The Moon cipher, 9 by 9.
    pub fn moon() -> (r: Self)
        ensures
            r.spec_square() == moon_rows(),
            r.spec_size() == 9,
            r.spec_sep() == seq![' '],
            r.spec_csep() == seq![','],
    {
        Self::new(Planet::Moon)
    }

    /// The same cipher with `sep` written between coordinate tokens.
    pub fn with_separator(self, sep: &str) -> (r: Self)
        ensures
            r.spec_square() == self.spec_square(),
            r.spec_size() == self.spec_size(),
            r.spec_sep() == sep@,
            r.spec_csep() == self.spec_csep(),
    {
        proof {
            use_type_invariant(&self);
        }
        MagicSquare {
            square: self.square,
            size: self.size,
            separator: str_to_chars(sep),
            coord_separator: self.coord_separator,
        }
    }

    /// The same cipher with `sep` written between the row and column of
    /// one token.
    pub fn with_coord_separator(self, sep: &str) -> (r: Self)
        ensures
            r.spec_square() == self.spec_square(),
            r.spec_size() == self.spec_size(),
            r.spec_sep() == self.spec_sep(),
            r.spec_csep() == sep@,
    {
        proof {
            use_type_invariant(&self);
        }
        MagicSquare {
            square: self.square,
            size: self.size,
            separator: self.separator,
            coord_separator: str_to_chars(sep),
        }
    }

    /// The largest letter ordinal this square can encode.
    pub fn max_value(&self) -> (m: u32)
        ensures
            m == self.spec_size() * self.spec_size(),
    {
        proof {
            use_type_invariant(&*self);
            assert(self.size * self.size <= 81) by (nonlinear_arith)
                requires
                    self.size <= 9,
            ;
        }
        (self.size * self.size) as u32
    }

    /// The 0-based row and column of the first cell holding `v`.
    fn find_value(&self, v: u32) -> (r: Option<(usize, usize)>)
        ensures
            match r {
                Some((row, col)) => row < self.spec_size() && col < self.spec_size()
                    && find_in_rows(self.spec_square(), v) == Some((row as int, col as int)),
                None => find_in_rows(self.spec_square(), v) is None,
            },
    {
        proof {
            use_type_invariant(&*self);
        }
        let ghost sq = self.spec_square();
        let mut r: usize = 0;
        proof {
            assert(sq.skip(0) =~= sq);
        }
        while r < self.square.len()
            invariant
                r <= self.square@.len(),
                sq == self.spec_square(),
                self.wf(),
                sq.len() == self.square@.len(),
                forall|q: int| 0 <= q < sq.len() ==> #[trigger] sq[q] == self.square@[q]@,
                match find_in_rows(sq.skip(r as int), v) {
                    Some((rr, cc)) => find_in_rows(sq, v) == Some((rr + r, cc)),
                    None => find_in_rows(sq, v) is None,
                },
            decreases self.square@.len() - r,
        {
            let ghost rest = sq.skip(r as int);
            proof {
                assert(rest[0] == sq[r as int]);
                assert(rest.drop_first() =~= sq.skip(r + 1));
            }
            match row_find(&self.square[r], v) {
                Some(c) => {
                    return Some((r, c));
                },
                None => {
                },
            }
            r += 1;
        }
        proof {
            assert(sq.skip(sq.len() as int) =~= Seq::<Seq<u32>>::empty());
        }
        None
    }

    /// The coordinate token of a letter, when its ordinal fits the square
    /// and is found in it.
    fn encode_letter(&self, c: char) -> (r: Option<Vec<char>>)
        requires
            is_letter(c),
        ensures
            match r {
                Some(t) => t@ == ms_token(self.spec_square(), self.spec_size(), self.spec_csep(), c)
                    && t@ != seq![c],
                None => ms_token(self.spec_square(), self.spec_size(), self.spec_csep(), c)
                    == seq![c],
            },
{
        proof {
            use_type_invariant(&*self);
        }
        let u = upper_char(c);
        let v: u32 = (u as u32) - 64;
        let maxv = self.max_value();
        if v > maxv {
            return None;
        }
        match self.find_value(v) {
            Some((row, col)) => {
                let mut t: Vec<char> = Vec::new();
                t.push(digit_of((row + 1) as u8));
                let mut j: usize = 0;
                while j < self.coord_separator.len()
                    invariant
                        j <= self.coord_separator@.len(),
                        t@ == seq![digit_char_of(row + 1)] + self.coord_separator@.take(j as int),
                    decreases self.coord_separator@.len() - j,
                {
                    t.push(self.coord_separator[j]);
                    j += 1;
                    proof {
                        assert(t@ =~= seq![digit_char_of(row + 1)] + self.coord_separator@.take(
                            j as int,
                        ));
                    }
                }
                t.push(digit_of((col + 1) as u8));
                proof {
                    assert(self.coord_separator@.take(self.coord_separator@.len() as int)
                        =~= self.coord_separator@);
                    assert(dec_digits(row + 1) == seq![digit_char_of(row + 1)]);
                    assert(dec_digits(col + 1) == seq![digit_char_of(col + 1)]);
                    assert(t@ =~= dec_digits(row + 1) + self.spec_csep() + dec_digits(col + 1));
                    assert(t@[0] == digit_char_of(row + 1));
                    assert(t@.len() >= 2);
                    assert(t@ != seq![c]);
                }
                Some(t)
            },
            None => None,
        }
    }

    /// What one piece of the split input decrypts to.
    fn decrypt_part(&self, part: &Vec<char>) -> (out: Vec<char>)
        ensures
            out@ == ms_decrypt_part(self.spec_square(), self.spec_size(), self.spec_csep(), part@),
    {
        proof {
            use_type_invariant(&*self);
        }
        if contains_exec(part, &self.coord_separator) {
            let pieces = split_exec(part, &self.coord_separator);
            if pieces.len() == 2 {
                proof {
                    assert(pieces@.map_values(|p: Vec<char>| p@)[0] == pieces@[0]@);
                    assert(pieces@.map_values(|p: Vec<char>| p@)[1] == pieces@[1]@);
                }
                let p0 = parse_in_range(&pieces[0], self.size);
                let p1 = parse_in_range(&pieces[1], self.size);
                match (p0, p1) {
                    (Some(row), Some(col)) => {
                        let v = self.square[(row - 1) as usize][(col - 1) as usize];
                        if 1 <= v && v <= 26 {
                            let mut out: Vec<char> = Vec::new();
                            out.push(((64 + v) as u8) as char);
                            proof {
                                assert(out@ =~= seq![((64 + v) as char)]);
                            }
                            return out;
                        }
                        copy_range(part, 0, part.len())
                    },
                    _ => copy_range(part, 0, part.len()),
                }
            } else {
                copy_range(part, 0, part.len())
            }
        } else {
            copy_range(part, 0, part.len())
        }
    }
}

impl Cipher for MagicSquare {
    open spec fn enc_spec(&self, s: Seq<char>) -> Seq<char> {
        ms_encrypt_spec(self.spec_square(), self.spec_size(), self.spec_sep(), self.spec_csep(), s)
    }

    open spec fn dec_spec(&self, s: Seq<char>) -> Seq<char> {
        ms_decrypt_spec(self.spec_square(), self.spec_size(), self.spec_sep(), self.spec_csep(), s)
    }

    #[verifier::rlimit(100)]
    fn encrypt(&self, input: &str) -> (r: String) {
        proof {
            use_type_invariant(&*self);
        }
        let chars = str_to_chars(input);
        let mut out: Vec<char> = Vec::new();
        let mut prev: bool = false;
        let mut i: usize = 0;
        let ghost sq = self.spec_square();
        let ghost total = ms_encrypt_spec(sq, self.spec_size(), self.spec_sep(), self.spec_csep(), input@);
        proof {
            assert(input@.skip(0) =~= input@);
        }
        while i < chars.len()
            invariant
                i <= chars@.len(),
                chars@ == input@,
                sq == self.spec_square(),
                total == ms_encrypt_spec(sq, self.spec_size(), self.spec_sep(), self.spec_csep(), input@),
                total == out@ + ms_join(
                    ms_tokens(sq, self.spec_size(), self.spec_csep(), input@.skip(i as int)),
                    prev,
                    self.spec_sep(),
                    self.spec_csep(),
                ),
            decreases chars@.len() - i,
        {
            let c = chars[i];
            let ghost rest = input@.skip(i as int);
            proof {
                assert(rest[0] == input@[i as int]);
                assert(rest.drop_first() =~= input@.skip(i + 1));
            }
            let tok: Vec<char> = if letter(c) {
                match self.encode_letter(c) {
                    Some(t) => t,
                    None => {
                        let mut one: Vec<char> = Vec::new();
                        one.push(c);
                        proof {
                            assert(one@ =~= seq![c]);
                        }
                        one
                    },
                }
            } else {
                let mut one: Vec<char> = Vec::new();
                one.push(c);
                proof {
                    assert(one@ =~= seq![c]);
                }
                one
            };
            proof {
                assert(tok@ == ms_token(sq, self.spec_size(), self.spec_csep(), rest[0]));
            }
            let has = contains_exec(&tok, &self.coord_separator);
            if prev && has {
                let mut j: usize = 0;
                let ghost base = out@;
                while j < self.separator.len()
                    invariant
                        j <= self.separator@.len(),
                        out@ == base + self.separator@.take(j as int),
                    decreases self.separator@.len() - j,
                {
                    out.push(self.separator[j]);
                    j += 1;
                    proof {
                        assert(out@ =~= base + self.separator@.take(j as int));
                    }
                }
                proof {
                    assert(self.separator@.take(self.separator@.len() as int) =~= self.separator@);
                }
            }
            let mut j: usize = 0;
            let ghost base2 = out@;
            while j < tok.len()
                invariant
                    j <= tok@.len(),
                    out@ == base2 + tok@.take(j as int),
                decreases tok@.len() - j,
            {
                out.push(tok[j]);
                j += 1;
                proof {
                    assert(out@ =~= base2 + tok@.take(j as int));
                }
            }
            proof {
                assert(tok@.take(tok@.len() as int) =~= tok@);
            }
            prev = has;
            i += 1;
            proof {
                let toks = ms_tokens(sq, self.spec_size(), self.spec_csep(), rest);
                assert(toks[0] == tok@);
                assert(toks.drop_first() =~= ms_tokens(
                    sq,
                    self.spec_size(),
                    self.spec_csep(),
                    input@.skip(i as int),
                ));
                assert(total =~= out@ + ms_join(
                    ms_tokens(sq, self.spec_size(), self.spec_csep(), input@.skip(i as int)),
                    prev,
                    self.spec_sep(),
                    self.spec_csep(),
                ));
            }
        }
        proof {
            assert(input@.skip(input@.len() as int) =~= Seq::<char>::empty());
            assert(total =~= out@);
        }
        chars_to_string(&out)
    }

    fn decrypt(&self, input: &str) -> (r: String) {
        proof {
            use_type_invariant(&*self);
        }
        let chars = str_to_chars(input);
        let parts = split_exec(&chars, &self.separator);
        let ghost part_views = parts@.map_values(|x: Vec<char>| x@);
        let mut out: Vec<char> = Vec::new();
        let mut i: usize = 0;
        proof {
            assert(part_views.skip(0) =~= part_views);
        }
        while i < parts.len()
            invariant
                i <= parts@.len(),
                part_views == parts@.map_values(|x: Vec<char>| x@),
                part_views == split_by(input@, self.spec_sep()),
                ms_decrypt_spec(
                    self.spec_square(),
                    self.spec_size(),
                    self.spec_sep(),
                    self.spec_csep(),
                    input@,
                ) == out@ + ms_decrypt_parts(
                    self.spec_square(),
                    self.spec_size(),
                    self.spec_csep(),
                    part_views.skip(i as int),
                ),
            decreases parts@.len() - i,
        {
            let ghost rest = part_views.skip(i as int);
            proof {
                assert(rest[0] == part_views[i as int]);
                assert(rest.drop_first() =~= part_views.skip(i + 1));
                assert(part_views[i as int] == parts@[i as int]@);
            }
            let piece = self.decrypt_part(&parts[i]);
            let mut j: usize = 0;
            let ghost base = out@;
            while j < piece.len()
                invariant
                    j <= piece@.len(),
                    out@ == base + piece@.take(j as int),
                decreases piece@.len() - j,
            {
                out.push(piece[j]);
                j += 1;
                proof {
                    assert(out@ =~= base + piece@.take(j as int));
                }
            }
            proof {
                assert(piece@.take(piece@.len() as int) =~= piece@);
            }
            i += 1;
            proof {
                assert(ms_decrypt_spec(
                    self.spec_square(),
                    self.spec_size(),
                    self.spec_sep(),
                    self.spec_csep(),
                    input@,
                ) =~= out@ + ms_decrypt_parts(
                    self.spec_square(),
                    self.spec_size(),
                    self.spec_csep(),
                    part_views.skip(i as int),
                ));
            }
        }
        proof {
            assert(part_views.skip(part_views.len() as int) =~= Seq::<Seq<char>>::empty());
            assert(ms_decrypt_spec(
                self.spec_square(),
                self.spec_size(),
                self.spec_sep(),
                self.spec_csep(),
                input@,
            ) =~= out@);
        }
        chars_to_string(&out)
    }
}

} // verus!
