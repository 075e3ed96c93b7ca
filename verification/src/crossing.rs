//! How much the strain between two columns weighs.

use crate::binary64::Binary64;
use vstd::prelude::*;

verus! {

/// The bits of -1.
pub const MINUS_ONE: u64 = 0xbff0_0000_0000_0000;

/// The bits of 0.05.
pub const POINT_05: u64 = 0x3fa9_9999_9999_999a;

/// The bits of 0.075.
pub const POINT_075: u64 = 0x3fb3_3333_3333_3333;

/// The bits of 0.125.
pub const POINT_125: u64 = 0x3fc0_0000_0000_0000;

/// The bits of 0.175.
pub const POINT_175: u64 = 0x3fc6_6666_6666_6666;

/// The bits of 0.225.
pub const POINT_225: u64 = 0x3fcc_cccc_cccc_cccd;

/// The bits of 0.25.
pub const POINT_25: u64 = 0x3fd0_0000_0000_0000;

/// The bits of 0.275.
pub const POINT_275: u64 = 0x3fd1_9999_9999_999a;

/// The bits of 0.325.
pub const POINT_325: u64 = 0x3fd4_cccc_cccc_cccd;

/// The bits of 0.35.
pub const POINT_35: u64 = 0x3fd6_6666_6666_6666;

/// The bits of 0.45.
pub const POINT_45: u64 = 0x3fdc_cccc_cccc_cccd;

/// The bits of 0.55.
pub const POINT_55: u64 = 0x3fe1_9999_9999_999a;

/// The greatest number of columns that has weights of its own.
pub const WEIGHED_COLUMNS: usize = 10;

/// The weights of the gaps between columns, for each number of columns from 0 on: one more
/// than there are columns, from the left edge of the keyboard to the right.
pub const CROSS_COEFFICIENTS: [u64; 66] = [
    MINUS_ONE,
    POINT_075, POINT_075,
    POINT_125, POINT_05, POINT_125,
    POINT_125, POINT_125, POINT_125, POINT_125,
    POINT_175, POINT_25, POINT_05, POINT_25, POINT_175,
    POINT_175, POINT_25, POINT_175, POINT_175, POINT_25, POINT_175,
    POINT_225, POINT_35, POINT_25, POINT_05, POINT_25, POINT_35, POINT_225,
    POINT_225, POINT_35, POINT_25, POINT_225, POINT_225, POINT_25, POINT_35, POINT_225,
    POINT_275, POINT_45, POINT_35, POINT_25, POINT_05, POINT_25, POINT_35, POINT_45, POINT_275,
    POINT_275, POINT_45, POINT_35, POINT_25, POINT_275, POINT_275, POINT_25, POINT_35, POINT_45,
    POINT_275,
    POINT_325, POINT_55, POINT_45, POINT_35, POINT_25, POINT_05, POINT_25, POINT_35, POINT_45,
    POINT_55, POINT_325,
];

/// Where the weights for each number of columns begin.
pub const CROSS_ROWS: [usize; 11] = [0, 1, 3, 6, 10, 15, 21, 28, 36, 45, 55];

/// Which weights a map with the given number of columns has.
pub open spec fn cross_row(total_columns: usize) -> int {
    if total_columns < WEIGHED_COLUMNS {
        total_columns as int
    } else {
        WEIGHED_COLUMNS as int
    }
}

/// The weight of the gap left of `column`; a gap beyond the last weight has the last.
pub open spec fn cross_coefficient_of(total_columns: usize, column: usize) -> Binary64 {
    let row = cross_row(total_columns);
    Binary64 {
        bits: CROSS_COEFFICIENTS[CROSS_ROWS[row] + if column < row {
            column as int
        } else {
            row
        }],
    }
}

proof fn lemma_rows()
    ensures
        CROSS_ROWS[0] == 0,
        CROSS_ROWS[1] == 1,
        CROSS_ROWS[2] == 3,
        CROSS_ROWS[3] == 6,
        CROSS_ROWS[4] == 10,
        CROSS_ROWS[5] == 15,
        CROSS_ROWS[6] == 21,
        CROSS_ROWS[7] == 28,
        CROSS_ROWS[8] == 36,
        CROSS_ROWS[9] == 45,
        CROSS_ROWS[10] == 55,
{
}

proof fn lemma_coefficients()
    ensures
        CROSS_COEFFICIENTS[1] == CROSS_COEFFICIENTS[2],
        CROSS_COEFFICIENTS[3] == CROSS_COEFFICIENTS[5],
        CROSS_COEFFICIENTS[6] == CROSS_COEFFICIENTS[9],
        CROSS_COEFFICIENTS[7] == CROSS_COEFFICIENTS[8],
        CROSS_COEFFICIENTS[10] == CROSS_COEFFICIENTS[14],
        CROSS_COEFFICIENTS[11] == CROSS_COEFFICIENTS[13],
        CROSS_COEFFICIENTS[15] == CROSS_COEFFICIENTS[20],
        CROSS_COEFFICIENTS[16] == CROSS_COEFFICIENTS[19],
        CROSS_COEFFICIENTS[17] == CROSS_COEFFICIENTS[18],
        CROSS_COEFFICIENTS[21] == CROSS_COEFFICIENTS[27],
        CROSS_COEFFICIENTS[22] == CROSS_COEFFICIENTS[26],
        CROSS_COEFFICIENTS[23] == CROSS_COEFFICIENTS[25],
        CROSS_COEFFICIENTS[28] == CROSS_COEFFICIENTS[35],
        CROSS_COEFFICIENTS[29] == CROSS_COEFFICIENTS[34],
        CROSS_COEFFICIENTS[30] == CROSS_COEFFICIENTS[33],
        CROSS_COEFFICIENTS[31] == CROSS_COEFFICIENTS[32],
        CROSS_COEFFICIENTS[36] == CROSS_COEFFICIENTS[44],
        CROSS_COEFFICIENTS[37] == CROSS_COEFFICIENTS[43],
        CROSS_COEFFICIENTS[38] == CROSS_COEFFICIENTS[42],
        CROSS_COEFFICIENTS[39] == CROSS_COEFFICIENTS[41],
        CROSS_COEFFICIENTS[45] == CROSS_COEFFICIENTS[54],
        CROSS_COEFFICIENTS[46] == CROSS_COEFFICIENTS[53],
        CROSS_COEFFICIENTS[47] == CROSS_COEFFICIENTS[52],
        CROSS_COEFFICIENTS[48] == CROSS_COEFFICIENTS[51],
        CROSS_COEFFICIENTS[49] == CROSS_COEFFICIENTS[50],
        CROSS_COEFFICIENTS[55] == CROSS_COEFFICIENTS[65],
        CROSS_COEFFICIENTS[56] == CROSS_COEFFICIENTS[64],
        CROSS_COEFFICIENTS[57] == CROSS_COEFFICIENTS[63],
        CROSS_COEFFICIENTS[58] == CROSS_COEFFICIENTS[62],
        CROSS_COEFFICIENTS[59] == CROSS_COEFFICIENTS[61],
{
}

/// The weight of the gap left of `column` in a map with the given number of columns.
pub fn cross_coefficient(total_columns: usize, column: usize) -> (weight: Binary64)
    ensures
        weight == cross_coefficient_of(total_columns, column),
{
    let row: usize = if total_columns < WEIGHED_COLUMNS {
        total_columns
    } else {
        WEIGHED_COLUMNS
    };
    let place: usize = if column < row {
        column
    } else {
        row
    };
    proof {
        lemma_rows();
    }
    Binary64::from_bits(CROSS_COEFFICIENTS[CROSS_ROWS[row] + place])
}

/// The weights are the same from the left as from the right, for every number of columns
/// that has weights of its own.
pub proof fn cross_coefficients_are_symmetric(total_columns: usize, gap: usize)
    requires
        gap <= total_columns <= WEIGHED_COLUMNS,
    ensures
        cross_coefficient_of(total_columns, (total_columns - gap) as usize)
            == cross_coefficient_of(total_columns, gap),
{
    lemma_rows();
    lemma_coefficients();
}

/// How many gaps a gap is away from the nearer edge of the keyboard.
pub open spec fn from_the_edge(total_columns: int, gap: int) -> int {
    if 2 * gap <= total_columns {
        gap
    } else {
        total_columns - gap
    }
}

/// The weights follow from how far a gap is from the nearer edge. At the edge they grow with
/// every second column: 0.075, 0.125, 0.175, 0.225, 0.275, 0.325. In the middle of an even
/// number of columns the weight is 0.05, and the two middle weights of an odd number are those
/// at the edge. In between they grow from 0.25 next to the middle outwards: 0.25, 0.35, 0.45,
/// 0.55. More than ten columns have the weights of ten.
pub proof fn weights_follow_from_the_edge(total_columns: usize, gap: usize)
    requires
        gap <= total_columns,
    ensures
        total_columns == 0 ==> cross_coefficient_of(total_columns, gap).bits
            == 0xbff0_0000_0000_0000,
        0 < total_columns <= 10 ==> {
            let bits = cross_coefficient_of(total_columns, gap).bits;
            let edge = cross_coefficient_of(total_columns, 0).bits;
            let half = total_columns as int / 2;
            let away = from_the_edge(total_columns as int, gap as int);
            &&& away == 0 ==> bits == edge
            &&& half == 0 ==> edge == 0x3fb3_3333_3333_3333
            &&& half == 1 ==> edge == 0x3fc0_0000_0000_0000
            &&& half == 2 ==> edge == 0x3fc6_6666_6666_6666
            &&& half == 3 ==> edge == 0x3fcc_cccc_cccc_cccd
            &&& half == 4 ==> edge == 0x3fd1_9999_9999_999a
            &&& half == 5 ==> edge == 0x3fd4_cccc_cccc_cccd
            &&& away == half && total_columns % 2 == 0 ==> bits == 0x3fa9_9999_9999_999a
            &&& away == half && total_columns % 2 == 1 ==> bits == edge
            &&& 0 < away && away == half - 1 ==> bits == 0x3fd0_0000_0000_0000
            &&& 0 < away && away == half - 2 ==> bits == 0x3fd6_6666_6666_6666
            &&& 0 < away && away == half - 3 ==> bits == 0x3fdc_cccc_cccc_cccd
            &&& 0 < away && away == half - 4 ==> bits == 0x3fe1_9999_9999_999a
        },
        total_columns > 10 ==> cross_coefficient_of(total_columns, gap) == cross_coefficient_of(
            10,
            gap,
        ),
        total_columns >= 10 && gap >= 10 ==> cross_coefficient_of(total_columns, gap)
            == cross_coefficient_of(10, 10),
{
    lemma_rows();
    lemma_coefficients();
}

} // verus!
