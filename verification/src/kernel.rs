//! The brush kernels: a round mask for each diameter from 1 to 30, and
//! sixteen 4x4 dither masks for the tone brush.
use vstd::prelude::*;

verus! {

/// The largest brush diameter.
pub const MAX_DIAMETER: usize = 30;

/// Whether the centre of cell `(i, j)` of a `d` by `d` grid lies within
/// the circle of diameter `d` about the grid's centre:
/// `(i + 1/2 - d/2)^2 + (j + 1/2 - d/2)^2 <= d^2 / 4`, cleared of fractions.
pub open spec fn in_circle(d: int, i: int, j: int) -> bool {
    (2 * i + 1 - d) * (2 * i + 1 - d) + (2 * j + 1 - d) * (2 * j + 1 - d) <= d * d
}

/// The cells that are taken out of the circle by hand: the corners of the
/// mask of diameter 3, and eight cells on the rim of that of diameter 5.
pub open spec fn trimmed(d: int, i: int, j: int) -> bool {
    ||| d == 3 && (i == 0 || i == 2) && (j == 0 || j == 2)
    ||| d == 5 && (i == 0 || i == 4) && (j == 1 || j == 3)
    ||| d == 5 && (i == 1 || i == 3) && (j == 0 || j == 4)
}

/// Whether the round mask of diameter `d` is set at row `i`, column `j`.
pub open spec fn round_cell(d: int, i: int, j: int) -> bool {
    0 <= i < d && 0 <= j < d && in_circle(d, i, j) && !trimmed(d, i, j)
}

/// The round mask of diameter `d`, row by row.
pub open spec fn round_mask(d: int) -> Seq<u8> {
    Seq::new((d * d) as nat, |k: int| if round_cell(d, k / d, k % d) { 1u8 } else { 0u8 })
}

/// The thresholds of the 4x4 ordered dither, row by row.
pub open spec fn tone_base() -> Seq<int> {
    seq![0, 8, 2, 10, 12, 4, 14, 6, 3, 11, 1, 9, 15, 7, 13, 5]
}

/// The tone mask of level `k`: cell `j` is set where `k` reaches its
/// threshold.
pub open spec fn tone_mask(k: int) -> Seq<u8> {
    Seq::new(16, |j: int| if k >= tone_base()[j] { 1u8 } else { 0u8 })
}

/// The alpha below which each tone level applies.
pub open spec fn tone_thresholds() -> Seq<int> {
    seq![23, 47, 69, 92, 114, 114, 114, 138, 161, 184, 184, 207, 230, 230, 253]
}

/// The first level at or after `from` whose threshold lies above `alpha`;
/// 15 if there is none.
pub open spec fn tone_level_from(alpha: int, from: int) -> int
    decreases 15 - from,
{
    if from < 0 || from >= 15 {
        15
    } else if alpha < tone_thresholds()[from] {
        from
    } else {
        tone_level_from(alpha, from + 1)
    }
}

/// The tone level of a stroke alpha.
pub open spec fn tone_level(alpha: int) -> int {
    tone_level_from(alpha, 0)
}

/// The number of nonzero entries of a mask.
pub open spec fn count_set(mask: Seq<u8>) -> nat
    decreases mask.len(),
{
    if mask.len() == 0 {
        0
    } else {
        count_set(mask.drop_last()) + if mask.last() != 0 { 1nat } else { 0nat }
    }
}

/// The round masks for the diameters 0 to 30; that of diameter 0 is empty.
pub open spec fn round_tables(t: Seq<Vec<u8>>) -> bool {
    &&& t.len() == MAX_DIAMETER + 1
    &&& forall|d: int| 0 <= d <= MAX_DIAMETER ==> (#[trigger] t[d])@ == round_mask(d)
}

/// The sixteen tone masks.
pub open spec fn tone_tables(t: Seq<Vec<u8>>) -> bool {
    &&& t.len() == 16
    &&& forall|k: int| 0 <= k < 16 ==> (#[trigger] t[k])@ == tone_mask(k)
}

/// Row `i`, column `j` of a grid of side `d` is entry `i * d + j` of the
/// grid written row by row.
pub proof fn lemma_grid_index(d: int, i: int, j: int)
    requires
        0 <= i < d,
        0 <= j < d,
    ensures
        0 <= i * d + j < d * d,
        (i * d + j) / d == i,
        (i * d + j) % d == j,
{
    vstd::arithmetic::div_mod::lemma_fundamental_div_mod_converse(i * d + j, d, i, j);
    assert(i * d + j < d * d) by (nonlinear_arith)
        requires
            0 <= i < d,
            0 <= j < d,
    ;
    assert(0 <= i * d) by (nonlinear_arith)
        requires
            0 <= i,
            0 < d,
    ;
}

/// A round mask is set at entry `i * d + j` exactly where row `i`,
/// column `j` belongs to the brush.
pub proof fn lemma_round_mask_entry(d: int, i: int, j: int)
    requires
        0 <= i < d,
        0 <= j < d,
    ensures
        0 <= i * d + j < round_mask(d).len(),
        round_mask(d)[i * d + j] == if round_cell(d, i, j) { 1u8 } else { 0u8 },
{
    lemma_grid_index(d, i, j);
}

/// Away from the diameters 3 and 5, whose masks are trimmed by hand, a
/// round mask is exactly the circle.
pub proof fn lemma_round_mask_is_circle(d: int, i: int, j: int)
    requires
        1 <= d <= MAX_DIAMETER,
        d != 3,
        d != 5,
        0 <= i < d,
        0 <= j < d,
    ensures
        round_mask(d)[i * d + j] == if in_circle(d, i, j) { 1u8 } else { 0u8 },
{
    lemma_round_mask_entry(d, i, j);
}

/// The mask of diameter 3 has 5 set cells, and that of diameter 5 has 13.
pub proof fn lemma_round_mask_counts()
    ensures
        count_set(round_mask(3)) == 5,
        count_set(round_mask(5)) == 13,
{
    lemma_count_prefix(round_mask(3), 9);
    lemma_count_prefix(round_mask(5), 25);
    assert(count_prefix(round_mask(3), 0) == 0);
    lemma_round_mask_entry(3, 0, 0);
    assert(in_circle(3, 0, 0)) by (nonlinear_arith);
    assert(count_prefix(round_mask(3), 1) == 0);
    lemma_round_mask_entry(3, 0, 1);
    assert(in_circle(3, 0, 1)) by (nonlinear_arith);
    assert(count_prefix(round_mask(3), 2) == 1);
    lemma_round_mask_entry(3, 0, 2);
    assert(in_circle(3, 0, 2)) by (nonlinear_arith);
    assert(count_prefix(round_mask(3), 3) == 1);
    lemma_round_mask_entry(3, 1, 0);
    assert(in_circle(3, 1, 0)) by (nonlinear_arith);
    assert(count_prefix(round_mask(3), 4) == 2);
    lemma_round_mask_entry(3, 1, 1);
    assert(in_circle(3, 1, 1)) by (nonlinear_arith);
    assert(count_prefix(round_mask(3), 5) == 3);
    lemma_round_mask_entry(3, 1, 2);
    assert(in_circle(3, 1, 2)) by (nonlinear_arith);
    assert(count_prefix(round_mask(3), 6) == 4);
    lemma_round_mask_entry(3, 2, 0);
    assert(in_circle(3, 2, 0)) by (nonlinear_arith);
    assert(count_prefix(round_mask(3), 7) == 4);
    lemma_round_mask_entry(3, 2, 1);
    assert(in_circle(3, 2, 1)) by (nonlinear_arith);
    assert(count_prefix(round_mask(3), 8) == 5);
    lemma_round_mask_entry(3, 2, 2);
    assert(in_circle(3, 2, 2)) by (nonlinear_arith);
    assert(count_prefix(round_mask(3), 9) == 5);
    assert(count_prefix(round_mask(5), 0) == 0);
    lemma_round_mask_entry(5, 0, 0);
    assert(!in_circle(5, 0, 0)) by (nonlinear_arith);
    assert(count_prefix(round_mask(5), 1) == 0);
    lemma_round_mask_entry(5, 0, 1);
    assert(in_circle(5, 0, 1)) by (nonlinear_arith);
    assert(count_prefix(round_mask(5), 2) == 0);
    lemma_round_mask_entry(5, 0, 2);
    assert(in_circle(5, 0, 2)) by (nonlinear_arith);
    assert(count_prefix(round_mask(5), 3) == 1);
    lemma_round_mask_entry(5, 0, 3);
    assert(in_circle(5, 0, 3)) by (nonlinear_arith);
    assert(count_prefix(round_mask(5), 4) == 1);
    lemma_round_mask_entry(5, 0, 4);
    assert(!in_circle(5, 0, 4)) by (nonlinear_arith);
    assert(count_prefix(round_mask(5), 5) == 1);
    lemma_round_mask_entry(5, 1, 0);
    assert(in_circle(5, 1, 0)) by (nonlinear_arith);
    assert(count_prefix(round_mask(5), 6) == 1);
    lemma_round_mask_entry(5, 1, 1);
    assert(in_circle(5, 1, 1)) by (nonlinear_arith);
    assert(count_prefix(round_mask(5), 7) == 2);
    lemma_round_mask_entry(5, 1, 2);
    assert(in_circle(5, 1, 2)) by (nonlinear_arith);
    assert(count_prefix(round_mask(5), 8) == 3);
    lemma_round_mask_entry(5, 1, 3);
    assert(in_circle(5, 1, 3)) by (nonlinear_arith);
    assert(count_prefix(round_mask(5), 9) == 4);
    lemma_round_mask_entry(5, 1, 4);
    assert(in_circle(5, 1, 4)) by (nonlinear_arith);
    assert(count_prefix(round_mask(5), 10) == 4);
    lemma_round_mask_entry(5, 2, 0);
    assert(in_circle(5, 2, 0)) by (nonlinear_arith);
    assert(count_prefix(round_mask(5), 11) == 5);
    lemma_round_mask_entry(5, 2, 1);
    assert(in_circle(5, 2, 1)) by (nonlinear_arith);
    assert(count_prefix(round_mask(5), 12) == 6);
    lemma_round_mask_entry(5, 2, 2);
    assert(in_circle(5, 2, 2)) by (nonlinear_arith);
    assert(count_prefix(round_mask(5), 13) == 7);
    lemma_round_mask_entry(5, 2, 3);
    assert(in_circle(5, 2, 3)) by (nonlinear_arith);
    assert(count_prefix(round_mask(5), 14) == 8);
    lemma_round_mask_entry(5, 2, 4);
    assert(in_circle(5, 2, 4)) by (nonlinear_arith);
    assert(count_prefix(round_mask(5), 15) == 9);
    lemma_round_mask_entry(5, 3, 0);
    assert(in_circle(5, 3, 0)) by (nonlinear_arith);
    assert(count_prefix(round_mask(5), 16) == 9);
    lemma_round_mask_entry(5, 3, 1);
    assert(in_circle(5, 3, 1)) by (nonlinear_arith);
    assert(count_prefix(round_mask(5), 17) == 10);
    lemma_round_mask_entry(5, 3, 2);
    assert(in_circle(5, 3, 2)) by (nonlinear_arith);
    assert(count_prefix(round_mask(5), 18) == 11);
    lemma_round_mask_entry(5, 3, 3);
    assert(in_circle(5, 3, 3)) by (nonlinear_arith);
    assert(count_prefix(round_mask(5), 19) == 12);
    lemma_round_mask_entry(5, 3, 4);
    assert(in_circle(5, 3, 4)) by (nonlinear_arith);
    assert(count_prefix(round_mask(5), 20) == 12);
    lemma_round_mask_entry(5, 4, 0);
    assert(!in_circle(5, 4, 0)) by (nonlinear_arith);
    assert(count_prefix(round_mask(5), 21) == 12);
    lemma_round_mask_entry(5, 4, 1);
    assert(in_circle(5, 4, 1)) by (nonlinear_arith);
    assert(count_prefix(round_mask(5), 22) == 12);
    lemma_round_mask_entry(5, 4, 2);
    assert(in_circle(5, 4, 2)) by (nonlinear_arith);
    assert(count_prefix(round_mask(5), 23) == 13);
    lemma_round_mask_entry(5, 4, 3);
    assert(in_circle(5, 4, 3)) by (nonlinear_arith);
    assert(count_prefix(round_mask(5), 24) == 13);
    lemma_round_mask_entry(5, 4, 4);
    assert(!in_circle(5, 4, 4)) by (nonlinear_arith);
    assert(count_prefix(round_mask(5), 25) == 13);
}

/// The number of nonzero entries among the first `n` of a mask.
pub open spec fn count_prefix(mask: Seq<u8>, n: int) -> nat
    decreases n,
{
    if n <= 0 {
        0
    } else {
        count_prefix(mask, n - 1) + if mask[n - 1] != 0 { 1nat } else { 0nat }
    }
}

proof fn lemma_count_prefix(mask: Seq<u8>, n: int)
    requires
        0 <= n <= mask.len(),
    ensures
        count_set(mask.take(n)) == count_prefix(mask, n),
        n == mask.len() ==> count_set(mask) == count_prefix(mask, n),
    decreases n,
{
    if n > 0 {
        lemma_count_prefix(mask, n - 1);
        assert(mask.take(n).drop_last() =~= mask.take(n - 1));
    }
    if n == mask.len() {
        assert(mask.take(n) =~= mask);
    }
}

/// Builds the round mask of diameter `d`.
fn build_round_mask(d: usize) -> (mask: Vec<u8>)
    requires
        d <= MAX_DIAMETER,
    ensures
        mask@ == round_mask(d as int),
{
    let mut mask: Vec<u8> = Vec::new();
    let mut i: usize = 0;
    while i < d
        invariant
            i <= d <= MAX_DIAMETER,
            mask@.len() == i * d,
            mask@.len() <= round_mask(d as int).len(),
            forall|k: int| 0 <= k < mask@.len() ==> mask@[k] == round_mask(d as int)[k],
        decreases d - i,
    {
        let mut j: usize = 0;
        while j < d
            invariant
                i < d <= MAX_DIAMETER,
                j <= d,
                mask@.len() == i * d + j,
                mask@.len() <= round_mask(d as int).len(),
                forall|k: int| 0 <= k < mask@.len() ==> mask@[k] == round_mask(d as int)[k],
            decreases d - j,
        {
            proof {
                lemma_round_mask_entry(d as int, i as int, j as int);
            }
            let a: i64 = 2 * (i as i64) + 1 - (d as i64);
            let b: i64 = 2 * (j as i64) + 1 - (d as i64);
            assert(0 <= a * a <= 3600 && 0 <= b * b <= 3600 && 0 <= d * d <= 900) by (nonlinear_arith)
                requires
                    -30 <= a <= 60,
                    -30 <= b <= 60,
                    0 <= d <= 30,
            ;
            let inside = a * a + b * b <= (d as i64) * (d as i64);
            let cut = (d == 3 && (i == 0 || i == 2) && (j == 0 || j == 2))
                || (d == 5 && (i == 0 || i == 4) && (j == 1 || j == 3))
                || (d == 5 && (i == 1 || i == 3) && (j == 0 || j == 4));
            mask.push(if inside && !cut { 1 } else { 0 });
            j = j + 1;
        }
        assert((i + 1) * d == i * d + d) by (nonlinear_arith);
        assert((i + 1) * d <= d * d) by (nonlinear_arith)
            requires
                i < d,
        ;
        i = i + 1;
    }
    assert(mask@ =~= round_mask(d as int));
    mask
}

/// The round masks for the diameters 0 to 30.
pub fn build_round_tables() -> (t: Vec<Vec<u8>>)
    ensures
        round_tables(t@),
{
    let mut t: Vec<Vec<u8>> = Vec::new();
    let mut d: usize = 0;
    while d <= MAX_DIAMETER
        invariant
            d <= MAX_DIAMETER + 1,
            t@.len() == d,
            forall|e: int| 0 <= e < d ==> (#[trigger] t@[e])@ == round_mask(e),
        decreases MAX_DIAMETER + 1 - d,
    {
        let mask = build_round_mask(d);
        t.push(mask);
        d = d + 1;
    }
    t
}

/// The thresholds of the ordered dither.
fn tone_base_exec() -> (base: [u8; 16])
    ensures
        forall|j: int| 0 <= j < 16 ==> base[j] as int == tone_base()[j],
{
    [0, 8, 2, 10, 12, 4, 14, 6, 3, 11, 1, 9, 15, 7, 13, 5]
}

/// The sixteen tone masks.
pub fn build_tone_tables() -> (t: Vec<Vec<u8>>)
    ensures
        tone_tables(t@),
{
    let base = tone_base_exec();
    let mut t: Vec<Vec<u8>> = Vec::new();
    let mut k: u8 = 0;
    while k < 16
        invariant
            k <= 16,
            t@.len() == k,
            forall|j: int| 0 <= j < 16 ==> base[j] as int == tone_base()[j],
            forall|e: int| 0 <= e < k ==> (#[trigger] t@[e])@ == tone_mask(e),
        decreases 16 - k,
    {
        let mut mask: Vec<u8> = Vec::new();
        let mut j: usize = 0;
        while j < 16
            invariant
                j <= 16,
                k < 16,
                mask@.len() == j,
                forall|j: int| 0 <= j < 16 ==> base[j] as int == tone_base()[j],
                forall|c: int| 0 <= c < j ==> mask@[c] == tone_mask(k as int)[c],
            decreases 16 - j,
        {
            mask.push(if k >= base[j] { 1 } else { 0 });
            j = j + 1;
        }
        assert(mask@ =~= tone_mask(k as int));
        t.push(mask);
        k = k + 1;
    }
    t
}

/// The tone level of a stroke alpha.
pub fn tone_level_of(alpha: u8) -> (k: usize)
    ensures
        k == tone_level(alpha as int),
        k < 16,
{
    let table: [u8; 15] = [23, 47, 69, 92, 114, 114, 114, 138, 161, 184, 184, 207, 230, 230, 253];
    let mut i: usize = 0;
    while i < 15
        invariant
            i <= 15,
            forall|j: int| 0 <= j < 15 ==> table[j] as int == tone_thresholds()[j],
            tone_level(alpha as int) == tone_level_from(alpha as int, i as int),
        decreases 15 - i,
    {
        if alpha < table[i] {
            return i;
        }
        i = i + 1;
    }
    15
}

/// The first level whose threshold lies above the alpha is the level
/// chosen, and every level before it has a threshold at or below the alpha.
pub proof fn lemma_tone_level(alpha: int, from: int)
    requires
        0 <= from <= 15,
    ensures
        from <= tone_level_from(alpha, from) <= 15,
        tone_level_from(alpha, from) < 15 ==> alpha < tone_thresholds()[tone_level_from(alpha, from)],
        forall|k: int| from <= k < tone_level_from(alpha, from) ==> alpha >= tone_thresholds()[k],
    decreases 15 - from,
{
    if from < 15 && alpha >= tone_thresholds()[from] {
        lemma_tone_level(alpha, from + 1);
    }
}

} // verus!
