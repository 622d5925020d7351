//! What the choice of a dense plan depends on.

use vstd::prelude::*;

verus! {

/// How two vectors are compared.
#[derive(Clone, Copy, Debug, PartialEq, Eq, Structural)]
pub enum Distance {
    Cosine,
    Euclid,
    Dot,
    Manhattan,
}

/// How coordinates are stored.
#[derive(Clone, Copy, Debug, PartialEq, Eq, Structural)]
pub enum VectorStorageDatatype {
    Float32,
    Float16,
    Uint8,
}

/// A compact certificate of a quantized storage.
#[derive(Clone, Copy, Debug, PartialEq, Eq, Structural)]
pub struct CompactDescription {
    /// The dimension of its rows.
    pub dimension: usize,
    /// The number of its rows, one for each of the first points.
    pub rows: usize,
}

/// A quantized storage beside the original vectors.
#[derive(Clone, Copy, Debug, PartialEq, Eq, Structural)]
pub struct QuantizedDescription {
    pub distance: Distance,
    pub datatype: VectorStorageDatatype,
    /// Whether it holds a per-vector scalar index.
    pub per_vector_scalar: bool,
    /// Its compact certificate.
    pub compact: Option<CompactDescription>,
    /// The number of rows of its scalar reconstruction table.
    pub reconstruction_rows: Option<usize>,
}

/// Whether scores under a distance are inner products.
pub open spec fn is_inner_product(distance: Distance) -> bool {
    distance == Distance::Dot || distance == Distance::Cosine
}

/// Whether scores under a distance are inner products.
pub fn has_inner_product(distance: Distance) -> (result: bool)
    ensures
        result == is_inner_product(distance),
{
    distance == Distance::Dot || distance == Distance::Cosine
}

/// Whether every point is below a row count.
pub open spec fn all_below(ids: Seq<u32>, rows: usize) -> bool {
    forall|i: int| 0 <= i < ids.len() ==> #[trigger] ids[i] < rows
}

/// Whether every point is below a row count.
pub fn are_below(ids: &Vec<u32>, rows: usize) -> (result: bool)
    ensures
        result == all_below(ids@, rows),
{
    let mut i: usize = 0;
    while i < ids.len()
        invariant
            i <= ids@.len(),
            forall|k: int| 0 <= k < i ==> #[trigger] ids@[k] < rows,
        decreases ids@.len() - i,
    {
        if ids[i] as usize >= rows {
            assert(!(ids@[i as int] < rows));
            return false;
        }
        i += 1;
    }
    true
}

/// Whether a single-precision bit pattern is that of a finite number.
pub open spec fn finite_bits(bits: u32) -> bool {
    (bits as int) % 0x8000_0000 < 0x7f80_0000
}

/// Whether a single-precision bit pattern is that of a finite number.
pub fn are_finite_bits(bits: u32) -> (result: bool)
    ensures
        result == finite_bits(bits),
{
    bits % 0x8000_0000 < 0x7f80_0000
}

/// Whether every coordinate is finite.
pub open spec fn finite_vector(vector: Seq<u32>) -> bool {
    forall|i: int| 0 <= i < vector.len() ==> finite_bits(#[trigger] vector[i])
}

/// Whether every coordinate is finite.
pub fn is_finite_vector(vector: &Vec<u32>) -> (result: bool)
    ensures
        result == finite_vector(vector@),
{
    let mut i: usize = 0;
    while i < vector.len()
        invariant
            i <= vector@.len(),
            forall|k: int| 0 <= k < i ==> finite_bits(#[trigger] vector@[k]),
        decreases vector@.len() - i,
    {
        if !are_finite_bits(vector[i]) {
            assert(!finite_bits(vector@[i as int]));
            return false;
        }
        i += 1;
    }
    true
}

/// The inner product of the leading codes.
pub open spec fn dot_product(left: Seq<i8>, right: Seq<i8>, upto: int) -> int
    decreases upto,
{
    if upto <= 0 {
        0
    } else {
        dot_product(left, right, upto - 1) + left[upto - 1] * right[upto - 1]
    }
}

/// Whether codes are symmetric: none is the lowest number.
pub open spec fn symmetric_codes(codes: Seq<i8>) -> bool {
    forall|i: int| 0 <= i < codes.len() ==> -127 <= #[trigger] codes[i]
}

proof fn lemma_dot_is_bounded(left: Seq<i8>, right: Seq<i8>, upto: int)
    requires
        left.len() == right.len(),
        symmetric_codes(left),
        symmetric_codes(right),
        0 <= upto <= left.len(),
    ensures
        -16129 * upto <= dot_product(left, right, upto) <= 16129 * upto,
    decreases upto,
{
    if upto > 0 {
        lemma_dot_is_bounded(left, right, upto - 1);
        lemma_product_is_bounded(left[upto - 1] as int, right[upto - 1] as int);
    }
}

proof fn lemma_product_is_bounded(left: int, right: int)
    requires
        -127 <= left <= 127,
        -127 <= right <= 127,
    ensures
        -16129 <= left * right <= 16129,
{
    assert(-16129 <= left * right <= 16129) by (nonlinear_arith)
        requires
            -127 <= left <= 127,
            -127 <= right <= 127,
    ;
}

/// The exact inner product of two rows of codes.
pub fn integer_dot(left: &Vec<i8>, right: &Vec<i8>) -> (product: i64)
    requires
        left@.len() == right@.len(),
        symmetric_codes(left@),
        symmetric_codes(right@),
        left@.len() * 16129 <= i64::MAX,
    ensures
        product == dot_product(left@, right@, left@.len() as int),
{
    let mut sum: i64 = 0;
    let mut i: usize = 0;
    while i < left.len()
        invariant
            left@.len() == right@.len(),
            symmetric_codes(left@),
            symmetric_codes(right@),
            left@.len() * 16129 <= i64::MAX,
            i <= left@.len(),
            sum == dot_product(left@, right@, i as int),
        decreases left@.len() - i,
    {
        proof {
            lemma_dot_is_bounded(left@, right@, i as int);
            lemma_dot_is_bounded(left@, right@, i + 1);
            lemma_product_is_bounded(left@[i as int] as int, right@[i as int] as int);
        }
        sum = sum + (left[i] as i64) * (right[i] as i64);
        i += 1;
    }
    sum
}

/// Codes that are zero but at one place have the product of what stands there.
pub proof fn law_single_place_product(left: Seq<i8>, right: Seq<i8>, place: int, upto: int)
    requires
        0 <= place < upto,
        forall|i: int| 0 <= i < upto && i != place ==> #[trigger] left[i] == 0,
    ensures
        dot_product(left, right, upto) == left[place] * right[place],
    decreases upto,
{
    if upto - 1 == place {
        lemma_zero_codes_product(left, right, place);
    } else {
        law_single_place_product(left, right, place, upto - 1);
        assert(left[upto - 1] == 0);
        assert(left[upto - 1] * right[upto - 1] == 0) by (nonlinear_arith)
            requires
                left[upto - 1] == 0,
        ;
    }
}

proof fn lemma_zero_codes_product(left: Seq<i8>, right: Seq<i8>, upto: int)
    requires
        forall|i: int| 0 <= i < upto ==> #[trigger] left[i] == 0,
    ensures
        dot_product(left, right, upto) == 0,
    decreases upto,
{
    if upto > 0 {
        lemma_zero_codes_product(left, right, upto - 1);
        assert(left[upto - 1] * right[upto - 1] == 0) by (nonlinear_arith)
            requires
                left[upto - 1] == 0,
        ;
    }
}

/// The product of codes that are the sums of others is the sum of their products.
pub proof fn law_product_is_additive(
    first: Seq<i8>,
    second: Seq<i8>,
    sum: Seq<i8>,
    right: Seq<i8>,
    upto: int,
)
    requires
        forall|i: int| 0 <= i < upto ==> #[trigger] sum[i] == first[i] + second[i],
    ensures
        dot_product(sum, right, upto) == dot_product(first, right, upto) + dot_product(
            second,
            right,
            upto,
        ),
    decreases upto,
{
    if upto > 0 {
        law_product_is_additive(first, second, sum, right, upto - 1);
        let a = first[upto - 1] as int;
        let b = second[upto - 1] as int;
        let c = right[upto - 1] as int;
        assert(sum[upto - 1] == a + b);
        assert((a + b) * c == a * c + b * c) by (nonlinear_arith);
    }
}

/// The order of two rows of codes does not matter for their product.
pub proof fn law_product_is_symmetric(left: Seq<i8>, right: Seq<i8>, upto: int)
    ensures
        dot_product(left, right, upto) == dot_product(right, left, upto),
    decreases upto,
{
    if upto > 0 {
        law_product_is_symmetric(left, right, upto - 1);
        let a = left[upto - 1] as int;
        let b = right[upto - 1] as int;
        assert(a * b == b * a) by (nonlinear_arith);
    }
}

/// A change of one code changes the product by what it adds at its place.
pub proof fn law_product_after_a_change(
    before: Seq<i8>,
    after: Seq<i8>,
    right: Seq<i8>,
    place: int,
    upto: int,
)
    requires
        0 <= place < upto,
        forall|i: int| 0 <= i < upto && i != place ==> #[trigger] after[i] == before[i],
    ensures
        dot_product(after, right, upto) == dot_product(before, right, upto) + (after[place]
            - before[place]) * right[place],
    decreases upto,
{
    let a = after[place] as int;
    let b = before[place] as int;
    let c = right[place] as int;
    if upto - 1 == place {
        lemma_same_codes_product(before, after, right, place);
        assert((a - b) * c == a * c - b * c) by (nonlinear_arith);
    } else {
        law_product_after_a_change(before, after, right, place, upto - 1);
        assert(after[upto - 1] == before[upto - 1]);
    }
}

proof fn lemma_same_codes_product(before: Seq<i8>, after: Seq<i8>, right: Seq<i8>, upto: int)
    requires
        forall|i: int| 0 <= i < upto ==> #[trigger] after[i] == before[i],
    ensures
        dot_product(after, right, upto) == dot_product(before, right, upto),
    decreases upto,
{
    if upto > 0 {
        lemma_same_codes_product(before, after, right, upto - 1);
        assert(after[upto - 1] == before[upto - 1]);
    }
}

} // verus!
