//! Point identities, score keys and the orders that every ranking uses.
//!
//! A score is carried as a *score key*: the position of an IEEE double on the
//! number line, as a signed integer. Two finite doubles compare exactly as
//! their keys do, and both zeros have the key 0.

use vstd::prelude::*;

verus! {

/// The identity of a point as its users see it.
#[derive(Clone, Copy, Debug, PartialEq, Eq, PartialOrd, Ord, Hash, Structural)]
pub enum ExtendedPointId {
    /// A numeric identity.
    NumId(u64),
    /// A universally unique identity.
    Uuid(u128),
}

impl ExtendedPointId {
    /// The place of the identity in the order of all identities: numbers first,
    /// by value, then universally unique identities by value.
    pub open spec fn rank(self) -> int {
        match self {
            ExtendedPointId::NumId(number) => number as int,
            ExtendedPointId::Uuid(uuid) => 0x1_0000_0000_0000_0000 + uuid as int,
        }
    }

    /// Whether this identity stands before the other.
    pub fn before(self, other: ExtendedPointId) -> (result: bool)
        ensures
            result == (self.rank() < other.rank()),
    {
        match (self, other) {
            (ExtendedPointId::NumId(left), ExtendedPointId::NumId(right)) => left < right,
            (ExtendedPointId::NumId(_), ExtendedPointId::Uuid(_)) => true,
            (ExtendedPointId::Uuid(_), ExtendedPointId::NumId(_)) => false,
            (ExtendedPointId::Uuid(left), ExtendedPointId::Uuid(right)) => left < right,
        }
    }
}

/// Identities with the same place in the order are the same identity.
pub broadcast proof fn lemma_rank_is_injective(left: ExtendedPointId, right: ExtendedPointId)
    requires
        #[trigger] left.rank() == #[trigger] right.rank(),
    ensures
        left == right,
{
}

/// The key of positive infinity.
pub const INFINITE_KEY: i64 = 0x7ff0_0000_0000_0000;

/// The magnitude bits of a double: everything but the sign.
pub open spec fn magnitude(bits: u64) -> int {
    if bits < 0x8000_0000_0000_0000 {
        bits as int
    } else {
        bits - 0x8000_0000_0000_0000
    }
}

/// The key of the double with the given bit pattern.
pub open spec fn key_of_bits(bits: u64) -> int {
    if bits < 0x8000_0000_0000_0000 {
        magnitude(bits)
    } else {
        -magnitude(bits)
    }
}

/// The key of the double with the given bit pattern.
pub fn score_key(bits: u64) -> (key: i64)
    ensures
        key == key_of_bits(bits),
{
    if bits < 0x8000_0000_0000_0000 {
        bits as i64
    } else {
        -((bits - 0x8000_0000_0000_0000) as i64)
    }
}

/// The bit pattern of the double with the given key; the key 0 stands for `+0`.
pub fn score_bits(key: i64) -> (bits: u64)
    requires
        key > i64::MIN,
    ensures
        key_of_bits(bits) == key,
        key == 0 ==> bits == 0,
{
    if key >= 0 {
        key as u64
    } else {
        0x8000_0000_0000_0000 + ((-key) as u64)
    }
}

/// Whether a key is that of a finite double.
pub open spec fn finite_key(key: i64) -> bool {
    -INFINITE_KEY < key < INFINITE_KEY
}

/// Whether a key is that of a finite double.
pub fn is_finite_key(key: i64) -> (result: bool)
    ensures
        result == finite_key(key),
{
    -INFINITE_KEY < key && key < INFINITE_KEY
}

/// Whether a key is that of a double that is a number, infinite ones among them.
pub open spec fn number_key(key: i64) -> bool {
    -INFINITE_KEY <= key <= INFINITE_KEY
}

/// Whether two keys are those of doubles that are equal: no double equals one that is not a
/// number, not even itself.
pub open spec fn equal_numbers(left: i64, right: i64) -> bool {
    left == right && number_key(left)
}

/// Whether two keys are those of doubles that are equal.
pub fn are_equal_numbers(left: i64, right: i64) -> (result: bool)
    ensures
        result == equal_numbers(left, right),
{
    left == right && -INFINITE_KEY <= left && left <= INFINITE_KEY
}

/// Reading a key back from the pattern that was written for it gives the key,
/// so keys lose nothing of a double but the sign of zero.
pub proof fn law_bits_of_a_key_are_unique(left: u64, right: u64)
    requires
        key_of_bits(left) == key_of_bits(right),
    ensures
        left == right || magnitude(left) == 0 && magnitude(right) == 0,
{
}

/// The order of scored points: the higher score first, equal scores by
/// ascending identity.
pub open spec fn ranks_before(
    left_score: i64,
    left: ExtendedPointId,
    right_score: i64,
    right: ExtendedPointId,
) -> bool {
    left_score > right_score || left_score == right_score && left.rank() < right.rank()
}

/// Whether the first scored point stands before the second.
pub fn scored_before(
    left_score: i64,
    left: ExtendedPointId,
    right_score: i64,
    right: ExtendedPointId,
) -> (result: bool)
    ensures
        result == ranks_before(left_score, left, right_score, right),
{
    left_score > right_score || left_score == right_score && left.before(right)
}

/// The higher score stands first; of equal scores the one with the smaller identity does,
/// numbers before universally unique identities.
pub proof fn law_order_of_scored_points(
    left_score: i64,
    left: ExtendedPointId,
    right_score: i64,
    right: ExtendedPointId,
)
    ensures
        left_score > right_score ==> ranks_before(left_score, left, right_score, right),
        left_score < right_score ==> !ranks_before(left_score, left, right_score, right),
        left_score == right_score ==> (ranks_before(left_score, left, right_score, right)
            <==> match (left, right) {
            (ExtendedPointId::NumId(left), ExtendedPointId::NumId(right)) => left < right,
            (ExtendedPointId::NumId(_), ExtendedPointId::Uuid(_)) => true,
            (ExtendedPointId::Uuid(_), ExtendedPointId::NumId(_)) => false,
            (ExtendedPointId::Uuid(left), ExtendedPointId::Uuid(right)) => left < right,
        }),
{
}

/// Of two different scored points exactly one stands before the other, and the order is
/// transitive.
pub proof fn law_order_is_total(
    first_score: i64,
    first: ExtendedPointId,
    second_score: i64,
    second: ExtendedPointId,
    third_score: i64,
    third: ExtendedPointId,
)
    ensures
        !ranks_before(first_score, first, first_score, first),
        (first_score, first) != (second_score, second) ==> (ranks_before(
            first_score,
            first,
            second_score,
            second,
        ) <==> !ranks_before(second_score, second, first_score, first)),
        ranks_before(first_score, first, second_score, second) && ranks_before(
            second_score,
            second,
            third_score,
            third,
        ) ==> ranks_before(first_score, first, third_score, third),
{
    if first.rank() == second.rank() {
        lemma_rank_is_injective(first, second);
    }
}

/// Keys order bit patterns as the doubles that they stand for: patterns without a sign by
/// value, patterns with one against it, and those with a sign first. Both zeros have one key.
pub proof fn law_keys_order_doubles(left: u64, right: u64)
    ensures
        left < 0x8000_0000_0000_0000 && right < 0x8000_0000_0000_0000 ==> (key_of_bits(left)
            < key_of_bits(right) <==> left < right),
        left >= 0x8000_0000_0000_0000 && right >= 0x8000_0000_0000_0000 ==> (key_of_bits(left)
            < key_of_bits(right) <==> left > right),
        left >= 0x8000_0000_0000_0000 && right < 0x8000_0000_0000_0000 ==> (key_of_bits(left)
            < key_of_bits(right) <==> left != 0x8000_0000_0000_0000 || right != 0),
        key_of_bits(0) == 0 && key_of_bits(0x8000_0000_0000_0000) == 0,
{
}

/// A key is finite exactly where the exponent of its double is not the highest, and a number
/// where its double is finite or infinite.
pub proof fn law_finite_keys_are_those_of_finite_doubles(bits: u64, key: i64)
    requires
        key == key_of_bits(bits),
    ensures
        finite_key(key) <==> (bits as int) % 0x8000_0000_0000_0000 < 0x7ff0_0000_0000_0000,
        number_key(key) <==> (bits as int) % 0x8000_0000_0000_0000 <= 0x7ff0_0000_0000_0000,
        equal_numbers(key, key) <==> number_key(key),
{
}

} // verus!
