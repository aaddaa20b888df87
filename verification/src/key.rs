//! Order keys for IEEE-754 doubles.
//!
//! Every decision this crate makes about a time or a value (is it before the window, does the
//! signal cross the threshold between these two samples, which sample holds the peak) is a
//! comparison. A [`Key`] stands for a double in exactly that role: two keys compare the way the
//! doubles they stand for compare under IEEE-754 (`<`, `<=`, `==`, all false as soon as a NaN is
//! involved), so the decision logic below can be stated and proved over integers while the
//! arithmetic on the doubles themselves stays with the caller.
//!
//! A finite double's key is its sign-magnitude bit pattern read as a signed integer: the
//! magnitude bits (exponent and mantissa) for a positive number, their negation for a negative
//! one. Both zeros get the key `0`, so `-0.0 == 0.0` holds here too.

use vstd::prelude::*;

verus! {

/// Bit pattern of the sign bit of a double.
pub const SIGN_BIT: u64 = 0x8000_0000_0000_0000;

/// Bit pattern of `+inf`; every magnitude above it is a NaN.
pub const INF_BITS: u64 = 0x7ff0_0000_0000_0000;

/// Bit pattern of the quiet NaN this crate hands back for [`Key::NaN`].
pub const QUIET_NAN_BITS: u64 = 0x7ff8_0000_0000_0000;

/// The order key of a double.
#[derive(Debug, Clone, Copy, PartialEq, Eq, Structural)]
pub enum Key {
    /// `-inf`.
    NegInf,
    /// A finite double, by its signed magnitude.
    Num(i64),
    /// `+inf`.
    PosInf,
    /// Not a number: unordered with everything, itself included.
    NaN,
}

impl Key {
    /// The key of `0.0` (and of `-0.0`).
    pub open spec fn spec_zero() -> Key {
        Key::Num(0)
    }

    /// The key of `0.0` (and of `-0.0`).
    pub fn zero() -> (k: Key)
        ensures
            k == Key::spec_zero(),
    {
        Key::Num(0)
    }

    /// Whether this key stands for a NaN.
    pub open spec fn is_nan(self) -> bool {
        self is NaN
    }

    /// The position of a non-NaN key on the line: infinities below and above every finite key.
    pub open spec fn rank(self) -> int {
        match self {
            Key::NegInf => -0x1_0000_0000_0000_0000int,
            Key::Num(k) => k as int,
            Key::PosInf => 0x1_0000_0000_0000_0000int,
            Key::NaN => 0,
        }
    }

    /// A key that some double has: a finite key lies strictly inside the infinities' patterns.
    pub open spec fn wf(self) -> bool {
        match self {
            Key::Num(k) => -(INF_BITS as int) < k < INF_BITS as int,
            _ => true,
        }
    }
}

/// IEEE `a < b`.
pub open spec fn less(a: Key, b: Key) -> bool {
    !a.is_nan() && !b.is_nan() && a.rank() < b.rank()
}

/// IEEE `a <= b`.
pub open spec fn less_eq(a: Key, b: Key) -> bool {
    !a.is_nan() && !b.is_nan() && a.rank() <= b.rank()
}

/// IEEE `a == b`.
pub open spec fn same(a: Key, b: Key) -> bool {
    !a.is_nan() && !b.is_nan() && a.rank() == b.rank()
}

/// `f64::max`: the larger of two keys, and the other one where one of them is a NaN.
pub open spec fn spec_key_max(a: Key, b: Key) -> Key {
    if a.is_nan() {
        b
    } else if b.is_nan() {
        a
    } else if a.rank() < b.rank() {
        b
    } else {
        a
    }
}

/// `f64::min`: the smaller of two keys, and the other one where one of them is a NaN.
pub open spec fn spec_key_min(a: Key, b: Key) -> Key {
    if a.is_nan() {
        b
    } else if b.is_nan() {
        a
    } else if b.rank() < a.rank() {
        b
    } else {
        a
    }
}

/// `f64::abs`: the key of the double with its sign bit cleared.
pub open spec fn spec_key_abs(a: Key) -> Key {
    match a {
        Key::NegInf => Key::PosInf,
        Key::Num(k) => Key::Num(if k < 0 { (-k) as i64 } else { k }),
        Key::PosInf => Key::PosInf,
        Key::NaN => Key::NaN,
    }
}

/// The key of the double whose bit pattern is `bits`.
pub open spec fn spec_key_of_bits(bits: u64) -> Key {
    let negative = bits >= SIGN_BIT;
    let magnitude: int = if negative { bits - SIGN_BIT } else { bits as int };
    if magnitude > INF_BITS {
        Key::NaN
    } else if magnitude == INF_BITS {
        if negative { Key::NegInf } else { Key::PosInf }
    } else if negative {
        Key::Num((-magnitude) as i64)
    } else {
        Key::Num(magnitude as i64)
    }
}

/// The bit pattern of the double a well-formed key stands for (`+0.0` for zero, the quiet NaN
/// for a NaN).
pub open spec fn spec_bits_of_key(k: Key) -> u64 {
    match k {
        Key::NegInf => (SIGN_BIT + INF_BITS) as u64,
        Key::Num(m) => if m < 0 { (SIGN_BIT - m) as u64 } else { m as u64 },
        Key::PosInf => INF_BITS,
        Key::NaN => QUIET_NAN_BITS,
    }
}

/// IEEE `a < b`.
pub fn is_less(a: Key, b: Key) -> (r: bool)
    ensures
        r == less(a, b),
{
    match (a, b) {
        (Key::NaN, _) | (_, Key::NaN) => false,
        (Key::NegInf, Key::NegInf) => false,
        (Key::NegInf, _) => true,
        (_, Key::NegInf) => false,
        (Key::PosInf, _) => false,
        (_, Key::PosInf) => true,
        (Key::Num(x), Key::Num(y)) => x < y,
    }
}

/// IEEE `a <= b`.
pub fn is_less_eq(a: Key, b: Key) -> (r: bool)
    ensures
        r == less_eq(a, b),
{
    match (a, b) {
        (Key::NaN, _) | (_, Key::NaN) => false,
        _ => !is_less(b, a),
    }
}

/// IEEE `a == b`.
pub fn is_same(a: Key, b: Key) -> (r: bool)
    ensures
        r == same(a, b),
{
    is_less_eq(a, b) && is_less_eq(b, a)
}

/// `f64::max` on keys.
pub fn key_max(a: Key, b: Key) -> (r: Key)
    ensures
        r == spec_key_max(a, b),
{
    if matches!(a, Key::NaN) {
        b
    } else if matches!(b, Key::NaN) {
        a
    } else if is_less(a, b) {
        b
    } else {
        a
    }
}

/// `f64::min` on keys.
pub fn key_min(a: Key, b: Key) -> (r: Key)
    ensures
        r == spec_key_min(a, b),
{
    if matches!(a, Key::NaN) {
        b
    } else if matches!(b, Key::NaN) {
        a
    } else if is_less(b, a) {
        b
    } else {
        a
    }
}

/// `f64::abs` on keys.
pub fn key_abs(a: Key) -> (r: Key)
    requires
        a.wf(),
    ensures
        r == spec_key_abs(a),
        r.wf(),
{
    match a {
        Key::NegInf => Key::PosInf,
        Key::Num(k) => Key::Num(if k < 0 { -k } else { k }),
        Key::PosInf => Key::PosInf,
        Key::NaN => Key::NaN,
    }
}

/// The key of the double whose bit pattern is `bits` (as `f64::to_bits` gives it).
pub fn key_of_bits(bits: u64) -> (k: Key)
    ensures
        k == spec_key_of_bits(bits),
        k.wf(),
{
    let negative = bits >= SIGN_BIT;
    let magnitude: u64 = if negative { bits - SIGN_BIT } else { bits };
    if magnitude > INF_BITS {
        Key::NaN
    } else if magnitude == INF_BITS {
        if negative { Key::NegInf } else { Key::PosInf }
    } else if negative {
        Key::Num(-(magnitude as i64))
    } else {
        Key::Num(magnitude as i64)
    }
}

/// The bit pattern (for `f64::from_bits`) of the double a well-formed key stands for.
pub fn bits_of_key(k: Key) -> (bits: u64)
    requires
        k.wf(),
    ensures
        bits == spec_bits_of_key(k),
{
    match k {
        Key::NegInf => SIGN_BIT + INF_BITS,
        Key::Num(m) => if m < 0 { SIGN_BIT + ((-m) as u64) } else { m as u64 },
        Key::PosInf => INF_BITS,
        Key::NaN => QUIET_NAN_BITS,
    }
}

/// Reading back the bit pattern of a well-formed key gives that key again.
pub proof fn lemma_key_bits_round_trip(k: Key)
    requires
        k.wf(),
    ensures
        spec_key_of_bits(spec_bits_of_key(k)) == k,
{
}

/// Every bit pattern but the negative zero and the NaNs comes back unchanged through its key;
/// the negative zero comes back as the positive one, a NaN as the quiet NaN.
pub proof fn lemma_bits_key_round_trip(bits: u64)
    ensures
        !spec_key_of_bits(bits).is_nan() && bits != SIGN_BIT ==> spec_bits_of_key(
            spec_key_of_bits(bits),
        ) == bits,
        bits == SIGN_BIT ==> spec_bits_of_key(spec_key_of_bits(bits)) == 0,
        spec_key_of_bits(bits).is_nan() ==> spec_bits_of_key(spec_key_of_bits(bits))
            == QUIET_NAN_BITS,
{
}

/// Both zeros have the zero key.
pub proof fn lemma_zeros_have_zero_key()
    ensures
        spec_key_of_bits(0) == Key::spec_zero(),
        spec_key_of_bits(SIGN_BIT) == Key::spec_zero(),
{
}

/// Clearing the sign bit of a double takes its key to the key's absolute value.
pub proof fn lemma_abs_clears_sign(bits: u64)
    ensures
        spec_key_of_bits(if bits >= SIGN_BIT { (bits - SIGN_BIT) as u64 } else { bits })
            == spec_key_abs(spec_key_of_bits(bits)),
{
}

/// On bit patterns of the same sign that are no NaN, the key order is the order of the
/// magnitudes (reversed for negative patterns): the order of the doubles themselves.
pub proof fn lemma_key_order_follows_magnitude(a: u64, b: u64)
    requires
        !spec_key_of_bits(a).is_nan(),
        !spec_key_of_bits(b).is_nan(),
    ensures
        a < SIGN_BIT && b < SIGN_BIT ==> (less(spec_key_of_bits(a), spec_key_of_bits(b)) <==> a
            < b),
        a >= SIGN_BIT && b >= SIGN_BIT ==> (less(spec_key_of_bits(a), spec_key_of_bits(b))
            <==> b < a),
        a < SIGN_BIT && b >= SIGN_BIT ==> less_eq(spec_key_of_bits(b), spec_key_of_bits(a)),
{
}

/// IEEE `<` is a strict order on the keys that are no NaN.
pub proof fn lemma_less_transitive(a: Key, b: Key, c: Key)
    requires
        less(a, b),
        less(b, c),
    ensures
        less(a, c),
{
}

/// `f64::max` and `f64::min` never give a NaN unless both arguments are NaNs, and give one of
/// their arguments.
pub proof fn lemma_max_min_pick_an_argument(a: Key, b: Key)
    ensures
        spec_key_max(a, b) == a || spec_key_max(a, b) == b,
        spec_key_min(a, b) == a || spec_key_min(a, b) == b,
        !a.is_nan() || !b.is_nan() ==> !spec_key_max(a, b).is_nan() && !spec_key_min(
            a,
            b,
        ).is_nan(),
        !a.is_nan() && !b.is_nan() ==> less_eq(a, spec_key_max(a, b)) && less_eq(
            b,
            spec_key_max(a, b),
        ) && less_eq(spec_key_min(a, b), a) && less_eq(spec_key_min(a, b), b),
{
}

} // verus!
