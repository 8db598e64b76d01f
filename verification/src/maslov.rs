//! Tropical semirings: the ℏ → 0 limit of Maslov dequantization.
//!
//! Deformed addition `−ℏ log(e^{−a/ℏ} + e^{−b/ℏ})` tends to `min(a, b)` as ℏ → 0,
//! while multiplication stays ordinary addition. The limits are the min-plus
//! semiring `(ℤ ∪ {+∞}, min, +)` and, dually, the max-plus semiring
//! `(ℤ ∪ {−∞}, max, +)`. Both are carried here by the extended integer line,
//! together with the undefined value that `+∞ + (−∞)` gives (as NaN does for
//! floating-point numbers).

use vstd::prelude::*;

verus! {

/// A point of the extended integer line ℤ ∪ {−∞, +∞}, or the undefined value.
#[derive(Clone, Copy, Debug, PartialEq, Eq, Structural)]
pub enum TropicalValue {
    NegInfinity,
    Finite(i64),
    PosInfinity,
    /// The value of `+∞ + (−∞)`; minimum and maximum ignore it, as they ignore NaN.
    Undefined,
}

/// The mathematical value of a [`TropicalValue`], over unbounded integers.
pub enum ExtInt {
    NegInf,
    Fin(int),
    PosInf,
    Undef,
}

impl View for TropicalValue {
    type V = ExtInt;

    open spec fn view(&self) -> ExtInt {
        match *self {
            TropicalValue::NegInfinity => ExtInt::NegInf,
            TropicalValue::Finite(x) => ExtInt::Fin(x as int),
            TropicalValue::PosInfinity => ExtInt::PosInf,
            TropicalValue::Undefined => ExtInt::Undef,
        }
    }
}

/// The order of the extended line: −∞ below everything, +∞ above everything.
pub open spec fn ext_le(a: ExtInt, b: ExtInt) -> bool {
    match (a, b) {
        (ExtInt::NegInf, _) => true,
        (_, ExtInt::PosInf) => true,
        (ExtInt::Fin(x), ExtInt::Fin(y)) => x <= y,
        _ => false,
    }
}

/// The minimum; when one argument is undefined, the other one.
pub open spec fn ext_min(a: ExtInt, b: ExtInt) -> ExtInt {
    if a is Undef {
        b
    } else if b is Undef {
        a
    } else if ext_le(a, b) {
        a
    } else {
        b
    }
}

/// The maximum; when one argument is undefined, the other one.
pub open spec fn ext_max(a: ExtInt, b: ExtInt) -> ExtInt {
    if a is Undef {
        b
    } else if b is Undef {
        a
    } else if ext_le(a, b) {
        b
    } else {
        a
    }
}

/// The sum on the extended line: undefined when an argument is undefined or
/// the two arguments are opposite infinities; else infinite when an argument is.
pub open spec fn ext_sum(a: ExtInt, b: ExtInt) -> ExtInt {
    match (a, b) {
        (ExtInt::Undef, _) => ExtInt::Undef,
        (_, ExtInt::Undef) => ExtInt::Undef,
        (ExtInt::PosInf, ExtInt::NegInf) => ExtInt::Undef,
        (ExtInt::NegInf, ExtInt::PosInf) => ExtInt::Undef,
        (ExtInt::PosInf, _) => ExtInt::PosInf,
        (_, ExtInt::PosInf) => ExtInt::PosInf,
        (ExtInt::NegInf, _) => ExtInt::NegInf,
        (_, ExtInt::NegInf) => ExtInt::NegInf,
        (ExtInt::Fin(x), ExtInt::Fin(y)) => ExtInt::Fin(x + y),
    }
}

/// The carrier of the min-plus semiring: ℤ ∪ {+∞}.
pub open spec fn in_min_plus(a: ExtInt) -> bool {
    a is Fin || a is PosInf
}

/// The carrier of the max-plus semiring: ℤ ∪ {−∞}.
pub open spec fn in_max_plus(a: ExtInt) -> bool {
    a is Fin || a is NegInf
}

/// A value that a [`TropicalValue`] can hold: finite values within `i64`.
pub open spec fn representable(a: ExtInt) -> bool {
    match a {
        ExtInt::Fin(x) => i64::MIN <= x <= i64::MAX,
        _ => true,
    }
}

/// `a ≤ b` on the extended line.
fn tropical_le(a: TropicalValue, b: TropicalValue) -> (r: bool)
    ensures
        r == ext_le(a@, b@),
{
    match (a, b) {
        (TropicalValue::NegInfinity, _) => true,
        (_, TropicalValue::PosInfinity) => true,
        (TropicalValue::Finite(x), TropicalValue::Finite(y)) => x <= y,
        _ => false,
    }
}

/// The sum on the extended line.
fn tropical_sum(a: TropicalValue, b: TropicalValue) -> (r: TropicalValue)
    requires
        representable(ext_sum(a@, b@)),
    ensures
        r@ == ext_sum(a@, b@),
{
    match (a, b) {
        (TropicalValue::Undefined, _) => TropicalValue::Undefined,
        (_, TropicalValue::Undefined) => TropicalValue::Undefined,
        (TropicalValue::PosInfinity, TropicalValue::NegInfinity) => TropicalValue::Undefined,
        (TropicalValue::NegInfinity, TropicalValue::PosInfinity) => TropicalValue::Undefined,
        (TropicalValue::PosInfinity, _) => TropicalValue::PosInfinity,
        (_, TropicalValue::PosInfinity) => TropicalValue::PosInfinity,
        (TropicalValue::NegInfinity, _) => TropicalValue::NegInfinity,
        (_, TropicalValue::NegInfinity) => TropicalValue::NegInfinity,
        (TropicalValue::Finite(x), TropicalValue::Finite(y)) => TropicalValue::Finite(x + y),
    }
}

/// Tropical semiring (min-plus): (ℤ ∪ {+∞}, min, +).
#[derive(Clone, Debug)]
pub struct TropicalMinPlus;

impl TropicalMinPlus {
    /// Tropical addition: the minimum.
    pub fn add(a: TropicalValue, b: TropicalValue) -> (r: TropicalValue)
        ensures
            r@ == ext_min(a@, b@),
            r == a || r == b,
            !(a@ is Undef) && !(b@ is Undef) ==> ext_le(r@, a@) && ext_le(r@, b@),
            a@ is NegInf && !(b@ is Undef) ==> r@ is NegInf,
            b@ is NegInf && !(a@ is Undef) ==> r@ is NegInf,
    {
        match (a, b) {
            (TropicalValue::Undefined, _) => b,
            (_, TropicalValue::Undefined) => a,
            _ => if tropical_le(a, b) { a } else { b },
        }
    }

    /// Tropical multiplication: the ordinary sum.
    pub fn mul(a: TropicalValue, b: TropicalValue) -> (r: TropicalValue)
        requires
            representable(ext_sum(a@, b@)),
        ensures
            r@ == ext_sum(a@, b@),
    {
        tropical_sum(a, b)
    }

    /// Additive identity: +∞.
    pub fn zero() -> (r: TropicalValue)
        ensures
            r@ == ExtInt::PosInf,
    {
        TropicalValue::PosInfinity
    }

    /// Multiplicative identity: 0.
    pub fn one() -> (r: TropicalValue)
        ensures
            r@ == ExtInt::Fin(0),
    {
        TropicalValue::Finite(0)
    }
}

/// Tropical semiring (max-plus): (ℤ ∪ {−∞}, max, +).
#[derive(Clone, Debug)]
pub struct TropicalMaxPlus;

impl TropicalMaxPlus {
    /// Tropical addition: the maximum.
    pub fn add(a: TropicalValue, b: TropicalValue) -> (r: TropicalValue)
        ensures
            r@ == ext_max(a@, b@),
            r == a || r == b,
            !(a@ is Undef) && !(b@ is Undef) ==> ext_le(a@, r@) && ext_le(b@, r@),
            a@ is PosInf && !(b@ is Undef) ==> r@ is PosInf,
            b@ is PosInf && !(a@ is Undef) ==> r@ is PosInf,
    {
        match (a, b) {
            (TropicalValue::Undefined, _) => b,
            (_, TropicalValue::Undefined) => a,
            _ => if tropical_le(a, b) { b } else { a },
        }
    }

    /// Tropical multiplication: the ordinary sum.
    pub fn mul(a: TropicalValue, b: TropicalValue) -> (r: TropicalValue)
        requires
            representable(ext_sum(a@, b@)),
        ensures
            r@ == ext_sum(a@, b@),
    {
        tropical_sum(a, b)
    }

    /// Additive identity: −∞.
    pub fn zero() -> (r: TropicalValue)
        ensures
            r@ == ExtInt::NegInf,
    {
        TropicalValue::NegInfinity
    }

    /// Multiplicative identity: 0.
    pub fn one() -> (r: TropicalValue)
        ensures
            r@ == ExtInt::Fin(0),
    {
        TropicalValue::Finite(0)
    }
}

/// The extended order is a total order on the defined values that agrees with
/// the integer order on finite values, with −∞ at the bottom and +∞ at the top.
pub proof fn lemma_extended_order(a: ExtInt, b: ExtInt, c: ExtInt, x: int, y: int)
    requires
        !(a is Undef),
        !(b is Undef),
        !(c is Undef),
    ensures
        ext_le(ExtInt::Fin(x), ExtInt::Fin(y)) <==> x <= y,
        ext_le(ExtInt::NegInf, a),
        ext_le(a, ExtInt::PosInf),
        !ext_le(ExtInt::Fin(x), ExtInt::NegInf),
        !ext_le(ExtInt::PosInf, ExtInt::Fin(x)),
        ext_le(a, a),
        ext_le(a, b) || ext_le(b, a),
        ext_le(a, b) && ext_le(b, a) ==> a == b,
        ext_le(a, b) && ext_le(b, c) ==> ext_le(a, c),
{
}

/// The minimum of two defined values is one of them, lies below both, and lies
/// above every value that lies below both; so −∞ is the minimum of −∞ and any
/// defined value. Dually for the maximum, with +∞ above everything. On finite
/// values both are the integer minimum and maximum.
pub proof fn lemma_min_max_are_order_bounds(a: ExtInt, b: ExtInt, c: ExtInt, x: int, y: int)
    requires
        !(a is Undef),
        !(b is Undef),
        !(c is Undef),
    ensures
        ext_min(a, b) == a || ext_min(a, b) == b,
        ext_le(ext_min(a, b), a) && ext_le(ext_min(a, b), b),
        ext_le(c, a) && ext_le(c, b) ==> ext_le(c, ext_min(a, b)),
        ext_max(a, b) == a || ext_max(a, b) == b,
        ext_le(a, ext_max(a, b)) && ext_le(b, ext_max(a, b)),
        ext_le(a, c) && ext_le(b, c) ==> ext_le(ext_max(a, b), c),
        ext_min(ExtInt::NegInf, a) == ExtInt::NegInf,
        ext_min(a, ExtInt::NegInf) == ExtInt::NegInf,
        ext_max(ExtInt::PosInf, a) == ExtInt::PosInf,
        ext_max(a, ExtInt::PosInf) == ExtInt::PosInf,
        ext_min(ExtInt::Fin(x), ExtInt::Fin(y)) == ExtInt::Fin(if x <= y { x } else { y }),
        ext_max(ExtInt::Fin(x), ExtInt::Fin(y)) == ExtInt::Fin(if x <= y { y } else { x }),
        ext_le(ext_min(a, b), ext_max(a, b)),
{
}

/// Minimum and maximum are commutative, associative and idempotent on every
/// value, the undefined one included.
pub proof fn lemma_min_max_laws(a: ExtInt, b: ExtInt, c: ExtInt)
    ensures
        ext_min(a, b) == ext_min(b, a),
        ext_min(ext_min(a, b), c) == ext_min(a, ext_min(b, c)),
        ext_min(a, a) == a,
        ext_max(a, b) == ext_max(b, a),
        ext_max(ext_max(a, b), c) == ext_max(a, ext_max(b, c)),
        ext_max(a, a) == a,
{
}

/// The sum on the extended line is commutative and associative on every value.
pub proof fn lemma_sum_laws(a: ExtInt, b: ExtInt, c: ExtInt)
    ensures
        ext_sum(a, b) == ext_sum(b, a),
        ext_sum(ext_sum(a, b), c) == ext_sum(a, ext_sum(b, c)),
{
}

/// (ℤ ∪ {+∞}, min, +, +∞, 0) is a semiring: it is closed under both
/// operations, +∞ is the identity of min and absorbs +, 0 is the identity of
/// +, and + distributes over min on both sides.
pub proof fn lemma_min_plus_semiring(a: ExtInt, b: ExtInt, c: ExtInt)
    requires
        in_min_plus(a),
        in_min_plus(b),
        in_min_plus(c),
    ensures
        in_min_plus(ext_min(a, b)),
        in_min_plus(ext_sum(a, b)),
        ext_min(a, ExtInt::PosInf) == a,
        ext_min(ExtInt::PosInf, a) == a,
        ext_sum(a, ExtInt::Fin(0)) == a,
        ext_sum(ExtInt::Fin(0), a) == a,
        ext_sum(a, ExtInt::PosInf) == ExtInt::PosInf,
        ext_sum(ExtInt::PosInf, a) == ExtInt::PosInf,
        ext_sum(a, ext_min(b, c)) == ext_min(ext_sum(a, b), ext_sum(a, c)),
        ext_sum(ext_min(b, c), a) == ext_min(ext_sum(b, a), ext_sum(c, a)),
{
}

/// (ℤ ∪ {−∞}, max, +, −∞, 0) is a semiring: it is closed under both
/// operations, −∞ is the identity of max and absorbs +, 0 is the identity of
/// +, and + distributes over max on both sides.
pub proof fn lemma_max_plus_semiring(a: ExtInt, b: ExtInt, c: ExtInt)
    requires
        in_max_plus(a),
        in_max_plus(b),
        in_max_plus(c),
    ensures
        in_max_plus(ext_max(a, b)),
        in_max_plus(ext_sum(a, b)),
        ext_max(a, ExtInt::NegInf) == a,
        ext_max(ExtInt::NegInf, a) == a,
        ext_sum(a, ExtInt::Fin(0)) == a,
        ext_sum(ExtInt::Fin(0), a) == a,
        ext_sum(a, ExtInt::NegInf) == ExtInt::NegInf,
        ext_sum(ExtInt::NegInf, a) == ExtInt::NegInf,
        ext_sum(a, ext_max(b, c)) == ext_max(ext_sum(a, b), ext_sum(a, c)),
        ext_sum(ext_max(b, c), a) == ext_max(ext_sum(b, a), ext_sum(c, a)),
{
}

} // verus!
