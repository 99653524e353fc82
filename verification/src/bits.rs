//! Single-precision values held as their IEEE-754 bit patterns.
//!
//! The renderer's geometry is binary32. The library never does arithmetic on
//! it: it compares values, keeps the smaller or the larger of two, and copies
//! them bit for bit, all of which is decided by the bit pattern alone.
use vstd::prelude::*;

verus! {

/// Bit pattern of positive infinity.
pub const INFINITY: u32 = 0x7f80_0000;

/// Bit pattern of negative infinity.
pub const NEG_INFINITY: u32 = 0xff80_0000;

/// Bit pattern of one.
pub const ONE: u32 = 0x3f80_0000;

/// Weight of the sign bit.
pub const SIGN: u32 = 0x8000_0000;

/// The pattern without its sign bit.
pub open spec fn magnitude(b: u32) -> int {
    if b >= SIGN {
        b - SIGN
    } else {
        b as int
    }
}

/// The pattern is not a number.
pub open spec fn is_nan(b: u32) -> bool {
    magnitude(b) > INFINITY
}

/// Position on the number line: numbers compare as these integers do, and the
/// two zeros coincide.
pub open spec fn ord(b: u32) -> int {
    if b >= SIGN {
        -magnitude(b)
    } else {
        magnitude(b)
    }
}

/// `a < b` as floats compare: false when either is not a number.
pub open spec fn lt(a: u32, b: u32) -> bool {
    !is_nan(a) && !is_nan(b) && ord(a) < ord(b)
}

/// `a <= b` as floats compare: false when either is not a number.
pub open spec fn le(a: u32, b: u32) -> bool {
    !is_nan(a) && !is_nan(b) && ord(a) <= ord(b)
}

/// The lane rule of the vector minimum: the first where it is smaller, else
/// the second.
pub open spec fn min(a: u32, b: u32) -> u32 {
    if lt(a, b) {
        a
    } else {
        b
    }
}

/// The lane rule of the vector maximum: the first where it is larger, else
/// the second.
pub open spec fn max(a: u32, b: u32) -> u32 {
    if lt(b, a) {
        a
    } else {
        b
    }
}

fn split(b: u32) -> (r: (bool, i64))
    ensures
        r.0 == is_nan(b),
        r.1 == ord(b),
{
    if b >= SIGN {
        let m: u32 = b - SIGN;
        (m > INFINITY, -(m as i64))
    } else {
        (b > INFINITY, b as i64)
    }
}

/// Float `<` on bit patterns.
pub fn is_lt(a: u32, b: u32) -> (r: bool)
    ensures
        r == lt(a, b),
{
    let (na, oa) = split(a);
    let (nb, ob) = split(b);
    !na && !nb && oa < ob
}

/// Float `<=` on bit patterns.
pub fn is_le(a: u32, b: u32) -> (r: bool)
    ensures
        r == le(a, b),
{
    let (na, oa) = split(a);
    let (nb, ob) = split(b);
    !na && !nb && oa <= ob
}

/// The smaller of two bit patterns, by the lane rule.
pub fn smaller(a: u32, b: u32) -> (r: u32)
    ensures
        r == min(a, b),
{
    if is_lt(a, b) {
        a
    } else {
        b
    }
}

/// The larger of two bit patterns, by the lane rule.
pub fn larger(a: u32, b: u32) -> (r: u32)
    ensures
        r == max(a, b),
{
    if is_lt(b, a) {
        a
    } else {
        b
    }
}

/// The lesser of two numbers, or the one that is a number.
pub open spec fn least(a: u32, b: u32) -> u32 {
    if is_nan(a) || lt(b, a) {
        b
    } else {
        a
    }
}

/// The greater of two numbers, or the one that is a number.
pub open spec fn greatest(a: u32, b: u32) -> u32 {
    if is_nan(a) || lt(a, b) {
        b
    } else {
        a
    }
}

/// The lesser of two numbers, or the one that is a number.
pub fn lesser(a: u32, b: u32) -> (r: u32)
    ensures
        r == least(a, b),
{
    let (na, oa) = split(a);
    let (nb, ob) = split(b);
    if na || (!nb && ob < oa) {
        b
    } else {
        a
    }
}

/// The greater of two numbers, or the one that is a number.
pub fn greater(a: u32, b: u32) -> (r: u32)
    ensures
        r == greatest(a, b),
{
    let (na, oa) = split(a);
    let (nb, ob) = split(b);
    if na || (!nb && oa < ob) {
        b
    } else {
        a
    }
}

/// Three lanes of bit patterns: a point, a direction or a colour.
#[derive(Clone, Copy, Debug, PartialEq, Eq, Structural)]
pub struct Bits3 {
    pub x: u32,
    pub y: u32,
    pub z: u32,
}

/// An axis-aligned box, corner by corner.
#[derive(Clone, Copy, Debug, PartialEq, Eq, Structural)]
pub struct BitsBox {
    pub lo: Bits3,
    pub hi: Bits3,
}

/// The box no point has been put into: any point replaces both corners.
pub open spec fn empty_box() -> BitsBox {
    BitsBox {
        lo: Bits3 { x: INFINITY, y: INFINITY, z: INFINITY },
        hi: Bits3 { x: NEG_INFINITY, y: NEG_INFINITY, z: NEG_INFINITY },
    }
}

/// Lane-wise minimum.
pub open spec fn min3(a: Bits3, b: Bits3) -> Bits3 {
    Bits3 { x: min(a.x, b.x), y: min(a.y, b.y), z: min(a.z, b.z) }
}

/// Lane-wise maximum.
pub open spec fn max3(a: Bits3, b: Bits3) -> Bits3 {
    Bits3 { x: max(a.x, b.x), y: max(a.y, b.y), z: max(a.z, b.z) }
}

/// The box after a point is put into it.
pub open spec fn grown(b: BitsBox, p: Bits3) -> BitsBox {
    BitsBox { lo: min3(b.lo, p), hi: max3(b.hi, p) }
}

/// The box after another box is put into it.
pub open spec fn merged(a: BitsBox, b: BitsBox) -> BitsBox {
    BitsBox { lo: min3(a.lo, b.lo), hi: max3(a.hi, b.hi) }
}

/// The two boxes share a point on every axis.
pub open spec fn boxes_overlap(a: BitsBox, b: BitsBox) -> bool {
    let lo = max3(a.lo, b.lo);
    let hi = min3(a.hi, b.hi);
    le(lo.x, hi.x) && le(lo.y, hi.y) && le(lo.z, hi.z)
}

/// The box no point has been put into.
pub fn new_box() -> (r: BitsBox)
    ensures
        r == empty_box(),
{
    BitsBox {
        lo: Bits3 { x: INFINITY, y: INFINITY, z: INFINITY },
        hi: Bits3 { x: NEG_INFINITY, y: NEG_INFINITY, z: NEG_INFINITY },
    }
}

/// Lane-wise minimum of two triples.
pub fn smaller3(a: Bits3, b: Bits3) -> (r: Bits3)
    ensures
        r == min3(a, b),
{
    Bits3 { x: smaller(a.x, b.x), y: smaller(a.y, b.y), z: smaller(a.z, b.z) }
}

/// Lane-wise maximum of two triples.
pub fn larger3(a: Bits3, b: Bits3) -> (r: Bits3)
    ensures
        r == max3(a, b),
{
    Bits3 { x: larger(a.x, b.x), y: larger(a.y, b.y), z: larger(a.z, b.z) }
}

/// Put a point into a box.
pub fn grow(b: BitsBox, p: Bits3) -> (r: BitsBox)
    ensures
        r == grown(b, p),
{
    BitsBox { lo: smaller3(b.lo, p), hi: larger3(b.hi, p) }
}

/// Put a box into a box.
pub fn merge(a: BitsBox, b: BitsBox) -> (r: BitsBox)
    ensures
        r == merged(a, b),
{
    BitsBox { lo: smaller3(a.lo, b.lo), hi: larger3(a.hi, b.hi) }
}

/// Whether two boxes share a point on every axis.
pub fn overlap(a: BitsBox, b: BitsBox) -> (r: bool)
    ensures
        r == boxes_overlap(a, b),
{
    let lo = larger3(a.lo, b.lo);
    let hi = smaller3(a.hi, b.hi);
    is_le(lo.x, hi.x) && is_le(lo.y, hi.y) && is_le(lo.z, hi.z)
}

/// Among numbers the two lane rules give a lower and an upper bound that one
/// of the two operands attains.
pub proof fn bounds_are_attained(a: u32, b: u32)
    requires
        !is_nan(a),
        !is_nan(b),
    ensures
        le(min(a, b), a),
        le(min(a, b), b),
        min(a, b) == a || min(a, b) == b,
        le(a, max(a, b)),
        le(b, max(a, b)),
        max(a, b) == a || max(a, b) == b,
{
}

/// Patterns up to that of infinity are the numbers from zero on, and order as
/// they do; with the sign bit they are their negatives. The two zeros are one
/// number, and what lies past infinity is none and compares with nothing.
pub proof fn patterns_order_as_numbers(a: u32, b: u32)
    requires
        a < 0x8000_0000,
        b < 0x8000_0000,
    ensures
        a <= 0x7f80_0000 && b <= 0x7f80_0000 ==> {
            let (na, nb) = ((a + 0x8000_0000) as u32, (b + 0x8000_0000) as u32);
            &&& lt(a, b) <==> a < b
            &&& le(a, b) <==> a <= b
            &&& lt(na, nb) <==> b < a
            &&& le(na, nb) <==> b <= a
            &&& lt(na, b) <==> a > 0 || b > 0
            &&& le(na, b)
            &&& !lt(a, nb)
            &&& le(a, nb) <==> a == 0 && b == 0
        },
        a > 0x7f80_0000 ==> {
            let na = (a + 0x8000_0000) as u32;
            &&& is_nan(a) && is_nan(na)
            &&& !lt(a, b) && !lt(b, a) && !le(a, b) && !le(b, a)
            &&& !lt(na, b) && !lt(b, na) && !le(na, b) && !le(b, na)
        },
        a <= 0x7f80_0000 ==> !is_nan(a) && !is_nan((a + 0x8000_0000) as u32),
{
}

/// Where one operand is not a number, a vector lane takes the second and a
/// plain minimum or maximum the number. Among numbers the plain ones give one
/// of the two, and nothing past either.
pub proof fn what_is_no_number_gives_way(a: u32, b: u32)
    ensures
        is_nan(a) || is_nan(b) ==> min(a, b) == b && max(a, b) == b,
        is_nan(a) ==> least(a, b) == b && greatest(a, b) == b,
        is_nan(b) && !is_nan(a) ==> least(a, b) == a && greatest(a, b) == a,
        !is_nan(a) && !is_nan(b) ==> {
            &&& least(a, b) == a || least(a, b) == b
            &&& greatest(a, b) == a || greatest(a, b) == b
            &&& le(least(a, b), a) && le(least(a, b), b)
            &&& le(a, greatest(a, b)) && le(b, greatest(a, b))
        },
{
}

/// The point lies in the box, on its faces included.
pub open spec fn inside(p: Bits3, b: BitsBox) -> bool {
    &&& le(b.lo.x, p.x) && le(p.x, b.hi.x)
    &&& le(b.lo.y, p.y) && le(p.y, b.hi.y)
    &&& le(b.lo.z, p.z) && le(p.z, b.hi.z)
}

/// All three coordinates are numbers.
pub open spec fn is_point(p: Bits3) -> bool {
    !is_nan(p.x) && !is_nan(p.y) && !is_nan(p.z)
}

/// A box grows no further than it must: it holds the point and what it held,
/// and each of its faces is an old one or goes through the point.
pub proof fn boxes_grow_to_hold(b: BitsBox, p: Bits3, q: Bits3)
    requires
        is_point(b.lo),
        is_point(b.hi),
        is_point(p),
    ensures
        inside(p, grown(b, p)),
        inside(q, b) ==> inside(q, grown(b, p)),
        is_point(grown(b, p).lo) && is_point(grown(b, p).hi),
        grown(b, p).lo.x == b.lo.x || grown(b, p).lo.x == p.x,
        grown(b, p).lo.y == b.lo.y || grown(b, p).lo.y == p.y,
        grown(b, p).lo.z == b.lo.z || grown(b, p).lo.z == p.z,
        grown(b, p).hi.x == b.hi.x || grown(b, p).hi.x == p.x,
        grown(b, p).hi.y == b.hi.y || grown(b, p).hi.y == p.y,
        grown(b, p).hi.z == b.hi.z || grown(b, p).hi.z == p.z,
        inside(q, grown(empty_box(), p)) ==> same_place(q, p),
        !inside(q, empty_box()),
{
}

/// The coordinates are the same numbers.
pub open spec fn same_place(p: Bits3, q: Bits3) -> bool {
    le(p.x, q.x) && le(q.x, p.x) && le(p.y, q.y) && le(q.y, p.y) && le(p.z, q.z) && le(q.z, p.z)
}

/// A merged box holds what either held, and each of its faces is one of
/// theirs.
pub proof fn merged_boxes_hold_both(a: BitsBox, b: BitsBox, q: Bits3)
    requires
        is_point(a.lo),
        is_point(a.hi),
        is_point(b.lo),
        is_point(b.hi),
    ensures
        inside(q, a) || inside(q, b) ==> inside(q, merged(a, b)),
        merged(a, b).lo.x == a.lo.x || merged(a, b).lo.x == b.lo.x,
        merged(a, b).lo.y == a.lo.y || merged(a, b).lo.y == b.lo.y,
        merged(a, b).lo.z == a.lo.z || merged(a, b).lo.z == b.lo.z,
        merged(a, b).hi.x == a.hi.x || merged(a, b).hi.x == b.hi.x,
        merged(a, b).hi.y == a.hi.y || merged(a, b).hi.y == b.hi.y,
        merged(a, b).hi.z == a.hi.z || merged(a, b).hi.z == b.hi.z,
{
}

/// Boxes overlap exactly where a point lies in both.
pub proof fn overlap_is_a_common_point(a: BitsBox, b: BitsBox, q: Bits3)
    ensures
        inside(q, a) && inside(q, b) ==> boxes_overlap(a, b) && boxes_overlap(b, a),
        is_point(a.lo) && is_point(a.hi) && is_point(b.lo) && is_point(b.hi) && boxes_overlap(a, b)
            ==> exists|p: Bits3| #[trigger] inside(p, a) && inside(p, b),
{
    if is_point(a.lo) && is_point(a.hi) && is_point(b.lo) && is_point(b.hi) && boxes_overlap(a, b) {
        let p = max3(a.lo, b.lo);
        assert(inside(p, a) && inside(p, b));
    }
}

} // verus!
