use vstd::prelude::*;

verus! {

/// A point or a direction in the plane, in integer units.
#[derive(Clone, Copy, Debug, PartialEq, Eq, Structural)]
pub struct Vec2 {
    pub x: i32,
    pub y: i32,
}

impl Vec2 {
    pub fn new(x: i32, y: i32) -> (r: Vec2)
        ensures
            r.x == x,
            r.y == y,
    {
        Vec2 { x, y }
    }
}

/// An axis-aligned box given by its lower and upper corner.
#[derive(Clone, Copy, Debug, PartialEq, Eq, Structural)]
pub struct AABB {
    /// lower bound in each axis
    pub lower_bound: Vec2,
    /// upper bound in each axis
    pub upper_bound: Vec2,
}

pub open spec fn min_i32(a: i32, b: i32) -> i32 {
    if a <= b { a } else { b }
}

pub open spec fn max_i32(a: i32, b: i32) -> i32 {
    if a >= b { a } else { b }
}

/// The smallest box that contains both `a` and `b`.
pub open spec fn join_spec(a: AABB, b: AABB) -> AABB {
    AABB {
        lower_bound: Vec2 {
            x: min_i32(a.lower_bound.x, b.lower_bound.x),
            y: min_i32(a.lower_bound.y, b.lower_bound.y),
        },
        upper_bound: Vec2 {
            x: max_i32(a.upper_bound.x, b.upper_bound.x),
            y: max_i32(a.upper_bound.y, b.upper_bound.y),
        },
    }
}

/// The perimeter of a box, the cost measure of the hierarchy.
pub open spec fn area(a: AABB) -> int {
    2 * ((a.upper_bound.x - a.lower_bound.x) + (a.upper_bound.y - a.lower_bound.y))
}

/// `outer` contains `inner`.
pub open spec fn contains(outer: AABB, inner: AABB) -> bool {
    &&& outer.lower_bound.x <= inner.lower_bound.x
    &&& outer.lower_bound.y <= inner.lower_bound.y
    &&& inner.upper_bound.x <= outer.upper_bound.x
    &&& inner.upper_bound.y <= outer.upper_bound.y
}

/// A segment that has a point in a box has a point in every box that contains it.
pub proof fn lemma_hits_grow(small: AABB, big: AABB, p1: Vec2, p2: Vec2)
    requires
        contains(big, small),
        segment_hits(small, p1, p2),
    ensures
        segment_hits(big, p1, p2),
{
    let (num, den) = choose|num: int, den: int| #[trigger] segment_meets_at(small, p1, p2, num, den);
    assert(big.lower_bound.x * den <= small.lower_bound.x * den) by (nonlinear_arith)
        requires
            big.lower_bound.x <= small.lower_bound.x,
            0 < den,
    ;
    assert(big.lower_bound.y * den <= small.lower_bound.y * den) by (nonlinear_arith)
        requires
            big.lower_bound.y <= small.lower_bound.y,
            0 < den,
    ;
    assert(small.upper_bound.x * den <= big.upper_bound.x * den) by (nonlinear_arith)
        requires
            small.upper_bound.x <= big.upper_bound.x,
            0 < den,
    ;
    assert(small.upper_bound.y * den <= big.upper_bound.y * den) by (nonlinear_arith)
        requires
            small.upper_bound.y <= big.upper_bound.y,
            0 < den,
    ;
    assert(segment_meets_at(big, p1, p2, num, den));
}

/// The point `p1 + (num / den) * (p2 - p1)` of the segment lies in `b` on one axis,
/// given the box's bounds `lo`, `hi` and the segment's coordinates `a1`, `a2` on that axis.
pub open spec fn on_axis(lo: int, hi: int, a1: int, a2: int, num: int, den: int) -> bool {
    lo * den <= a1 * den + num * (a2 - a1) <= hi * den
}

/// The segment from `p1` to `p2`, ends included, meets the box `b` at the parameter `num / den`.
pub open spec fn segment_meets_at(b: AABB, p1: Vec2, p2: Vec2, num: int, den: int) -> bool {
    &&& 0 < den
    &&& 0 <= num <= den
    &&& on_axis(b.lower_bound.x as int, b.upper_bound.x as int, p1.x as int, p2.x as int, num, den)
    &&& on_axis(b.lower_bound.y as int, b.upper_bound.y as int, p1.y as int, p2.y as int, num, den)
}

/// The segment from `p1` to `p2`, ends included, has a point in the box `b`.
pub open spec fn segment_hits(b: AABB, p1: Vec2, p2: Vec2) -> bool {
    exists|num: int, den: int| #[trigger] segment_meets_at(b, p1, p2, num, den)
}

impl AABB {
    /// Lower bound not above upper bound on either axis.
    pub open spec fn valid(self) -> bool {
        &&& self.lower_bound.x <= self.upper_bound.x
        &&& self.lower_bound.y <= self.upper_bound.y
    }

    /// The smallest box that contains both `a` and `b`.
    pub fn join(a: &AABB, b: &AABB) -> (r: AABB)
        ensures
            r == join_spec(*a, *b),
    {
        let lx = if a.lower_bound.x <= b.lower_bound.x { a.lower_bound.x } else { b.lower_bound.x };
        let ly = if a.lower_bound.y <= b.lower_bound.y { a.lower_bound.y } else { b.lower_bound.y };
        let ux = if a.upper_bound.x >= b.upper_bound.x { a.upper_bound.x } else { b.upper_bound.x };
        let uy = if a.upper_bound.y >= b.upper_bound.y { a.upper_bound.y } else { b.upper_bound.y };
        AABB { lower_bound: Vec2 { x: lx, y: ly }, upper_bound: Vec2 { x: ux, y: uy } }
    }

    /// Whether the segment from `p1` to `p2`, ends included, has a point in this box.
    pub fn ray_cast(&self, p1: Vec2, p2: Vec2) -> (r: bool)
        ensures
            r == segment_hits(*self, p1, p2),
    {
        let whole = Span { lo_num: 0, lo_den: 1, hi_num: 1, hi_den: 1 };
        let sx = clip(whole, self.lower_bound.x, self.upper_bound.x, p1.x, p2.x);
        match sx {
            None => {
                proof {
                    assert forall|num: int, den: int| !segment_meets_at(*self, p1, p2, num, den) by {
                        if 0 < den {
                            assert(in_span(whole, num, den) ==> 0 <= num <= den);
                            assert(0 <= num <= den ==> in_span(whole, num, den));
                        }
                    }
                }
                false
            },
            Some(s1) => {
                let sy = clip(s1, self.lower_bound.y, self.upper_bound.y, p1.y, p2.y);
                match sy {
                    None => {
                        proof {
                            assert forall|num: int, den: int|
                                !segment_meets_at(*self, p1, p2, num, den) by {
                                if 0 < den {
                                    assert(0 <= num <= den ==> in_span(whole, num, den));
                                    assert(in_span(s1, num, den) <== in_span(whole, num, den)
                                        && on_axis(
                                        self.lower_bound.x as int,
                                        self.upper_bound.x as int,
                                        p1.x as int,
                                        p2.x as int,
                                        num,
                                        den,
                                    ));
                                }
                            }
                        }
                        false
                    },
                    Some(s2) => {
                        proof {
                            lemma_span_product(s2.lo_num as int, s2.hi_den as int);
                            lemma_span_product(s2.hi_num as int, s2.lo_den as int);
                        }
                        let r = s2.lo_num * s2.hi_den <= s2.hi_num * s2.lo_den;
                        proof {
                            if r {
                                let num = s2.lo_num as int;
                                let den = s2.lo_den as int;
                                assert(in_span(s2, num, den));
                                assert(in_span(s1, num, den));
                                assert(in_span(whole, num, den));
                                assert(segment_meets_at(*self, p1, p2, num, den));
                            } else {
                                assert forall|num: int, den: int|
                                    !segment_meets_at(*self, p1, p2, num, den) by {
                                    if segment_meets_at(*self, p1, p2, num, den) {
                                        assert(in_span(whole, num, den));
                                        assert(in_span(s1, num, den));
                                        assert(in_span(s2, num, den));
                                        lemma_fraction_le_trans(
                                            s2.lo_num as int,
                                            s2.lo_den as int,
                                            num,
                                            den,
                                            s2.hi_num as int,
                                            s2.hi_den as int,
                                        );
                                    }
                                }
                            }
                        }
                        r
                    },
                }
            },
        }
    }

    /// The perimeter `2 * (width + height)`.
    pub fn surface_area(&self) -> (r: i64)
        ensures
            r == area(*self),
    {
        let w = self.upper_bound.x as i64 - self.lower_bound.x as i64;
        let h = self.upper_bound.y as i64 - self.lower_bound.y as i64;
        2 * (w + h)
    }
}

/// The parameters `t` of the segment, written `num / den` with `den > 0`, that lie between
/// `lo_num / lo_den` and `hi_num / hi_den`, both ends included.
struct Span {
    lo_num: i128,
    lo_den: i128,
    hi_num: i128,
    hi_den: i128,
}

/// Bound on the magnitude of the numbers a span holds, so that products of two fit in `i128`.
const SPAN_BOUND: i128 = 0x4_0000_0000;

spec fn span_ok(s: Span) -> bool {
    &&& 0 < s.lo_den <= SPAN_BOUND
    &&& 0 < s.hi_den <= SPAN_BOUND
    &&& -SPAN_BOUND <= s.lo_num <= SPAN_BOUND
    &&& -SPAN_BOUND <= s.hi_num <= SPAN_BOUND
}

spec fn in_span(s: Span, num: int, den: int) -> bool {
    &&& s.lo_num * den <= num * s.lo_den
    &&& num * s.hi_den <= s.hi_num * den
}

/// `n1 / d1 <= n2 / d2` and `n2 / d2 <= n3 / d3` give `n1 / d1 <= n3 / d3`.
proof fn lemma_fraction_le_trans(n1: int, d1: int, n2: int, d2: int, n3: int, d3: int)
    requires
        0 < d1,
        0 < d2,
        0 < d3,
        n1 * d2 <= n2 * d1,
        n2 * d3 <= n3 * d2,
    ensures
        n1 * d3 <= n3 * d1,
{
    assert(n1 * d2 * d3 <= n2 * d1 * d3) by (nonlinear_arith)
        requires
            n1 * d2 <= n2 * d1,
            0 < d3,
    ;
    assert(n2 * d3 * d1 <= n3 * d2 * d1) by (nonlinear_arith)
        requires
            n2 * d3 <= n3 * d2,
            0 < d1,
    ;
    assert(n1 * d3 * d2 <= n3 * d1 * d2) by (nonlinear_arith)
        requires
            n1 * d2 * d3 <= n2 * d1 * d3,
            n2 * d3 * d1 <= n3 * d2 * d1,
    ;
    assert(n1 * d3 <= n3 * d1) by (nonlinear_arith)
        requires
            n1 * d3 * d2 <= n3 * d1 * d2,
            0 < d2,
    ;
}

/// A product of a span's numerator and denominator fits in `i128`.
proof fn lemma_span_product(x: int, y: int)
    requires
        -SPAN_BOUND <= x <= SPAN_BOUND,
        0 < y <= SPAN_BOUND,
    ensures
        -SPAN_BOUND * SPAN_BOUND <= x * y <= SPAN_BOUND * SPAN_BOUND,
        i128::MIN < x * y < i128::MAX,
{
    assert(-SPAN_BOUND * SPAN_BOUND <= x * y <= SPAN_BOUND * SPAN_BOUND) by (nonlinear_arith)
        requires
            -SPAN_BOUND <= x <= SPAN_BOUND,
            0 < y <= SPAN_BOUND,
    ;
}

/// Keeps of the span `s` the parameters at which the segment's coordinate `a1 + t * (a2 - a1)`
/// lies in `[lo, hi]`; `None` when none of `s` does.
fn clip(s: Span, lo: i32, hi: i32, a1: i32, a2: i32) -> (r: Option<Span>)
    requires
        span_ok(s),
    ensures
        match r {
            None => forall|num: int, den: int|
                0 < den ==> !(#[trigger] in_span(s, num, den) && on_axis(
                    lo as int,
                    hi as int,
                    a1 as int,
                    a2 as int,
                    num,
                    den,
                )),
            Some(s2) => {
                &&& span_ok(s2)
                &&& forall|num: int, den: int|
                    0 < den ==> (#[trigger] in_span(s2, num, den) <==> in_span(s, num, den)
                        && on_axis(lo as int, hi as int, a1 as int, a2 as int, num, den))
            },
        },
{
    let a: i128 = lo as i128 - a1 as i128;
    let b: i128 = hi as i128 - a1 as i128;
    let d: i128 = a2 as i128 - a1 as i128;
    proof {
        assert forall|num: int, den: int|
            #[trigger] on_axis(lo as int, hi as int, a1 as int, a2 as int, num, den) <==> (a * den <= num * d
                && num * d <= b * den) by {
            assert(lo * den - a1 * den == a * den) by (nonlinear_arith)
                requires
                    a == lo - a1,
            ;
            assert(hi * den - a1 * den == b * den) by (nonlinear_arith)
                requires
                    b == hi - a1,
            ;
            assert(num * (a2 - a1) == num * d);
        }
    }
    if d == 0 {
        if a <= 0 && 0 <= b {
            proof {
                assert forall|num: int, den: int| 0 < den implies #[trigger] on_axis(
                    lo as int,
                    hi as int,
                    a1 as int,
                    a2 as int,
                    num,
                    den,
                ) by {
                    assert(num * d == 0) by (nonlinear_arith)
                        requires
                            d == 0,
                    ;
                    assert(a * den <= 0) by (nonlinear_arith)
                        requires
                            a <= 0,
                            0 < den,
                    ;
                    assert(0 <= b * den) by (nonlinear_arith)
                        requires
                            0 <= b,
                            0 < den,
                    ;
                }
            }
            Some(s)
        } else {
            proof {
                assert forall|num: int, den: int| 0 < den implies !#[trigger] on_axis(
                    lo as int,
                    hi as int,
                    a1 as int,
                    a2 as int,
                    num,
                    den,
                ) by {
                    assert(num * d == 0) by (nonlinear_arith)
                        requires
                            d == 0,
                    ;
                    if a > 0 {
                        assert(a * den > 0) by (nonlinear_arith)
                            requires
                                a > 0,
                                0 < den,
                        ;
                    } else {
                        assert(b * den < 0) by (nonlinear_arith)
                            requires
                                b < 0,
                                0 < den,
                        ;
                    }
                }
            }
            None
        }
    } else {
        // the axis keeps the parameters between lower_num / den and upper_num / den
        let (lower_num, upper_num, den) = if d > 0 {
            (a, b, d)
        } else {
            (-b, -a, -d)
        };
        proof {
            assert forall|num: int, den2: int|
                #[trigger] on_axis(lo as int, hi as int, a1 as int, a2 as int, num, den2) <==> (lower_num * den2 <= num * den
                    && num * den <= upper_num * den2) by {
                if d < 0 {
                    assert((-b) * den2 == -(b * den2)) by (nonlinear_arith);
                    assert((-a) * den2 == -(a * den2)) by (nonlinear_arith);
                    assert(num * (-d) == -(num * d)) by (nonlinear_arith);
                }
            }
        }
        proof {
            lemma_span_product(lower_num as int, s.lo_den as int);
            lemma_span_product(s.lo_num as int, den as int);
            lemma_span_product(upper_num as int, s.hi_den as int);
            lemma_span_product(s.hi_num as int, den as int);
        }
        let (lo_num, lo_den) = if lower_num * s.lo_den > s.lo_num * den {
            (lower_num, den)
        } else {
            (s.lo_num, s.lo_den)
        };
        let (hi_num, hi_den) = if upper_num * s.hi_den < s.hi_num * den {
            (upper_num, den)
        } else {
            (s.hi_num, s.hi_den)
        };
        let s2 = Span { lo_num, lo_den, hi_num, hi_den };
        proof {
            assert forall|num: int, n: int| 0 < n implies (#[trigger] in_span(s2, num, n) <==> in_span(
                s,
                num,
                n,
            ) && (lower_num * n <= num * den && num * den <= upper_num * n)) by {
                if lower_num * s.lo_den > s.lo_num * den {
                    if lower_num * n <= num * den {
                        lemma_fraction_le_trans(s.lo_num as int, s.lo_den as int, lower_num as int, den as int, num, n);
                    }
                } else {
                    if s.lo_num * n <= num * s.lo_den {
                        lemma_fraction_le_trans(lower_num as int, den as int, s.lo_num as int, s.lo_den as int, num, n);
                    }
                }
                if upper_num * s.hi_den < s.hi_num * den {
                    if num * den <= upper_num * n {
                        lemma_fraction_le_trans(num, n, upper_num as int, den as int, s.hi_num as int, s.hi_den as int);
                    }
                } else {
                    if num * s.hi_den <= s.hi_num * n {
                        lemma_fraction_le_trans(num, n, s.hi_num as int, s.hi_den as int, upper_num as int, den as int);
                    }
                }
            }
        }
        Some(s2)
    }
}

/// Joining is commutative.
pub proof fn lemma_join_commutative(a: AABB, b: AABB)
    ensures
        join_spec(a, b) == join_spec(b, a),
{
}

/// Joining is associative.
pub proof fn lemma_join_associative(a: AABB, b: AABB, c: AABB)
    ensures
        join_spec(join_spec(a, b), c) == join_spec(a, join_spec(b, c)),
{
}

/// Joining a box with itself gives the box back.
pub proof fn lemma_join_idempotent(a: AABB)
    ensures
        join_spec(a, a) == a,
{
}

/// The join of two boxes contains both, is a box again, and costs at least as much as either.
pub proof fn lemma_join_bounds(a: AABB, b: AABB)
    requires
        a.valid(),
        b.valid(),
    ensures
        join_spec(a, b).valid(),
        contains(join_spec(a, b), a),
        contains(join_spec(a, b), b),
        area(join_spec(a, b)) >= area(a),
        area(join_spec(a, b)) >= area(b),
{
}

/// The cost of a box lies between zero and four times the coordinate range.
pub proof fn lemma_area_bound(a: AABB)
    requires
        a.valid(),
    ensures
        0 <= area(a) <= 0x4_0000_0000,
{
}

/// The cost of a box is never negative, and is zero exactly when the box is a single point.
pub proof fn lemma_area_nonnegative(a: AABB)
    requires
        a.valid(),
    ensures
        area(a) >= 0,
        area(a) == 0 <==> (a.lower_bound == a.upper_bound),
{
}

} // verus!
