use vstd::prelude::*;
use vstd::arithmetic::div_mod::{lemma_fundamental_div_mod, lemma_mod_multiples_basic};

verus! {

/// The two ways of turning a quadratic curve into a polyline.
#[derive(Debug, Clone, Copy, PartialEq, Eq, Structural)]
pub enum SubdivisionMethod {
    /// Adaptive bisection of the parameter range.
    DeCasteljau,
    /// Closed-form sampling along the matching parabola.
    ParabolaApprox,
}

impl SubdivisionMethod {
    /// The word by which output of this method is labelled.
    pub fn label(&self) -> (r: &'static str)
        ensures
            r@ == match *self {
                SubdivisionMethod::DeCasteljau => "recursive"@,
                SubdivisionMethod::ParabolaApprox => "smart"@,
            },
    {
        match self {
            SubdivisionMethod::DeCasteljau => "recursive",
            SubdivisionMethod::ParabolaApprox => "smart",
        }
    }
}

/// Curve parameters are counted in steps of `1 / UNIT`: the value `UNIT`
/// stands for the parameter 1. It is a power of two small enough that every
/// step is exact in single precision.
pub const UNIT: u32 = 8_388_608;

/// The number of halvings that lead from the full range to a single step.
pub const MAX_DEPTH: u32 = 23;

/// Two to the power `k`.
pub open spec fn doubled(k: nat) -> int
    decreases k,
{
    if k == 0 {
        1
    } else {
        2 * doubled((k - 1) as nat)
    }
}

/// A width that repeated halving takes down to exactly one step.
pub open spec fn dyadic(w: int) -> bool
    decreases w,
{
    w == 1 || (w >= 2 && w % 2 == 0 && dyadic(w / 2))
}

/// The point at which bisection splits the range from `a` to `b`.
pub open spec fn midpoint(a: int, b: int) -> int {
    a + (b - a) / 2
}

/// A range of curve parameters, in steps of `1 / UNIT`.
#[derive(Debug, Clone, Copy, PartialEq, Eq, Structural)]
pub struct Interval {
    pub start: u32,
    pub end: u32,
}

impl Interval {
    /// A non-empty range inside the unit range whose width is dyadic and
    /// whose start is a multiple of its width: a range that repeated halving
    /// of the unit range arrives at.
    pub open spec fn wf(&self) -> bool {
        &&& self.start < self.end <= UNIT
        &&& dyadic(self.end - self.start)
        &&& (self.start as int) % (self.end - self.start) == 0
    }

    /// Whether the range is wider than one step, so that it can be halved.
    pub open spec fn divisible(&self) -> bool {
        self.end - self.start >= 2
    }

    /// The range from the start to the midpoint.
    pub open spec fn left_half(&self) -> Interval {
        Interval { start: self.start, end: midpoint(self.start as int, self.end as int) as u32 }
    }

    /// The range from the midpoint to the end.
    pub open spec fn right_half(&self) -> Interval {
        Interval { start: midpoint(self.start as int, self.end as int) as u32, end: self.end }
    }

    /// The whole parameter range, from 0 to 1.
    pub fn whole() -> (r: Interval)
        ensures
            r == (Interval { start: 0, end: UNIT }),
            r.wf(),
    {
        proof {
            lemma_unit_dyadic();
        }
        Interval { start: 0, end: UNIT }
    }

    /// Splits the range at its midpoint, or returns `None` for a range of a
    /// single step, which has none.
    pub fn halves(&self) -> (r: Option<(Interval, Interval)>)
        requires
            self.wf(),
        ensures
            r.is_some() <==> self.divisible(),
            r matches Some((left, right)) ==> {
                &&& left == self.left_half()
                &&& right == self.right_half()
                &&& left.wf()
                &&& right.wf()
                &&& left.end * 2 == self.start + self.end
            },
    {
        let width: u32 = self.end - self.start;
        if width < 2 {
            None
        } else {
            proof {
                lemma_halves(*self);
            }
            let mid: u32 = self.start + width / 2;
            Some((Interval { start: self.start, end: mid }, Interval { start: mid, end: self.end }))
        }
    }
}

/// `UNIT` is two to the power `MAX_DEPTH`, and so is dyadic.
pub proof fn lemma_unit_dyadic()
    ensures
        doubled(MAX_DEPTH as nat) == UNIT,
        dyadic(UNIT as int),
{
    reveal_with_fuel(doubled, 25);
    reveal_with_fuel(dyadic, 25);
}

/// The halves of a well-formed range that is wider than one step are well
/// formed, equally wide, and meet at the exact middle of the range.
pub proof fn lemma_halves(range: Interval)
    requires
        range.wf(),
        range.divisible(),
    ensures
        range.left_half().wf(),
        range.right_half().wf(),
        range.left_half().end == range.right_half().start,
        range.left_half().end * 2 == range.start + range.end,
        range.left_half().end - range.left_half().start == range.right_half().end
            - range.right_half().start,
{
    let w = range.end - range.start;
    let h = w / 2;
    let a = range.start as int;
    assert(w % 2 == 0 && dyadic(h));
    assert(w == 2 * h);
    lemma_fundamental_div_mod(a, w);
    let q = a / w;
    assert(a == (2 * q) * h) by (nonlinear_arith)
        requires
            a == w * q,
            w == 2 * h,
    ;
    lemma_mod_multiples_basic(2 * q, h);
    assert(a + h == (2 * q + 1) * h) by (nonlinear_arith)
        requires
            a == (2 * q) * h,
    ;
    lemma_mod_multiples_basic(2 * q + 1, h);
}

/// The parameters that adaptive bisection emits for the range from `a` to
/// `b`, in order: the end of the range itself where `flat` accepts it or it
/// cannot be halved, else what the left half emits followed by what the right
/// half emits.
pub open spec fn bisect(flat: spec_fn(int, int) -> bool, a: int, b: int) -> Seq<int>
    decreases b - a,
{
    if b - a < 2 || flat(a, b) {
        seq![b]
    } else {
        bisect(flat, a, midpoint(a, b)) + bisect(flat, midpoint(a, b), b)
    }
}

/// Whether bisection of the range from `a` to `b` ends with every emitted
/// range accepted by `flat`, none being forced by the limit of one step.
pub open spec fn resolves(flat: spec_fn(int, int) -> bool, a: int, b: int) -> bool
    decreases b - a,
{
    flat(a, b) || (b - a >= 2 && resolves(flat, a, midpoint(a, b)) && resolves(
        flat,
        midpoint(a, b),
        b,
    ))
}

/// The full parameter sequence of a curve under `flat`: 0, then what
/// bisection of the whole range emits.
pub open spec fn flattening(flat: spec_fn(int, int) -> bool) -> Seq<int> {
    seq![0int] + bisect(flat, 0, UNIT as int)
}

/// The values of a parameter sequence as mathematical integers.
pub open spec fn as_ints(s: Seq<u32>) -> Seq<int> {
    Seq::new(s.len(), |i: int| s[i] as int)
}

/// Bisection of a non-empty range emits at least one parameter, all of them
/// inside the range and in strictly rising order, and the last is the end of
/// the range.
pub proof fn lemma_bisect_shape(flat: spec_fn(int, int) -> bool, a: int, b: int)
    requires
        a < b,
    ensures
        bisect(flat, a, b).len() >= 1,
        bisect(flat, a, b).last() == b,
        forall|i: int| 0 <= i < bisect(flat, a, b).len() ==> a < #[trigger] bisect(flat, a, b)[i] <= b,
        forall|i: int, j: int|
            0 <= i < j < bisect(flat, a, b).len() ==> bisect(flat, a, b)[i] < bisect(flat, a, b)[j],
    decreases b - a,
{
    if b - a < 2 || flat(a, b) {
    } else {
        let m = midpoint(a, b);
        lemma_bisect_shape(flat, a, m);
        lemma_bisect_shape(flat, m, b);
        let l = bisect(flat, a, m);
        let r = bisect(flat, m, b);
        assert(bisect(flat, a, b) == l + r);
        assert forall|i: int| 0 <= i < (l + r).len() implies a < #[trigger] (l + r)[i] <= b by {
            if i < l.len() {
                assert((l + r)[i] == l[i]);
            } else {
                assert((l + r)[i] == r[i - l.len()]);
            }
        }
        assert forall|i: int, j: int| 0 <= i < j < (l + r).len() implies (l + r)[i] < (l + r)[j] by {
            if j < l.len() {
                assert((l + r)[i] == l[i] && (l + r)[j] == l[j]);
            } else if i < l.len() {
                assert((l + r)[i] == l[i] && (l + r)[j] == r[j - l.len()]);
            } else {
                assert((l + r)[i] == r[i - l.len()] && (l + r)[j] == r[j - l.len()]);
            }
        }
        assert((l + r).last() == r.last());
    }
}

/// A range that `flat` accepts is emitted whole: bisection yields its end and
/// nothing else.
pub proof fn lemma_flat_range_is_one_segment(flat: spec_fn(int, int) -> bool, a: int, b: int)
    requires
        flat(a, b),
    ensures
        bisect(flat, a, b) == seq![b],
{
}

/// Every parameter sequence starts at 0 and ends at 1.
pub proof fn lemma_flattening_ends(flat: spec_fn(int, int) -> bool)
    ensures
        flattening(flat).len() >= 2,
        flattening(flat).first() == 0,
        flattening(flat).last() == UNIT,
{
    lemma_bisect_shape(flat, 0, UNIT as int);
}

/// A curve that is flat as a whole yields exactly the parameters 0 and 1.
pub proof fn lemma_flat_curve_two_parameters(flat: spec_fn(int, int) -> bool)
    requires
        flat(0, UNIT as int),
    ensures
        flattening(flat) == seq![0int, UNIT as int],
{
    assert(seq![0int] + seq![UNIT as int] =~= seq![0int, UNIT as int]);
}

/// A stricter test never yields fewer segments: where `strict` accepts only
/// ranges that `loose` accepts too, bisection under `strict` emits at least
/// as many parameters as under `loose`.
pub proof fn lemma_stricter_never_fewer(
    strict: spec_fn(int, int) -> bool,
    loose: spec_fn(int, int) -> bool,
    a: int,
    b: int,
)
    requires
        a < b,
        forall|x: int, y: int| #[trigger] strict(x, y) ==> loose(x, y),
    ensures
        bisect(strict, a, b).len() >= bisect(loose, a, b).len(),
    decreases b - a,
{
    lemma_bisect_shape(strict, a, b);
    if b - a < 2 || loose(a, b) {
    } else {
        assert(!strict(a, b));
        let m = midpoint(a, b);
        lemma_stricter_never_fewer(strict, loose, a, m);
        lemma_stricter_never_fewer(strict, loose, m, b);
    }
}

/// Tightening the test never shortens the parameter sequence of a curve.
pub proof fn lemma_stricter_flattening_never_shorter(
    strict: spec_fn(int, int) -> bool,
    loose: spec_fn(int, int) -> bool,
)
    requires
        forall|x: int, y: int| #[trigger] strict(x, y) ==> loose(x, y),
    ensures
        flattening(strict).len() >= flattening(loose).len(),
{
    lemma_stricter_never_fewer(strict, loose, 0, UNIT as int);
}

/// A smaller tolerance never gives fewer segments: for any measure of
/// deviation, flattening to within `small` yields at least as many parameters
/// as flattening to within `large`.
pub proof fn lemma_smaller_tolerance_never_fewer(
    deviation: spec_fn(int, int) -> int,
    small: int,
    large: int,
)
    requires
        small <= large,
    ensures
        flattening(|a: int, b: int| deviation(a, b) <= small).len() >= flattening(
            |a: int, b: int| deviation(a, b) <= large,
        ).len(),
{
    lemma_stricter_flattening_never_shorter(
        |a: int, b: int| deviation(a, b) <= small,
        |a: int, b: int| deviation(a, b) <= large,
    );
}

/// Where bisection from `a` to `b` resolves, every emitted segment, taken
/// from the parameter before it (or from `a`) to itself, is accepted by
/// `flat`.
pub proof fn lemma_resolved_segments_flat(flat: spec_fn(int, int) -> bool, a: int, b: int)
    requires
        a < b,
        resolves(flat, a, b),
    ensures
        forall|i: int|
            0 <= i < bisect(flat, a, b).len() ==> flat(
                #[trigger] (seq![a] + bisect(flat, a, b))[i],
                bisect(flat, a, b)[i],
            ),
    decreases b - a,
{
    let s = bisect(flat, a, b);
    if flat(a, b) {
        assert forall|i: int| 0 <= i < s.len() implies flat(#[trigger] (seq![a] + s)[i], s[i]) by {
            assert((seq![a] + s)[0] == a);
        }
    } else {
        let m = midpoint(a, b);
        let l = bisect(flat, a, m);
        let r = bisect(flat, m, b);
        lemma_resolved_segments_flat(flat, a, m);
        lemma_resolved_segments_flat(flat, m, b);
        lemma_bisect_shape(flat, a, m);
        lemma_bisect_shape(flat, m, b);
        assert(s == l + r);
        assert forall|i: int| 0 <= i < s.len() implies flat(#[trigger] (seq![a] + s)[i], s[i]) by {
            if i < l.len() {
                assert((seq![a] + s)[i] == (seq![a] + l)[i]);
                assert(s[i] == l[i]);
            } else {
                let k = i - l.len();
                assert(s[i] == r[k]);
                if k == 0 {
                    assert((seq![a] + s)[i] == l.last());
                    assert((seq![m] + r)[0] == m);
                } else {
                    assert((seq![a] + s)[i] == s[i - 1]);
                    assert(s[i - 1] == r[k - 1]);
                    assert((seq![m] + r)[k] == r[k - 1]);
                }
            }
        }
    }
}

} // verus!
