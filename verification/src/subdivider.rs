use vstd::prelude::*;
use crate::subdivision::{
    Interval, MAX_DEPTH, UNIT, as_ints, bisect, doubled, flattening, lemma_halves,
    lemma_unit_dyadic, resolves,
};

verus! {

/// The state of an adaptive bisection as mathematical values: the parameters
/// emitted so far, and the ranges still to be judged, the next one last.
pub struct Progress {
    pub params: Seq<u32>,
    pub pending: Seq<Interval>,
}

/// The number of steps in a range.
pub open spec fn width(range: Interval) -> int {
    range.end - range.start
}

/// The range between the parameter at place `i` and the one after it.
pub open spec fn segment(params: Seq<u32>, i: int) -> Interval {
    Interval { start: params[i], end: params[i + 1] }
}

/// The cost left in a stack of pending ranges: each range of width `w` can
/// take at most `2 * w - 1` more judgements.
pub open spec fn pending_work(pending: Seq<Interval>) -> int
    decreases pending.len(),
{
    if pending.len() == 0 {
        0
    } else {
        2 * width(pending.last()) - 1 + pending_work(pending.drop_last())
    }
}

/// What the pending ranges will emit under `flat`, the next range first.
pub open spec fn pending_output(flat: spec_fn(int, int) -> bool, pending: Seq<Interval>) -> Seq<int>
    decreases pending.len(),
{
    if pending.len() == 0 {
        Seq::empty()
    } else {
        bisect(flat, pending.last().start as int, pending.last().end as int) + pending_output(
            flat,
            pending.drop_last(),
        )
    }
}

/// Whether bisection resolves on every pending range.
pub open spec fn pending_resolves(flat: spec_fn(int, int) -> bool, pending: Seq<Interval>) -> bool
    decreases pending.len(),
{
    pending.len() == 0 || (resolves(flat, pending.last().start as int, pending.last().end as int)
        && pending_resolves(flat, pending.drop_last()))
}

impl Progress {
    /// The parameters start at 0 and rise strictly, each by a well-formed
    /// range; the pending ranges are well formed and lie end to end from the
    /// last parameter up to 1.
    pub open spec fn wf(self) -> bool {
        &&& self.params.len() >= 1
        &&& self.params[0] == 0
        &&& forall|i: int, j: int| 0 <= i < j < self.params.len() ==> self.params[i] < self.params[j]
        &&& forall|i: int| 0 <= i < self.params.len() - 1 ==> (#[trigger] segment(self.params, i)).wf()
        &&& forall|k: int| 0 <= k < self.pending.len() ==> (#[trigger] self.pending[k]).wf()
        &&& forall|k: int|
            1 <= k < self.pending.len() ==> (#[trigger] self.pending[k]).end == self.pending[k - 1].start
        &&& if self.pending.len() == 0 {
            self.params.last() == UNIT
        } else {
            self.pending.last().start == self.params.last() && self.pending[0].end == UNIT
        }
        &&& self.stacked()
    }

    /// Each pending range is at least twice as wide as the one to be judged
    /// after it, but for the two to be judged next, which may be equally
    /// wide.
    pub open spec fn stacked(self) -> bool {
        &&& forall|k: int|
            1 <= k < self.pending.len() - 1 ==> width(self.pending[k - 1]) >= 2 * width(
                #[trigger] self.pending[k],
            )
        &&& self.pending.len() >= 2 ==> width(self.pending[self.pending.len() - 2]) >= width(
            self.pending.last(),
        )
    }

    /// Nothing is left to judge.
    pub open spec fn done(self) -> bool {
        self.pending.len() == 0
    }

    /// The range to be judged next.
    pub open spec fn top(self) -> Interval {
        self.pending.last()
    }

    /// The state at the start: parameter 0 emitted, the whole range pending.
    pub open spec fn start() -> Progress {
        Progress { params: seq![0u32], pending: seq![Interval { start: 0, end: UNIT }] }
    }

    /// The state after the next range was found flat: its end is emitted.
    pub open spec fn accept(self) -> Progress {
        Progress { params: self.params.push(self.top().end), pending: self.pending.drop_last() }
    }

    /// The state after the next range was found not flat: its halves take
    /// its place, the left one to be judged first.
    pub open spec fn split(self) -> Progress {
        Progress {
            params: self.params,
            pending: self.pending.drop_last().push(self.top().right_half()).push(
                self.top().left_half(),
            ),
        }
    }

    /// An upper bound on the judgements still to come.
    pub open spec fn work(self) -> int {
        pending_work(self.pending)
    }

    /// The state lies on the way to `flattening(flat)`: what was emitted,
    /// followed by what the pending ranges will emit, is that sequence.
    pub open spec fn follows(self, flat: spec_fn(int, int) -> bool) -> bool {
        as_ints(self.params) + pending_output(flat, self.pending) == flattening(flat)
    }
}

/// The remaining work of a well-formed stack is never negative.
pub proof fn lemma_work_nonnegative(pending: Seq<Interval>)
    requires
        forall|k: int| 0 <= k < pending.len() ==> (#[trigger] pending[k]).wf(),
    ensures
        pending_work(pending) >= 0,
    decreases pending.len(),
{
    if pending.len() > 0 {
        assert(pending.last().wf());
        assert forall|k: int| 0 <= k < pending.drop_last().len() implies (#[trigger] pending.drop_last()[k]).wf() by {
            assert(pending.drop_last()[k] == pending[k]);
        }
        lemma_work_nonnegative(pending.drop_last());
    }
}

/// The start state is well formed and lies on the way to every flattening.
pub proof fn lemma_start(flat: spec_fn(int, int) -> bool)
    ensures
        Progress::start().wf(),
        Progress::start().follows(flat),
        pending_resolves(flat, Progress::start().pending) == resolves(flat, 0, UNIT as int),
{
    lemma_unit_dyadic();
    let s = Progress::start();
    let whole = Interval { start: 0, end: UNIT };
    assert(s.pending.last() == whole);
    assert(s.pending.drop_last() =~= Seq::<Interval>::empty());
    assert(pending_output(flat, s.pending) =~= bisect(flat, 0, UNIT as int)) by {
        reveal_with_fuel(pending_output, 2);
    }
    assert(as_ints(s.params) =~= seq![0int]);
    assert(pending_resolves(flat, s.pending) == resolves(flat, 0, UNIT as int)) by {
        reveal_with_fuel(pending_resolves, 2);
    }
}

/// Accepting a range that `flat` accepts keeps the state well formed and on
/// the way to `flattening(flat)`, and lowers the remaining work.
pub proof fn lemma_accept(p: Progress, flat: spec_fn(int, int) -> bool)
    requires
        p.wf(),
        !p.done(),
    ensures
        p.accept().wf(),
        p.accept().work() < p.work(),
        p.follows(flat) && flat(p.top().start as int, p.top().end as int) ==> p.accept().follows(flat),
        flat(p.top().start as int, p.top().end as int) ==> pending_resolves(flat, p.accept().pending)
            == pending_resolves(flat, p.pending),
{
    let q = p.accept();
    let top = p.top();
    assert(top.wf());
    assert forall|i: int, j: int| 0 <= i < j < q.params.len() implies q.params[i] < q.params[j] by {
        if j == p.params.len() {
            if i < p.params.len() - 1 {
                assert(p.params[i] < p.params[p.params.len() - 1]);
            }
        }
    }
    if p.pending.len() >= 2 {
        assert(p.pending[p.pending.len() - 1].end == p.pending[p.pending.len() - 2].start);
    }
    assert forall|i: int| 0 <= i < q.params.len() - 1 implies (#[trigger] segment(q.params, i)).wf() by {
        if i < p.params.len() - 1 {
            assert(segment(q.params, i) == segment(p.params, i));
        } else {
            assert(segment(q.params, i) == top);
        }
    }
    assert(q.stacked()) by {
        assert forall|k: int| 1 <= k < q.pending.len() - 1 implies width(q.pending[k - 1]) >= 2
            * width(#[trigger] q.pending[k]) by {
            assert(q.pending[k] == p.pending[k]);
        }
        if q.pending.len() >= 2 {
            let k = q.pending.len() - 1;
            assert(width(p.pending[k - 1]) >= 2 * width(p.pending[k]));
            assert(p.pending[k].wf());
        }
    }
    assert(q.wf());
    if p.follows(flat) && flat(top.start as int, top.end as int) {
        assert(bisect(flat, top.start as int, top.end as int) == seq![top.end as int]);
        assert(as_ints(q.params) =~= as_ints(p.params) + seq![top.end as int]);
        assert(as_ints(q.params) + pending_output(flat, q.pending) =~= as_ints(p.params)
            + pending_output(flat, p.pending));
    }
}

/// Splitting a range that `flat` rejects keeps the state well formed and on
/// the way to `flattening(flat)`, and lowers the remaining work.
pub proof fn lemma_split(p: Progress, flat: spec_fn(int, int) -> bool)
    requires
        p.wf(),
        !p.done(),
        p.top().divisible(),
    ensures
        p.split().wf(),
        p.split().work() < p.work(),
        p.follows(flat) && !flat(p.top().start as int, p.top().end as int) ==> p.split().follows(flat),
        !flat(p.top().start as int, p.top().end as int) ==> pending_resolves(flat, p.split().pending)
            == pending_resolves(flat, p.pending),
{
    let q = p.split();
    let top = p.top();
    let rest = p.pending.drop_last();
    let left = top.left_half();
    let right = top.right_half();
    assert(top.wf());
    lemma_halves(top);
    let mid = rest.push(right);
    assert(q.pending == mid.push(left));
    assert(q.pending.last() == left);
    assert(q.pending.drop_last() =~= mid);
    assert(mid.last() == right);
    assert(mid.drop_last() =~= rest);
    assert forall|k: int| 0 <= k < q.pending.len() implies (#[trigger] q.pending[k]).wf() by {
        if k < rest.len() {
            assert(q.pending[k] == p.pending[k]);
        }
    }
    assert forall|k: int| 1 <= k < q.pending.len() implies (#[trigger] q.pending[k]).end
        == q.pending[k - 1].start by {
        if k < rest.len() {
            assert(q.pending[k] == p.pending[k]);
            assert(q.pending[k - 1] == p.pending[k - 1]);
        } else if k == rest.len() {
            if rest.len() >= 1 {
                assert(p.pending[p.pending.len() - 1].end == p.pending[p.pending.len() - 2].start);
                assert(q.pending[k - 1] == p.pending[k - 1]);
            }
        }
    }
    assert(q.stacked()) by {
        assert forall|k: int| 1 <= k < q.pending.len() - 1 implies width(q.pending[k - 1]) >= 2
            * width(#[trigger] q.pending[k]) by {
            if k < rest.len() {
                assert(q.pending[k] == p.pending[k]);
                assert(q.pending[k - 1] == p.pending[k - 1]);
            } else {
                assert(q.pending[k] == right);
                assert(q.pending[k - 1] == p.pending[k - 1]);
                assert(width(p.pending[p.pending.len() - 2]) >= width(top));
            }
        }
    }
    assert(q.wf());
    assert(pending_work(q.pending) == 2 * (left.end - left.start) - 1 + pending_work(mid));
    assert(pending_work(mid) == 2 * (right.end - right.start) - 1 + pending_work(rest));
    assert(pending_output(flat, q.pending) == bisect(flat, left.start as int, left.end as int)
        + pending_output(flat, mid));
    assert(pending_output(flat, mid) == bisect(flat, right.start as int, right.end as int)
        + pending_output(flat, rest));
    assert(pending_resolves(flat, q.pending) == (resolves(flat, left.start as int, left.end as int)
        && pending_resolves(flat, mid)));
    assert(pending_resolves(flat, mid) == (resolves(flat, right.start as int, right.end as int)
        && pending_resolves(flat, rest)));
    if p.follows(flat) && !flat(top.start as int, top.end as int) {
        assert(bisect(flat, top.start as int, top.end as int) == bisect(
            flat,
            left.start as int,
            left.end as int,
        ) + bisect(flat, right.start as int, right.end as int));
        assert(as_ints(q.params) + pending_output(flat, q.pending) =~= as_ints(p.params)
            + pending_output(flat, p.pending));
    }
}

/// Raising the exponent never lowers the power.
pub proof fn lemma_doubled_rises(a: nat, b: nat)
    requires
        a <= b,
    ensures
        1 <= doubled(a) <= doubled(b),
    decreases b,
{
    if a < b {
        lemma_doubled_rises(a, (b - 1) as nat);
    } else if b > 0 {
        lemma_doubled_rises((a - 1) as nat, (b - 1) as nat);
    }
}

/// Down the stack the pending ranges at least double in width: the range
/// at place `j` is at least two to the number of ranges between it and the
/// next one to be judged.
pub proof fn lemma_widths_double(p: Progress, j: int)
    requires
        p.wf(),
        p.pending.len() >= 2,
        0 <= j <= p.pending.len() - 2,
    ensures
        width(p.pending[j]) >= doubled((p.pending.len() - 2 - j) as nat),
    decreases p.pending.len() - 2 - j,
{
    if j == p.pending.len() - 2 {
        assert(p.pending.last().wf());
    } else {
        lemma_widths_double(p, j + 1);
        assert(width(p.pending[j]) >= 2 * width(p.pending[j + 1]));
    }
}

/// The stack of pending ranges never grows beyond one more than the number
/// of halvings that the parameter steps allow.
pub proof fn lemma_stack_bounded(p: Progress)
    requires
        p.wf(),
    ensures
        p.pending.len() <= MAX_DEPTH + 1,
{
    if p.pending.len() >= 2 {
        lemma_widths_double(p, 0);
        assert(p.pending[1].wf());
        assert(p.pending[1].end == p.pending[0].start);
        assert(width(p.pending[0]) < UNIT);
        if p.pending.len() >= 25 {
            lemma_doubled_rises(MAX_DEPTH as nat, (p.pending.len() - 2) as nat);
            lemma_unit_dyadic();
        }
    }
}

/// A finished state on the way to `flattening(flat)` has emitted exactly
/// that sequence.
pub proof fn lemma_done(p: Progress, flat: spec_fn(int, int) -> bool)
    requires
        p.done(),
        p.follows(flat),
    ensures
        as_ints(p.params) == flattening(flat),
        pending_resolves(flat, p.pending),
{
    assert(as_ints(p.params) + Seq::<int>::empty() =~= as_ints(p.params));
}

/// Why a bisection could not go on.
#[derive(Debug, Clone, Copy, PartialEq, Eq, Structural)]
pub enum SubdivisionError {
    /// A range of a single step was found not flat: the curve is degenerate,
    /// or the tolerance is beyond what the parameter steps can resolve.
    TooFine,
    /// An answer was given although no range was waiting for one.
    Finished,
}

/// Adaptive bisection, one judgement at a time. The caller asks for the range
/// to judge, decides whether the curve is flat enough over it, and hands the
/// answer back, until no range is left.
pub struct Subdivider {
    params: Vec<u32>,
    pending: Vec<Interval>,
}

impl View for Subdivider {
    type V = Progress;

    closed spec fn view(&self) -> Progress {
        Progress { params: self.params@, pending: self.pending@ }
    }
}

impl Subdivider {
    /// A bisection at its start.
    pub fn new() -> (r: Subdivider)
        ensures
            r@ == Progress::start(),
            r@.wf(),
    {
        let mut params: Vec<u32> = Vec::new();
        params.push(0);
        let mut pending: Vec<Interval> = Vec::new();
        pending.push(Interval::whole());
        let r = Subdivider { params, pending };
        proof {
            assert(r@.params =~= Progress::start().params);
            assert(r@.pending =~= Progress::start().pending);
            lemma_start(|a: int, b: int| true);
        }
        r
    }

    /// The range to judge next, or `None` when the bisection is finished.
    pub fn current(&self) -> (r: Option<Interval>)
        ensures
            r == if self@.done() {
                None
            } else {
                Some(self@.top())
            },
    {
        let n: usize = self.pending.len();
        if n == 0 {
            None
        } else {
            Some(self.pending[n - 1])
        }
    }

    /// Whether no range is left to judge.
    pub fn is_done(&self) -> (r: bool)
        ensures
            r == self@.done(),
    {
        self.pending.len() == 0
    }

    /// Takes the judgement of the current range. A flat range is emitted; one
    /// that is not flat is replaced by its halves. The answer is refused,
    /// and nothing changes, when no range is waiting or when a range of a
    /// single step is judged not flat.
    pub fn answer(&mut self, flat: bool) -> (r: Result<(), SubdivisionError>)
        requires
            old(self)@.wf(),
        ensures
            final(self)@.wf(),
            final(self)@.pending.len() <= MAX_DEPTH + 1,
            match r {
                Ok(()) => {
                    &&& !old(self)@.done()
                    &&& flat ==> final(self)@ == old(self)@.accept()
                    &&& !flat ==> old(self)@.top().divisible() && final(self)@ == old(self)@.split()
                    &&& 0 <= final(self)@.work() < old(self)@.work()
                },
                Err(SubdivisionError::Finished) => old(self)@.done() && final(self)@ == old(self)@,
                Err(SubdivisionError::TooFine) => {
                    &&& !old(self)@.done()
                    &&& !flat
                    &&& !old(self)@.top().divisible()
                    &&& final(self)@ == old(self)@
                },
            },
    {
        let ghost before = self@;
        proof {
            lemma_stack_bounded(before);
        }
        let n: usize = self.pending.len();
        if n == 0 {
            return Err(SubdivisionError::Finished);
        }
        let top: Interval = self.pending[n - 1];
        assert(top == before.top());
        assert(top.wf());
        if flat {
            self.pending.pop();
            self.params.push(top.end);
            proof {
                lemma_accept(before, |a: int, b: int| true);
                assert(self@.params =~= before.accept().params);
                assert(self@.pending =~= before.accept().pending);
                lemma_work_nonnegative(self@.pending);
                lemma_stack_bounded(self@);
            }
            Ok(())
        } else {
            match top.halves() {
                None => Err(SubdivisionError::TooFine),
                Some((left, right)) => {
                    self.pending.pop();
                    self.pending.push(right);
                    self.pending.push(left);
                    proof {
                        lemma_split(before, |a: int, b: int| true);
                        assert(self@.params =~= before.split().params);
                        assert(self@.pending =~= before.split().pending);
                        lemma_work_nonnegative(self@.pending);
                        lemma_stack_bounded(self@);
                    }
                    Ok(())
                },
            }
        }
    }

    /// The parameters emitted so far: all of them once the bisection is
    /// finished, when the last one is `UNIT`.
    pub fn into_parameters(self) -> (r: Vec<u32>)
        requires
            self@.wf(),
        ensures
            r@ == self@.params,
            r@.len() >= 1,
            r@[0] == 0,
            forall|i: int, j: int| 0 <= i < j < r@.len() ==> r@[i] < r@[j],
            forall|i: int| 0 <= i < r@.len() - 1 ==> (#[trigger] segment(r@, i)).wf(),
            self@.done() ==> r@.last() == UNIT,
    {
        self.params
    }
}

/// Whether the judgements of `judge` are those of the predicate `flat`.
pub open spec fn decides<F: Fn(Interval) -> bool>(judge: F, flat: spec_fn(int, int) -> bool) -> bool {
    forall|range: Interval, verdict: bool| #[trigger]
        judge.ensures((range,), verdict) ==> verdict == flat(range.start as int, range.end as int)
}

/// Whether every range between two neighbouring parameters was judged flat.
pub open spec fn segments_judged_flat<F: Fn(Interval) -> bool>(judge: F, params: Seq<u32>) -> bool {
    forall|i: int| 0 <= i < params.len() - 1 ==> judge.ensures((#[trigger] segment(params, i),), true)
}

/// Whether the state lies on the way to the flattening under every predicate
/// that `judge` decides, with the question whether bisection resolves left
/// to the pending ranges.
pub open spec fn on_course<F: Fn(Interval) -> bool>(judge: F, p: Progress) -> bool {
    forall|flat: spec_fn(int, int) -> bool| #[trigger]
        decides(judge, flat) ==> p.follows(flat) && pending_resolves(flat, p.pending) == resolves(
            flat,
            0,
            UNIT as int,
        )
}

/// An answer that `judge` gave for the next range keeps the state on course
/// and its emitted segments judged flat.
pub proof fn lemma_answer_keeps_course<F: Fn(Interval) -> bool>(
    judge: F,
    before: Progress,
    after: Progress,
    verdict: bool,
)
    requires
        before.wf(),
        !before.done(),
        judge.ensures((before.top(),), verdict),
        verdict ==> after == before.accept(),
        !verdict ==> before.top().divisible() && after == before.split(),
        on_course(judge, before),
        segments_judged_flat(judge, before.params),
    ensures
        on_course(judge, after),
        segments_judged_flat(judge, after.params),
{
    let range = before.top();
    assert forall|i: int| 0 <= i < after.params.len() - 1 implies judge.ensures(
        (#[trigger] segment(after.params, i),),
        true,
    ) by {
        if i < before.params.len() - 1 {
            assert(segment(after.params, i) == segment(before.params, i));
        } else {
            assert(verdict);
            assert(segment(after.params, i) == range);
        }
    }
    assert forall|flat: spec_fn(int, int) -> bool| #[trigger] decides(judge, flat) implies after.follows(
        flat,
    ) && pending_resolves(flat, after.pending) == resolves(flat, 0, UNIT as int) by {
        assert(verdict == flat(range.start as int, range.end as int));
        if verdict {
            lemma_accept(before, flat);
        } else {
            lemma_split(before, flat);
        }
    }
}

/// Flattens a curve by adaptive bisection. `judge` tells whether the curve is
/// flat enough over a range of parameters. The result holds the parameters of
/// the polyline's corners, from 0 to `UNIT`, in steps of `1 / UNIT`.
///
/// Every range between two neighbouring parameters of the result was judged
/// flat. Where the judgements are those of a predicate, the result is the
/// flattening under that predicate, and the call succeeds exactly when
/// bisection under it resolves.
///
/// Fails with `TooFine` when a range of a single step is still judged not
/// flat.
pub fn recursive_subdivide<F: Fn(Interval) -> bool>(judge: F) -> (r: Result<
    Vec<u32>,
    SubdivisionError,
>)
    requires
        forall|range: Interval| range.wf() ==> #[trigger] judge.requires((range,)),
    ensures
        match r {
            Ok(params) => {
                &&& params@.len() >= 2
                &&& params@.first() == 0
                &&& params@.last() == UNIT
                &&& forall|i: int, j: int| 0 <= i < j < params@.len() ==> params@[i] < params@[j]
                &&& forall|i: int|
                    0 <= i < params@.len() - 1 ==> (#[trigger] segment(params@, i)).wf()
                &&& segments_judged_flat(judge, params@)
                &&& forall|flat: spec_fn(int, int) -> bool| #[trigger]
                    decides(judge, flat) ==> as_ints(params@) == flattening(flat) && resolves(
                        flat,
                        0,
                        UNIT as int,
                    )
            },
            Err(e) => {
                &&& e == SubdivisionError::TooFine
                &&& exists|range: Interval|
                    range.wf() && !range.divisible() && #[trigger] judge.ensures((range,), false)
                &&& forall|flat: spec_fn(int, int) -> bool| #[trigger]
                    decides(judge, flat) ==> !resolves(flat, 0, UNIT as int)
            },
        },
{
    let mut state = Subdivider::new();
    proof {
        assert forall|flat: spec_fn(int, int) -> bool| #[trigger]
            decides(judge, flat) implies state@.follows(flat) && pending_resolves(
            flat,
            state@.pending,
        ) == resolves(flat, 0, UNIT as int) by {
            lemma_start(flat);
        }
    }
    loop
        invariant
            state@.wf(),
            forall|range: Interval| range.wf() ==> #[trigger] judge.requires((range,)),
            segments_judged_flat(judge, state@.params),
            on_course(judge, state@),
        ensures
            state@.wf(),
            state@.done(),
            segments_judged_flat(judge, state@.params),
            on_course(judge, state@),
        decreases state@.work(),
    {
        let range = match state.current() {
            None => {
                break ;
            },
            Some(range) => range,
        };
        let ghost before = state@;
        assert(range.wf());
        let verdict = judge(range);
        match state.answer(verdict) {
            Ok(()) => {
                proof {
                    lemma_answer_keeps_course(judge, before, state@, verdict);
                }
            },
            Err(e) => {
                proof {
                    assert(range.wf() && !range.divisible() && judge.ensures((range,), false));
                    assert forall|flat: spec_fn(int, int) -> bool| #[trigger]
                        decides(judge, flat) implies !resolves(flat, 0, UNIT as int) by {
                        assert(verdict == flat(range.start as int, range.end as int));
                        assert(!resolves(flat, range.start as int, range.end as int));
                        assert(!pending_resolves(flat, before.pending));
                    }
                }
                return Err(SubdivisionError::TooFine);
            },
        }
    }
    proof {
        assert forall|flat: spec_fn(int, int) -> bool| #[trigger]
            decides(judge, flat) implies as_ints(state@.params) == flattening(flat) && resolves(
            flat,
            0,
            UNIT as int,
        ) by {
            lemma_done(state@, flat);
        }
        assert(state@.params.len() >= 2) by {
            assert(state@.params[0] == 0);
            assert(state@.params.last() == UNIT);
        }
    }
    Ok(state.into_parameters())
}

} // verus!
