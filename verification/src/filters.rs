//! Point filters whose decisions rest on distances between points. The
//! distances are measured by the caller: each filter names the pair of point
//! indices (and the threshold) it needs judged next, and is told the verdict.
//! The filters decide which points are kept.
use vstd::prelude::*;

verus! {

/// Indices as mathematical integers.
pub open spec fn index_view(v: Seq<usize>) -> Seq<int> {
    v.map_values(|k: usize| k as int)
}

/// Whether `s` is strictly increasing.
pub open spec fn strictly_increasing(s: Seq<int>) -> bool {
    forall|a: int, b: int| 0 <= a < b < s.len() ==> s[a] < s[b]
}

// ---------------------------------------------------------------------------
// Simplification by distance
// ---------------------------------------------------------------------------

/// The kept indices of a track of `n` points from point `i` on, `last` being
/// the last kept point: a point is kept when it lies farther than the
/// tolerance from the last kept point (`far`), and the final point always.
pub open spec fn simplify_from(
    n: int,
    far: spec_fn(int, int) -> bool,
    i: int,
    last: int,
    kept: Seq<int>,
) -> Seq<int>
    decreases n - i,
{
    if i >= n {
        kept
    } else if far(last, i) || i == n - 1 {
        simplify_from(n, far, i + 1, i, kept.push(i))
    } else {
        simplify_from(n, far, i + 1, last, kept)
    }
}

/// The kept indices of a track of `n` points: all of them when there are at
/// most two, otherwise the first point and then as `simplify_from` says.
pub open spec fn simplified_indices(n: int, far: spec_fn(int, int) -> bool) -> Seq<int> {
    if n <= 2 {
        Seq::new(if n < 0 {
            0nat
        } else {
            n as nat
        }, |k: int| k)
    } else {
        simplify_from(n, far, 1, 0, seq![0])
    }
}

/// The state of a simplification: track length, next point to judge, last
/// kept point, and the kept points so far.
pub struct TrackSimplifier {
    n: usize,
    next: usize,
    last: usize,
    kept: Vec<usize>,
}

/// A simplification's state as plain values.
pub struct SimplifierView {
    pub n: int,
    pub next: int,
    pub last: int,
    pub kept: Seq<int>,
}

impl View for TrackSimplifier {
    type V = SimplifierView;

    closed spec fn view(&self) -> SimplifierView {
        SimplifierView {
            n: self.n as int,
            next: self.next as int,
            last: self.last as int,
            kept: index_view(self.kept@),
        }
    }
}

/// Whether a simplification still waits for a verdict.
pub open spec fn simplifier_pending(v: SimplifierView) -> bool {
    v.n > 2 && v.next < v.n
}

/// A simplification's state in the shape that every reachable state has.
pub open spec fn simplifier_wf(v: SimplifierView) -> bool {
    &&& v.n >= 0
    &&& v.n > 2 ==> 1 <= v.next <= v.n && 0 <= v.last < v.next && v.kept.len() >= 1 && v.kept.last()
        == v.last
    &&& v.n <= 2 ==> v.next == v.n && v.kept == Seq::new(v.n as nat, |k: int| k)
}

/// The state after the pending pair is judged, `farther` telling whether
/// point `next` lies farther than the tolerance from point `last`.
pub open spec fn simplifier_step(v: SimplifierView, farther: bool) -> SimplifierView {
    if farther || v.next == v.n - 1 {
        SimplifierView { n: v.n, next: v.next + 1, last: v.next, kept: v.kept.push(v.next) }
    } else {
        SimplifierView { n: v.n, next: v.next + 1, last: v.last, kept: v.kept }
    }
}

impl TrackSimplifier {
    /// Every simplification is in the shape of `simplifier_wf`.
    #[verifier::type_invariant]
    spec fn well_formed(self) -> bool {
        simplifier_wf(self@)
    }

    /// A simplification of a track of `n` points.
    pub fn new(n: usize) -> (s: Self)
        ensures
            s@.n == n,
            s@.last == 0,
            simplifier_wf(s@),
            n > 2 ==> s@.next == 1 && s@.kept == seq![0int],
    {
        let mut kept: Vec<usize> = Vec::new();
        if n <= 2 {
            let mut k: usize = 0;
            while k < n
                invariant
                    k <= n,
                    index_view(kept@) == Seq::new(k as nat, |j: int| j),
                decreases n - k,
            {
                let ghost prev = index_view(kept@);
                kept.push(k);
                assert(index_view(kept@) =~= prev.push(k as int));
                k = k + 1;
                assert(index_view(kept@) =~= Seq::new(k as nat, |j: int| j));
            }
            TrackSimplifier { n, next: n, last: 0, kept }
        } else {
            kept.push(0);
            let s = TrackSimplifier { n, next: 1, last: 0, kept };
            assert(s@.kept =~= seq![0int]);
            s
        }
    }

    /// The pair of points to judge next, (last kept point, next point), or
    /// `None` when the simplification is complete.
    pub fn pending(&self) -> (p: Option<(usize, usize)>)
        ensures
            p is Some <==> simplifier_pending(self@),
            p matches Some(q) ==> q.0 == self@.last && q.1 == self@.next,
    {
        if self.n > 2 && self.next < self.n {
            Some((self.last, self.next))
        } else {
            None
        }
    }

    /// Takes the verdict on the pending pair: whether the next point lies
    /// farther than the tolerance from the last kept point.
    pub fn answer(&mut self, farther: bool)
        requires
            simplifier_pending(old(self)@),
        ensures
            final(self)@ == simplifier_step(old(self)@, farther),
            simplifier_wf(final(self)@),
    {
        proof {
            use_type_invariant(&*self);
        }
        let ghost before = self@;
        let empty: Vec<usize> = Vec::new();
        assert(index_view(empty@) =~= Seq::new(0, |k: int| k));
        let mut state = TrackSimplifier { n: 0, next: 0, last: 0, kept: empty };
        std::mem::swap(self, &mut state);
        let TrackSimplifier { n, next, last, mut kept } = state;
        let mut new_last = last;
        if farther || next == n - 1 {
            kept.push(next);
            new_last = next;
            assert(index_view(kept@) =~= before.kept.push(before.next));
        }
        *self = TrackSimplifier { n, next: next + 1, last: new_last, kept };
        proof {
            use_type_invariant(&*self);
        }
    }

    /// The indices of the kept points, in order.
    pub fn kept(&self) -> (k: &Vec<usize>)
        ensures
            index_view(k@) == self@.kept,
    {
        &self.kept
    }
}

/// What a simplification keeps, given the verdicts `far`: the first point
/// and the last, in increasing order; each kept point but the last lies
/// farther than the tolerance from the kept point before it, and every
/// dropped point lies within the tolerance of the kept point before it.
pub open spec fn simplification_ok(n: int, far: spec_fn(int, int) -> bool, kept: Seq<int>) -> bool {
    &&& kept.len() >= 1
    &&& kept[0] == 0
    &&& kept.last() == n - 1
    &&& strictly_increasing(kept)
    &&& forall|t: int| 0 <= t < kept.len() ==> 0 <= #[trigger] kept[t] < n
    &&& forall|t: int|
        0 <= t < kept.len() - 1 ==> (kept[t + 1] == n - 1 || far(kept[t], #[trigger] kept[t + 1]))
    &&& forall|t: int, c: int|
        0 <= t < kept.len() - 1 && kept[t] < c < kept[t + 1] ==> !(#[trigger] far(kept[t], c))
}

/// The shape of a simplification under way at point `i`.
spec fn simplifying(n: int, far: spec_fn(int, int) -> bool, i: int, last: int, kept: Seq<int>) -> bool {
    &&& kept.len() >= 1
    &&& kept[0] == 0
    &&& kept.last() == last
    &&& last < i
    &&& strictly_increasing(kept)
    &&& forall|t: int| 0 <= t < kept.len() ==> 0 <= #[trigger] kept[t] < n
    &&& forall|t: int|
        0 <= t < kept.len() - 1 ==> (kept[t + 1] == n - 1 || far(kept[t], #[trigger] kept[t + 1]))
    &&& forall|t: int, c: int|
        0 <= t < kept.len() - 1 && kept[t] < c < kept[t + 1] ==> !(#[trigger] far(kept[t], c))
    &&& forall|c: int| last < c < i ==> !(#[trigger] far(last, c))
}

proof fn lemma_simplify_from_ok(
    n: int,
    far: spec_fn(int, int) -> bool,
    i: int,
    last: int,
    kept: Seq<int>,
)
    requires
        n > 2,
        1 <= i <= n,
        i == n ==> last == n - 1,
        simplifying(n, far, i, last, kept),
    ensures
        simplification_ok(n, far, simplify_from(n, far, i, last, kept)),
    decreases n - i,
{
    if i < n {
        if far(last, i) || i == n - 1 {
            let k2 = kept.push(i);
            assert forall|t: int, c: int|
                0 <= t < k2.len() - 1 && k2[t] < c < k2[t + 1] implies !(#[trigger] far(k2[t], c)) by {
                if t < kept.len() - 1 {
                    assert(k2[t] == kept[t] && k2[t + 1] == kept[t + 1]);
                } else {
                    assert(k2[t] == last && k2[t + 1] == i);
                }
            }
            assert forall|t: int| 0 <= t < k2.len() - 1 implies (k2[t + 1] == n - 1 || far(
                k2[t],
                #[trigger] k2[t + 1],
            )) by {
                if t < kept.len() - 1 {
                    assert(k2[t] == kept[t] && k2[t + 1] == kept[t + 1]);
                }
            }
            assert(strictly_increasing(k2)) by {
                assert forall|a: int, b: int| 0 <= a < b < k2.len() implies k2[a] < k2[b] by {
                    if b < kept.len() {
                        assert(k2[a] == kept[a] && k2[b] == kept[b]);
                    } else {
                        assert(k2[a] == kept[a]);
                        if a < kept.len() - 1 {
                            assert(kept[a] < kept[kept.len() - 1]);
                        }
                    }
                }
            }
            assert forall|t: int| 0 <= t < k2.len() implies 0 <= #[trigger] k2[t] < n by {
                if t < kept.len() {
                    assert(k2[t] == kept[t]);
                }
            }
            lemma_simplify_from_ok(n, far, i + 1, i, k2);
        } else {
            lemma_simplify_from_ok(n, far, i + 1, last, kept);
        }
    }
}

/// Simplification keeps what `simplification_ok` describes: the first and the
/// last point, in order, dropping exactly points near the last kept one.
pub proof fn lemma_simplification_ok(n: int, far: spec_fn(int, int) -> bool)
    requires
        n >= 1,
    ensures
        n > 2 ==> simplification_ok(n, far, simplified_indices(n, far)),
        n <= 2 ==> simplified_indices(n, far) == Seq::new(n as nat, |k: int| k),
{
    if n > 2 {
        lemma_simplify_from_ok(n, far, 1, 0, seq![0]);
    }
}

/// The verdicts between kept points, by their positions among the kept
/// points: what a second simplification of the simplified track is told.
pub open spec fn kept_verdicts(far: spec_fn(int, int) -> bool, kept: Seq<int>) -> spec_fn(
    int,
    int,
) -> bool {
    |a: int, b: int| far(kept[a], kept[b])
}

proof fn lemma_resimplify_from(n: int, far: spec_fn(int, int) -> bool, kept: Seq<int>, i: int)
    requires
        simplification_ok(n, far, kept),
        kept.len() > 2,
        1 <= i <= kept.len(),
    ensures
        simplify_from(kept.len() as int, kept_verdicts(far, kept), i, i - 1, Seq::new(i as nat, |k: int| k))
            == Seq::new(kept.len(), |k: int| k),
    decreases kept.len() - i,
{
    let m = kept.len() as int;
    if i < m {
        let t = i - 1;
        assert(kept[t + 1] == n - 1 || far(kept[t], kept[t + 1]));
        assert(t + 1 == i);
        if i < m - 1 {
            assert(kept[i] < kept[m - 1]);
        }
        assert(kept_verdicts(far, kept)(i - 1, i) || i == m - 1);
        assert(Seq::new(i as nat, |k: int| k).push(i) =~= Seq::new((i + 1) as nat, |k: int| k));
        lemma_resimplify_from(n, far, kept, i + 1);
    } else {
        assert(Seq::new(i as nat, |k: int| k) =~= Seq::new(kept.len(), |k: int| k));
    }
}

/// Simplifying a simplified track keeps every point: told the same verdicts
/// between the kept points, a second simplification keeps all of them.
pub proof fn lemma_simplify_idempotent(n: int, far: spec_fn(int, int) -> bool)
    ensures
        ({
            let kept = simplified_indices(n, far);
            simplified_indices(kept.len() as int, kept_verdicts(far, kept)) == Seq::new(
                kept.len(),
                |k: int| k,
            )
        }),
{
    let kept = simplified_indices(n, far);
    let m = kept.len() as int;
    if n > 2 {
        lemma_simplification_ok(n, far);
        assert(kept[0] != kept.last());
        if m > 2 {
            assert(seq![0int] =~= Seq::new(1, |k: int| k));
            lemma_resimplify_from(n, far, kept, 1);
        }
    }
    assert(simplified_indices(m, kept_verdicts(far, kept)) =~= Seq::new(kept.len(), |k: int| k));
}

/// Driving a simplification with the verdicts `far` ends in the kept points
/// `simplified_indices(n, far)`: a new simplification starts from it, every
/// verdict `far(last, next)` on the pending pair leaves the outcome ahead
/// unchanged, and a finished one has kept exactly that outcome.
pub proof fn lemma_simplifier_follows(v: SimplifierView, far: spec_fn(int, int) -> bool)
    requires
        simplifier_wf(v),
    ensures
        v.n > 2 && v.next == 1 && v.last == 0 && v.kept == seq![0int] ==> simplify_from(
            v.n,
            far,
            v.next,
            v.last,
            v.kept,
        ) == simplified_indices(v.n, far),
        simplifier_pending(v) ==> ({
            let w = simplifier_step(v, far(v.last, v.next));
            simplify_from(v.n, far, w.next, w.last, w.kept) == simplify_from(
                v.n,
                far,
                v.next,
                v.last,
                v.kept,
            )
        }),
        !simplifier_pending(v) ==> v.kept == (if v.n > 2 {
            simplify_from(v.n, far, v.next, v.last, v.kept)
        } else {
            simplified_indices(v.n, far)
        }),
{
    if v.n <= 2 {
        assert(simplified_indices(v.n, far) =~= Seq::new(v.n as nat, |k: int| k));
    }
}

// ---------------------------------------------------------------------------
// Filtering unrealistic jumps
// ---------------------------------------------------------------------------

/// Where a jump filter stands: judging point `i` against the last kept point
/// (`Main`); after a jump at `i`, looking ahead at point `j` for a plausible
/// continuation (`Lookahead`); having found none, searching point `k` on for
/// the first point near the last kept one (`Rescue`); from there on, keeping
/// every point `m` near its predecessor in the result (`Tail`); or finished.
#[derive(PartialEq, Eq, Structural, Clone, Copy)]
pub enum JumpPhase {
    Main { i: usize },
    Lookahead { i: usize, j: usize },
    Rescue { k: usize },
    Tail { m: usize },
    Done,
}

/// The largest jump to a kept point, in kilometres.
pub const MAX_JUMP_KM: u32 = 100;

/// The distance, in kilometres, within which a point ahead counts as a
/// plausible continuation after a jump.
pub const CONTINUATION_KM: u32 = 150;

/// How many points after a jump are examined for a continuation.
pub const LOOKAHEAD_POINTS: usize = 20;

/// How many jumps in a row are tolerated before the filter stops.
pub const MAX_CONSECUTIVE_BAD: usize = 10;

/// The state of a jump filter: track length, phase, jumps in a row, and the
/// kept points so far.
pub struct JumpFilter {
    n: usize,
    phase: JumpPhase,
    bad: usize,
    kept: Vec<usize>,
}

/// A jump filter's state as plain values.
pub struct JumpFilterView {
    pub n: int,
    pub phase: JumpPhase,
    pub bad: int,
    pub kept: Seq<int>,
}

impl View for JumpFilter {
    type V = JumpFilterView;

    closed spec fn view(&self) -> JumpFilterView {
        JumpFilterView {
            n: self.n as int,
            phase: self.phase,
            bad: self.bad as int,
            kept: index_view(self.kept@),
        }
    }
}

/// The end of the look-ahead window after a jump at `i`.
pub open spec fn lookahead_end(n: int, i: int) -> int {
    if i + 1 + LOOKAHEAD_POINTS < n {
        i + 1 + LOOKAHEAD_POINTS
    } else {
        n
    }
}

/// The search for a nearby point after a jump at `i` found no continuation.
pub open spec fn start_rescue(n: int, i: int) -> JumpPhase {
    if i + 1 < n {
        JumpPhase::Rescue { k: (i + 1) as usize }
    } else {
        JumpPhase::Done
    }
}

/// Judging point `i` after point `i - 1` has been dealt with.
pub open spec fn next_main(n: int, i: int) -> JumpPhase {
    if i < n {
        JumpPhase::Main { i: i as usize }
    } else {
        JumpPhase::Done
    }
}

/// The verdict asked for next: (last kept point, point judged, threshold in
/// kilometres), or `None` when the filter is finished.
pub open spec fn jump_query(v: JumpFilterView) -> Option<(int, int, int)> {
    match v.phase {
        JumpPhase::Main { i } => Some((v.kept.last(), i as int, MAX_JUMP_KM as int)),
        JumpPhase::Lookahead { i, j } => Some((v.kept.last(), j as int, CONTINUATION_KM as int)),
        JumpPhase::Rescue { k } => Some((v.kept.last(), k as int, MAX_JUMP_KM as int)),
        JumpPhase::Tail { m } => Some((v.kept.last(), m as int, MAX_JUMP_KM as int)),
        JumpPhase::Done => None,
    }
}

/// One verdict on the pending query: whether the judged point lies within
/// the threshold of the last kept point.
pub open spec fn jump_step(v: JumpFilterView, near: bool) -> JumpFilterView {
    let n = v.n;
    let with = |phase: JumpPhase, bad: int, kept: Seq<int>|
        JumpFilterView { n: n, phase: phase, bad: bad, kept: kept };
    match v.phase {
        JumpPhase::Main { i } => {
            let i = i as int;
            if near {
                with(next_main(n, i + 1), 0, v.kept.push(i))
            } else if v.bad + 1 <= MAX_CONSECUTIVE_BAD {
                if i + 1 < lookahead_end(n, i) {
                    with(JumpPhase::Lookahead { i: i as usize, j: (i + 1) as usize }, v.bad + 1, v.kept)
                } else {
                    with(start_rescue(n, i), v.bad + 1, v.kept)
                }
            } else {
                with(JumpPhase::Done, v.bad + 1, v.kept)
            }
        },
        JumpPhase::Lookahead { i, j } => {
            let i = i as int;
            let j = j as int;
            if near {
                with(next_main(n, i + 1), v.bad, v.kept)
            } else if j + 1 < lookahead_end(n, i) {
                with(JumpPhase::Lookahead { i: i as usize, j: (j + 1) as usize }, v.bad, v.kept)
            } else {
                with(start_rescue(n, i), v.bad, v.kept)
            }
        },
        JumpPhase::Rescue { k } => {
            let k = k as int;
            if near {
                with(
                    if k + 1 < n {
                        JumpPhase::Tail { m: (k + 1) as usize }
                    } else {
                        JumpPhase::Done
                    },
                    v.bad,
                    v.kept.push(k),
                )
            } else if k + 1 < n {
                with(JumpPhase::Rescue { k: (k + 1) as usize }, v.bad, v.kept)
            } else {
                with(JumpPhase::Done, v.bad, v.kept)
            }
        },
        JumpPhase::Tail { m } => {
            let m = m as int;
            let kept = if near {
                v.kept.push(m)
            } else {
                v.kept
            };
            with(
                if m + 1 < n {
                    JumpPhase::Tail { m: (m + 1) as usize }
                } else {
                    JumpPhase::Done
                },
                v.bad,
                kept,
            )
        },
        JumpPhase::Done => v,
    }
}

/// A jump filter's state in the shape that every reachable state has.
pub open spec fn jump_wf(v: JumpFilterView) -> bool {
    &&& 0 <= v.n <= usize::MAX
    &&& 0 <= v.bad <= MAX_CONSECUTIVE_BAD + 1
    &&& v.phase !is Done ==> v.kept.len() >= 1 && 0 <= v.kept.last() && v.bad <= MAX_CONSECUTIVE_BAD
    &&& match v.phase {
        JumpPhase::Main { i } => v.kept.last() < i < v.n,
        JumpPhase::Lookahead { i, j } => v.kept.last() < i < j < lookahead_end(v.n, i as int),
        JumpPhase::Rescue { k } => v.kept.last() < k < v.n,
        JumpPhase::Tail { m } => v.kept.last() < m < v.n,
        JumpPhase::Done => true,
    }
}

impl JumpFilter {
    /// Every jump filter is in the shape of `jump_wf`.
    #[verifier::type_invariant]
    spec fn well_formed(self) -> bool {
        jump_wf(self@)
    }

    /// A jump filter for a track of `n` points: with at most one point there
    /// is nothing to judge and every point is kept.
    pub fn new(n: usize) -> (f: Self)
        ensures
            f@.n == n,
            jump_wf(f@),
            f@.bad == 0,
            f@ == jump_start(n as int),
    {
        let mut kept: Vec<usize> = Vec::new();
        if n <= 1 {
            if n == 1 {
                kept.push(0);
            }
            let f = JumpFilter { n, phase: JumpPhase::Done, bad: 0, kept };
            assert(f@.kept =~= Seq::new(n as nat, |k: int| k));
            f
        } else {
            kept.push(0);
            let f = JumpFilter { n, phase: JumpPhase::Main { i: 1 }, bad: 0, kept };
            assert(f@.kept =~= seq![0int]);
            f
        }
    }

    /// The verdict asked for next: (last kept point, point judged, threshold
    /// in kilometres), or `None` when the filter is finished.
    pub fn query(&self) -> (q: Option<(usize, usize, u32)>)
        ensures
            match jump_query(self@) {
                Some(e) => q matches Some(r) && r.0 == e.0 && r.1 == e.1 && r.2 == e.2,
                None => q is None,
            },
    {
        proof {
            use_type_invariant(self);
        }
        if let JumpPhase::Done = self.phase {
            return None;
        }
        let last = self.kept[self.kept.len() - 1];
        match self.phase {
            JumpPhase::Main { i } => Some((last, i, MAX_JUMP_KM)),
            JumpPhase::Lookahead { i, j } => Some((last, j, CONTINUATION_KM)),
            JumpPhase::Rescue { k } => Some((last, k, MAX_JUMP_KM)),
            JumpPhase::Tail { m } => Some((last, m, MAX_JUMP_KM)),
            JumpPhase::Done => None,
        }
    }

    /// Takes the verdict on the pending query: whether the judged point lies
    /// within the threshold of the last kept point.
    pub fn answer(&mut self, near: bool)
        requires
            old(self)@.phase !is Done,
        ensures
            final(self)@ == jump_step(old(self)@, near),
            jump_wf(final(self)@),
    {
        proof {
            use_type_invariant(&*self);
        }
        let ghost before = self@;
        let empty: Vec<usize> = Vec::new();
        let mut state = JumpFilter { n: 0, phase: JumpPhase::Done, bad: 0, kept: empty };
        std::mem::swap(self, &mut state);
        let JumpFilter { n, mut phase, mut bad, mut kept } = state;
        match phase {
            JumpPhase::Main { i } => {
                if near {
                    kept.push(i);
                    bad = 0;
                    phase = if i + 1 < n {
                        JumpPhase::Main { i: i + 1 }
                    } else {
                        JumpPhase::Done
                    };
                    assert(index_view(kept@) =~= before.kept.push(i as int));
                } else {
                    bad = bad + 1;
                    if bad <= MAX_CONSECUTIVE_BAD {
                        let end = if n - (i + 1) > LOOKAHEAD_POINTS {
                            i + 1 + LOOKAHEAD_POINTS
                        } else {
                            n
                        };
                        if i + 1 < end {
                            phase = JumpPhase::Lookahead { i, j: i + 1 };
                        } else {
                            phase = if i + 1 < n {
                                JumpPhase::Rescue { k: i + 1 }
                            } else {
                                JumpPhase::Done
                            };
                        }
                    } else {
                        phase = JumpPhase::Done;
                    }
                }
            },
            JumpPhase::Lookahead { i, j } => {
                if near {
                    phase = if i + 1 < n {
                        JumpPhase::Main { i: i + 1 }
                    } else {
                        JumpPhase::Done
                    };
                } else {
                    let end = if n - (i + 1) > LOOKAHEAD_POINTS {
                        i + 1 + LOOKAHEAD_POINTS
                    } else {
                        n
                    };
                    if j + 1 < end {
                        phase = JumpPhase::Lookahead { i, j: j + 1 };
                    } else {
                        phase = if i + 1 < n {
                            JumpPhase::Rescue { k: i + 1 }
                        } else {
                            JumpPhase::Done
                        };
                    }
                }
            },
            JumpPhase::Rescue { k } => {
                if near {
                    kept.push(k);
                    assert(index_view(kept@) =~= before.kept.push(k as int));
                    phase = if k + 1 < n {
                        JumpPhase::Tail { m: k + 1 }
                    } else {
                        JumpPhase::Done
                    };
                } else {
                    phase = if k + 1 < n {
                        JumpPhase::Rescue { k: k + 1 }
                    } else {
                        JumpPhase::Done
                    };
                }
            },
            JumpPhase::Tail { m } => {
                if near {
                    kept.push(m);
                    assert(index_view(kept@) =~= before.kept.push(m as int));
                }
                phase = if m + 1 < n {
                    JumpPhase::Tail { m: m + 1 }
                } else {
                    JumpPhase::Done
                };
            },
            JumpPhase::Done => {},
        }
        *self = JumpFilter { n, phase, bad, kept };
        proof {
            use_type_invariant(&*self);
        }
    }

    /// The indices of the kept points, in order.
    pub fn kept(&self) -> (k: &Vec<usize>)
        ensures
            index_view(k@) == self@.kept,
    {
        &self.kept
    }
}


/// Progress measure of a jump filter: every verdict lowers it
/// lexicographically.
pub open spec fn jump_rank(v: JumpFilterView) -> (int, int, int) {
    match v.phase {
        JumpPhase::Main { i } => (v.n - i + 1, 2, 0),
        JumpPhase::Lookahead { i, j } => (v.n - i + 1, 1, v.n - j),
        JumpPhase::Rescue { k } => (0, 1, v.n - k),
        JumpPhase::Tail { m } => (0, 0, v.n - m),
        JumpPhase::Done => (0, 0, 0),
    }
}

/// In the main phase a point judged near the last kept point is kept and the
/// count of consecutive bad points starts again from zero, while a point
/// judged far adds one to it; and a far point ends the filter before the
/// end of the track only when it is the one after `MAX_CONSECUTIVE_BAD` bad
/// points in a row. So isolated glitches, however many, never stop it.
pub proof fn lemma_jump_bad_points_consecutive(v: JumpFilterView)
    requires
        jump_wf(v),
        v.phase is Main,
    ensures
        ({
            let i = v.phase->Main_i as int;
            let near = jump_step(v, true);
            let far = jump_step(v, false);
            &&& near.bad == 0
            &&& near.kept == v.kept.push(i)
            &&& near.n == v.n
            &&& (i + 1 < v.n ==> near.phase == JumpPhase::Main { i: (i + 1) as usize })
            &&& far.bad == v.bad + 1
            &&& far.kept == v.kept
            &&& (far.phase is Done && i + 1 < v.n ==> v.bad == MAX_CONSECUTIVE_BAD)
        }),
{
    let i = v.phase->Main_i as int;
    if i + 1 < v.n {
        assert(i + 1 < lookahead_end(v.n, i));
    }
}

pub proof fn lemma_jump_step_wf(v: JumpFilterView, near: bool)
    requires
        jump_wf(v),
        v.phase !is Done,
    ensures
        jump_wf(jump_step(v, near)),
        ({
            let a = jump_rank(v);
            let b = jump_rank(jump_step(v, near));
            &&& a.0 >= 0 && a.1 >= 0 && a.2 >= 0
            &&& b.0 >= 0 && b.1 >= 0 && b.2 >= 0
            &&& (b.0 < a.0 || (b.0 == a.0 && (b.1 < a.1 || (b.1 == a.1 && b.2 < a.2))))
        }),
{
    let n = v.n;
    match v.phase {
        JumpPhase::Main { i } => {
            let i = i as int;
            if !near && v.bad + 1 <= MAX_CONSECUTIVE_BAD && !(i + 1 < lookahead_end(n, i)) {
                assert(start_rescue(n, i) == JumpPhase::Done);
            }
        },
        JumpPhase::Lookahead { i, j } => {
            let i = i as int;
            if !near && !(j + 1 < lookahead_end(n, i)) && i + 1 < n {
                assert(start_rescue(n, i) == JumpPhase::Rescue { k: (i + 1) as usize });
            }
        },
        _ => {},
    }
}

/// The kept points at the end of a jump filter run from `v`, every verdict
/// being given by `near(last kept point, point judged, threshold)`.
pub open spec fn jump_run(v: JumpFilterView, near: spec_fn(int, int, int) -> bool) -> Seq<int>
    decreases jump_rank(v).0, jump_rank(v).1, jump_rank(v).2,
{
    if !jump_wf(v) || v.phase is Done {
        v.kept
    } else {
        let q = jump_query(v)->0;
        proof {
            lemma_jump_step_wf(v, near(q.0, q.1, q.2));
        }
        jump_run(jump_step(v, near(q.0, q.1, q.2)), near)
    }
}

/// The state of a new jump filter for `n` points.
pub open spec fn jump_start(n: int) -> JumpFilterView {
    if n <= 1 {
        JumpFilterView {
            n: n,
            phase: JumpPhase::Done,
            bad: 0,
            kept: Seq::new(if n < 0 {
                0nat
            } else {
                n as nat
            }, |k: int| k),
        }
    } else {
        JumpFilterView { n: n, phase: JumpPhase::Main { i: 1 }, bad: 0, kept: seq![0int] }
    }
}

/// The indices that filtering `n` points for unrealistic jumps keeps, with
/// the distance verdicts `near`.
pub open spec fn filtered_indices(n: int, near: spec_fn(int, int, int) -> bool) -> Seq<int> {
    jump_run(jump_start(n), near)
}

/// What jump filtering keeps, given the verdicts `near`: the first point, in
/// increasing order, every kept point within 100 km of the kept point before it.
pub open spec fn jump_filtering_ok(n: int, near: spec_fn(int, int, int) -> bool, kept: Seq<int>) -> bool {
    &&& kept.len() >= 1
    &&& kept[0] == 0
    &&& strictly_increasing(kept)
    &&& forall|t: int| 0 <= t < kept.len() ==> 0 <= #[trigger] kept[t] < n
    &&& forall|t: int|
        0 <= t < kept.len() - 1 ==> #[trigger] near(kept[t], kept[t + 1], MAX_JUMP_KM as int)
}

proof fn lemma_jump_push_ok(
    n: int,
    near: spec_fn(int, int, int) -> bool,
    kept: Seq<int>,
    x: int,
)
    requires
        jump_filtering_ok(n, near, kept),
        kept.last() < x < n,
        near(kept.last(), x, MAX_JUMP_KM as int),
    ensures
        jump_filtering_ok(n, near, kept.push(x)),
{
    let k2 = kept.push(x);
    assert forall|a: int, b: int| 0 <= a < b < k2.len() implies k2[a] < k2[b] by {
        if b < kept.len() {
            assert(k2[a] == kept[a] && k2[b] == kept[b]);
        } else {
            assert(k2[a] == kept[a]);
            if a < kept.len() - 1 {
                assert(kept[a] < kept[kept.len() - 1]);
            }
        }
    }
    assert forall|t: int| 0 <= t < k2.len() implies 0 <= #[trigger] k2[t] < n by {
        if t < kept.len() {
            assert(k2[t] == kept[t]);
        }
    }
    assert forall|t: int| 0 <= t < k2.len() - 1 implies #[trigger] near(
        k2[t],
        k2[t + 1],
        MAX_JUMP_KM as int,
    ) by {
        if t < kept.len() - 1 {
            assert(k2[t] == kept[t] && k2[t + 1] == kept[t + 1]);
        } else {
            assert(k2[t] == kept.last() && k2[t + 1] == x);
        }
    }
}

proof fn lemma_jump_run_ok(v: JumpFilterView, near: spec_fn(int, int, int) -> bool)
    requires
        jump_wf(v),
        jump_filtering_ok(v.n, near, v.kept),
    ensures
        jump_filtering_ok(v.n, near, jump_run(v, near)),
    decreases jump_rank(v).0, jump_rank(v).1, jump_rank(v).2,
{
    if v.phase !is Done {
        let q = jump_query(v)->0;
        let answer = near(q.0, q.1, q.2);
        lemma_jump_step_wf(v, answer);
        let w = jump_step(v, answer);
        match v.phase {
            JumpPhase::Main { i } => {
                if answer {
                    lemma_jump_push_ok(v.n, near, v.kept, i as int);
                }
            },
            JumpPhase::Rescue { k } => {
                if answer {
                    lemma_jump_push_ok(v.n, near, v.kept, k as int);
                }
            },
            JumpPhase::Tail { m } => {
                if answer {
                    lemma_jump_push_ok(v.n, near, v.kept, m as int);
                }
            },
            _ => {},
        }
        lemma_jump_run_ok(w, near);
    }
}

/// Filtering for unrealistic jumps keeps the first point and then points in
/// increasing order, each within 100 km of the kept point before it; a track
/// of one point is kept whole.
pub proof fn lemma_jump_filtering_ok(n: int, near: spec_fn(int, int, int) -> bool)
    requires
        1 <= n <= usize::MAX,
    ensures
        jump_filtering_ok(n, near, filtered_indices(n, near)),
{
    let v = jump_start(n);
    if n == 1 {
        assert(v.kept =~= seq![0int]);
    }
    lemma_jump_run_ok(v, near);
}

/// Driving a jump filter with the verdicts `near` ends in the kept points
/// `filtered_indices(n, near)`: a new filter starts in `jump_start(n)`, every
/// verdict given by `near` on the pending query leaves the outcome ahead
/// unchanged, and a finished filter has kept exactly that outcome.
pub proof fn lemma_jump_filter_follows(v: JumpFilterView, near: spec_fn(int, int, int) -> bool)
    requires
        jump_wf(v),
    ensures
        v.phase is Done ==> jump_run(v, near) == v.kept,
        v.phase !is Done ==> ({
            let q = jump_query(v)->0;
            jump_run(jump_step(v, near(q.0, q.1, q.2)), near) == jump_run(v, near)
        }),
{
}

} // verus!
