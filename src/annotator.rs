//! The alignment orchestrator: aligns candidates with the baseline, keeps the
//! baseline positions common to all of them, and segments the baseline.
use crate::areas::{
    has_repeat, AreaView, EitherMatchedArea, GroupView, MatchedArea, MergedSubTrajArray,
    MisMatchedArea, PreMatchedArea, PreprocessAreas, ResultView, SpanView, SubTrajArray,
    SubTrajOwner, empty_result,
};
use crate::lcs::{
    lcs_length, lcs_pairs, lemma_lcs_pairs_common, lemma_lcs_pairs_length, pair_indices, LcsTable,
};
use crate::merge::{
    area_of, contains_index, count_true, generate_mismatched_area_from_sub_trajs, groups_of, ints,
    merge_outcome, span_views,
};
use crate::trajectory::{
    annotator_type_of, get_annotator_type, is_redundancy_test, lemma_coordinate_concrete_eq,
    AnnotatorType, Coordinate, MethodResult,
};
use vstd::prelude::*;

verus! {

/// The longest trajectory the orchestrator accepts; any trajectory held in memory is shorter.
pub const MAX_TRAJECTORY_LEN: usize = usize::MAX / 32;

/// Settings of a segmentation run. The simplifier's threshold is not held here:
/// the collinearity test that applies it is handed to `generate_matched_areas`.
pub struct AnnotatorConfig {
    /// Tolerate detours and U-turns when merging disagreeing candidates.
    pub auto_merge_circle: bool,
    /// Names of methods whose results are left out.
    pub disabled_annotators: Vec<String>,
}

/// A candidate method's trajectory with its alignment to the baseline: each pair
/// maps an aligned baseline index to the candidate's index.
pub struct SubAnnotator {
    pub method_type: AnnotatorType,
    pub traj: Vec<Coordinate>,
    pub index_pairs: Vec<(usize, usize)>,
}

/// The mathematical content of a `SubAnnotator`.
pub struct MemberView {
    pub kind: AnnotatorType,
    pub traj: Seq<Coordinate>,
    pub pairs: Seq<(int, int)>,
}

pub open spec fn pairs_view(v: Seq<(usize, usize)>) -> Seq<(int, int)> {
    v.map_values(|p: (usize, usize)| (p.0 as int, p.1 as int))
}

impl SubAnnotator {
    pub open spec fn view(&self) -> MemberView {
        MemberView { kind: self.method_type, traj: self.traj@, pairs: pairs_view(self.index_pairs@) }
    }
}

/// The baseline indices that the alignment of `b` with `c` pairs, in increasing order.
pub open spec fn aligned_indices(b: Seq<Coordinate>, c: Seq<Coordinate>) -> Seq<int> {
    lcs_pairs(b, c, b.len() as int, c.len() as int).map_values(|p: (int, int)| p.0)
}

/// The elements of `s` that `keep` contains, in the order of `s`.
pub open spec fn keep_contained(s: Seq<int>, keep: Seq<int>) -> Seq<int>
    decreases s.len(),
{
    if s.len() == 0 {
        seq![]
    } else {
        let rest = keep_contained(s.drop_last(), keep);
        if keep.contains(s.last()) {
            rest.push(s.last())
        } else {
            rest
        }
    }
}

/// The common index set after adding the candidates `cands` in order.
pub open spec fn common_after(b: Seq<Coordinate>, cands: Seq<Seq<Coordinate>>) -> Seq<int>
    decreases cands.len(),
{
    if cands.len() == 0 {
        seq![]
    } else if cands.len() == 1 {
        aligned_indices(b, cands[0])
    } else {
        keep_contained(aligned_indices(b, cands.last()), common_after(b, cands.drop_last()))
    }
}

/// Whether `x` is a first component of some pair.
pub open spec fn is_aligned(pairs: Seq<(int, int)>, x: int) -> bool {
    exists|k: int| 0 <= k < pairs.len() && #[trigger] pairs[k].0 == x
}

/// The second component of the pair whose first component is `x`.
pub open spec fn index_in(pairs: Seq<(int, int)>, x: int) -> int {
    pairs[choose|k: int| 0 <= k < pairs.len() && #[trigger] pairs[k].0 == x].1
}

/// Pairs strictly increasing in both components, within `[0, n)` and `[0, m)`.
pub open spec fn monotone_pairs(pairs: Seq<(int, int)>, n: int, m: int) -> bool {
    &&& forall|k: int| 0 <= k < pairs.len() ==> 0 <= #[trigger] pairs[k].0 < n && 0 <= pairs[k].1 < m
    &&& forall|k: int, l: int| 0 <= k < l < pairs.len() ==> #[trigger] pairs[k].0 < #[trigger] pairs[l].0 && pairs[k].1 < pairs[l].1
}

pub open spec fn strictly_increasing(s: Seq<int>) -> bool {
    forall|k: int, l: int| 0 <= k < l < s.len() ==> #[trigger] s[k] < #[trigger] s[l]
}

/// The candidate of ordinal `k` steps by exactly one from baseline index `last` to `cur`.
pub open spec fn advances(s: AnnotatorState, k: int, last: int, cur: int) -> bool {
    let m = s.members[k]->Some_0;
    index_in(m.pairs, cur) == index_in(m.pairs, last) + 1
}

/// Continuity between consecutive common indices: some candidate advances by one
/// when U-turns are tolerated, every candidate otherwise.
pub open spec fn continuous(s: AnnotatorState, last: int, cur: int) -> bool {
    if s.auto_merge_circle {
        exists|k: int| 0 <= k < 4 && s.members[k] is Some && #[trigger] advances(s, k, last, cur)
    } else {
        forall|k: int| 0 <= k < 4 && s.members[k] is Some ==> #[trigger] advances(s, k, last, cur)
    }
}

/// The scan of the common indices: the start of the current run, the matched
/// ranges found so far, and the number of runs of a single point.
pub struct ScanState {
    pub start: int,
    pub ranges: Seq<(int, int)>,
    pub single: nat,
}

pub open spec fn scan_step(s: AnnotatorState, st: ScanState, i: int) -> ScanState {
    let c = s.common;
    let last = c[i - 1];
    let cur = c[i];
    let cont = continuous(s, last, cur);
    let is_end = i == c.len() - 1;
    if !is_end && cont {
        st
    } else {
        let end = if is_end && cont { cur } else { last };
        // A last index that does not continue the run before it is a run of its own.
        let lone_last: nat = if is_end && !cont { 1 } else { 0 };
        if end - st.start > 0 {
            ScanState { start: cur, ranges: st.ranges.push((st.start, end)), single: st.single + lone_last }
        } else {
            ScanState { start: cur, ranges: st.ranges, single: st.single + 1 + lone_last }
        }
    }
}

/// The scan after the common indices at positions `1..i`.
pub open spec fn scan(s: AnnotatorState, i: int) -> ScanState
    decreases i,
{
    if i <= 1 {
        ScanState { start: s.common[0], ranges: seq![], single: 0 }
    } else {
        scan_step(s, scan(s, i - 1), i - 1)
    }
}

/// The span of member `m` from `cs` to `ce`, both included.
pub open spec fn gap_span(m: MemberView, cs: int, ce: int) -> SpanView {
    let t = m.traj.subrange(cs, ce + 1);
    SpanView {
        owner: SubTrajOwner { owner_type: m.kind, has_error: false, start_index: cs as usize, end_index: ce as usize },
        traj: t,
        has_circle: has_repeat(t),
    }
}

/// The spans of the members of ordinal below `k` in the gap that starts after the
/// baseline index `from` (or at the start) and ends at the baseline index `to`
/// (or at the end); a member contributes only a span of two or more points.
pub open spec fn gap_spans(s: AnnotatorState, from: Option<int>, to: Option<int>, k: int) -> Seq<SpanView>
    decreases k,
{
    if k <= 0 {
        seq![]
    } else {
        let prev = gap_spans(s, from, to, k - 1);
        match member_at(s, k - 1) {
            None => prev,
            Some(m) => {
                let cs = match from {
                    None => 0,
                    Some(b) => index_in(m.pairs, b),
                };
                let ce = match to {
                    None => m.traj.len() - 1,
                    Some(b) => index_in(m.pairs, b),
                };
                if ce > cs {
                    prev.push(gap_span(m, cs, ce))
                } else {
                    prev
                }
            },
        }
    }
}

/// The areas and metrics collected from the gaps.
pub struct GapState {
    pub prematched: Seq<(int, GroupView)>,
    pub mismatched: Seq<(int, Seq<GroupView>)>,
    pub u_turns: int,
    pub simplified: int,
}

/// Adds what resolving a gap with spans `spans` and id `id` gives.
pub open spec fn resolve_gap<F: Fn(Coordinate, Coordinate, Coordinate) -> bool>(
    s: AnnotatorState,
    gs: GapState,
    spans: Seq<SpanView>,
    id: int,
    f: F,
) -> GapState {
    if spans.len() == 0 {
        gs
    } else {
        let mo = merge_outcome(spans, s.auto_merge_circle, f);
        let u = gs.u_turns + count_true(mo.flagged);
        let sc = gs.simplified + mo.simplified_unions;
        match area_of(id, groups_of(spans, mo)) {
            AreaView::MisMatched(i, g) => GapState { mismatched: gs.mismatched.push((i, g)), u_turns: u, simplified: sc, ..gs },
            AreaView::PreMatched(i, g) => GapState { prematched: gs.prematched.push((i, g)), u_turns: u, simplified: sc, ..gs },
            AreaView::Nothing => GapState { u_turns: u, simplified: sc, ..gs },
        }
    }
}

/// The baseline index after which the gap before matched range `q` starts.
pub open spec fn gap_from(ranges: Seq<(int, int)>, q: int) -> Option<int> {
    if q == 0 {
        None
    } else {
        Some(ranges[q - 1].1)
    }
}

/// The gaps before the matched ranges `0..q`; the gap before range `q` has id `2q`.
pub open spec fn gaps<F: Fn(Coordinate, Coordinate, Coordinate) -> bool>(
    s: AnnotatorState,
    ranges: Seq<(int, int)>,
    q: int,
    f: F,
) -> GapState
    decreases q,
{
    if q <= 0 {
        GapState { prematched: seq![], mismatched: seq![], u_turns: 0, simplified: 0 }
    } else {
        resolve_gap(
            s,
            gaps(s, ranges, q - 1, f),
            gap_spans(s, gap_from(ranges, q - 1), Some(ranges[q - 1].0), 4),
            2 * (q - 1),
            f,
        )
    }
}

/// The matched area of the baseline range `r`.
pub open spec fn matched_span(s: AnnotatorState, r: (int, int)) -> SpanView {
    SpanView {
        owner: SubTrajOwner { owner_type: s.baseline_type, has_error: false, start_index: r.0 as usize, end_index: r.1 as usize },
        traj: s.baseline.subrange(r.0, r.1 + 1),
        has_circle: false,
    }
}

/// The segmentation of the baseline: matched ranges from the scan of the common
/// indices (ids `1, 3, 5, ...`), then the gaps before each of them and after the last
/// (ids `0, 2, 4, ...`), each resolved by the merge procedure. Every maximal run
/// of a single common index counts as a degenerate alignment; a lone common index
/// is one such run.
pub open spec fn segmentation<F: Fn(Coordinate, Coordinate, Coordinate) -> bool>(s: AnnotatorState, f: F) -> ResultView {
    if s.common.len() == 0 {
        empty_result()
    } else {
        let sc = scan(s, s.common.len() as int);
        let ranges = sc.ranges;
        let n = ranges.len() as int;
        let g = resolve_gap(s, gaps(s, ranges, n, f), gap_spans(s, gap_from(ranges, n), None, 4), 2 * n, f);
        ResultView {
            matched: Seq::new(ranges.len(), |q: int| (2 * q + 1, matched_span(s, ranges[q]))),
            prematched: g.prematched,
            mismatched: g.mismatched,
            u_turns: g.u_turns,
            single: if s.common.len() == 1 { 1 } else { sc.single as int },
            simplified: g.simplified,
        }
    }
}

proof fn lemma_increasing_from(c: Seq<int>, k: int)
    requires
        strictly_increasing(c),
        forall|l: int| 0 <= l < c.len() ==> 0 <= #[trigger] c[l],
        0 <= k < c.len(),
    ensures
        c[k] >= k,
    decreases k,
{
    if k > 0 {
        lemma_increasing_from(c, k - 1);
        assert(c[k - 1] < c[k]);
    }
}

/// A strictly increasing sequence of indices below `b` has at most `b` elements.
proof fn lemma_increasing_len(c: Seq<int>, b: int)
    requires
        strictly_increasing(c),
        0 <= b,
        forall|l: int| 0 <= l < c.len() ==> 0 <= #[trigger] c[l] < b,
    ensures
        c.len() <= b,
{
    if c.len() > 0 {
        let k = c.len() - 1;
        lemma_increasing_from(c, k);
        assert(c[k] >= k);
        assert(c[k] < b);
    }
}

/// An optional index as an optional integer.
pub open spec fn opt_int(o: Option<usize>) -> Option<int> {
    match o {
        Some(x) => Some(x as int),
        None => None,
    }
}

/// A copy of `v[start..end)`.
fn copy_range(v: &Vec<Coordinate>, start: usize, end: usize) -> (r: Vec<Coordinate>)
    requires
        start <= end <= v@.len(),
    ensures
        r@ == v@.subrange(start as int, end as int),
{
    let mut r: Vec<Coordinate> = Vec::new();
    let mut k: usize = start;
    while k < end
        invariant
            start <= k <= end <= v@.len(),
            r@ == v@.subrange(start as int, k as int),
        decreases end - k,
    {
        r.push(v[k]);
        proof {
            assert(r@ =~= v@.subrange(start as int, k + 1));
        }
        k += 1;
    }
    r
}

/// With pairs strictly increasing in their first component, the pair of an
/// aligned index is the only one with that first component.
proof fn lemma_index_in(pairs: Seq<(int, int)>, n: int, m: int, k: int)
    requires
        monotone_pairs(pairs, n, m),
        0 <= k < pairs.len(),
    ensures
        index_in(pairs, pairs[k].0) == pairs[k].1,
        0 <= index_in(pairs, pairs[k].0) < m,
{
    let x = pairs[k].0;
    assert(0 <= k < pairs.len() && pairs[k].0 == x);
    let w = choose|w: int| 0 <= w < pairs.len() && #[trigger] pairs[w].0 == x;
    if w < k {
        assert(pairs[w].0 < pairs[k].0);
    } else if w > k {
        assert(pairs[k].0 < pairs[w].0);
    }
}

proof fn lemma_identity_index(n: int, x: int)
    requires
        0 <= x < n,
    ensures
        is_aligned(identity_pairs(n), x),
        index_in(identity_pairs(n), x) == x,
        monotone_pairs(identity_pairs(n), n, n),
{
    let p = identity_pairs(n);
    assert(p[x].0 == x);
    let w = choose|w: int| 0 <= w < p.len() && #[trigger] p[w].0 == x;
    assert(p[w] == (w, w));
}

/// The state of an orchestrator.
pub struct AnnotatorState {
    pub baseline_type: AnnotatorType,
    pub baseline: Seq<Coordinate>,
    pub auto_merge_circle: bool,
    /// The candidate of each kind, by the kind's ordinal; never one of the baseline's kind.
    pub members: Seq<Option<MemberView>>,
    /// The common index set.
    pub common: Seq<int>,
    /// The trajectories of all candidates added so far, in order.
    pub candidates: Seq<Seq<Coordinate>>,
}

/// The member of ordinal `k`: the baseline, aligned with itself, or a candidate.
pub open spec fn member_at(s: AnnotatorState, k: int) -> Option<MemberView> {
    if k == s.baseline_type.spec_ordinal() {
        Some(MemberView { kind: s.baseline_type, traj: s.baseline, pairs: identity_pairs(s.baseline.len() as int) })
    } else {
        s.members[k]
    }
}

pub open spec fn identity_pairs(n: int) -> Seq<(int, int)> {
    Seq::new(n as nat, |i: int| (i, i))
}

/// The invariant of an orchestrator's state.
pub open spec fn state_wf(s: AnnotatorState) -> bool {
    &&& s.baseline.len() <= MAX_TRAJECTORY_LEN
    &&& s.members.len() == 4
    &&& s.members[s.baseline_type.spec_ordinal()] is None
    &&& forall|k: int| 0 <= k < 4 && (#[trigger] s.members[k]) is Some ==> {
        let m = s.members[k]->Some_0;
        &&& m.kind.spec_ordinal() == k
        &&& monotone_pairs(m.pairs, s.baseline.len() as int, m.traj.len() as int)
        &&& forall|x: int| s.common.contains(x) ==> is_aligned(m.pairs, x)
    }
    &&& strictly_increasing(s.common)
    &&& forall|k: int| 0 <= k < s.common.len() ==> 0 <= #[trigger] s.common[k] < s.baseline.len()
    &&& s.common == common_after(s.baseline, s.candidates)
    &&& s.candidates.len() == 0 ==> forall|k: int| 0 <= k < 4 ==> #[trigger] s.members[k] is None
}

/// The state right after construction.
pub open spec fn initial_state(name: Seq<char>, t: Seq<Coordinate>, auto: bool) -> AnnotatorState {
    AnnotatorState {
        baseline_type: annotator_type_of(name),
        baseline: t,
        auto_merge_circle: auto,
        members: seq![None, None, None, None],
        common: seq![],
        candidates: seq![],
    }
}

/// The state after adding the candidate `name` with trajectory `t`.
pub open spec fn added(s0: AnnotatorState, name: Seq<char>, t: Seq<Coordinate>) -> AnnotatorState {
    let kind = annotator_type_of(name);
    if kind == s0.baseline_type {
        s0
    } else {
        AnnotatorState {
            members: s0.members.update(
                kind.spec_ordinal(),
                Some(MemberView { kind, traj: t, pairs: lcs_pairs(s0.baseline, t, s0.baseline.len() as int, t.len() as int) }),
            ),
            common: common_after(s0.baseline, s0.candidates.push(t)),
            candidates: s0.candidates.push(t),
            ..s0
        }
    }
}

/// Aligns every candidate with a baseline trajectory and segments the baseline.
pub struct PreAnnotator {
    common_indexes: Vec<usize>,
    baseline_annotator_type: AnnotatorType,
    baseline_traj: Vec<Coordinate>,
    annotator_config: AnnotatorConfig,
    sub_annotators: Vec<Option<SubAnnotator>>,
    has_candidates: bool,
    candidates: Ghost<Seq<Seq<Coordinate>>>,
}

/// The aligned indices are strictly increasing baseline indices.
pub proof fn lemma_aligned_indices(b: Seq<Coordinate>, c: Seq<Coordinate>)
    ensures
        strictly_increasing(aligned_indices(b, c)),
        forall|k: int| 0 <= k < aligned_indices(b, c).len() ==> 0 <= #[trigger] aligned_indices(b, c)[k] < b.len(),
        monotone_pairs(lcs_pairs(b, c, b.len() as int, c.len() as int), b.len() as int, c.len() as int),
{
    lemma_lcs_pairs_common(b, c, b.len() as int, c.len() as int);
    let p = lcs_pairs(b, c, b.len() as int, c.len() as int);
    let a = aligned_indices(b, c);
    assert forall|k: int, l: int| 0 <= k < l < a.len() implies #[trigger] a[k] < #[trigger] a[l] by {
        assert(p[k].0 < p[l].0);
    }
    assert forall|k: int| 0 <= k < a.len() implies 0 <= #[trigger] a[k] < b.len() by {
        assert(0 <= p[k].0 < b.len());
    }
}

/// Keeping the elements of a strictly increasing `s` that `keep` contains gives a
/// strictly increasing sequence of exactly the elements of both.
pub proof fn lemma_keep_contained(s: Seq<int>, keep: Seq<int>)
    requires
        strictly_increasing(s),
    ensures
        strictly_increasing(keep_contained(s, keep)),
        forall|x: int| keep_contained(s, keep).contains(x) <==> s.contains(x) && keep.contains(x),
    decreases s.len(),
{
    if s.len() > 0 {
        let init = s.drop_last();
        assert(strictly_increasing(init));
        lemma_keep_contained(init, keep);
        let rest = keep_contained(init, keep);
        assert forall|x: int| s.contains(x) <==> init.contains(x) || x == s.last() by {
            if s.contains(x) {
                let w = choose|w: int| 0 <= w < s.len() && s[w] == x;
                if w < s.len() - 1 {
                    assert(init[w] == x);
                }
            }
            if init.contains(x) {
                let w = choose|w: int| 0 <= w < init.len() && init[w] == x;
                assert(s[w] == x);
            }
        }
        assert forall|k: int| 0 <= k < rest.len() implies #[trigger] rest[k] < s.last() by {
            let y = rest[k];
            assert(rest.contains(y));
            assert(init.contains(y));
            let w = choose|w: int| 0 <= w < init.len() && init[w] == y;
            assert(s[w] < s[s.len() - 1]);
        }
        if keep.contains(s.last()) {
            let r = rest.push(s.last());
            assert forall|x: int| r.contains(x) <==> rest.contains(x) || x == s.last() by {
                if r.contains(x) {
                    let w = choose|w: int| 0 <= w < r.len() && r[w] == x;
                    if w < rest.len() {
                        assert(rest[w] == x);
                    }
                }
                if rest.contains(x) {
                    let w = choose|w: int| 0 <= w < rest.len() && rest[w] == x;
                    assert(r[w] == x);
                }
                if x == s.last() {
                    assert(r[rest.len() as int] == x);
                }
            }
            assert forall|k: int, l: int| 0 <= k < l < r.len() implies #[trigger] r[k] < #[trigger] r[l] by {
                if l < rest.len() {
                    assert(r[k] == rest[k] && r[l] == rest[l]);
                } else {
                    assert(r[k] == rest[k]);
                }
            }
        } else {
            assert forall|x: int| s.contains(x) && keep.contains(x) implies rest.contains(x) by {
                assert(init.contains(x));
            }
        }
    }
}

/// The common index set is the intersection of the baseline indices that each
/// candidate's alignment pairs, in ascending order.
pub proof fn lemma_common_is_intersection(b: Seq<Coordinate>, cands: Seq<Seq<Coordinate>>)
    requires
        cands.len() >= 1,
    ensures
        strictly_increasing(common_after(b, cands)),
        forall|x: int| common_after(b, cands).contains(x) <==> (forall|i: int| 0 <= i < cands.len()
            ==> #[trigger] aligned_indices(b, cands[i]).contains(x)),
    decreases cands.len(),
{
    lemma_aligned_indices(b, cands.last());
    if cands.len() == 1 {
        assert forall|x: int| common_after(b, cands).contains(x) <==> (forall|i: int| 0 <= i < cands.len()
            ==> #[trigger] aligned_indices(b, cands[i]).contains(x)) by {
            if forall|i: int| 0 <= i < cands.len() ==> #[trigger] aligned_indices(b, cands[i]).contains(x) {
                assert(aligned_indices(b, cands[0]).contains(x));
            }
        }
    } else {
        let init = cands.drop_last();
        lemma_common_is_intersection(b, init);
        lemma_keep_contained(aligned_indices(b, cands.last()), common_after(b, init));
        assert forall|x: int| common_after(b, cands).contains(x) <==> (forall|i: int| 0 <= i < cands.len()
            ==> #[trigger] aligned_indices(b, cands[i]).contains(x)) by {
            assert(common_after(b, cands) == keep_contained(aligned_indices(b, cands.last()), common_after(b, init)));
            if common_after(b, cands).contains(x) {
                assert(common_after(b, init).contains(x));
                assert(aligned_indices(b, cands.last()).contains(x));
                assert forall|i: int| 0 <= i < cands.len() implies #[trigger] aligned_indices(b, cands[i]).contains(x) by {
                    if i < cands.len() - 1 {
                        assert(init[i] == cands[i]);
                        assert(aligned_indices(b, init[i]).contains(x));
                    }
                }
            }
            if forall|i: int| 0 <= i < cands.len() ==> #[trigger] aligned_indices(b, cands[i]).contains(x) {
                assert forall|i: int| 0 <= i < init.len() implies #[trigger] aligned_indices(b, init[i]).contains(x) by {
                    assert(init[i] == cands[i]);
                }
                assert(aligned_indices(b, cands[cands.len() - 1]).contains(x));
            }
        }
    }
}

impl PreAnnotator {
    pub closed spec fn view(&self) -> AnnotatorState {
        AnnotatorState {
            baseline_type: self.baseline_annotator_type,
            baseline: self.baseline_traj@,
            auto_merge_circle: self.annotator_config.auto_merge_circle,
            members: self.sub_annotators@.map_values(
                |o: Option<SubAnnotator>|
                    match o {
                        Some(m) => Some(m@),
                        None => None,
                    },
            ),
            common: ints(self.common_indexes@),
            candidates: self.candidates@,
        }
    }

    pub closed spec fn wf(&self) -> bool {
        &&& state_wf(self@)
        &&& self.sub_annotators@.len() == 4
        &&& self.has_candidates == (self.candidates@.len() > 0)
    }

    /// An orchestrator for the baseline `baseline_method`, with no candidate yet.
    pub fn new(baseline_method: &MethodResult, config: AnnotatorConfig) -> (r: Self)
        requires
            baseline_method.trajectory@.len() <= MAX_TRAJECTORY_LEN,
        ensures
            r.wf(),
            r@ == initial_state(baseline_method.method_name@, baseline_method.trajectory@, config.auto_merge_circle),
    {
        let kind = get_annotator_type(baseline_method.method_name.as_str());
        let mut sub_annotators: Vec<Option<SubAnnotator>> = Vec::new();
        sub_annotators.push(None);
        sub_annotators.push(None);
        sub_annotators.push(None);
        sub_annotators.push(None);
        let r = PreAnnotator {
            common_indexes: Vec::new(),
            baseline_annotator_type: kind,
            baseline_traj: baseline_method.trajectory.clone(),
            annotator_config: config,
            sub_annotators,
            has_candidates: false,
            candidates: Ghost(Seq::empty()),
        };
        proof {
            assert(r@.common =~= seq![]);
            assert(r@.members =~= seq![None, None, None, None]);
        }
        r
    }

    /// Adds a candidate: aligns its trajectory with the baseline, stores it under
    /// its kind (replacing an earlier candidate of that kind), and narrows the
    /// common index set to the baseline indices that this alignment pairs too.
    /// A candidate of the baseline's own kind is left out.
    pub fn add_sub_annotator(&mut self, matching_method: &MethodResult)
        requires
            old(self).wf(),
        ensures
            final(self).wf(),
            final(self)@ == added(old(self)@, matching_method.method_name@, matching_method.trajectory@),
    {
        proof {
            lemma_coordinate_concrete_eq();
        }
        let kind = get_annotator_type(matching_method.method_name.as_str());
        let ord = kind.ordinal();
        if ord == self.baseline_annotator_type.ordinal() {
            proof {
                AnnotatorType::lemma_ordinal_injective(kind, self.baseline_annotator_type);
            }
            return;
        }
        let ghost s0 = self@;
        let ghost t = matching_method.trajectory@;
        let ghost lp = lcs_pairs(s0.baseline, t, s0.baseline.len() as int, t.len() as int);
        let mut pairs: Vec<(usize, usize)> = Vec::new();
        {
            let table = LcsTable::new(self.baseline_traj.as_slice(), matching_method.trajectory.as_slice());
            let lcs = table.longest_common_subsequence();
            let mut k: usize = 0;
            while k < lcs.len()
                invariant
                    k <= lcs@.len(),
                    pair_indices(lcs@) == lp,
                    pairs_view(pairs@) == lp.subrange(0, k as int),
                    pairs@.len() == k,
                    lp.len() == lcs@.len(),
                decreases lcs@.len() - k,
            {
                let ghost before = pairs@;
                proof {
                    assert(lp.len() == lcs@.len());
                }
                pairs.push(lcs[k].1);
                proof {
                    assert(pair_indices(lcs@)[k as int] == lp[k as int]);
                    assert forall|l: int| 0 <= l <= k implies #[trigger] pairs_view(pairs@)[l] == lp.subrange(0, k + 1)[l] by {
                        if l < k {
                            assert(pairs@[l] == before[l]);
                            assert(pairs_view(before)[l] == lp.subrange(0, k as int)[l]);
                        }
                    }
                    assert(pairs_view(pairs@) =~= lp.subrange(0, k + 1));
                }
                k += 1;
            }
            proof {
                assert(lp.subrange(0, lcs@.len() as int) =~= lp);
                assert(lcs@.len() == lp.len());
            }
        }
        proof {
            lemma_lcs_pairs_common(s0.baseline, t, s0.baseline.len() as int, t.len() as int);
        }
        let ghost aligned = aligned_indices(s0.baseline, t);
        let mut new_common: Vec<usize> = Vec::new();
        if !self.has_candidates {
            let mut k: usize = 0;
            while k < pairs.len()
                invariant
                    k <= pairs@.len(),
                    pairs_view(pairs@) == lp,
                    aligned == lp.map_values(|p: (int, int)| p.0),
                    ints(new_common@) == aligned.subrange(0, k as int),
                    new_common@.len() == k,
                    lp.len() == pairs@.len(),
                decreases pairs@.len() - k,
            {
                let ghost before = new_common@;
                proof {
                    assert(pairs_view(pairs@)[k as int] == lp[k as int]);
                }
                new_common.push(pairs[k].0);
                proof {
                    assert forall|l: int| 0 <= l <= k implies #[trigger] ints(new_common@)[l] == aligned.subrange(0, k + 1)[l] by {
                        if l < k {
                            assert(new_common@[l] == before[l]);
                            assert(ints(before)[l] == aligned.subrange(0, k as int)[l]);
                        }
                    }
                    assert(ints(new_common@) =~= aligned.subrange(0, k + 1));
                }
                k += 1;
            }
            proof {
                assert(aligned.subrange(0, pairs@.len() as int) =~= aligned);
            }
        } else {
            let mut k: usize = 0;
            while k < pairs.len()
                invariant
                    k <= pairs@.len(),
                    pairs_view(pairs@) == lp,
                    aligned == lp.map_values(|p: (int, int)| p.0),
                    self@ == s0,
                    ints(new_common@) == keep_contained(aligned.subrange(0, k as int), s0.common),
                decreases pairs@.len() - k,
            {
                let x = pairs[k].0;
                proof {
                    assert(pairs_view(pairs@)[k as int] == lp[k as int]);
                    assert(aligned.subrange(0, k + 1).drop_last() =~= aligned.subrange(0, k as int));
                }
                if contains_index(&self.common_indexes, x) {
                    let ghost before = new_common@;
                    new_common.push(x);
                    proof {
                        assert(ints(new_common@) =~= ints(before).push(x as int));
                        assert(ints(new_common@) =~= keep_contained(aligned.subrange(0, k + 1), s0.common));
                    }
                }
                k += 1;
            }
            proof {
                assert(aligned.subrange(0, pairs@.len() as int) =~= aligned);
            }
        }
        self.sub_annotators.set(ord, Some(SubAnnotator { method_type: kind, traj: matching_method.trajectory.clone(), index_pairs: pairs }));
        self.common_indexes = new_common;
        self.has_candidates = true;
        self.candidates = Ghost(s0.candidates.push(t));
        proof {
            let s1 = self@;
            let cands = s0.candidates.push(t);
            assert(cands.drop_last() =~= s0.candidates);
            assert(cands.last() == t);
            assert(s1.common == common_after(s0.baseline, cands));
            lemma_aligned_indices(s0.baseline, t);
            if s0.candidates.len() > 0 {
                lemma_keep_contained(aligned, s0.common);
            }
            assert forall|k: int| 0 <= k < s1.common.len() implies 0 <= #[trigger] s1.common[k] < s1.baseline.len() by {
                assert(s1.common.contains(s1.common[k]));
                assert(aligned.contains(s1.common[k]));
            }
            assert(s1.members =~= s0.members.update(
                kind.spec_ordinal(),
                Some(MemberView { kind, traj: t, pairs: lp }),
            ));
            assert forall|k: int| 0 <= k < 4 && (#[trigger] s1.members[k]) is Some implies {
                let m = s1.members[k]->Some_0;
                &&& m.kind.spec_ordinal() == k
                &&& monotone_pairs(m.pairs, s1.baseline.len() as int, m.traj.len() as int)
                &&& forall|x: int| s1.common.contains(x) ==> is_aligned(m.pairs, x)
            } by {
                let m = s1.members[k]->Some_0;
                assert forall|x: int| s1.common.contains(x) implies is_aligned(m.pairs, x) by {
                    if k == kind.spec_ordinal() {
                        let w = choose|w: int| 0 <= w < s1.common.len() && s1.common[w] == x;
                        assert(aligned.contains(x));
                        let v = choose|v: int| 0 <= v < aligned.len() && aligned[v] == x;
                        assert(lp[v].0 == x);
                    } else {
                        assert(s0.common.contains(x));
                    }
                }
            }
        }
    }

    /// Whether a member of ordinal `k` is present: the baseline or a candidate.
    fn has_member(&self, k: usize) -> (r: bool)
        requires
            self.wf(),
            k < 4,
        ensures
            r == (member_at(self@, k as int) is Some),
    {
        if k == self.baseline_annotator_type.ordinal() {
            true
        } else {
            self.sub_annotators[k].is_some()
        }
    }

    /// The kind of the member of ordinal `k`.
    fn member_kind(&self, k: usize) -> (r: AnnotatorType)
        requires
            self.wf(),
            k < 4,
            member_at(self@, k as int) is Some,
        ensures
            r == member_at(self@, k as int)->Some_0.kind,
    {
        if k == self.baseline_annotator_type.ordinal() {
            return self.baseline_annotator_type;
        }
        match &self.sub_annotators[k] {
            Some(m) => m.method_type,
            None => {
                proof {
                    assert(false);
                }
                self.baseline_annotator_type
            },
        }
    }

    /// The trajectory of the member of ordinal `k`.
    fn member_traj(&self, k: usize) -> (r: &Vec<Coordinate>)
        requires
            self.wf(),
            k < 4,
            member_at(self@, k as int) is Some,
        ensures
            r@ == member_at(self@, k as int)->Some_0.traj,
    {
        if k == self.baseline_annotator_type.ordinal() {
            return &self.baseline_traj;
        }
        match &self.sub_annotators[k] {
            Some(m) => &m.traj,
            None => {
                proof {
                    assert(false);
                }
                &self.baseline_traj
            },
        }
    }

    /// Where the member of ordinal `k` stands at the common baseline index `x`.
    fn member_index(&self, k: usize, x: usize) -> (r: usize)
        requires
            self.wf(),
            k < 4,
            member_at(self@, k as int) is Some,
            self@.common.contains(x as int),
        ensures
            r as int == index_in(member_at(self@, k as int)->Some_0.pairs, x as int),
            (r as int) < member_at(self@, k as int)->Some_0.traj.len(),
    {
        let ghost s = self@;
        proof {
            let w = choose|w: int| 0 <= w < s.common.len() && s.common[w] == x as int;
            assert(0 <= s.common[w] < s.baseline.len());
        }
        if k == self.baseline_annotator_type.ordinal() {
            proof {
                lemma_identity_index(s.baseline.len() as int, x as int);
            }
            return x;
        }
        match &self.sub_annotators[k] {
            Some(m) => {
                let ghost pv = pairs_view(m.index_pairs@);
                proof {
                    assert(s.members[k as int] == Some(m@));
                    assert(member_at(s, k as int) == Some(m@));
                    assert(is_aligned(pv, x as int));
                }
                let mut q: usize = 0;
                while q < m.index_pairs.len()
                    invariant
                        pv == pairs_view(m.index_pairs@),
                        member_at(s, k as int) == Some(m@),
                        s == self@,
                        is_aligned(pv, x as int),
                        monotone_pairs(pv, s.baseline.len() as int, m.traj@.len() as int),
                        q <= m.index_pairs@.len(),
                        forall|l: int| 0 <= l < q ==> (#[trigger] m.index_pairs@[l]).0 != x,
                    decreases m.index_pairs@.len() - q,
                {
                    if m.index_pairs[q].0 == x {
                        proof {
                            assert(pv[q as int] == (x as int, m.index_pairs@[q as int].1 as int));
                            lemma_index_in(pv, s.baseline.len() as int, m.traj@.len() as int, q as int);
                            assert(member_at(s, k as int) == Some(m@));
                            assert(index_in(pv, x as int) == m.index_pairs@[q as int].1 as int);
                        }
                        return m.index_pairs[q].1;
                    }
                    q += 1;
                }
                proof {
                    let w = choose|w: int| 0 <= w < pv.len() && #[trigger] pv[w].0 == x as int;
                    assert(m.index_pairs@[w].0 != x);
                }
                0
            },
            None => {
                proof {
                    assert(false);
                }
                0
            },
        }
    }

    /// Whether the run continues from common index `last` to common index `cur`.
    fn is_continuous(&self, last: usize, cur: usize) -> (r: bool)
        requires
            self.wf(),
            self@.common.contains(last as int),
            self@.common.contains(cur as int),
        ensures
            r == continuous(self@, last as int, cur as int),
    {
        let auto = self.annotator_config.auto_merge_circle;
        let mut k: usize = 0;
        while k < 4
            invariant
                self.wf(),
                self@.common.contains(last as int),
                self@.common.contains(cur as int),
                auto == self@.auto_merge_circle,
                k <= 4,
                auto ==> forall|l: int| 0 <= l < k && self@.members[l] is Some ==> !#[trigger] advances(self@, l, last as int, cur as int),
                !auto ==> forall|l: int| 0 <= l < k && self@.members[l] is Some ==> #[trigger] advances(self@, l, last as int, cur as int),
            decreases 4 - k,
        {
            if self.sub_annotators[k].is_some() {
                proof {
                    assert(self@.members[k as int] is Some);
                    assert(k as int != self@.baseline_type.spec_ordinal());
                    assert(member_at(self@, k as int) == self@.members[k as int]);
                }
                let a = self.member_index(k, last);
                let b = self.member_index(k, cur);
                let step = a < b && b - a == 1;
                proof {
                    if step {
                        assert(advances(self@, k as int, last as int, cur as int));
                    } else {
                        assert(!advances(self@, k as int, last as int, cur as int));
                    }
                }
                if auto && step {
                    proof {
                        assert(advances(self@, k as int, last as int, cur as int));
                    }
                    return true;
                }
                if !auto && !step {
                    return false;
                }
            }
            k += 1;
        }
        !auto
    }

    /// The spans of the present members in the gap from `from` (or the start) to
    /// `to` (or the end), in the order of their kinds' ordinals.
    fn gap_spans(&self, from: Option<usize>, to: Option<usize>) -> (r: Vec<SubTrajArray>)
        requires
            self.wf(),
            self@.common.len() > 0,
            from is Some ==> self@.common.contains(from->Some_0 as int),
            to is Some ==> self@.common.contains(to->Some_0 as int),
        ensures
            span_views(r@) == gap_spans(self@, opt_int(from), opt_int(to), 4),
            r@.len() <= 4,
    {
        let ghost s = self@;
        let mut spans: Vec<SubTrajArray> = Vec::new();
        let mut k: usize = 0;
        while k < 4
            invariant
                self.wf(),
                s == self@,
                s.common.len() > 0,
                from is Some ==> s.common.contains(from->Some_0 as int),
                to is Some ==> s.common.contains(to->Some_0 as int),
                k <= 4,
                spans@.len() <= k,
                span_views(spans@) == gap_spans(s, opt_int(from), opt_int(to), k as int),
            decreases 4 - k,
        {
            if self.has_member(k) {
                let traj = self.member_traj(k);
                let kind = self.member_kind(k);
                let cs: usize = match from {
                    None => 0,
                    Some(b) => self.member_index(k, b),
                };
                let ce: usize = match to {
                    None => {
                        proof {
                            self.lemma_member_nonempty(k as int);
                        }
                        traj.len() - 1
                    },
                    Some(b) => self.member_index(k, b),
                };
                let tl = traj.len();
                proof {
                    assert(ce < tl);
                }
                if ce > cs {
                    let part = copy_range(traj, cs, ce + 1);
                    let span = SubTrajArray::new(
                        SubTrajOwner { owner_type: kind, has_error: false, start_index: cs, end_index: ce },
                        part,
                    );
                    let ghost before = spans@;
                    spans.push(span);
                    proof {
                        assert(span_views(spans@) =~= span_views(before).push(span@));
                    }
                }
            }
            k += 1;
        }
        spans
    }

    /// While some index is common, every present member has a point.
    proof fn lemma_member_nonempty(&self, k: int)
        requires
            self.wf(),
            0 <= k < 4,
            member_at(self@, k) is Some,
            self@.common.len() > 0,
        ensures
            member_at(self@, k)->Some_0.traj.len() > 0,
    {
        let s = self@;
        let x = s.common[0];
        assert(s.common.contains(x));
        assert(0 <= s.common[0] < s.baseline.len());
        if k != s.baseline_type.spec_ordinal() {
            let m = s.members[k]->Some_0;
            assert(is_aligned(m.pairs, x));
            let w = choose|w: int| 0 <= w < m.pairs.len() && #[trigger] m.pairs[w].0 == x;
            assert(0 <= m.pairs[w].1 < m.traj.len());
        }
    }

    /// Segments the baseline into matched, pre-matched and mismatched areas.
    /// `is_redundant` is the simplifier's test for a redundant point. The result
    /// is computed afresh from the current state, which this leaves unchanged: a
    /// second call gives the same result, and one after more candidates were
    /// added recomputes from scratch.
    pub fn generate_matched_areas<F: Fn(Coordinate, Coordinate, Coordinate) -> bool>(&self, is_redundant: &F) -> (r: PreprocessAreas)
        requires
            self.wf(),
            is_redundancy_test(*is_redundant),
        ensures
            r@ == segmentation(self@, *is_redundant),
    {
        let ghost s = self@;
        let n = self.common_indexes.len();
        if n == 0 {
            let r = PreprocessAreas {
                matched_areas: Vec::new(),
                prematched_areas: Vec::new(),
                mismatched_areas: Vec::new(),
                metric_u_turns_count: 0,
                metric_single_lcs_count: 0,
                metric_simplified_traj_count: 0,
            };
            proof {
                assert(r@.matched =~= seq![]);
                assert(r@.prematched =~= seq![]);
                assert(r@.mismatched =~= seq![]);
            }
            return r;
        }
        let mut ranges: Vec<(usize, usize)> = Vec::new();
        let mut area_start: usize = self.common_indexes[0];
        let mut single: usize = 0;
        let ghost mut start_pos: int = 0;
        let mut i: usize = 1;
        while i < n
            invariant
                self.wf(),
                s == self@,
                n == s.common.len(),
                1 <= i <= n,
                ({
                    let st = scan(s, i as int);
                    &&& area_start as int == st.start
                    &&& pairs_view(ranges@) == st.ranges
                    &&& single as int == st.single
                }),
                0 <= start_pos < i,
                s.common[start_pos] == area_start as int,
                ranges@.len() < i,
                single < i || (i == n && single <= n),
                forall|q: int| 0 <= q < ranges@.len() ==> (#[trigger] ranges@[q]).0 < ranges@[q].1
                    && s.common.contains(ranges@[q].0 as int) && s.common.contains(ranges@[q].1 as int),
            decreases n - i,
        {
            let last = self.common_indexes[i - 1];
            let cur = self.common_indexes[i];
            proof {
                assert(s.common[i - 1] == last as int);
                assert(s.common[i as int] == cur as int);
                assert(s.common.contains(last as int));
                assert(s.common.contains(cur as int));
                assert(s.common[start_pos] <= s.common[i - 1]) by {
                    if start_pos < i - 1 {
                        assert(s.common[start_pos] < s.common[i - 1]);
                    }
                }
            }
            let cont = self.is_continuous(last, cur);
            let is_end = i == n - 1;
            if is_end || !cont {
                let end = if is_end && cont { cur } else { last };
                if end > area_start {
                    let ghost before = ranges@;
                    ranges.push((area_start, end));
                    proof {
                        assert(pairs_view(ranges@) =~= pairs_view(before).push((area_start as int, end as int)));
                        assert(s.common.contains(area_start as int));
                    }
                } else {
                    single += 1;
                }
                if is_end && !cont {
                    single += 1;
                }
                area_start = cur;
                proof {
                    start_pos = i as int;
                }
            }
            i += 1;
        }
        if n == 1 {
            single = 1;
        }
        let ghost sc = scan(s, n as int);
        let ghost ranges_spec = sc.ranges;
        proof {
            lemma_increasing_len(s.common, s.baseline.len() as int);
        }
        let nr = ranges.len();
        let auto = self.annotator_config.auto_merge_circle;
        let mut prematched: Vec<PreMatchedArea> = Vec::new();
        let mut mismatched: Vec<MisMatchedArea> = Vec::new();
        let mut u_turns: usize = 0;
        let mut simplified_count: usize = 0;
        let mut q: usize = 0;
        while q < nr
            invariant
                self.wf(),
                s == self@,
                n == s.common.len(),
                n > 0,
                nr == ranges@.len(),
                nr < n,
                n <= MAX_TRAJECTORY_LEN,
                auto == s.auto_merge_circle,
                is_redundancy_test(*is_redundant),
                pairs_view(ranges@) == ranges_spec,
                forall|q: int| 0 <= q < ranges@.len() ==> (#[trigger] ranges@[q]).0 < ranges@[q].1
                    && s.common.contains(ranges@[q].0 as int) && s.common.contains(ranges@[q].1 as int),
                q <= nr,
                ({
                    let g = gaps(s, ranges_spec, q as int, *is_redundant);
                    &&& prematched@.map_values(|a: PreMatchedArea| (a.id as int, a.sub_traj@)) == g.prematched
                    &&& mismatched@.map_values(|a: MisMatchedArea| (a.id as int, a.sub_trajs@.map_values(|g: MergedSubTrajArray| g@))) == g.mismatched
                    &&& u_turns as int == g.u_turns
                    &&& simplified_count as int == g.simplified
                }),
                u_turns <= 4 * q,
                simplified_count <= 16 * q,
            decreases nr - q,
        {
            let from = if q == 0 { None } else { Some(ranges[q - 1].1) };
            let to = Some(ranges[q].0);
            proof {
                assert(opt_int(from) == gap_from(ranges_spec, q as int)) by {
                    if q > 0 {
                        assert(pairs_view(ranges@)[q - 1] == ranges_spec[q - 1]);
                    }
                }
                assert(pairs_view(ranges@)[q as int] == ranges_spec[q as int]);
            }
            let spans = self.gap_spans(from, to);
            let ghost before_pre = prematched@;
            let ghost before_mis = mismatched@;
            if spans.len() > 0 {
                let (area, du, ds) = generate_mismatched_area_from_sub_trajs(2 * q, &spans, auto, is_redundant);
                match area {
                    EitherMatchedArea::MisMatched(a) => {
                        mismatched.push(a);
                    },
                    EitherMatchedArea::PreMatched(a) => {
                        prematched.push(a);
                    },
                    EitherMatchedArea::Empty => {},
                }
                u_turns += du;
                simplified_count += ds;
                proof {
                    assert(prematched@.map_values(|a: PreMatchedArea| (a.id as int, a.sub_traj@))
                        =~= gaps(s, ranges_spec, q + 1, *is_redundant).prematched);
                    assert(mismatched@.map_values(|a: MisMatchedArea| (a.id as int, a.sub_trajs@.map_values(|g: MergedSubTrajArray| g@)))
                        =~= gaps(s, ranges_spec, q + 1, *is_redundant).mismatched);
                }
            }
            q += 1;
        }
        let from = if nr == 0 { None } else { Some(ranges[nr - 1].1) };
        proof {
            assert(opt_int(from) == gap_from(ranges_spec, nr as int)) by {
                if nr > 0 {
                    assert(pairs_view(ranges@)[nr - 1] == ranges_spec[nr - 1]);
                }
            }
        }
        let spans = self.gap_spans(from, None);
        if spans.len() > 0 {
            let (area, du, ds) = generate_mismatched_area_from_sub_trajs(2 * nr, &spans, auto, is_redundant);
            match area {
                EitherMatchedArea::MisMatched(a) => {
                    mismatched.push(a);
                },
                EitherMatchedArea::PreMatched(a) => {
                    prematched.push(a);
                },
                EitherMatchedArea::Empty => {},
            }
            u_turns += du;
            simplified_count += ds;
        }
        let mut matched: Vec<MatchedArea> = Vec::new();
        let mut q: usize = 0;
        while q < nr
            invariant
                self.wf(),
                s == self@,
                nr == ranges@.len(),
                nr < n,
                n <= MAX_TRAJECTORY_LEN,
                pairs_view(ranges@) == ranges_spec,
                forall|q: int| 0 <= q < ranges@.len() ==> (#[trigger] ranges@[q]).0 < ranges@[q].1
                    && s.common.contains(ranges@[q].0 as int) && s.common.contains(ranges@[q].1 as int),
                q <= nr,
                matched@.len() == q,
                forall|h: int| 0 <= h < q ==> (#[trigger] matched@[h]).id as int == 2 * h + 1
                    && matched@[h].sub_traj@ == matched_span(s, ranges_spec[h]),
            decreases nr - q,
        {
            let (start, end) = ranges[q];
            proof {
                assert(pairs_view(ranges@)[q as int] == ranges_spec[q as int]);
                assert(s.common.contains(end as int));
                let w = choose|w: int| 0 <= w < s.common.len() && s.common[w] == end as int;
                assert(0 <= s.common[w] < s.baseline.len());
            }
            let traj = copy_range(&self.baseline_traj, start, end + 1);
            matched.push(MatchedArea {
                id: 2 * q + 1,
                sub_traj: SubTrajArray {
                    owner: SubTrajOwner { owner_type: self.baseline_annotator_type, has_error: false, start_index: start, end_index: end },
                    traj,
                    has_circle: false,
                },
            });
            q += 1;
        }
        let r = PreprocessAreas {
            matched_areas: matched,
            prematched_areas: prematched,
            mismatched_areas: mismatched,
            metric_u_turns_count: u_turns,
            metric_single_lcs_count: single,
            metric_simplified_traj_count: simplified_count,
        };
        proof {
            assert(r@.matched =~= segmentation(s, *is_redundant).matched);
            assert(r@.prematched =~= segmentation(s, *is_redundant).prematched);
            assert(r@.mismatched =~= segmentation(s, *is_redundant).mismatched);
        }
        r
    }

    /// The common index set.
    pub fn get_common_indexes(&self) -> (r: &Vec<usize>)
        ensures
            ints(r@) == self@.common,
    {
        &self.common_indexes
    }
}

/// Whether `name` is one of `disabled`.
pub open spec fn is_disabled(name: Seq<char>, disabled: Seq<String>) -> bool {
    exists|k: int| 0 <= k < disabled.len() && (#[trigger] disabled[k])@ == name
}

/// The results whose method is not disabled, in order.
pub open spec fn enabled_results(results: Seq<MethodResult>, disabled: Seq<String>) -> Seq<MethodResult>
    decreases results.len(),
{
    if results.len() == 0 {
        seq![]
    } else {
        let r = enabled_results(results.drop_last(), disabled);
        if is_disabled(results.last().method_name@, disabled) {
            r
        } else {
            r.push(results.last())
        }
    }
}

/// The orchestrator's state with `kept[0]` as the baseline after adding `kept[1..q)`.
pub open spec fn annotated(kept: Seq<MethodResult>, auto: bool, q: int) -> AnnotatorState
    decreases q,
{
    if q <= 1 {
        initial_state(kept[0].method_name@, kept[0].trajectory@, auto)
    } else {
        added(annotated(kept, auto, q - 1), kept[q - 1].method_name@, kept[q - 1].trajectory@)
    }
}

fn name_disabled(name: &String, disabled: &Vec<String>) -> (r: bool)
    ensures
        r == is_disabled(name@, disabled@),
{
    let mut k: usize = 0;
    while k < disabled.len()
        invariant
            k <= disabled@.len(),
            forall|l: int| 0 <= l < k ==> (#[trigger] disabled@[l])@ != name@,
        decreases disabled@.len() - k,
    {
        if disabled[k] == *name {
            return true;
        }
        k += 1;
    }
    false
}

/// Segments the first enabled result's trajectory against the other enabled
/// results. Gives nothing when fewer than two results are enabled, or when the
/// baseline is longer than `MAX_TRAJECTORY_LEN`.
pub fn pre_annotate<F: Fn(Coordinate, Coordinate, Coordinate) -> bool>(
    method_results: &Vec<MethodResult>,
    config: AnnotatorConfig,
    is_redundant: &F,
) -> (r: Option<PreprocessAreas>)
    requires
        is_redundancy_test(*is_redundant),
    ensures
        ({
            let kept = enabled_results(method_results@, config.disabled_annotators@);
            if kept.len() < 2 || kept[0].trajectory@.len() > MAX_TRAJECTORY_LEN {
                r is None
            } else {
                &&& r is Some
                &&& r->Some_0@ == segmentation(annotated(kept, config.auto_merge_circle, kept.len() as int), *is_redundant)
            }
        }),
{
    let ghost all = method_results@;
    let ghost disabled = config.disabled_annotators@;
    let mut kept: Vec<usize> = Vec::new();
    let mut k: usize = 0;
    while k < method_results.len()
        invariant
            all == method_results@,
            disabled == config.disabled_annotators@,
            k <= all.len(),
            kept@.map_values(|i: usize| all[i as int]) == enabled_results(all.subrange(0, k as int), disabled),
            forall|l: int| 0 <= l < kept@.len() ==> #[trigger] kept@[l] < all.len(),
        decreases all.len() - k,
    {
        proof {
            assert(all.subrange(0, k + 1).drop_last() =~= all.subrange(0, k as int));
            assert(all.subrange(0, k + 1).last() == all[k as int]);
        }
        if !name_disabled(&method_results[k].method_name, &config.disabled_annotators) {
            let ghost before = kept@;
            kept.push(k);
            proof {
                assert(kept@.map_values(|i: usize| all[i as int])
                    =~= before.map_values(|i: usize| all[i as int]).push(all[k as int]));
            }
        }
        k += 1;
    }
    let ghost kept_results = enabled_results(all, disabled);
    proof {
        assert(all.subrange(0, all.len() as int) =~= all);
    }
    if kept.len() < 2 {
        return None;
    }
    let base = &method_results[kept[0]];
    proof {
        assert(kept@.map_values(|i: usize| all[i as int])[0] == kept_results[0]);
    }
    if base.trajectory.len() > MAX_TRAJECTORY_LEN {
        return None;
    }
    let auto = config.auto_merge_circle;
    let mut annotator = PreAnnotator::new(base, config);
    let mut q: usize = 1;
    while q < kept.len()
        invariant
            all == method_results@,
            kept@.map_values(|i: usize| all[i as int]) == kept_results,
            forall|l: int| 0 <= l < kept@.len() ==> #[trigger] kept@[l] < all.len(),
            1 <= q <= kept@.len(),
            annotator.wf(),
            annotator@ == annotated(kept_results, auto, q as int),
        decreases kept@.len() - q,
    {
        proof {
            assert(kept@.map_values(|i: usize| all[i as int])[q as int] == kept_results[q as int]);
        }
        annotator.add_sub_annotator(&method_results[kept[q]]);
        q += 1;
    }
    Some(annotator.generate_matched_areas(is_redundant))
}

/// Segmenting twice without adding candidates in between gives the same result:
/// the result is a function of the state alone, which segmenting leaves unchanged.
pub proof fn lemma_segmentation_idempotent<F: Fn(Coordinate, Coordinate, Coordinate) -> bool>(
    s: AnnotatorState,
    f: F,
    first: ResultView,
    second: ResultView,
)
    requires
        first == segmentation(s, f),
        second == segmentation(s, f),
    ensures
        first == second,
{
}

proof fn lemma_lcs_length_disjoint(a: Seq<Coordinate>, b: Seq<Coordinate>, i: int, j: int)
    requires
        0 <= i <= a.len(),
        0 <= j <= b.len(),
        forall|x: int, y: int| 0 <= x < a.len() && 0 <= y < b.len() ==> a[x] != b[y],
    ensures
        lcs_length(a, b, i, j) == 0,
    decreases i + j,
{
    if i > 0 && j > 0 {
        lemma_lcs_length_disjoint(a, b, i - 1, j);
        lemma_lcs_length_disjoint(a, b, i, j - 1);
    }
}

/// A well-formed orchestrator's state satisfies the state invariant.
pub proof fn lemma_wf_state(a: &PreAnnotator)
    requires
        a.wf(),
    ensures
        state_wf(a@),
{
}

/// Once a candidate that shares no point with the baseline was added, no index is
/// common and the segmentation is empty.
pub proof fn lemma_disjoint_candidate_empties<F: Fn(Coordinate, Coordinate, Coordinate) -> bool>(
    s: AnnotatorState,
    f: F,
    k: int,
)
    requires
        state_wf(s),
        0 <= k < s.candidates.len(),
        forall|x: int, y: int| 0 <= x < s.baseline.len() && 0 <= y < s.candidates[k].len()
            ==> s.baseline[x] != s.candidates[k][y],
    ensures
        s.common.len() == 0,
        segmentation(s, f) == empty_result(),
{
    let b = s.baseline;
    let c = s.candidates[k];
    lemma_lcs_length_disjoint(b, c, b.len() as int, c.len() as int);
    lemma_lcs_pairs_length(b, c, b.len() as int, c.len() as int);
    lemma_common_is_intersection(b, s.candidates);
    if s.common.len() > 0 {
        assert(s.common.contains(s.common[0]));
        assert(aligned_indices(b, s.candidates[k]).contains(s.common[0]));
    }
}

proof fn lemma_lcs_pairs_self(t: Seq<Coordinate>, i: int)
    requires
        0 <= i <= t.len(),
    ensures
        lcs_pairs(t, t, i, i) == identity_pairs(i),
    decreases i,
{
    if i > 0 {
        lemma_lcs_pairs_self(t, i - 1);
        assert(identity_pairs(i) =~= identity_pairs(i - 1).push((i - 1, i - 1)));
    }
}

/// With every index common and every step continuous, the scan keeps one run
/// from index 0 until the last step closes it.
proof fn lemma_scan_one_run(s: AnnotatorState, i: int)
    requires
        s.common.len() >= 2,
        forall|x: int| 0 <= x < s.common.len() ==> #[trigger] s.common[x] == x,
        forall|x: int| 1 <= x < s.common.len() ==> #[trigger] continuous(s, x - 1, x),
        1 <= i <= s.common.len(),
    ensures
        i < s.common.len() ==> scan(s, i) == (ScanState { start: 0, ranges: seq![], single: 0 }),
        i == s.common.len() ==> scan(s, i) == (ScanState {
            start: s.common.len() - 1,
            ranges: seq![(0int, s.common.len() - 1)],
            single: 0,
        }),
    decreases i,
{
    if i > 1 {
        lemma_scan_one_run(s, i - 1);
        let x = i - 1;
        assert(continuous(s, x - 1, x));
        assert(s.common[x - 1] == x - 1 && s.common[x] == x);
        if i == s.common.len() {
            assert(seq![].push((0int, s.common.len() - 1)) =~= seq![(0int, s.common.len() - 1)]);
        }
    }
}

/// No member has a span of two or more points in the gap.
proof fn lemma_no_gap_spans(s: AnnotatorState, from: Option<int>, to: Option<int>, k: int)
    requires
        forall|l: int| 0 <= l < k && #[trigger] member_at(s, l) is Some ==> {
            let m = member_at(s, l)->Some_0;
            let cs = match from {
                None => 0,
                Some(b) => index_in(m.pairs, b),
            };
            let ce = match to {
                None => m.traj.len() - 1,
                Some(b) => index_in(m.pairs, b),
            };
            ce <= cs
        },
    ensures
        gap_spans(s, from, to, k) == Seq::<SpanView>::empty(),
    decreases k,
{
    if k > 0 {
        lemma_no_gap_spans(s, from, to, k - 1);
    }
}

/// A candidate identical to a baseline of two or more points gives a single
/// matched area that spans the whole baseline, and nothing else.
pub proof fn lemma_identical_candidate_matches_all<F: Fn(Coordinate, Coordinate, Coordinate) -> bool>(
    base_name: Seq<char>,
    cand_name: Seq<char>,
    t: Seq<Coordinate>,
    auto: bool,
    f: F,
)
    requires
        annotator_type_of(cand_name) != annotator_type_of(base_name),
        t.len() >= 2,
    ensures
        ({
            let s = added(initial_state(base_name, t, auto), cand_name, t);
            segmentation(s, f) == ResultView {
                matched: seq![(1int, matched_span(s, (0int, t.len() - 1)))],
                prematched: seq![],
                mismatched: seq![],
                u_turns: 0,
                single: 0,
                simplified: 0,
            }
        }),
{
    let s0 = initial_state(base_name, t, auto);
    let s = added(s0, cand_name, t);
    let n = t.len() as int;
    let kind = annotator_type_of(cand_name);
    let ko = kind.spec_ordinal();
    lemma_lcs_pairs_self(t, n);
    assert(s0.candidates.push(t) =~= seq![t]);
    assert(s.common =~= Seq::new(n as nat, |x: int| x));
    assert forall|l: int| 0 <= l < 4 && #[trigger] member_at(s, l) is Some implies
        member_at(s, l)->Some_0.pairs == identity_pairs(n) && member_at(s, l)->Some_0.traj == t by {
    }
    assert forall|x: int| 1 <= x < n implies #[trigger] continuous(s, x - 1, x) by {
        lemma_identity_index(n, x);
        lemma_identity_index(n, x - 1);
        assert(advances(s, ko, x - 1, x));
        if !auto {
            assert forall|l: int| 0 <= l < 4 && s.members[l] is Some implies #[trigger] advances(s, l, x - 1, x) by {
                assert(l == ko);
            }
        }
    }
    lemma_scan_one_run(s, n);
    let ranges = seq![(0int, n - 1)];
    lemma_identity_index(n, 0);
    lemma_identity_index(n, n - 1);
    lemma_no_gap_spans(s, None, Some(0int), 4);
    lemma_no_gap_spans(s, Some(n - 1), None, 4);
    assert(gap_from(ranges, 0) == None::<int>);
    assert(gap_from(ranges, 1) == Some(n - 1));
    let g1 = gaps(s, ranges, 1, f);
    assert(gaps(s, ranges, 0, f) == (GapState { prematched: seq![], mismatched: seq![], u_turns: 0, simplified: 0 }));
    assert(g1 == gaps(s, ranges, 0, f));
    assert(Seq::new(ranges.len(), |q: int| (2 * q + 1, matched_span(s, ranges[q])))
        =~= seq![(1int, matched_span(s, (0int, n - 1)))]);
}

} // verus!
