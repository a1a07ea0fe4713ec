//! The merge procedure: which spans of a disagreement region follow the same
//! path, decided pair by pair with a union-find, and the groups that result.
use crate::areas::{
    AreaView, EitherMatchedArea, GroupView, MergedSubTrajArray, MisMatchedArea, PreMatchedArea,
    SpanView, SubTrajArray, SubTrajOwner,
};
use crate::lcs::{lcs_length, lemma_lcs_pairs_length, pair_indices, LcsTable};
use crate::trajectory::{
    get_simplified_traj, is_redundancy_test, lemma_coordinate_concrete_eq, simplified, Coordinate,
};
use crate::union_find::{union_of, UnionFind};
use vstd::prelude::*;

verus! {

/// A sequence of indices as integers.
pub open spec fn ints(v: Seq<usize>) -> Seq<int> {
    v.map_values(|y: usize| y as int)
}

/// Whether `x` occurs in `v`.
pub(crate) fn contains_index(v: &Vec<usize>, x: usize) -> (r: bool)
    ensures
        r == ints(v@).contains(x as int),
{
    let mut k: usize = 0;
    while k < v.len()
        invariant
            k <= v@.len(),
            forall|l: int| 0 <= l < k ==> v@[l] != x,
        decreases v@.len() - k,
    {
        if v[k] == x {
            proof {
                assert(ints(v@)[k as int] == x as int);
            }
            return true;
        }
        k += 1;
    }
    proof {
        if ints(v@).contains(x as int) {
            let vv = ints(v@);
            let w = choose|w: int| 0 <= w < vv.len() && vv[w] == x as int;
            assert(v@[w] == x);
        }
    }
    false
}

/// Two simplified spans merge directly only while their lengths differ by less
/// than the factor `SIMPLIFIED_RATIO_NUM / SIMPLIFIED_RATIO_DEN` either way.
pub const SIMPLIFIED_RATIO_NUM: u128 = 41;

pub const SIMPLIFIED_RATIO_DEN: u128 = 10;

/// The length of a longest common subsequence of two whole trajectories.
pub open spec fn lcs_len_of(x: Seq<Coordinate>, y: Seq<Coordinate>) -> int {
    lcs_length(x, y, x.len() as int, y.len() as int)
}

/// The lengths `a` and `b` differ by less than the merge ratio, either way.
pub open spec fn within_ratio(a: int, b: int) -> bool {
    &&& a * SIMPLIFIED_RATIO_DEN < b * SIMPLIFIED_RATIO_NUM
    &&& b * SIMPLIFIED_RATIO_DEN < a * SIMPLIFIED_RATIO_NUM
}

/// The direct test: one raw span is a subsequence of the other and the simplified
/// lengths are within the ratio.
pub open spec fn direct_union(ti: Seq<Coordinate>, tj: Seq<Coordinate>, si: Seq<Coordinate>, sj: Seq<Coordinate>) -> bool {
    &&& (ti.len() == lcs_len_of(ti, tj) || tj.len() == lcs_len_of(ti, tj))
    &&& within_ratio(si.len() as int, sj.len() as int)
}

/// The test on simplified spans: containment of either one when U-turns are
/// tolerated, otherwise equal length and full alignment.
pub open spec fn simplified_union(si: Seq<Coordinate>, sj: Seq<Coordinate>, auto: bool) -> bool {
    if auto {
        si.len() == lcs_len_of(si, sj) || sj.len() == lcs_len_of(si, sj)
    } else {
        si.len() == sj.len() && lcs_len_of(si, sj) == si.len()
    }
}

/// The state of a merge: each span's representative, which spans were flagged,
/// and how many unions came from the simplified test.
pub struct MergeState {
    pub reps: Map<usize, usize>,
    pub flagged: Seq<bool>,
    pub simplified_unions: nat,
}

/// The merge decision for the pair `(i, j)`, `i < j`.
pub open spec fn merge_step(st: MergeState, spans: Seq<SpanView>, sims: Seq<Seq<Coordinate>>, auto: bool, i: int, j: int) -> MergeState {
    let direct = direct_union(spans[i].traj, spans[j].traj, sims[i], sims[j]);
    let can = direct || simplified_union(sims[i], sims[j], auto);
    let father_i = if direct {
        spans[i].traj.len() == lcs_len_of(spans[i].traj, spans[j].traj)
    } else {
        sims[i].len() == lcs_len_of(sims[i], sims[j])
    };
    let father = if father_i { i } else { j };
    let son = if father_i { j } else { i };
    let differs = spans[father].has_circle != spans[son].has_circle;
    if !can || (differs && !auto) {
        st
    } else {
        MergeState {
            reps: union_of(st.reps, father as usize, son as usize),
            flagged: if differs { st.flagged.update(son, true) } else { st.flagged },
            simplified_unions: if direct { st.simplified_unions } else { st.simplified_unions + 1 },
        }
    }
}

/// The state after the pairs `(i, i + 1), ..., (i, j - 1)`.
pub open spec fn row_prefix(st: MergeState, spans: Seq<SpanView>, sims: Seq<Seq<Coordinate>>, auto: bool, i: int, j: int) -> MergeState
    decreases j - i,
{
    if j <= i + 1 {
        st
    } else {
        merge_step(row_prefix(st, spans, sims, auto, i, j - 1), spans, sims, auto, i, j - 1)
    }
}

/// The state after all pairs whose first member is below `i`.
pub open spec fn rows(st: MergeState, spans: Seq<SpanView>, sims: Seq<Seq<Coordinate>>, auto: bool, i: int) -> MergeState
    decreases i,
{
    if i <= 0 {
        st
    } else {
        row_prefix(rows(st, spans, sims, auto, i - 1), spans, sims, auto, i - 1, spans.len() as int)
    }
}

pub open spec fn initial_merge_state(n: int) -> MergeState {
    MergeState {
        reps: Map::new(|k: usize| k < n, |k: usize| k),
        flagged: Seq::new(n as nat, |k: int| false),
        simplified_unions: 0,
    }
}

/// The simplified trajectory of each span.
pub open spec fn simplified_spans<F: Fn(Coordinate, Coordinate, Coordinate) -> bool>(spans: Seq<SpanView>, f: F) -> Seq<Seq<Coordinate>> {
    Seq::new(spans.len(), |k: int| simplified(spans[k].traj, f))
}

/// The state after every pair of spans was considered, in order.
pub open spec fn merge_outcome<F: Fn(Coordinate, Coordinate, Coordinate) -> bool>(spans: Seq<SpanView>, auto: bool, f: F) -> MergeState {
    rows(initial_merge_state(spans.len() as int), spans, simplified_spans(spans, f), auto, spans.len() as int)
}

/// The distinct values of `s` in order of first appearance.
pub open spec fn first_appearances(s: Seq<int>) -> Seq<int>
    decreases s.len(),
{
    if s.len() == 0 {
        seq![]
    } else {
        let r = first_appearances(s.drop_last());
        if r.contains(s.last()) {
            r
        } else {
            r.push(s.last())
        }
    }
}

/// The owners whose representative is `b`, in order.
pub open spec fn members_of(reps: Seq<int>, owners: Seq<SubTrajOwner>, b: int) -> Seq<SubTrajOwner>
    decreases reps.len(),
{
    if reps.len() == 0 {
        seq![]
    } else {
        let r = members_of(reps.drop_last(), owners, b);
        if reps.last() == b {
            r.push(owners[reps.len() - 1])
        } else {
            r
        }
    }
}

/// A span's owner as a group member.
pub open spec fn member_owner(span: SpanView, flag: bool) -> SubTrajOwner {
    SubTrajOwner {
        owner_type: span.owner.owner_type,
        has_error: flag,
        start_index: span.owner.start_index,
        end_index: span.owner.end_index,
    }
}

/// The groups of a merge: one per representative in order of first appearance,
/// each with its members in order and the representative's trajectory.
pub open spec fn groups_of(spans: Seq<SpanView>, st: MergeState) -> Seq<GroupView> {
    let reps = Seq::new(spans.len(), |k: int| st.reps[k as usize] as int);
    let owners = Seq::new(spans.len(), |k: int| member_owner(spans[k], st.flagged[k]));
    first_appearances(reps).map_values(
        |b: int| GroupView { owners: members_of(reps, owners, b), base_owner_type: spans[b].owner.owner_type, traj: spans[b].traj },
    )
}

/// The area that a region with groups `gs` becomes.
pub open spec fn area_of(id: int, gs: Seq<GroupView>) -> AreaView {
    if gs.len() > 1 {
        AreaView::MisMatched(id, gs)
    } else if gs.len() == 1 {
        AreaView::PreMatched(id, gs[0])
    } else {
        AreaView::Nothing
    }
}

pub open spec fn count_true(s: Seq<bool>) -> nat
    decreases s.len(),
{
    if s.len() == 0 {
        0
    } else {
        count_true(s.drop_last()) + if s.last() { 1nat } else { 0nat }
    }
}

proof fn lemma_count_true_bound(s: Seq<bool>)
    ensures
        count_true(s) <= s.len(),
    decreases s.len(),
{
    if s.len() > 0 {
        lemma_count_true_bound(s.drop_last());
    }
}

/// The length of a longest common subsequence of two trajectories.
fn lcs_len(x: &Vec<Coordinate>, y: &Vec<Coordinate>) -> (r: usize)
    ensures
        r as int == lcs_len_of(x@, y@),
{
    proof {
        lemma_coordinate_concrete_eq();
    }
    let table = LcsTable::new(x.as_slice(), y.as_slice());
    let lcs = table.longest_common_subsequence();
    proof {
        lemma_lcs_pairs_length(x@, y@, x@.len() as int, y@.len() as int);
        assert(pair_indices(lcs@).len() == lcs@.len());
    }
    lcs.len()
}

fn ratio_ok(a: usize, b: usize) -> (r: bool)
    ensures
        r == within_ratio(a as int, b as int),
{
    (a as u128) * SIMPLIFIED_RATIO_DEN < (b as u128) * SIMPLIFIED_RATIO_NUM
        && (b as u128) * SIMPLIFIED_RATIO_DEN < (a as u128) * SIMPLIFIED_RATIO_NUM
}

/// The spans' views.
pub open spec fn span_views(v: Seq<SubTrajArray>) -> Seq<SpanView> {
    v.map_values(|a: SubTrajArray| a@)
}

/// Every value that `first_appearances` keeps occurs in `s`.
proof fn lemma_first_appearances(s: Seq<int>)
    ensures
        forall|x: int| first_appearances(s).contains(x) ==> s.contains(x),
    decreases s.len(),
{
    if s.len() > 0 {
        let init = s.drop_last();
        lemma_first_appearances(init);
        let r = first_appearances(init);
        let fa = first_appearances(s);
        assert forall|x: int| fa.contains(x) implies s.contains(x) by {
            if r.contains(x) {
                assert(init.contains(x));
                let w = choose|w: int| 0 <= w < init.len() && init[w] == x;
                assert(s[w] == x);
            } else {
                if r.contains(s.last()) {
                    assert(fa == r);
                } else {
                    assert(fa == r.push(s.last()));
                    let w = choose|w: int| 0 <= w < fa.len() && fa[w] == x;
                    if w < r.len() {
                        assert(r[w] == x);
                    }
                    assert(s[s.len() - 1] == x);
                }
            }
        }
    }
}

/// Groups the spans by the representative that `uf` gives each index.
fn group_spans(
    matching_methods: &Vec<SubTrajArray>,
    uf: &mut UnionFind<usize>,
    flags: &Vec<bool>,
) -> (groups: Vec<MergedSubTrajArray>)
    requires
        old(uf).wf(),
        vstd::laws_eq::obeys_concrete_eq::<usize>(),
        forall|x: usize| old(uf).keys().contains(x) <==> x < matching_methods@.len(),
        flags@.len() == matching_methods@.len(),
    ensures
        forall|st: MergeState| st.reps == old(uf)@ && st.flagged == flags@
            ==> groups@.map_values(|g: MergedSubTrajArray| g@) == groups_of(span_views(matching_methods@), st),
{
    let n = matching_methods.len();
    let ghost m0 = uf@;
    let ghost reps_spec = Seq::new(n as nat, |k: int| m0[k as usize] as int);
    let ghost spans = span_views(matching_methods@);
    let mut reps: Vec<usize> = Vec::new();
    let mut k: usize = 0;
    proof {
        uf.lemma_find_idempotent();
    }
    while k < n
        invariant
            n == matching_methods@.len(),
            k <= n,
            uf.wf(),
            uf@ == m0,
            vstd::laws_eq::obeys_concrete_eq::<usize>(),
            forall|x: usize| uf.keys().contains(x) <==> x < n,
            reps@.len() == k,
            reps_spec == Seq::new(n as nat, |k: int| m0[k as usize] as int),
            forall|l: int| 0 <= l < k ==> #[trigger] reps@[l] as int == reps_spec[l],
            forall|l: int| 0 <= l < k ==> #[trigger] reps@[l] < n,
        decreases n - k,
    {
        proof {
            uf.lemma_find_idempotent();
            assert(uf.keys().contains(k));
            assert(uf@.contains_key(k));
        }
        let r = uf.find(k);
        proof {
            uf.lemma_find_idempotent();
            assert(uf@.contains_key(k));
            assert(uf@.contains_key(r));
            assert(uf.keys().contains(r));
            assert(reps_spec[k as int] == m0[k] as int);
        }
        reps.push(r);
        k += 1;
    }
    proof {
        assert(ints(reps@) =~= reps_spec);
    }
    let mut bases: Vec<usize> = Vec::new();
    let mut k: usize = 0;
    while k < n
        invariant
            n == reps@.len(),
            k <= n,
            ints(bases@) == first_appearances(reps_spec.subrange(0, k as int)),
            ints(reps@) == reps_spec,
        decreases n - k,
    {
        proof {
            assert(reps_spec.subrange(0, k + 1).drop_last() =~= reps_spec.subrange(0, k as int));
            assert(reps_spec.subrange(0, k + 1).last() == reps@[k as int] as int);
        }
        if !contains_index(&bases, reps[k]) {
            let ghost before = bases@;
            bases.push(reps[k]);
            proof {
                assert(ints(bases@) =~= ints(before).push(reps@[k as int] as int));
            }
        }
        k += 1;
    }
    proof {
        assert(reps_spec.subrange(0, n as int) =~= reps_spec);
        lemma_first_appearances(reps_spec);
        assert forall|h: int| 0 <= h < bases@.len() implies #[trigger] bases@[h] < n by {
            assert(ints(bases@)[h] == bases@[h] as int);
            assert(first_appearances(reps_spec).contains(bases@[h] as int));
            assert(reps_spec.contains(bases@[h] as int));
            let w = choose|w: int| 0 <= w < reps_spec.len() && reps_spec[w] == bases@[h] as int;
            assert(ints(reps@)[w] == reps@[w] as int);
        }
    }
    let ghost owners_spec = Seq::new(n as nat, |k: int| member_owner(spans[k], flags@[k]));
    let mut groups: Vec<MergedSubTrajArray> = Vec::new();
    let mut g: usize = 0;
    while g < bases.len()
        invariant
            n == reps@.len(),
            n == matching_methods@.len(),
            n == flags@.len(),
            spans == span_views(matching_methods@),
            owners_spec == Seq::new(n as nat, |k: int| member_owner(spans[k], flags@[k])),
            ints(bases@) == first_appearances(reps_spec),
            ints(reps@) == reps_spec,
            forall|x: int| first_appearances(reps_spec).contains(x) ==> reps_spec.contains(x),
            forall|h: int| 0 <= h < bases@.len() ==> #[trigger] bases@[h] < n,
            g <= bases@.len(),
            groups@.len() == g,
            forall|h: int| 0 <= h < g ==> (#[trigger] groups@[h])@ == (GroupView {
                owners: members_of(reps_spec, owners_spec, bases@[h] as int),
                base_owner_type: spans[bases@[h] as int].owner.owner_type,
                traj: spans[bases@[h] as int].traj,
            }),
        decreases bases@.len() - g,
    {
        let b = bases[g];
        let mut owners: Vec<SubTrajOwner> = Vec::new();
        let mut k: usize = 0;
        while k < n
            invariant
                n == reps@.len(),
                n == matching_methods@.len(),
                n == flags@.len(),
                spans == span_views(matching_methods@),
                ints(reps@) == reps_spec,
                owners_spec == Seq::new(n as nat, |k: int| member_owner(spans[k], flags@[k])),
                k <= n,
                owners@ == members_of(reps_spec.subrange(0, k as int), owners_spec, b as int),
            decreases n - k,
        {
            proof {
                assert(reps_spec.subrange(0, k + 1).drop_last() =~= reps_spec.subrange(0, k as int));
                assert(reps_spec.subrange(0, k + 1).last() == reps@[k as int] as int);
            }
            if reps[k] == b {
                let o = matching_methods[k].owner;
                owners.push(SubTrajOwner {
                    owner_type: o.owner_type,
                    has_error: flags[k],
                    start_index: o.start_index,
                    end_index: o.end_index,
                });
                proof {
                    assert(owners_spec[k as int] == member_owner(spans[k as int], flags@[k as int]));
                }
            }
            k += 1;
        }
        proof {
            assert(reps_spec.subrange(0, n as int) =~= reps_spec);
        }
        let traj = matching_methods[b].traj.clone();
        groups.push(MergedSubTrajArray { owners, base_owner_type: matching_methods[b].owner.owner_type, traj });
        g += 1;
    }
    proof {
        assert forall|st: MergeState| st.reps == m0 && st.flagged == flags@
            implies groups@.map_values(|g: MergedSubTrajArray| g@) == groups_of(spans, st) by {
            let reps2 = Seq::new(spans.len(), |k: int| st.reps[k as usize] as int);
            let owners2 = Seq::new(spans.len(), |k: int| member_owner(spans[k], st.flagged[k]));
            assert(reps2 =~= reps_spec);
            assert(owners2 =~= owners_spec);
            assert(first_appearances(reps_spec).len() == bases@.len());
            assert(groups@.map_values(|g: MergedSubTrajArray| g@) =~= groups_of(spans, st)) by {
                assert forall|h: int| 0 <= h < groups@.len() implies groups@.map_values(|g: MergedSubTrajArray| g@)[h] == groups_of(spans, st)[h] by {
                    assert(first_appearances(reps_spec)[h] == bases@[h] as int);
                }
            }
        }
    }
    groups
}

/// Resolves one disagreement region: merges the spans that pass the union tests
/// and turns the groups into an area. Also gives the number of spans flagged as
/// U-turns and the number of unions from the simplified test.
pub(crate) fn generate_mismatched_area_from_sub_trajs<F: Fn(Coordinate, Coordinate, Coordinate) -> bool>(
    id: usize,
    matching_methods: &Vec<SubTrajArray>,
    auto_merge_circle: bool,
    is_redundant: &F,
) -> (r: (EitherMatchedArea, usize, usize))
    requires
        matching_methods@.len() <= 4,
        is_redundancy_test(*is_redundant),
    ensures
        ({
            let spans = span_views(matching_methods@);
            let st = merge_outcome(spans, auto_merge_circle, *is_redundant);
            &&& r.0@ == area_of(id as int, groups_of(spans, st))
            &&& r.1 as int == count_true(st.flagged)
            &&& r.2 as int == st.simplified_unions
        }),
        r.1 <= 4,
        r.2 <= 16,
{
    let n = matching_methods.len();
    let ghost spans = span_views(matching_methods@);
    let ghost sims_spec = simplified_spans(spans, *is_redundant);
    let mut sims: Vec<Vec<Coordinate>> = Vec::new();
    let mut ids: Vec<usize> = Vec::new();
    let mut flags: Vec<bool> = Vec::new();
    let mut k: usize = 0;
    while k < n
        invariant
            n == matching_methods@.len(),
            spans == span_views(matching_methods@),
            sims_spec == simplified_spans(spans, *is_redundant),
            is_redundancy_test(*is_redundant),
            k <= n,
            sims@.len() == k,
            ids@.len() == k,
            flags@.len() == k,
            forall|l: int| 0 <= l < k ==> (#[trigger] sims@[l])@ == sims_spec[l],
            forall|l: int| 0 <= l < k ==> #[trigger] ids@[l] == l,
            forall|l: int| 0 <= l < k ==> !#[trigger] flags@[l],
        decreases n - k,
    {
        sims.push(get_simplified_traj(&matching_methods[k].traj, is_redundant));
        ids.push(k);
        flags.push(false);
        k += 1;
    }
    proof {
        reveal(vstd::laws_eq::obeys_concrete_eq);
    }
    let mut uf = UnionFind::new(&ids);
    let ghost init = initial_merge_state(n as int);
    proof {
        assert(uf@ =~= init.reps) by {
            uf.lemma_find_idempotent();
            assert forall|x: usize| uf@.contains_key(x) <==> init.reps.contains_key(x) by {
                if x < n {
                    assert(ids@[x as int] == x);
                }
            }
        }
        assert forall|x: usize| uf.keys().contains(x) <==> x < n by {
            if x < n {
                assert(ids@[x as int] == x);
            }
        }
        assert(flags@ =~= init.flagged);
    }
    let mut simplified_count: usize = 0;
    let mut i: usize = 0;
    while i < n
        invariant
            n == matching_methods@.len(),
            n <= 4,
            spans == span_views(matching_methods@),
            sims_spec == simplified_spans(spans, *is_redundant),
            sims@.len() == n,
            forall|l: int| 0 <= l < n ==> (#[trigger] sims@[l])@ == sims_spec[l],
            vstd::laws_eq::obeys_concrete_eq::<usize>(),
            i <= n,
            uf.wf(),
            forall|x: usize| uf.keys().contains(x) <==> x < n,
            ({
                let st = rows(init, spans, sims_spec, auto_merge_circle, i as int);
                &&& uf@ == st.reps
                &&& flags@ == st.flagged
                &&& simplified_count as int == st.simplified_unions
            }),
            flags@.len() == n,
            simplified_count <= 4 * i,
        decreases n - i,
    {
        let ghost row_start = rows(init, spans, sims_spec, auto_merge_circle, i as int);
        let mut j: usize = i + 1;
        while j < n
            invariant
                n == matching_methods@.len(),
                n <= 4,
                spans == span_views(matching_methods@),
                sims_spec == simplified_spans(spans, *is_redundant),
                sims@.len() == n,
                forall|l: int| 0 <= l < n ==> (#[trigger] sims@[l])@ == sims_spec[l],
                vstd::laws_eq::obeys_concrete_eq::<usize>(),
                i < n,
                i < j <= n,
                uf.wf(),
                forall|x: usize| uf.keys().contains(x) <==> x < n,
                ({
                    let st = row_prefix(row_start, spans, sims_spec, auto_merge_circle, i as int, j as int);
                    &&& uf@ == st.reps
                    &&& flags@ == st.flagged
                    &&& simplified_count as int == st.simplified_unions
                }),
                flags@.len() == n,
                simplified_count <= 4 * i + j,
            decreases n - j,
        {
            let ghost st = row_prefix(row_start, spans, sims_spec, auto_merge_circle, i as int, j as int);
            let ti = &matching_methods[i].traj;
            let tj = &matching_methods[j].traj;
            let si = &sims[i];
            let sj = &sims[j];
            proof {
                assert(spans[i as int].traj == ti@);
                assert(spans[j as int].traj == tj@);
                assert(sims_spec[i as int] == si@);
                assert(sims_spec[j as int] == sj@);
            }
            let raw_len = lcs_len(ti, tj);
            let direct = (ti.len() == raw_len || tj.len() == raw_len) && ratio_ok(si.len(), sj.len());
            let mut can = direct;
            let mut father_i = ti.len() == raw_len;
            if !direct {
                let sim_len = lcs_len(si, sj);
                can = if auto_merge_circle {
                    si.len() == sim_len || sj.len() == sim_len
                } else {
                    si.len() == sj.len() && sim_len == si.len()
                };
                father_i = si.len() == sim_len;
            }
            if can {
                let father = if father_i { i } else { j };
                let son = if father_i { j } else { i };
                let differs = matching_methods[father].has_circle != matching_methods[son].has_circle;
                proof {
                    assert(spans[father as int].has_circle == matching_methods@[father as int].has_circle);
                    assert(spans[son as int].has_circle == matching_methods@[son as int].has_circle);
                }
                if !differs || auto_merge_circle {
                    if differs {
                        flags.set(son, true);
                    }
                    if !direct {
                        simplified_count += 1;
                    }
                    uf.union(father, son);
                }
            }
            j += 1;
        }
        i += 1;
    }
    let ghost st = merge_outcome(spans, auto_merge_circle, *is_redundant);
    proof {
        assert(st == rows(init, spans, sims_spec, auto_merge_circle, n as int));
        lemma_count_true_bound(flags@);
    }
    let mut u_turns: usize = 0;
    let mut k: usize = 0;
    while k < n
        invariant
            k <= n,
            flags@.len() == n,
            n <= 4,
            u_turns as int == count_true(flags@.subrange(0, k as int)),
            u_turns <= k,
        decreases n - k,
    {
        proof {
            assert(flags@.subrange(0, k + 1).drop_last() =~= flags@.subrange(0, k as int));
        }
        if flags[k] {
            u_turns += 1;
        }
        k += 1;
    }
    proof {
        assert(flags@.subrange(0, n as int) =~= flags@);
    }
    let groups = group_spans(matching_methods, &mut uf, &flags);
    proof {
        assert(groups@.map_values(|g: MergedSubTrajArray| g@) == groups_of(spans, st));
    }
    let area = if groups.len() > 1 {
        EitherMatchedArea::MisMatched(MisMatchedArea { id, sub_trajs: groups })
    } else if groups.len() == 1 {
        let mut groups = groups;
        let g = groups.pop().unwrap();
        EitherMatchedArea::PreMatched(PreMatchedArea { id, sub_traj: g })
    } else {
        EitherMatchedArea::Empty
    };
    (area, u_turns, simplified_count)
}

} // verus!
