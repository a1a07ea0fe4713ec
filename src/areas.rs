//! The spans, groups and areas that a segmentation produces.
use crate::trajectory::{AnnotatorType, Coordinate};
use vstd::prelude::*;

verus! {

/// Which method a span belongs to, and where it lies in that method's own trajectory.
#[derive(Clone, Copy, Debug, PartialEq)]
pub struct SubTrajOwner {
    pub owner_type: AnnotatorType,
    pub has_error: bool,
    pub start_index: usize,
    pub end_index: usize,
}

/// A span of one method's trajectory, with whether it revisits a point.
#[derive(Debug, PartialEq)]
pub struct SubTrajArray {
    pub owner: SubTrajOwner,
    pub traj: Vec<Coordinate>,
    pub has_circle: bool,
}

/// The mathematical content of a `SubTrajArray`.
pub struct SpanView {
    pub owner: SubTrajOwner,
    pub traj: Seq<Coordinate>,
    pub has_circle: bool,
}

/// Whether some point of `t` occurs twice.
pub open spec fn has_repeat(t: Seq<Coordinate>) -> bool {
    exists|i: int, j: int| 0 <= i < j < t.len() && t[i] == t[j]
}

impl SubTrajArray {
    pub open spec fn view(&self) -> SpanView {
        SpanView { owner: self.owner, traj: self.traj@, has_circle: self.has_circle }
    }

    /// A span of `traj`, flagged as self-intersecting when a point repeats.
    pub fn new(owner: SubTrajOwner, traj: Vec<Coordinate>) -> (r: Self)
        ensures
            r@ == (SpanView { owner, traj: traj@, has_circle: has_repeat(traj@) }),
    {
        let n = traj.len();
        let mut has_circle = false;
        let mut i: usize = 0;
        while i < n
            invariant
                n == traj@.len(),
                i <= n,
                has_circle == exists|a: int, b: int| 0 <= a < i && a < b < n && traj@[a] == traj@[b],
            decreases n - i,
        {
            let mut j: usize = i + 1;
            while j < n
                invariant
                    n == traj@.len(),
                    i < n,
                    i < j <= n,
                    has_circle == ((exists|a: int, b: int| 0 <= a < i && a < b < n && traj@[a] == traj@[b])
                        || exists|b: int| i < b < j && traj@[i as int] == traj@[b]),
                decreases n - j,
            {
                if traj[i].eq(&traj[j]) {
                    has_circle = true;
                }
                j += 1;
            }
            proof {
                assert(has_circle == exists|a: int, b: int| 0 <= a < i + 1 && a < b < n && traj@[a] == traj@[b]) by {
                    if has_circle {
                        if !(exists|a: int, b: int| 0 <= a < i && a < b < n && traj@[a] == traj@[b]) {
                            let b = choose|b: int| i < b < n && traj@[i as int] == traj@[b];
                            assert(0 <= i < i + 1 && i < b < n && traj@[i as int] == traj@[b]);
                        }
                    } else {
                        assert forall|a: int, b: int| 0 <= a < i + 1 && a < b < n implies traj@[a] != traj@[b] by {
                            if a == i {
                            }
                        }
                    }
                }
            }
            i += 1;
        }
        SubTrajArray { owner, traj, has_circle }
    }
}

/// A group of spans judged to follow the same path.
#[derive(Debug, PartialEq)]
pub struct MergedSubTrajArray {
    pub owners: Vec<SubTrajOwner>,
    pub base_owner_type: AnnotatorType,
    pub traj: Vec<Coordinate>,
}

/// The mathematical content of a `MergedSubTrajArray`.
pub struct GroupView {
    pub owners: Seq<SubTrajOwner>,
    pub base_owner_type: AnnotatorType,
    pub traj: Seq<Coordinate>,
}

impl MergedSubTrajArray {
    pub open spec fn view(&self) -> GroupView {
        GroupView { owners: self.owners@, base_owner_type: self.base_owner_type, traj: self.traj@ }
    }
}

/// A disagreement region that collapsed into one group.
#[derive(Debug, PartialEq)]
pub struct PreMatchedArea {
    pub id: usize,
    pub sub_traj: MergedSubTrajArray,
}

/// A disagreement region that stayed two or more groups.
#[derive(Debug, PartialEq)]
pub struct MisMatchedArea {
    pub id: usize,
    pub sub_trajs: Vec<MergedSubTrajArray>,
}

/// What resolving one disagreement region gives.
#[derive(Debug, PartialEq)]
pub enum EitherMatchedArea {
    PreMatched(PreMatchedArea),
    MisMatched(MisMatchedArea),
    Empty,
}

/// The mathematical content of an `EitherMatchedArea`.
pub enum AreaView {
    PreMatched(int, GroupView),
    MisMatched(int, Seq<GroupView>),
    Nothing,
}

impl EitherMatchedArea {
    pub open spec fn view(&self) -> AreaView {
        match self {
            EitherMatchedArea::PreMatched(a) => AreaView::PreMatched(a.id as int, a.sub_traj@),
            EitherMatchedArea::MisMatched(a) => AreaView::MisMatched(
                a.id as int,
                a.sub_trajs@.map_values(|g: MergedSubTrajArray| g@),
            ),
            EitherMatchedArea::Empty => AreaView::Nothing,
        }
    }
}

/// A matched area: a baseline span that every candidate tracks identically.
#[derive(Debug, PartialEq)]
pub struct MatchedArea {
    pub id: usize,
    pub sub_traj: SubTrajArray,
}

/// The result of a segmentation run.
#[derive(Debug, PartialEq)]
pub struct PreprocessAreas {
    pub matched_areas: Vec<MatchedArea>,
    pub prematched_areas: Vec<PreMatchedArea>,
    pub mismatched_areas: Vec<MisMatchedArea>,
    pub metric_u_turns_count: usize,
    pub metric_single_lcs_count: usize,
    pub metric_simplified_traj_count: usize,
}

/// The mathematical content of a `PreprocessAreas`.
pub struct ResultView {
    pub matched: Seq<(int, SpanView)>,
    pub prematched: Seq<(int, GroupView)>,
    pub mismatched: Seq<(int, Seq<GroupView>)>,
    pub u_turns: int,
    pub single: int,
    pub simplified: int,
}

impl PreprocessAreas {
    pub open spec fn view(&self) -> ResultView {
        ResultView {
            matched: self.matched_areas@.map_values(|a: MatchedArea| (a.id as int, a.sub_traj@)),
            prematched: self.prematched_areas@.map_values(|a: PreMatchedArea| (a.id as int, a.sub_traj@)),
            mismatched: self.mismatched_areas@.map_values(
                |a: MisMatchedArea| (a.id as int, a.sub_trajs@.map_values(|g: MergedSubTrajArray| g@)),
            ),
            u_turns: self.metric_u_turns_count as int,
            single: self.metric_single_lcs_count as int,
            simplified: self.metric_simplified_traj_count as int,
        }
    }
}

/// The result with no area and zero metrics.
pub open spec fn empty_result() -> ResultView {
    ResultView { matched: seq![], prematched: seq![], mismatched: seq![], u_turns: 0, single: 0, simplified: 0 }
}

} // verus!
