//! Coordinates, trajectories, method kinds, and the path simplifier.
use vstd::laws_eq::obeys_concrete_eq;
use vstd::prelude::*;

verus! {

/// A geographic position. Each component holds the IEEE-754 bit pattern of a
/// double, so that two coordinates are the same point exactly when their bits match.
#[derive(Clone, Copy, Debug)]
pub struct Coordinate {
    pub longitude: u64,
    pub latitude: u64,
}

impl PartialEq for Coordinate {
    fn eq(&self, o: &Coordinate) -> (r: bool) {
        self.longitude == o.longitude && self.latitude == o.latitude
    }
}

impl vstd::std_specs::cmp::PartialEqSpecImpl for Coordinate {
    open spec fn obeys_eq_spec() -> bool {
        true
    }

    open spec fn eq_spec(&self, o: &Coordinate) -> bool {
        self.longitude == o.longitude && self.latitude == o.latitude
    }
}

impl Eq for Coordinate {
}

/// Coordinates compare by value: `==` on them is equality of both components.
pub proof fn lemma_coordinate_concrete_eq()
    ensures
        obeys_concrete_eq::<Coordinate>(),
{
    reveal(obeys_concrete_eq);
}

/// The kind of method that produced a trajectory.
#[derive(Clone, Copy, Debug, Eq, Hash)]
pub enum AnnotatorType {
    /// The baseline (not a map-matching method); any unknown name maps here.
    Annotator,
    STMatching,
    SimpleMapMatching,
    GHMapMatching,
}

impl AnnotatorType {
    /// A stable ordinal for each kind, which fixes the order in which kinds are visited.
    pub open spec fn spec_ordinal(&self) -> int {
        match self {
            AnnotatorType::Annotator => 0,
            AnnotatorType::STMatching => 1,
            AnnotatorType::SimpleMapMatching => 2,
            AnnotatorType::GHMapMatching => 3,
        }
    }

    /// Kinds with the same ordinal are the same kind.
    pub proof fn lemma_ordinal_injective(a: AnnotatorType, b: AnnotatorType)
        ensures
            a.spec_ordinal() == b.spec_ordinal() <==> a == b,
    {
        match a {
            AnnotatorType::Annotator => { match b { AnnotatorType::Annotator => {}, _ => {} } },
            AnnotatorType::STMatching => { match b { AnnotatorType::STMatching => {}, _ => {} } },
            AnnotatorType::SimpleMapMatching => { match b { AnnotatorType::SimpleMapMatching => {}, _ => {} } },
            AnnotatorType::GHMapMatching => { match b { AnnotatorType::GHMapMatching => {}, _ => {} } },
        }
    }

    /// The kind's ordinal.
    pub fn ordinal(&self) -> (r: usize)
        ensures
            r as int == self.spec_ordinal(),
            r < 4,
    {
        match self {
            AnnotatorType::Annotator => 0,
            AnnotatorType::STMatching => 1,
            AnnotatorType::SimpleMapMatching => 2,
            AnnotatorType::GHMapMatching => 3,
        }
    }
}

impl PartialEq for AnnotatorType {
    fn eq(&self, o: &AnnotatorType) -> (r: bool) {
        self.ordinal() == o.ordinal()
    }
}

impl vstd::std_specs::cmp::PartialEqSpecImpl for AnnotatorType {
    open spec fn obeys_eq_spec() -> bool {
        true
    }

    open spec fn eq_spec(&self, o: &AnnotatorType) -> bool {
        self.spec_ordinal() == o.spec_ordinal()
    }
}

/// The kind that a method's name stands for.
pub open spec fn annotator_type_of(name: Seq<char>) -> AnnotatorType {
    if name == "STMatching"@ {
        AnnotatorType::STMatching
    } else if name == "SimpleMapMatching"@ {
        AnnotatorType::SimpleMapMatching
    } else if name == "GHMapMatching"@ {
        AnnotatorType::GHMapMatching
    } else {
        AnnotatorType::Annotator
    }
}

/// Classifies a method's name; an unrecognized name is the baseline kind.
pub fn get_annotator_type(method_name: &str) -> (r: AnnotatorType)
    ensures
        r == annotator_type_of(method_name@),
{
    let name = method_name.to_owned();
    if name == "STMatching".to_owned() {
        AnnotatorType::STMatching
    } else if name == "SimpleMapMatching".to_owned() {
        AnnotatorType::SimpleMapMatching
    } else if name == "GHMapMatching".to_owned() {
        AnnotatorType::GHMapMatching
    } else {
        AnnotatorType::Annotator
    }
}

/// A named method's output: the name of the method and its trajectory.
pub struct MethodResult {
    pub method_name: String,
    pub trajectory: Vec<Coordinate>,
}

/// `f` answers, for an anchor, a middle point and the point after it, whether the
/// middle point is redundant; it accepts every input and always gives the same answer.
pub open spec fn is_redundancy_test<F: Fn(Coordinate, Coordinate, Coordinate) -> bool>(f: F) -> bool {
    &&& forall|a: Coordinate, b: Coordinate, c: Coordinate| #[trigger] f.requires((a, b, c))
    &&& forall|a: Coordinate, b: Coordinate, c: Coordinate, r1: bool, r2: bool|
        #[trigger] f.ensures((a, b, c), r1) && #[trigger] f.ensures((a, b, c), r2) ==> r1 == r2
}

/// The answer of the test `f` on an anchor `a`, a middle point `b` and the next point `c`.
pub open spec fn redundant<F: Fn(Coordinate, Coordinate, Coordinate) -> bool>(
    f: F,
    a: Coordinate,
    b: Coordinate,
    c: Coordinate,
) -> bool {
    !f.ensures((a, b, c), false)
}

/// The points that the simplifier emits from scan position `j` on, with anchor `i`.
pub open spec fn simplify_from<F: Fn(Coordinate, Coordinate, Coordinate) -> bool>(
    t: Seq<Coordinate>,
    f: F,
    i: int,
    j: int,
) -> Seq<Coordinate>
    decreases t.len() - j,
{
    if j < 1 || j + 1 >= t.len() {
        seq![]
    } else if redundant(f, t[i], t[j], t[j + 1]) {
        if j + 2 == t.len() {
            seq![t[j + 1]]
        } else {
            simplify_from(t, f, i, j + 1)
        }
    } else {
        if j + 2 == t.len() {
            seq![t[j], t[j + 1]]
        } else {
            seq![t[j]] + simplify_from(t, f, j, j + 1)
        }
    }
}

/// The simplified trajectory: a trajectory of at most two points is kept as it is;
/// otherwise the first point, then what the scan from position 1 emits.
pub open spec fn simplified<F: Fn(Coordinate, Coordinate, Coordinate) -> bool>(
    t: Seq<Coordinate>,
    f: F,
) -> Seq<Coordinate> {
    if t.len() <= 2 {
        t
    } else {
        seq![t[0]] + simplify_from(t, f, 0, 1)
    }
}

/// Reduces a trajectory to its structurally distinct points: a point is dropped
/// when `is_redundant` judges it collinear with its anchor and the next point.
pub fn get_simplified_traj<F: Fn(Coordinate, Coordinate, Coordinate) -> bool>(
    raw_traj: &Vec<Coordinate>,
    is_redundant: &F,
) -> (r: Vec<Coordinate>)
    requires
        is_redundancy_test(*is_redundant),
    ensures
        r@ == simplified(raw_traj@, *is_redundant),
{
    let n = raw_traj.len();
    if n <= 2 {
        return raw_traj.clone();
    }
    let mut out: Vec<Coordinate> = Vec::new();
    out.push(raw_traj[0]);
    let mut i: usize = 0;
    let mut j: usize = 1;
    while j + 1 < n
        invariant
            n == raw_traj@.len(),
            n > 2,
            0 <= i < j,
            j < n,
            is_redundancy_test(*is_redundant),
            out@ + simplify_from(raw_traj@, *is_redundant, i as int, j as int) == simplified(raw_traj@, *is_redundant),
        decreases n - j,
    {
        let a = raw_traj[i];
        let b = raw_traj[j];
        let c = raw_traj[j + 1];
        let red = is_redundant(a, b, c);
        proof {
            if red {
                assert(is_redundant.ensures((a, b, c), true));
            }
        }
        let ghost t = raw_traj@;
        let ghost old_out = out@;
        if red {
            if j + 2 == n {
                out.push(c);
                assert(out@ =~= old_out + seq![t[j + 1]]);
            }
        } else {
            if j + 2 == n {
                out.push(b);
                out.push(c);
                assert(out@ =~= old_out + seq![t[j as int], t[j + 1]]);
            } else {
                out.push(b);
                assert(old_out + (seq![t[j as int]] + simplify_from(t, *is_redundant, j as int, j + 1))
                    =~= out@ + simplify_from(t, *is_redundant, j as int, j + 1));
                i = j;
            }
        }
        j += 1;
    }
    assert(out@ =~= out@ + simplify_from(raw_traj@, *is_redundant, i as int, j as int));
    out
}

/// What the scan emits is no longer than what is left to scan, and ends with the last point.
proof fn lemma_simplify_from_shape<F: Fn(Coordinate, Coordinate, Coordinate) -> bool>(
    t: Seq<Coordinate>,
    f: F,
    i: int,
    j: int,
)
    requires
        1 <= j,
        j + 1 < t.len(),
    ensures
        simplify_from(t, f, i, j).len() <= t.len() - j,
        simplify_from(t, f, i, j).len() >= 1,
        simplify_from(t, f, i, j).last() == t.last(),
    decreases t.len() - j,
{
    if j + 2 < t.len() {
        lemma_simplify_from_shape(t, f, i, j + 1);
        lemma_simplify_from_shape(t, f, j, j + 1);
    }
}

/// The simplifier keeps the first and the last point and never lengthens a trajectory.
pub proof fn lemma_simplified_keeps_ends<F: Fn(Coordinate, Coordinate, Coordinate) -> bool>(
    t: Seq<Coordinate>,
    f: F,
)
    ensures
        simplified(t, f).len() <= t.len(),
        t.len() > 0 ==> simplified(t, f).len() > 0 && simplified(t, f)[0] == t[0]
            && simplified(t, f).last() == t.last(),
        t.len() >= 2 ==> simplified(t, f).len() >= 2,
{
    if t.len() > 2 {
        lemma_simplify_from_shape(t, f, 0, 1);
        let s = simplify_from(t, f, 0, 1);
        assert((seq![t[0]] + s).last() == s.last());
    }
}

/// When every point is judged redundant, the scan emits only the last point.
proof fn lemma_simplify_from_all_redundant<F: Fn(Coordinate, Coordinate, Coordinate) -> bool>(
    t: Seq<Coordinate>,
    f: F,
    i: int,
    j: int,
)
    requires
        forall|a: Coordinate, b: Coordinate, c: Coordinate| #[trigger] redundant(f, a, b, c),
        1 <= j,
        j + 1 < t.len(),
    ensures
        simplify_from(t, f, i, j) == seq![t.last()],
    decreases t.len() - j,
{
    assert(redundant(f, t[i], t[j], t[j + 1]));
    if j + 2 < t.len() {
        lemma_simplify_from_all_redundant(t, f, i, j + 1);
    }
}

/// A test that judges every point redundant, as one does on collinear points
/// that keep their direction, leaves only the first and the last point.
pub proof fn lemma_simplified_all_redundant<F: Fn(Coordinate, Coordinate, Coordinate) -> bool>(
    t: Seq<Coordinate>,
    f: F,
)
    requires
        t.len() >= 2,
        forall|a: Coordinate, b: Coordinate, c: Coordinate| #[trigger] redundant(f, a, b, c),
    ensures
        simplified(t, f) == seq![t[0], t.last()],
{
    if t.len() > 2 {
        lemma_simplify_from_all_redundant(t, f, 0, 1);
        assert(simplified(t, f) =~= seq![t[0], t.last()]);
    } else {
        assert(t =~= seq![t[0], t.last()]);
    }
}

} // verus!
