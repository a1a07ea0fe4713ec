use pre_annotation::annotator::{pre_annotate, AnnotatorConfig, PreAnnotator};
use pre_annotation::areas::{PreprocessAreas, SubTrajArray, SubTrajOwner};
use pre_annotation::trajectory::{get_annotator_type, AnnotatorType, Coordinate, MethodResult};

fn coordinate(longitude: f64, latitude: f64) -> Coordinate {
    Coordinate { longitude: longitude.to_bits(), latitude: latitude.to_bits() }
}

fn collinear_within(threshold: f64) -> impl Fn(Coordinate, Coordinate, Coordinate) -> bool {
    move |a: Coordinate, b: Coordinate, c: Coordinate| {
        let (ax, ay) = (f64::from_bits(a.longitude), f64::from_bits(a.latitude));
        let x1 = f64::from_bits(b.longitude) - ax;
        let y1 = f64::from_bits(b.latitude) - ay;
        let x2 = f64::from_bits(c.longitude) - ax;
        let y2 = f64::from_bits(c.latitude) - ay;
        (x1 * y2 - y1 * x2).abs() < threshold && x1 * x2 > 0.0 && y1 * y2 > 0.0
    }
}

fn diagonal(k: u32) -> Coordinate {
    coordinate(k as f64, k as f64)
}

fn method(name: &str, trajectory: Vec<Coordinate>) -> MethodResult {
    MethodResult { method_name: name.to_string(), trajectory }
}

fn config(auto_merge_circle: bool) -> AnnotatorConfig {
    AnnotatorConfig { auto_merge_circle, disabled_annotators: vec![] }
}

fn segment(baseline: Vec<Coordinate>, candidates: Vec<(&str, Vec<Coordinate>)>, auto: bool) -> PreprocessAreas {
    let mut annotator = PreAnnotator::new(&method("Annotator", baseline), config(auto));
    for (name, t) in candidates {
        annotator.add_sub_annotator(&method(name, t));
    }
    annotator.generate_matched_areas(&collinear_within(1e-9))
}

#[test]
fn method_names_classify() {
    assert_eq!(get_annotator_type("STMatching"), AnnotatorType::STMatching);
    assert_eq!(get_annotator_type("SimpleMapMatching"), AnnotatorType::SimpleMapMatching);
    assert_eq!(get_annotator_type("GHMapMatching"), AnnotatorType::GHMapMatching);
    assert_eq!(get_annotator_type("Annotator"), AnnotatorType::Annotator);
    assert_eq!(get_annotator_type("stmatching"), AnnotatorType::Annotator);
    assert_eq!(get_annotator_type(""), AnnotatorType::Annotator);
}

#[test]
fn span_detects_repeated_point() {
    let owner = SubTrajOwner { owner_type: AnnotatorType::STMatching, has_error: false, start_index: 0, end_index: 2 };
    assert!(SubTrajArray::new(owner, vec![diagonal(1), diagonal(2), diagonal(1)]).has_circle);
    assert!(!SubTrajArray::new(owner, vec![diagonal(1), diagonal(2), diagonal(3)]).has_circle);
    assert!(!SubTrajArray::new(owner, vec![]).has_circle);
}

#[test]
fn identical_trajectories_give_one_matched_area() {
    let line: Vec<Coordinate> = (0..5).map(diagonal).collect();
    let r = segment(line.clone(), vec![("STMatching", line.clone())], true);
    assert_eq!(r.matched_areas.len(), 1);
    let area = &r.matched_areas[0];
    assert_eq!(area.id, 1);
    assert_eq!(area.sub_traj.owner, SubTrajOwner { owner_type: AnnotatorType::Annotator, has_error: false, start_index: 0, end_index: 4 });
    assert_eq!(area.sub_traj.traj, line);
    assert!(r.prematched_areas.is_empty());
    assert!(r.mismatched_areas.is_empty());
    assert_eq!(r.metric_u_turns_count, 0);
    assert_eq!(r.metric_single_lcs_count, 0);
    assert_eq!(r.metric_simplified_traj_count, 0);
}

#[test]
fn disjoint_trajectories_give_empty_result() {
    let baseline: Vec<Coordinate> = (0..5).map(diagonal).collect();
    let other: Vec<Coordinate> = (10..15).map(diagonal).collect();
    let mut annotator = PreAnnotator::new(&method("Annotator", baseline), config(true));
    annotator.add_sub_annotator(&method("STMatching", other));
    assert!(annotator.get_common_indexes().is_empty());
    let r = annotator.generate_matched_areas(&collinear_within(1e-9));
    assert!(r.matched_areas.is_empty());
    assert!(r.prematched_areas.is_empty());
    assert!(r.mismatched_areas.is_empty());
    assert_eq!((r.metric_u_turns_count, r.metric_single_lcs_count, r.metric_simplified_traj_count), (0, 0, 0));
}

#[test]
fn common_indexes_are_the_intersection() {
    let a = diagonal(0);
    let b = diagonal(1);
    let c = diagonal(2);
    let d = diagonal(3);
    let e = diagonal(4);
    let mut annotator = PreAnnotator::new(&method("Annotator", vec![a, b, c, d, e]), config(true));
    annotator.add_sub_annotator(&method("STMatching", vec![a, b, d, e]));
    assert_eq!(*annotator.get_common_indexes(), vec![0, 1, 3, 4]);
    annotator.add_sub_annotator(&method("GHMapMatching", vec![a, c, d]));
    assert_eq!(*annotator.get_common_indexes(), vec![0, 3]);
}

#[test]
fn candidate_of_baseline_kind_is_left_out() {
    let line: Vec<Coordinate> = (0..5).map(diagonal).collect();
    let mut annotator = PreAnnotator::new(&method("Annotator", line.clone()), config(true));
    annotator.add_sub_annotator(&method("SomeOtherMethod", line));
    assert!(annotator.get_common_indexes().is_empty());
}

#[test]
fn repeated_point_merges_with_error_when_tolerated() {
    let baseline: Vec<Coordinate> = (0..5).map(diagonal).collect();
    let candidate = vec![diagonal(0), diagonal(1), diagonal(2), diagonal(2), diagonal(3), diagonal(4)];
    let r = segment(baseline, vec![("STMatching", candidate)], true);
    assert_eq!(r.matched_areas.len(), 2);
    assert_eq!((r.matched_areas[0].id, r.matched_areas[0].sub_traj.owner.start_index, r.matched_areas[0].sub_traj.owner.end_index), (1, 0, 1));
    assert_eq!((r.matched_areas[1].id, r.matched_areas[1].sub_traj.owner.start_index, r.matched_areas[1].sub_traj.owner.end_index), (3, 2, 4));
    assert!(r.mismatched_areas.is_empty());
    assert_eq!(r.prematched_areas.len(), 1);
    let area = &r.prematched_areas[0];
    assert_eq!(area.id, 2);
    assert_eq!(area.sub_traj.base_owner_type, AnnotatorType::Annotator);
    assert_eq!(area.sub_traj.traj, vec![diagonal(1), diagonal(2)]);
    assert_eq!(
        area.sub_traj.owners,
        vec![
            SubTrajOwner { owner_type: AnnotatorType::Annotator, has_error: false, start_index: 1, end_index: 2 },
            SubTrajOwner { owner_type: AnnotatorType::STMatching, has_error: true, start_index: 1, end_index: 3 },
        ]
    );
    assert_eq!(r.metric_u_turns_count, 1);
    assert_eq!(r.metric_simplified_traj_count, 0);
}

#[test]
fn repeated_point_stays_apart_when_not_tolerated() {
    let baseline: Vec<Coordinate> = (0..5).map(diagonal).collect();
    let candidate = vec![diagonal(0), diagonal(1), diagonal(2), diagonal(2), diagonal(3), diagonal(4)];
    let r = segment(baseline, vec![("STMatching", candidate)], false);
    assert!(r.prematched_areas.is_empty());
    assert_eq!(r.mismatched_areas.len(), 1);
    let area = &r.mismatched_areas[0];
    assert_eq!(area.id, 2);
    assert_eq!(area.sub_trajs.len(), 2);
    assert_eq!(area.sub_trajs[0].base_owner_type, AnnotatorType::Annotator);
    assert_eq!(area.sub_trajs[1].base_owner_type, AnnotatorType::STMatching);
    assert!(area.sub_trajs.iter().all(|g| g.owners.len() == 1 && !g.owners[0].has_error));
    assert_eq!(r.metric_u_turns_count, 0);
}

#[test]
fn detour_merges_through_simplified_paths() {
    let baseline: Vec<Coordinate> = (0..4).map(diagonal).collect();
    let candidate = vec![diagonal(0), coordinate(1.0, 5.0), coordinate(2.0, -5.0), diagonal(3)];
    let r = segment(baseline.clone(), vec![("STMatching", candidate.clone())], true);
    assert!(r.matched_areas.is_empty());
    assert_eq!(r.metric_single_lcs_count, 2);
    assert_eq!(r.prematched_areas.len(), 1);
    assert_eq!(r.prematched_areas[0].id, 0);
    assert_eq!(r.prematched_areas[0].sub_traj.traj, baseline);
    assert_eq!(r.metric_simplified_traj_count, 1);

    let strict = segment(baseline, vec![("STMatching", candidate)], false);
    assert!(strict.prematched_areas.is_empty());
    assert_eq!(strict.mismatched_areas.len(), 1);
    assert_eq!(strict.mismatched_areas[0].sub_trajs.len(), 2);
    assert_eq!(strict.metric_simplified_traj_count, 0);
}

#[test]
fn generating_twice_gives_the_same_result() {
    let baseline: Vec<Coordinate> = (0..5).map(diagonal).collect();
    let candidate = vec![diagonal(0), diagonal(1), diagonal(2), diagonal(2), diagonal(3), diagonal(4)];
    let mut annotator = PreAnnotator::new(&method("Annotator", baseline), config(true));
    annotator.add_sub_annotator(&method("STMatching", candidate));
    let test = collinear_within(1e-9);
    let first = annotator.generate_matched_areas(&test);
    let second = annotator.generate_matched_areas(&test);
    assert_eq!(first, second);
    assert_eq!(first.metric_u_turns_count, 1);
}

#[test]
fn pre_annotate_needs_two_enabled_results() {
    let line: Vec<Coordinate> = (0..5).map(diagonal).collect();
    let results = vec![method("Annotator", line.clone()), method("STMatching", line.clone())];
    let disabled = AnnotatorConfig { auto_merge_circle: true, disabled_annotators: vec!["STMatching".to_string()] };
    assert!(pre_annotate(&results, disabled, &collinear_within(1e-9)).is_none());
    let alone = vec![method("Annotator", line.clone())];
    assert!(pre_annotate(&alone, config(true), &collinear_within(1e-9)).is_none());
    let r = pre_annotate(&results, config(true), &collinear_within(1e-9)).unwrap();
    assert_eq!(r, segment(line.clone(), vec![("STMatching", line)], true));
}

#[test]
fn pre_annotate_skips_disabled_candidates() {
    let baseline: Vec<Coordinate> = (0..5).map(diagonal).collect();
    let other: Vec<Coordinate> = (10..15).map(diagonal).collect();
    let results = vec![
        method("Annotator", baseline.clone()),
        method("GHMapMatching", other),
        method("STMatching", baseline.clone()),
    ];
    let cfg = AnnotatorConfig { auto_merge_circle: true, disabled_annotators: vec!["GHMapMatching".to_string()] };
    let r = pre_annotate(&results, cfg, &collinear_within(1e-9)).unwrap();
    assert_eq!(r.matched_areas.len(), 1);
    assert_eq!(r.matched_areas[0].sub_traj.traj, baseline);
}

#[test]
fn differing_starts_give_a_mismatch_before_the_first_match() {
    let baseline = vec![coordinate(-5.0, 3.0), diagonal(1), diagonal(2), diagonal(3)];
    let candidate = vec![coordinate(4.0, -7.0), diagonal(1), diagonal(2), diagonal(3)];
    let r = segment(baseline, vec![("GHMapMatching", candidate)], true);
    assert_eq!(r.matched_areas.len(), 1);
    assert_eq!(r.matched_areas[0].sub_traj.owner.start_index, 1);
    assert_eq!(r.matched_areas[0].sub_traj.owner.end_index, 3);
    assert_eq!(r.mismatched_areas.len(), 1);
    let area = &r.mismatched_areas[0];
    assert_eq!(area.id, 0);
    assert_eq!(area.sub_trajs.len(), 2);
    assert_eq!(area.sub_trajs[0].owners[0].owner_type, AnnotatorType::Annotator);
    assert_eq!(area.sub_trajs[1].owners[0].owner_type, AnnotatorType::GHMapMatching);
    assert_eq!(area.sub_trajs[1].owners[0].end_index, 1);
}

#[test]
fn lone_common_index_counts_as_single_run() {
    let baseline = vec![diagonal(0), diagonal(1), coordinate(9.0, -9.0)];
    let candidate = vec![coordinate(5.0, 7.0), diagonal(1), coordinate(-3.0, 8.0)];
    let mut annotator = PreAnnotator::new(&method("Annotator", baseline), config(true));
    annotator.add_sub_annotator(&method("STMatching", candidate));
    assert_eq!(*annotator.get_common_indexes(), vec![1]);
    let r = annotator.generate_matched_areas(&collinear_within(1e-9));
    assert!(r.matched_areas.is_empty());
    assert_eq!(r.metric_single_lcs_count, 1);
}

#[test]
fn trailing_lone_index_counts_as_single_run() {
    // Common indices [0, 1, 3]: the run [0, 1] matches and the lone run [3] counts.
    let baseline = vec![diagonal(0), diagonal(1), diagonal(2), diagonal(3)];
    let candidate = vec![diagonal(0), diagonal(1), coordinate(2.0, 5.0), diagonal(3)];
    let r = segment(baseline, vec![("STMatching", candidate)], true);
    assert_eq!(r.matched_areas.len(), 1);
    assert_eq!(r.matched_areas[0].sub_traj.owner.end_index, 1);
    assert_eq!(r.metric_single_lcs_count, 1);
}
