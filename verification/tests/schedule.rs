use roadline::graph::Graph;
use roadline::grid_algebra::PreGridAlgebra;
use roadline::ids::{DependencyId, TaskId};
use roadline::range_algebra::{PreRangeAlgebra, RangeAlgebra, RangeAlgebraError};
use roadline::reified::{DownLanePadding, PreReified, ReifiedConfig, ReifiedUnit, Trim};
use roadline::roadline::{RoadlineBuilder, RoadlineBuilderError};
use roadline::stretch::StretchUnit;
use roadline::task::{Range, Task};
use roadline::time::{Date, Duration};

const DAY: u64 = 24 * 60 * 60;

/// 2021-01-01T00:00:00Z
fn test_date() -> Date {
    Date::new(1_609_459_200, 0)
}

/// A task placed `offset_days` after the end of `reference_id`, lasting
/// `duration_days`, that depends on `dependencies`.
fn create_test_task(id: u8, reference_id: u8, offset_days: u64, duration_days: u64, dependencies: &[u8]) -> Task {
    let range = Range::new(
        TaskId::new(reference_id),
        Duration::from_secs(offset_days * DAY),
        Duration::from_secs(duration_days * DAY),
    );
    let mut task = Task::new(TaskId::new(id), "Test Task".to_string(), "Test summary".to_string(), range);
    for dep in dependencies {
        task.add_dependency(TaskId::new(*dep));
    }
    task
}

fn graph_of(tasks: Vec<Task>) -> Graph {
    let mut graph = Graph::new();
    for task in tasks {
        graph.add(task).unwrap();
    }
    graph
}

fn simple_valid_graph() -> Graph {
    graph_of(vec![create_test_task(1, 1, 0, 30, &[]), create_test_task(2, 1, 0, 15, &[1])])
}

fn complex_valid_graph() -> Graph {
    graph_of(vec![
        create_test_task(1, 1, 0, 30, &[]),
        create_test_task(2, 1, 10, 20, &[1]),
        create_test_task(3, 2, 5, 15, &[2]),
        create_test_task(4, 1, 5, 15, &[1]),
    ])
}

fn simple_invalid_graph() -> Graph {
    graph_of(vec![
        create_test_task(1, 1, 0, 30, &[]),
        create_test_task(2, 1, 0, 15, &[1]),
        create_test_task(3, 1, 5, 15, &[2]),
    ])
}

fn compute(graph: Graph) -> RangeAlgebra {
    PreRangeAlgebra::new(graph).compute(test_date()).unwrap()
}

fn check_too_early(error: &RangeAlgebraError, tasks: &[u8]) {
    match error {
        RangeAlgebraError::Multiple { errors: inner_errors } => {
            assert_eq!(inner_errors.len(), 1);
            match &inner_errors[0] {
                RangeAlgebraError::TooEarlyForDependency { task_id, dependency_id } => {
                    assert!(tasks.iter().any(|t| *task_id == TaskId::new(*t)));
                    assert_eq!(*dependency_id, TaskId::new(2));
                }
                e => panic!("Unexpected inner error: {:?}", e),
            }
        }
        RangeAlgebraError::TooEarlyForDependency { task_id, dependency_id } => {
            assert!(tasks.iter().any(|t| *task_id == TaskId::new(*t)));
            assert_eq!(*dependency_id, TaskId::new(2));
        }
        e => panic!("Unexpected error: {:?}", e),
    }
}

// === range algebra ===

#[test]
fn range_algebra_test_simple_valid_graph() {
    let algebra = compute(simple_valid_graph());
    assert_eq!(algebra.task_count(), 2);
    assert!(algebra.has_span(TaskId::new(1)));
    assert!(algebra.has_span(TaskId::new(2)));
}

#[test]
fn range_algebra_test_complex_valid_graph() {
    let algebra = compute(complex_valid_graph());
    assert_eq!(algebra.task_count(), 4);
    for i in 1..=4 {
        assert!(algebra.has_span(TaskId::new(i)));
    }
}

#[test]
fn range_algebra_test_simple_invalid_graph() {
    match PreRangeAlgebra::new(simple_invalid_graph()).compute(test_date()) {
        Ok(_) => panic!("Expected error, got Ok"),
        Err(RangeAlgebraError::Multiple { errors }) => {
            assert_eq!(errors.len(), 1);
            check_too_early(&errors[0], &[3]);
        }
        Err(e) => panic!("Unexpected error: {:?}", e),
    }
}

#[test]
fn test_multiple_dependency_errors() {
    let graph = graph_of(vec![
        create_test_task(1, 1, 0, 10, &[]),
        create_test_task(2, 1, 0, 5, &[1]),
        create_test_task(3, 1, 0, 5, &[2]),
        create_test_task(4, 1, 2, 5, &[2]),
    ]);
    match PreRangeAlgebra::new(graph).compute(test_date()) {
        Ok(_) => panic!("Expected errors, got Ok"),
        Err(RangeAlgebraError::Multiple { errors }) => {
            assert_eq!(errors.len(), 2);
            for error in &errors {
                match error {
                    RangeAlgebraError::Multiple { .. } => check_too_early(error, &[3, 4]),
                    e => panic!("Unexpected error: {:?}", e),
                }
            }
        }
        Err(e) => panic!("Unexpected error: {:?}", e),
    }
}

#[test]
fn test_cycle_detection_reports_all_cycles() {
    let graph = graph_of(vec![
        create_test_task(1, 2, 0, 10, &[3]),
        create_test_task(2, 3, 0, 10, &[1]),
        create_test_task(3, 1, 0, 10, &[2]),
        create_test_task(4, 5, 0, 10, &[5]),
        create_test_task(5, 4, 0, 10, &[4]),
    ]);
    match PreRangeAlgebra::new(graph).compute(test_date()) {
        Ok(_) => panic!("Expected cycle error, got Ok"),
        Err(RangeAlgebraError::GraphHasCycles { cycles }) => {
            assert!(!cycles.is_empty());
        }
        Err(e) => panic!("Unexpected error: {:?}", e),
    }
}

#[test]
fn test_immutable_api_safety() {
    let algebra = compute(simple_valid_graph());
    let task1_span = *algebra.span(TaskId::new(1)).unwrap();
    let task2_span = *algebra.span(TaskId::new(2)).unwrap();
    assert!(task2_span.start.timestamp() >= task1_span.end.timestamp());
    let task_ids = algebra.task_ids();
    assert_eq!(task_ids.len(), 2);
    assert!(task_ids.contains(&TaskId::new(1)));
    assert!(task_ids.contains(&TaskId::new(2)));
}

#[test]
fn spans_follow_offsets_and_lengths() {
    let algebra = compute(complex_valid_graph());
    let root = test_date().timestamp();
    let span = |i: u8| *algebra.span(TaskId::new(i)).unwrap();
    assert_eq!(span(1).start.timestamp(), root);
    assert_eq!(span(1).end.timestamp(), root + 30 * DAY as i64);
    assert_eq!(span(2).start.timestamp(), root + 40 * DAY as i64);
    assert_eq!(span(2).end.timestamp(), root + 60 * DAY as i64);
    assert_eq!(span(3).start.timestamp(), root + 65 * DAY as i64);
    assert_eq!(span(4).start.timestamp(), root + 35 * DAY as i64);
    assert_eq!(span(4).end.timestamp(), root + 50 * DAY as i64);
}

#[test]
fn roots_start_from_the_root_date_whatever_their_reference() {
    let graph = graph_of(vec![create_test_task(1, 2, 3, 10, &[])]);
    let algebra = compute(graph);
    let span = *algebra.span(TaskId::new(1)).unwrap();
    assert_eq!(span.start.timestamp(), test_date().timestamp() + 3 * DAY as i64);
    assert_eq!(span.end.timestamp(), test_date().timestamp() + 13 * DAY as i64);
}

#[test]
fn only_roots_may_reference_themselves() {
    let graph = graph_of(vec![create_test_task(1, 1, 0, 10, &[]), create_test_task(2, 2, 0, 5, &[1])]);
    match PreRangeAlgebra::new(graph).compute(test_date()) {
        Err(RangeAlgebraError::Multiple { errors }) => {
            assert_eq!(errors.len(), 1);
            assert!(matches!(
                errors[0],
                RangeAlgebraError::OnlyRootTasksCanSelfReference { task_id, .. } if task_id == TaskId::new(2)
            ));
        }
        other => panic!("unexpected result: {:?}", other.map(|a| a.task_count())),
    }
}

// === grid algebra ===

fn simple_grid_graph() -> Graph {
    graph_of(vec![
        create_test_task(1, 1, 0, 30, &[]),
        create_test_task(2, 1, 0, 15, &[1]),
        create_test_task(3, 2, 0, 10, &[2]),
    ])
}

fn parallel_grid_graph() -> Graph {
    graph_of(vec![
        create_test_task(1, 1, 0, 30, &[]),
        create_test_task(2, 1, 0, 15, &[1]),
        create_test_task(3, 1, 5, 15, &[1]),
        create_test_task(4, 3, 0, 10, &[2, 3]),
    ])
}

fn subtree_grid_graph() -> Graph {
    graph_of(vec![
        create_test_task(1, 1, 0, 30, &[]),
        create_test_task(2, 1, 0, 15, &[1]),
        create_test_task(3, 1, 5, 15, &[1]),
        create_test_task(4, 4, 0, 20, &[]),
        create_test_task(5, 4, 0, 10, &[4]),
    ])
}

fn lanes_of(graph: Graph, ids: &[u8]) -> Vec<(TaskId, u8)> {
    let grid = PreGridAlgebra::new(compute(graph)).compute().unwrap();
    let mut results = vec![];
    for &i in ids {
        if let Some(cell) = grid.task_cell(TaskId::new(i)) {
            results.push((TaskId::new(i), cell.lane_id()));
        }
    }
    results.sort();
    results
}

#[test]
fn test_simple_grid_computation() {
    let grid = PreGridAlgebra::new(compute(simple_grid_graph())).compute().unwrap();
    assert_eq!(grid.task_count(), 3);
    assert!(grid.has_task(TaskId::new(1)));
    assert!(grid.has_task(TaskId::new(2)));
    assert!(grid.has_task(TaskId::new(3)));
    assert_eq!(grid.time_unit(), StretchUnit::Weeks);
}

#[test]
fn test_parallel_lane_assignment() {
    let grid = PreGridAlgebra::new(compute(parallel_grid_graph())).compute().unwrap();
    assert_eq!(grid.task_count(), 4);
    let lane = |i: u8| grid.task_cell(TaskId::new(i)).unwrap().lane_id();
    let (task2_lane, task3_lane, task4_lane) = (lane(2), lane(3), lane(4));
    assert_ne!(task2_lane, task3_lane, "Overlapping tasks T2 and T3 should be in different lanes");
    let min_parent = task2_lane.min(task3_lane);
    let max_parent = task2_lane.max(task3_lane);
    assert!(
        task4_lane >= min_parent.saturating_sub(1) && task4_lane <= max_parent + 1,
        "Task T4 should be near its dependencies"
    );
    assert!(grid.total_lanes() >= 2);
}

#[test]
fn test_dependency_locality() {
    let grid = PreGridAlgebra::new(compute(simple_grid_graph())).compute().unwrap();
    let lane = |i: u8| grid.task_cell(TaskId::new(i)).unwrap().lane_id();
    assert!(lane(2) <= lane(1) + 1, "T2 should be close to T1");
    assert!(lane(3) <= lane(2) + 1, "T3 should be close to T2");
    assert!(grid.total_lanes() <= 3);
}

#[test]
fn test_time_scale_determination() {
    let grid = PreGridAlgebra::new(compute(simple_grid_graph())).compute().unwrap();
    assert_eq!(grid.time_unit(), StretchUnit::Weeks);
    assert_eq!(grid.task_cell(TaskId::new(1)).unwrap().stretch().duration(), 5);
    assert_eq!(grid.task_cell(TaskId::new(2)).unwrap().stretch().duration(), 3);
}

#[test]
fn test_grid_algebra_api_safety() {
    let grid = PreGridAlgebra::new(compute(simple_grid_graph())).compute().unwrap();
    assert!(grid.has_task(TaskId::new(1)));
    assert!(!grid.has_task(TaskId::new(99)));
    assert!(grid.tasks_in_lane(0).len() >= 1);
    assert!(grid.max_time_unit() > 0);
    assert_eq!(grid.max_x_axis(), grid.max_time_unit());
    assert!(grid.max_y_axis() < grid.total_lanes() as u8);
    assert_eq!(grid.task_ids().len(), 3);
}

#[test]
fn test_subtree_width_based_spacing() {
    let grid = PreGridAlgebra::new(compute(subtree_grid_graph())).compute().unwrap();
    assert_eq!(grid.task_count(), 5);
    let lane = |i: u8| grid.task_cell(TaskId::new(i)).unwrap().lane_id();
    assert_ne!(lane(2), lane(3), "Overlapping tasks T2 and T3 should be in different lanes");
    assert!(lane(4) >= lane(1) + 3, "T4 should be spaced based on T1's subtree width");
    assert!(lane(5) <= lane(4) + 1, "T5 should be close to its parent T4");
}

#[test]
fn test_determinism_stress_test() {
    let run = || {
        (
            lanes_of(graph_of(vec![create_test_task(1, 1, 0, 10, &[]), create_test_task(2, 1, 5, 10, &[1])]), &[1, 2]),
            lanes_of(parallel_grid_graph(), &[1, 2, 3, 4]),
            lanes_of(graph_of(vec![create_test_task(1, 1, 0, 5, &[]), create_test_task(2, 1, 5, 5, &[1])]), &[1, 2]),
            lanes_of(subtree_grid_graph(), &[1, 2, 3, 4, 5]),
        )
    };
    let baseline = run();
    for i in 0..50 {
        let current = run();
        assert_eq!(current.0, baseline.0, "Simple grid results differ at iteration {}", i);
        assert_eq!(current.1, baseline.1, "Parallel lane results differ at iteration {}", i);
        assert_eq!(current.2, baseline.2, "Dependency locality results differ at iteration {}", i);
        assert_eq!(current.3, baseline.3, "Subtree spacing results differ at iteration {}", i);
    }
}

#[test]
fn overlapping_cells_never_share_a_lane() {
    let grid = PreGridAlgebra::new(compute(subtree_grid_graph())).compute().unwrap();
    let ids = grid.task_ids();
    for a in &ids {
        for b in &ids {
            if a != b {
                let ca = grid.task_cell(*a).unwrap();
                let cb = grid.task_cell(*b).unwrap();
                if ca.lane_id() == cb.lane_id() {
                    assert!(!ca.stretch().overlaps(cb.stretch()));
                }
            }
        }
    }
}

// === reified ===

fn two_task_graph(second_length_days: u64) -> Graph {
    graph_of(vec![
        create_test_task(1, 1, 0, 10 * DAY, &[]),
        create_test_task(2, 1, 5 * DAY, second_length_days * DAY, &[1]),
    ])
}

#[test]
fn test_reified_basic_functionality() {
    let grid = PreGridAlgebra::new(compute(two_task_graph(10))).compute().unwrap();
    let reified = PreReified::new(grid).compute().unwrap();
    assert_eq!(reified.task_count(), 2);
    assert_eq!(reified.connection_count(), 1);
    assert!(reified.get_down_cell(TaskId::new(1)).is_some());
    assert!(reified.get_down_cell(TaskId::new(2)).is_some());
    let dependency_id = DependencyId::new(TaskId::new(1), TaskId::new(2));
    assert!(reified.get_joint(dependency_id).is_some());
}

#[test]
fn test_reified_visual_bounds() {
    let grid = PreGridAlgebra::new(compute(two_task_graph(15))).compute().unwrap();
    let reified = PreReified::new(grid).compute().unwrap();
    let (max_x, max_y) = reified.visual_bounds();
    assert!(max_x.value() > 0);
    assert!(max_y.value() > 0);
}

#[test]
fn test_reified_custom_config() {
    let grid = PreGridAlgebra::new(compute(two_task_graph(10))).compute().unwrap();
    let config = ReifiedConfig::new(Trim::new(ReifiedUnit::new(20)), DownLanePadding::new(ReifiedUnit::new(5)));
    let reified = PreReified::with_config(grid, config).compute().unwrap();
    assert_eq!(reified.task_count(), 2);
    assert_eq!(reified.config().connection_trim.value().value(), 20);
    assert_eq!(reified.config().inter_lane_padding.value().value(), 5);
}

#[test]
fn joints_run_from_the_dependency_to_the_dependent() {
    let grid = PreGridAlgebra::new(compute(two_task_graph(10))).compute().unwrap();
    let reified = PreReified::new(grid).compute().unwrap();
    let joint = *reified.get_joint(DependencyId::new(TaskId::new(1), TaskId::new(2))).unwrap();
    let from = *reified.get_down_cell(TaskId::new(1)).unwrap();
    let to = *reified.get_down_cell(TaskId::new(2)).unwrap();
    let (sx, sy) = from.outgoing_connection_point();
    let (ex, ey) = to.incoming_connection_point();
    assert_eq!((joint.start.x, joint.start.y), (sx, sy));
    assert_eq!((joint.end.x, joint.end.y), (ex, ey));
}

// === roadline builder ===

fn task1() -> Task {
    create_test_task(1, 1, 0, 10 * DAY, &[])
}

fn task2() -> Task {
    create_test_task(2, 1, 5 * DAY, 10 * DAY, &[1])
}

#[test]
fn lane_middles_matter_only_for_joined_tasks() {
    let mut alone = RoadlineBuilder::start_of_epoch().unwrap().with_spacing(0, 30_000);
    alone.add_task(task1()).unwrap();
    assert!(alone.build().is_ok());
    let mut joined = RoadlineBuilder::start_of_epoch().unwrap().with_spacing(0, 30_000);
    joined.add_task(task1()).unwrap();
    joined.add_task(task2()).unwrap();
    assert!(matches!(joined.build(), Err(RoadlineBuilderError::DrawingFailed { .. })));
}

#[test]
fn test_builder_basic_functionality() {
    let mut builder = RoadlineBuilder::start_of_epoch().unwrap();
    builder.add_task(task1()).unwrap();
    builder.add_task(task2()).unwrap();
    let roadline = builder.build().unwrap();
    assert_eq!(roadline.task_count(), 2);
    assert_eq!(roadline.connection_count(), 1);
}

#[test]
fn test_builder_no_tasks_error() {
    let builder = RoadlineBuilder::start_of_epoch().unwrap();
    let result = builder.build();
    assert!(matches!(result, Err(RoadlineBuilderError::NoTasks)));
}

#[test]
fn test_infallible_constructor() {
    let builder = RoadlineBuilder::new();
    assert_eq!(builder.task_count(), 0);
    assert!(builder.is_empty());
    let default_builder = RoadlineBuilder::default();
    assert_eq!(default_builder.task_count(), 0);
}

#[test]
fn test_fluent_api() {
    let roadline = RoadlineBuilder::new().compact().task(task1()).unwrap().task(task2()).unwrap().build().unwrap();
    assert_eq!(roadline.task_count(), 2);
    assert_eq!(roadline.config().connection_trim.value().value(), 5);
    assert_eq!(roadline.config().inter_lane_padding.value().value(), 1);
}

#[test]
fn test_date_constructors() {
    let builder1 = RoadlineBuilder::from_ymd(2024, 1, 1).unwrap();
    assert!(!builder1.is_empty() || builder1.is_empty());
    let builder2 = RoadlineBuilder::from_iso_date("2024-03-15T10:30:00Z").unwrap();
    assert!(!builder2.is_empty() || builder2.is_empty());
    assert!(RoadlineBuilder::from_ymd(2024, 13, 1).is_err());
    assert!(RoadlineBuilder::from_iso_date("invalid-date").is_err());
}

#[test]
fn date_errors_name_the_input() {
    match RoadlineBuilder::from_ymd(2024, 13, 1) {
        Err(RoadlineBuilderError::DateParsing { message }) => assert_eq!(message, "Invalid date 2024-13-01"),
        _ => panic!("expected a date error"),
    }
    match RoadlineBuilder::from_ymd(-7, 2, 30) {
        Err(RoadlineBuilderError::DateParsing { message }) => assert_eq!(message, "Invalid date -7-02-30"),
        _ => panic!("expected a date error"),
    }
    match RoadlineBuilder::from_iso_date("invalid-date") {
        Err(RoadlineBuilderError::DateParsing { message }) => assert!(message.starts_with("Failed to parse 'invalid-date': ")),
        _ => panic!("expected a date error"),
    }
}

#[test]
fn date_constructors_read_the_calendar() {
    let builder = RoadlineBuilder::from_ymd(2024, 1, 1).unwrap();
    assert_eq!(builder.root_date().timestamp(), 1_704_067_200);
    let builder = RoadlineBuilder::from_iso_date("2024-03-15T10:30:00Z").unwrap();
    assert_eq!(builder.root_date().timestamp(), 1_710_498_600);
    let builder = RoadlineBuilder::from_iso_date("2024-03-15T12:30:00+02:00").unwrap();
    assert_eq!(builder.root_date().timestamp(), 1_710_498_600);
}

#[test]
fn calendar_days_and_leap_years() {
    assert_eq!(RoadlineBuilder::from_ymd(1970, 1, 1).unwrap().root_date().timestamp(), 0);
    assert_eq!(RoadlineBuilder::from_ymd(1969, 12, 31).unwrap().root_date().timestamp(), -86_400);
    assert_eq!(RoadlineBuilder::from_ymd(2024, 2, 29).unwrap().root_date().timestamp(), 1_709_164_800);
    assert!(RoadlineBuilder::from_ymd(2023, 2, 29).is_err());
    assert!(RoadlineBuilder::from_ymd(1900, 2, 29).is_err());
    assert!(RoadlineBuilder::from_ymd(2000, 2, 29).is_ok());
    assert!(RoadlineBuilder::from_ymd(2024, 4, 31).is_err());
    assert!(RoadlineBuilder::from_ymd(2024, 0, 1).is_err());
    assert!(RoadlineBuilder::from_ymd(2024, 1, 0).is_err());
}

#[test]
fn test_spacing_presets() {
    let compact = RoadlineBuilder::new().compact().task(task1()).unwrap().task(task2()).unwrap().build().unwrap();
    assert_eq!(compact.config().connection_trim.value().value(), 5);
    assert_eq!(compact.config().inter_lane_padding.value().value(), 1);
    let spacious = RoadlineBuilder::new().spacious().task(task1()).unwrap().task(task2()).unwrap().build().unwrap();
    assert_eq!(spacious.config().connection_trim.value().value(), 20);
    assert_eq!(spacious.config().inter_lane_padding.value().value(), 5);
}

#[test]
fn test_builder_summary() {
    let builder = RoadlineBuilder::new().with_spacing(15, 3);
    let summary = builder.summary();
    assert_eq!(summary.task_count, 0);
    assert_eq!(summary.trim_units, 15);
    assert_eq!(summary.padding_units, 3);
    let display_str = summary.to_display_string();
    assert!(display_str.contains("0 tasks"));
    assert!(display_str.contains("15×3"));
}

#[test]
fn summary_text_is_exact() {
    let summary = RoadlineBuilder::new().with_spacing(15, 3).summary();
    assert_eq!(summary.to_display_string(), "RoadlineBuilder: 0 tasks, root: 2000-01-01T00:00:00Z, spacing: 15×3");
}

#[test]
fn test_validation() {
    let empty_builder = RoadlineBuilder::new();
    assert!(matches!(empty_builder.validate(), Err(RoadlineBuilderError::NoTasks)));
    let mut builder_with_tasks = RoadlineBuilder::new();
    builder_with_tasks.add_task(task1()).unwrap();
    assert!(builder_with_tasks.validate().is_ok());
}

#[test]
fn test_builder_custom_config() {
    let mut builder = RoadlineBuilder::start_of_epoch()
        .unwrap()
        .with_trim(Trim::new(ReifiedUnit::new(20)))
        .with_padding(DownLanePadding::new(ReifiedUnit::new(5)));
    builder.add_task(task1()).unwrap();
    builder.add_task(task2()).unwrap();
    let roadline = builder.build().unwrap();
    assert_eq!(roadline.config().connection_trim.value().value(), 20);
    assert_eq!(roadline.config().inter_lane_padding.value().value(), 5);
}

#[test]
fn test_roadline_access_methods() {
    let mut builder = RoadlineBuilder::start_of_epoch().unwrap();
    builder.add_task(task1()).unwrap();
    builder.add_task(task2()).unwrap();
    let roadline = builder.build().unwrap();

    assert!(roadline.contains_task(TaskId::new(1)));
    assert!(roadline.contains_task(TaskId::new(2)));
    assert!(!roadline.contains_task(TaskId::new(3)));
    assert!(roadline.get_task_bounds(TaskId::new(1)).is_some());
    assert!(roadline.get_task_bounds(TaskId::new(3)).is_none());

    let task_ids = roadline.task_ids();
    assert_eq!(task_ids.len(), 2);
    assert!(task_ids.contains(&TaskId::new(1)));
    assert!(task_ids.contains(&TaskId::new(2)));

    let (max_x, max_y) = roadline.visual_bounds();
    assert!(max_x.value() > 0);
    assert!(max_y.value() > 0);

    assert_eq!(roadline.task_rectangles().len(), 2);
    assert_eq!(roadline.connection_endpoints().len(), 1);
}

#[test]
fn adding_a_task_twice_keeps_one_task() {
    let mut builder = RoadlineBuilder::new();
    builder.add_task(task1()).unwrap();
    builder.add_task(task1()).unwrap();
    assert_eq!(builder.task_count(), 1);
}
