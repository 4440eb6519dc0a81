use roadline::graph::Graph;
use roadline::ids::{DependencyId, TaskId};

fn t(i: u8) -> TaskId {
    TaskId::new(i)
}

fn dep() -> DependencyId {
    DependencyId::new(TaskId::new(0), TaskId::new(1))
}

/// task1 -> task2 -> task3 -> task4
fn create_linear_graph() -> Graph {
    let mut graph = Graph::new();
    graph.add_dependency(t(1), dep(), t(2)).expect("Failed to add dependency");
    graph.add_dependency(t(2), dep(), t(3)).expect("Failed to add dependency");
    graph.add_dependency(t(3), dep(), t(4)).expect("Failed to add dependency");
    graph
}

/// task1 -> [task2, task3] -> task4, task1 -> task5
fn create_branched_graph() -> Graph {
    let mut graph = Graph::new();
    graph.add_dependency(t(1), dep(), t(2)).expect("Failed to add dependency");
    graph.add_dependency(t(1), dep(), t(3)).expect("Failed to add dependency");
    graph.add_dependency(t(1), dep(), t(5)).expect("Failed to add dependency");
    graph.add_dependency(t(2), dep(), t(4)).expect("Failed to add dependency");
    graph.add_dependency(t(3), dep(), t(4)).expect("Failed to add dependency");
    graph
}

/// Ten tasks in several levels: 1 -> {2,3}, 2 -> {4,5}, 3 -> {5,6}, 4 -> 7,
/// 5 -> {7,8}, 6 -> 8, 7 -> 9, 8 -> 9, 9 -> 10.
fn create_complex_graph() -> Graph {
    let mut graph = Graph::new();
    let tasks: Vec<TaskId> = (1..=10).map(t).collect();
    let dependencies = vec![
        (0, 1),
        (0, 2),
        (1, 3),
        (1, 4),
        (2, 4),
        (2, 5),
        (3, 6),
        (4, 6),
        (4, 7),
        (5, 7),
        (6, 8),
        (7, 8),
        (8, 9),
    ];
    for (from_idx, to_idx) in dependencies {
        graph
            .add_dependency(tasks[from_idx], dep(), tasks[to_idx])
            .expect("Failed to add dependency");
    }
    graph
}

/// task1 -> task2 -> task4, task1 -> task3 -> task4
fn create_acyclic_graph() -> Graph {
    let mut graph = Graph::new();
    graph.add_dependency(t(1), dep(), t(2)).unwrap();
    graph.add_dependency(t(1), dep(), t(3)).unwrap();
    graph.add_dependency(t(2), dep(), t(4)).unwrap();
    graph.add_dependency(t(3), dep(), t(4)).unwrap();
    graph
}

/// task1 -> task2 -> task3 -> task1
fn create_cyclic_graph() -> Graph {
    let mut graph = Graph::new();
    graph.add_dependency(t(1), dep(), t(2)).unwrap();
    graph.add_dependency(t(2), dep(), t(3)).unwrap();
    graph.add_dependency(t(3), dep(), t(1)).unwrap();
    graph
}

/// task1 -> task2 -> task3, task4 isolated
fn create_test_graph() -> Graph {
    let mut graph = Graph::new();
    graph.add_dependency(t(1), dep(), t(2)).unwrap();
    graph.add_dependency(t(2), dep(), t(3)).unwrap();
    graph.add_task(t(4));
    graph
}

fn ids(records: &[(TaskId, usize)]) -> Vec<TaskId> {
    records.iter().map(|r| r.0).collect()
}

fn depths(records: &[(TaskId, usize)]) -> Vec<usize> {
    records.iter().map(|r| r.1).collect()
}

/// Hands each visit of a traversal to `visit` in order, stopping at the first error.
fn visit_all(
    records: &[(TaskId, usize)],
    mut visit: impl FnMut(TaskId, usize) -> Result<(), String>,
) -> Result<(), String> {
    for (task_id, depth) in records {
        visit(*task_id, *depth)?;
    }
    Ok(())
}

// === mutation ===

#[test]
fn mutation_test_add_task() {
    let mut graph = Graph::new();
    let task = t(1);
    graph.add_task(task);
    assert!(graph.contains_task(task));
    assert_eq!(graph.task_count(), 1);
}

#[test]
fn mutation_test_add_dependency() {
    let mut graph = Graph::new();
    let (task1, task2) = (t(1), t(2));
    graph.add_dependency(task1, dep(), task2).unwrap();
    assert!(graph.contains_task(task1));
    assert!(graph.contains_task(task2));
    assert!(graph.has_dependency(task1, task2));
    assert_eq!(graph.task_count(), 2);
    assert_eq!(graph.dependency_count(), 1);
}

#[test]
fn mutation_test_remove_task() {
    let mut graph = Graph::new();
    let (task1, task2, task3) = (t(1), t(2), t(3));
    graph.add_dependency(task1, dep(), task2).unwrap();
    graph.add_dependency(task2, dep(), task3).unwrap();

    let removed = graph.remove_task(task2).unwrap();

    assert!(removed);
    assert!(!graph.contains_task(task2));
    assert!(graph.contains_task(task1));
    assert!(graph.contains_task(task3));
    assert!(!graph.has_dependency(task1, task2));
    assert!(!graph.has_dependency(task2, task3));
    assert_eq!(graph.task_count(), 2);
    assert_eq!(graph.dependency_count(), 0);
}

#[test]
fn mutation_test_remove_nonexistent_task() {
    let mut graph = Graph::new();
    let removed = graph.remove_task(t(100)).unwrap();
    assert!(!removed);
}

#[test]
fn mutation_test_remove_dependency() {
    let mut graph = Graph::new();
    let (task1, task2) = (t(1), t(2));
    graph.add_dependency(task1, dep(), task2).unwrap();

    let removed = graph.remove_dependency(task1, dep(), task2).unwrap();

    assert!(removed);
    assert!(!graph.has_dependency(task1, task2));
    assert_eq!(graph.dependency_count(), 0);
}

#[test]
fn mutation_test_remove_nonexistent_dependency() {
    let mut graph = Graph::new();
    let removed = graph.remove_dependency(t(1), dep(), t(2)).unwrap();
    assert!(!removed);
}

// === analysis ===

#[test]
fn analysis_test_has_cycles_acyclic() {
    let graph = create_acyclic_graph();
    assert!(!graph.has_cycles().unwrap());
}

#[test]
fn analysis_test_has_cycles_cyclic() {
    let graph = create_cyclic_graph();
    assert!(graph.has_cycles().unwrap());
}

#[test]
fn analysis_test_topological_sort_acyclic() {
    let graph = create_acyclic_graph();
    let sorted = graph.topological_sort().unwrap();
    assert_eq!(sorted.len(), 4);

    let pos = |task: TaskId| {
        sorted
            .iter()
            .position(|&x| x == task)
            .unwrap_or_else(|| panic!("{:?} should be in topological sort", task))
    };
    assert!(pos(t(1)) < pos(t(2)));
    assert!(pos(t(1)) < pos(t(3)));
    assert!(pos(t(2)) < pos(t(4)));
    assert!(pos(t(3)) < pos(t(4)));
}

#[test]
fn analysis_test_topological_sort_cyclic() {
    let graph = create_cyclic_graph();
    assert!(graph.topological_sort().is_err());
}

#[test]
fn analysis_test_strongly_connected_components_acyclic() {
    let graph = create_acyclic_graph();
    let components = graph.strongly_connected_components().unwrap();
    assert_eq!(components.len(), 4);
    for component in &components {
        assert_eq!(component.len(), 1);
    }
}

#[test]
fn analysis_test_strongly_connected_components_cyclic() {
    let graph = create_cyclic_graph();
    let components = graph.strongly_connected_components().unwrap();
    assert_eq!(components.len(), 1);
    assert_eq!(components[0].len(), 3);
}

#[test]
fn analysis_test_is_dag() {
    let acyclic = create_acyclic_graph();
    let cyclic = create_cyclic_graph();
    assert!(acyclic.is_dag().unwrap());
    assert!(!cyclic.is_dag().unwrap());
}

#[test]
fn analysis_test_find_cycles_acyclic() {
    let graph = create_acyclic_graph();
    assert!(graph.find_cycles().unwrap().is_empty());
}

#[test]
fn analysis_test_find_cycles_cyclic() {
    let graph = create_cyclic_graph();
    let cycles = graph.find_cycles().unwrap();
    assert_eq!(cycles.len(), 1);
    assert_eq!(cycles[0].len(), 3);
}

#[test]
fn analysis_test_self_loop_cycle() {
    let mut graph = Graph::new();
    let task1 = t(1);
    graph.add_dependency(task1, dep(), task1).unwrap();

    assert!(graph.has_cycles().unwrap());
    let cycles = graph.find_cycles().unwrap();
    assert_eq!(cycles.len(), 1);
    assert_eq!(cycles[0].len(), 1);
    assert_eq!(cycles[0][0], task1);
}

// === traversal ===

#[test]
fn traversal_test_dfs_linear_graph() {
    let graph = create_linear_graph();
    let visits = graph.dfs(t(1)).unwrap();
    let visited = ids(&visits);
    let depths = depths(&visits);
    assert_eq!(visited.len(), 4);
    assert_eq!(visited[0], t(1));
    assert_eq!(depths[0], 0);
    assert_eq!(depths[3], 3);
}

#[test]
fn traversal_test_bfs_linear_graph() {
    let graph = create_linear_graph();
    let visits = graph.bfs(t(1)).unwrap();
    let visited = ids(&visits);
    assert_eq!(visited.len(), 4);
    assert_eq!(visited[0], t(1));
    assert_eq!(depths(&visits), vec![0, 1, 2, 3]);
}

#[test]
fn traversal_test_dfs_branched_graph() {
    let graph = create_branched_graph();
    let visited = ids(&graph.dfs(t(1)).unwrap());
    assert_eq!(visited.len(), 5);
    assert_eq!(visited[0], t(1));
}

#[test]
fn traversal_test_bfs_branched_graph() {
    let graph = create_branched_graph();
    let visits = graph.bfs(t(1)).unwrap();
    let visited = ids(&visits);
    assert_eq!(visited.len(), 5);
    assert_eq!(visited[0], t(1));
    let depth_1_count = depths(&visits).iter().filter(|&&d| d == 1).count();
    assert_eq!(depth_1_count, 3);
}

#[test]
fn traversal_test_dfs_nonexistent_task() {
    let graph = create_linear_graph();
    assert!(graph.dfs(t(100)).is_err());
}

#[test]
fn traversal_test_reachable_tasks() {
    let graph = create_linear_graph();
    assert_eq!(graph.reachable_tasks(t(1)).unwrap().len(), 4);
}

#[test]
fn traversal_test_shortest_path_linear() {
    let graph = create_linear_graph();
    let path = graph.shortest_path(t(1), t(4)).unwrap().unwrap();
    assert_eq!(path.len(), 4);
    assert_eq!(path[0], t(1));
    assert_eq!(path[3], t(4));
}

#[test]
fn traversal_test_shortest_path_same_task() {
    let graph = create_linear_graph();
    let path = graph.shortest_path(t(1), t(1)).unwrap().unwrap();
    assert_eq!(path, vec![t(1)]);
}

#[test]
fn traversal_test_shortest_path_no_path() {
    let graph = create_linear_graph();
    assert!(graph.shortest_path(t(4), t(1)).unwrap().is_none());
}

#[test]
fn traversal_test_shortest_path_nonexistent_task() {
    let graph = create_linear_graph();
    assert!(graph.shortest_path(t(1), t(100)).is_err());
}

#[test]
fn test_rev_dfs_linear_graph() {
    let graph = create_linear_graph();
    let visits = graph.rev_dfs(t(4)).unwrap();
    let visited = ids(&visits);
    let depths = depths(&visits);
    assert_eq!(visited.len(), 4);
    assert_eq!(visited[0], t(4));
    assert_eq!(depths[0], 0);
    assert_eq!(depths[3], 3);
    assert_eq!(visited, vec![t(4), t(3), t(2), t(1)]);
    assert_eq!(depths, vec![0, 1, 2, 3]);
}

#[test]
fn test_rev_dfs_branched_graph() {
    let graph = create_branched_graph();
    let visited = ids(&graph.rev_dfs(t(4)).unwrap());
    assert_eq!(visited.len(), 4);
    assert_eq!(visited[0], t(4));
    assert!(visited.contains(&t(1)));
    assert!(visited.contains(&t(2)));
    assert!(visited.contains(&t(3)));
}

#[test]
fn test_rev_dfs_complex_graph() {
    let graph = create_complex_graph();
    let visits = graph.rev_dfs(t(10)).unwrap();
    let visited = ids(&visits);
    let depths = depths(&visits);
    assert_eq!(visited.len(), 10);
    assert_eq!(visited[0], t(10));
    assert_eq!(depths[0], 0);
    assert_eq!(depths[1], 1);
    assert_eq!(depths[2], 2);
    assert!(visited.contains(&t(1)));
}

#[test]
fn test_rev_dfs_isolated_task() {
    let graph = create_test_graph();
    let visited = ids(&graph.rev_dfs(t(4)).unwrap());
    assert_eq!(visited.len(), 1);
    assert_eq!(visited[0], t(4));
}

#[test]
fn test_rev_dfs_cyclic_graph() {
    let graph = create_cyclic_graph();
    let visited = ids(&graph.rev_dfs(t(1)).unwrap());
    assert_eq!(visited.len(), 3);
    assert_eq!(visited[0], t(1));
    assert!(visited.contains(&t(1)));
    assert!(visited.contains(&t(2)));
    assert!(visited.contains(&t(3)));
}

#[test]
fn test_rev_dfs_nonexistent_task() {
    let graph = create_linear_graph();
    assert!(graph.rev_dfs(t(100)).is_err());
}

#[test]
fn test_rev_dfs_error_propagation() {
    let graph = create_linear_graph();
    let visits = graph.rev_dfs(t(4)).unwrap();
    let result = visit_all(&visits, |task_id, _depth| {
        if task_id == t(2) {
            Err("Test error".to_string())
        } else {
            Ok(())
        }
    });
    assert!(result.is_err());
}

#[test]
fn test_rev_dfs_vs_dfs_complement() {
    let graph = create_branched_graph();
    let forward_visited = ids(&graph.dfs(t(1)).unwrap());
    let reverse_visited = ids(&graph.rev_dfs(t(4)).unwrap());
    assert!(forward_visited.contains(&t(1)));
    assert!(forward_visited.contains(&t(4)));
    assert!(reverse_visited.contains(&t(1)));
    assert!(reverse_visited.contains(&t(4)));
}

#[test]
fn test_rev_bfs_linear_graph() {
    let graph = create_linear_graph();
    let visits = graph.rev_bfs(t(4)).unwrap();
    let visited = ids(&visits);
    let depths = depths(&visits);
    assert_eq!(visited.len(), 4);
    assert_eq!(visited[0], t(4));
    assert_eq!(depths[0], 0);
    assert_eq!(depths[1], 1);
    assert_eq!(depths[2], 2);
    assert_eq!(depths[3], 3);
    assert_eq!(visited, vec![t(4), t(3), t(2), t(1)]);
    assert_eq!(depths, vec![0, 1, 2, 3]);
}

#[test]
fn test_rev_bfs_branched_graph() {
    let graph = create_branched_graph();
    let visits = graph.rev_bfs(t(4)).unwrap();
    let visited = ids(&visits);
    let depths = depths(&visits);
    assert_eq!(visited.len(), 4);
    assert_eq!(visited[0], t(4));
    assert_eq!(depths[0], 0);
    assert!(depths[1] == 1 && depths[2] == 1);
    assert_eq!(depths[3], 2);
    assert!(visited.contains(&t(1)));
    assert!(visited.contains(&t(2)));
    assert!(visited.contains(&t(3)));
}

#[test]
fn test_rev_bfs_complex_graph() {
    let graph = create_complex_graph();
    let visits = graph.rev_bfs(t(10)).unwrap();
    let visited = ids(&visits);
    let depths = depths(&visits);
    assert_eq!(visited.len(), 10);
    assert_eq!(visited[0], t(10));
    assert_eq!(depths[0], 0);
    assert_eq!(depths[1], 1);
    assert!(visited.contains(&t(1)));
}

#[test]
fn test_rev_bfs_isolated_task() {
    let graph = create_test_graph();
    let visited = ids(&graph.rev_bfs(t(4)).unwrap());
    assert_eq!(visited.len(), 1);
    assert_eq!(visited[0], t(4));
}

#[test]
fn test_rev_bfs_cyclic_graph() {
    let graph = create_cyclic_graph();
    let visited = ids(&graph.rev_bfs(t(1)).unwrap());
    assert_eq!(visited.len(), 3);
    assert_eq!(visited[0], t(1));
    assert!(visited.contains(&t(1)));
    assert!(visited.contains(&t(2)));
    assert!(visited.contains(&t(3)));
}

#[test]
fn test_rev_bfs_nonexistent_task() {
    let graph = create_linear_graph();
    assert!(graph.rev_bfs(t(100)).is_err());
}

#[test]
fn test_rev_bfs_error_propagation() {
    let graph = create_linear_graph();
    let visits = graph.rev_bfs(t(4)).unwrap();
    let result = visit_all(&visits, |task_id, _depth| {
        if task_id == t(2) {
            Err("Test error".to_string())
        } else {
            Ok(())
        }
    });
    assert!(result.is_err());
}

#[test]
fn test_rev_bfs_vs_bfs_complement() {
    let graph = create_branched_graph();
    let forward_visited = ids(&graph.bfs(t(1)).unwrap());
    let reverse_visited = ids(&graph.rev_bfs(t(4)).unwrap());
    assert!(forward_visited.contains(&t(1)));
    assert!(forward_visited.contains(&t(4)));
    assert!(reverse_visited.contains(&t(1)));
    assert!(reverse_visited.contains(&t(4)));
}

#[test]
fn test_rev_bfs_vs_rev_dfs_same_nodes() {
    let graph = create_complex_graph();
    let bfs_visited = ids(&graph.rev_bfs(t(10)).unwrap());
    let dfs_visited = ids(&graph.rev_dfs(t(10)).unwrap());
    assert_eq!(bfs_visited.len(), dfs_visited.len());
    let bfs_set: std::collections::HashSet<_> = bfs_visited.into_iter().collect();
    let dfs_set: std::collections::HashSet<_> = dfs_visited.into_iter().collect();
    assert_eq!(bfs_set, dfs_set);
}

// === queries and whole-graph scenarios ===

#[test]
fn test_get_predicates() {
    let graph = create_test_graph();
    let predicates1 = graph.get_predicates(t(1)).expect("task1 should have predicates");
    assert_eq!(predicates1.len(), 1);
    assert_eq!(predicates1[0].task_id, t(2));
    let predicates2 = graph.get_predicates(t(2)).expect("task2 should have predicates");
    assert_eq!(predicates2.len(), 1);
    assert_eq!(predicates2[0].task_id, t(3));
    let predicates3 = graph.get_predicates(t(3)).expect("task3 should have predicates");
    assert_eq!(predicates3.len(), 0);
}

#[test]
fn test_task_counts() {
    let graph = create_test_graph();
    assert_eq!(graph.task_count(), 4);
    assert_eq!(graph.dependency_count(), 2);
}

#[test]
fn test_contains_task() {
    let graph = create_test_graph();
    assert!(graph.contains_task(t(1)));
    assert!(!graph.contains_task(t(100)));
}

#[test]
fn test_has_dependency() {
    let graph = create_test_graph();
    assert!(graph.has_dependency(t(1), t(2)));
    assert!(graph.has_dependency(t(2), t(3)));
    assert!(!graph.has_dependency(t(1), t(3)));
    assert!(!graph.has_dependency(t(1), t(4)));
}

#[test]
fn test_root_tasks() {
    let graph = create_test_graph();
    let roots = graph.root_tasks();
    assert_eq!(roots.len(), 2);
    assert!(roots.contains(&t(1)));
    assert!(roots.contains(&t(4)));
}

#[test]
fn test_leaf_tasks() {
    let graph = create_test_graph();
    let leaves = graph.leaf_tasks();
    assert_eq!(leaves.len(), 2);
    assert!(leaves.contains(&t(3)));
    assert!(leaves.contains(&t(4)));
}

#[test]
fn test_traversal_completeness() {
    let graph = create_complex_graph();
    assert_eq!(graph.dfs(t(1)).unwrap().len(), 10);
    let bfs = graph.bfs(t(1)).unwrap();
    assert_eq!(bfs.len(), 10);
    let bfs_depths = depths(&bfs);
    for window in bfs_depths.windows(2) {
        assert!(window[0] <= window[1]);
    }
}

#[test]
fn test_path_finding() {
    let graph = create_complex_graph();
    let path = graph.shortest_path(t(1), t(10)).unwrap().unwrap();
    assert!(path.len() >= 5);
    assert_eq!(path[0], t(1));
    assert_eq!(path[path.len() - 1], t(10));
    let path_to_5 = graph.shortest_path(t(1), t(5)).unwrap().unwrap();
    assert!(path_to_5.len() >= 3);
    assert!(graph.shortest_path(t(10), t(1)).unwrap().is_none());
}

#[test]
fn test_cycle_detection_and_topological_sort() {
    let graph = create_complex_graph();
    assert!(!graph.has_cycles().unwrap());
    assert!(graph.is_dag().unwrap());
    let topo_order = graph.topological_sort().unwrap();
    assert_eq!(topo_order.len(), 10);
    let task1_pos = topo_order.iter().position(|&x| x == t(1)).expect("task1 should be in topological sort");
    assert_eq!(task1_pos, 0);
    let task10_pos = topo_order.iter().position(|&x| x == t(10)).expect("task10 should be in topological sort");
    assert_eq!(task10_pos, 9);
    for (i, &task_a) in topo_order.iter().enumerate() {
        for &task_b in topo_order.iter().skip(i + 1) {
            assert!(!graph.has_dependency(task_b, task_a));
        }
    }
}

#[test]
fn test_mutation_operations() {
    let mut graph = create_complex_graph();
    let initial_count = graph.task_count();

    let new_task = t(11);
    graph.add_task(new_task);
    assert_eq!(graph.task_count(), initial_count + 1);
    assert!(graph.contains_task(new_task));

    graph.add_dependency(t(1), DependencyId::new(t(1), new_task), new_task).unwrap();
    assert!(graph.has_dependency(t(1), new_task));

    let removed = graph.remove_dependency(t(1), dep(), t(2)).unwrap();
    assert!(removed);
    assert!(!graph.has_dependency(t(1), t(2)));

    assert!(!graph.get_dependents(t(5)).is_empty());
    let removed = graph.remove_task(t(5)).unwrap();
    assert!(removed);
    assert!(!graph.contains_task(t(5)));

    for task_id in graph.task_ids() {
        assert!(!graph.get_dependencies(task_id).contains(&t(5)));
    }
}

#[test]
fn test_strongly_connected_components() {
    let graph = create_complex_graph();
    let components = graph.strongly_connected_components().unwrap();
    assert_eq!(components.len(), 10);
    for component in &components {
        assert_eq!(component.len(), 1);
    }

    let mut cyclic_graph = Graph::new();
    cyclic_graph.add_dependency(t(1), dep(), t(2)).unwrap();
    cyclic_graph.add_dependency(t(2), dep(), t(3)).unwrap();
    cyclic_graph.add_dependency(t(3), dep(), t(1)).unwrap();
    cyclic_graph.add_task(t(4));
    let cyclic_components = cyclic_graph.strongly_connected_components().unwrap();
    assert_eq!(cyclic_components.len(), 2);
    assert!(cyclic_components.iter().any(|comp| comp.len() == 3));
}

#[test]
fn test_error_handling() {
    let graph = create_complex_graph();
    assert!(graph.dfs(t(100)).is_err());
    assert!(graph.bfs(t(100)).is_err());
    assert!(graph.shortest_path(t(1), t(100)).is_err());
    let visits = graph.dfs(t(1)).unwrap();
    let result = visit_all(&visits, |_task_id, _depth| Err("Test error".to_string()));
    assert!(result.is_err());
}

#[test]
fn test_reachability() {
    let graph = create_complex_graph();
    assert_eq!(graph.reachable_tasks(t(1)).unwrap().len(), 10);
    let reachable_from_5 = graph.reachable_tasks(t(5)).unwrap();
    assert!(reachable_from_5.len() < 10);
    assert!(!reachable_from_5.contains(&t(1)));
}

#[test]
fn test_graph_properties() {
    let graph = create_complex_graph();
    for task in graph.task_ids() {
        if let Some(preds) = graph.get_predicates(task) {
            for predicate in preds {
                assert!(graph.contains_task(predicate.task_id));
                assert!(graph.has_dependency(task, predicate.task_id));
            }
        }
    }
    for task in graph.task_ids() {
        for dep_task in graph.get_dependencies(task) {
            assert!(graph.get_dependents(dep_task).contains(&task));
        }
    }
}

#[test]
fn test_empty_graph() {
    let graph = Graph::new();
    assert_eq!(graph.task_count(), 0);
    assert_eq!(graph.dependency_count(), 0);
    assert!(graph.root_tasks().is_empty());
    assert!(graph.leaf_tasks().is_empty());
    assert!(!graph.has_cycles().unwrap());
    assert!(graph.is_dag().unwrap());
    assert!(graph.topological_sort().unwrap().is_empty());
    assert!(graph.strongly_connected_components().unwrap().is_empty());
}

#[test]
fn test_single_task_graph() {
    let mut graph = Graph::new();
    let task = t(1);
    graph.add_task(task);
    assert_eq!(graph.task_count(), 1);
    assert_eq!(graph.dependency_count(), 0);
    assert_eq!(graph.root_tasks(), vec![task]);
    assert_eq!(graph.leaf_tasks(), vec![task]);
    assert!(!graph.has_cycles().unwrap());
    assert!(graph.is_dag().unwrap());
    assert_eq!(graph.topological_sort().unwrap(), vec![task]);
    assert_eq!(graph.reachable_tasks(task).unwrap(), vec![task]);
}

// === properties on concrete values ===

#[test]
fn dependencies_and_dependents_mirror_each_other() {
    let graph = create_branched_graph();
    assert_eq!(graph.get_dependents(t(1)), vec![t(2), t(3), t(5)]);
    assert_eq!(graph.get_dependencies(t(4)), vec![t(2), t(3)]);
    assert!(graph.get_dependencies(t(1)).is_empty());
}

#[test]
fn topological_order_respects_every_edge() {
    let graph = create_complex_graph();
    let order = graph.topological_sort().unwrap();
    for task in graph.task_ids() {
        for next in graph.get_dependents(task) {
            let a = order.iter().position(|&x| x == task).unwrap();
            let b = order.iter().position(|&x| x == next).unwrap();
            assert!(a < b);
        }
    }
}

#[test]
fn self_loop_removal_makes_graph_acyclic() {
    let mut graph = Graph::new();
    graph.add_dependency(t(7), dep(), t(7)).unwrap();
    assert!(graph.has_cycles().unwrap());
    assert!(graph.remove_dependency(t(7), dep(), t(7)).unwrap());
    assert!(!graph.has_cycles().unwrap());
    assert_eq!(graph.topological_sort().unwrap(), vec![t(7)]);
}

#[test]
fn visitors_see_the_record_and_stop_at_a_failure() {
    let graph = create_linear_graph();
    let record = graph.dfs(t(1)).unwrap();
    let seen = std::cell::RefCell::new(Vec::new());
    let result = graph.dfs_visit(t(1), |task, depth| {
        seen.borrow_mut().push((task, depth));
        Ok::<(), &str>(())
    });
    assert!(result.is_ok());
    assert_eq!(*seen.borrow(), record);

    let seen = std::cell::RefCell::new(Vec::new());
    let result = graph.bfs_visit(t(1), |task, depth| {
        seen.borrow_mut().push((task, depth));
        if task == t(2) { Err("stop") } else { Ok(()) }
    });
    assert!(matches!(result, Err(roadline::traversal::VisitError::Visitor("stop"))));
    assert_eq!(*seen.borrow(), vec![(t(1), 0), (t(2), 1)]);

    let missing = graph.rev_dfs_visit(t(99), |_task, _depth| Ok::<(), &str>(()));
    assert!(matches!(missing, Err(roadline::traversal::VisitError::Graph(_))));
    let all = graph.rev_bfs_visit(t(3), |_task, _depth| Ok::<(), &str>(()));
    assert!(all.is_ok());
}
