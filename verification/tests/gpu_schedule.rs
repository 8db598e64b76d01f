use lau_varadhan_transport::gpu_schedule::schedule_order;

/// Dependencies of the five-kernel pipeline load → {compute_a, compute_b} → merge → store.
fn pipeline_deps() -> Vec<Vec<usize>> {
    vec![vec![], vec![0], vec![0], vec![1, 2], vec![3]]
}

fn position_of(order: &[usize], n: usize) -> Vec<usize> {
    let mut position = vec![usize::MAX; n];
    for (i, &task_id) in order.iter().enumerate() {
        position[task_id] = i;
    }
    position
}

#[test]
fn schedule_order_pipeline() {
    let deps = pipeline_deps();
    let order = schedule_order(&deps, &vec![4, 3, 2, 1, 0]);
    assert_eq!(order, vec![0, 2, 1, 3, 4]);
}

#[test]
fn schedule_order_first_task_is_the_root() {
    let deps = pipeline_deps();
    let order = schedule_order(&deps, &vec![3, 1, 4, 0, 2]);
    assert_eq!(order.len(), 5);
    assert_eq!(order[0], 0);
    assert_eq!(order, vec![0, 1, 2, 3, 4]);
}

#[test]
fn schedule_order_respects_dependencies() {
    let deps = pipeline_deps();
    let priorities = vec![
        vec![0, 1, 2, 3, 4],
        vec![4, 3, 2, 1, 0],
        vec![2, 4, 0, 3, 1],
        vec![1, 3, 0, 4, 2],
    ];
    for prio in priorities {
        let order = schedule_order(&deps, &prio);
        assert_eq!(order.len(), 5);
        let position = position_of(&order, 5);
        for (t, ds) in deps.iter().enumerate() {
            for &d in ds {
                assert!(position[d] < position[t], "dep {} scheduled after task {}", d, t);
            }
        }
    }
}

#[test]
fn schedule_order_empty() {
    let order = schedule_order(&vec![], &vec![]);
    assert_eq!(order.len(), 0);
}

#[test]
fn schedule_order_single() {
    let order = schedule_order(&vec![vec![]], &vec![0]);
    assert_eq!(order, vec![0]);
}

#[test]
fn schedule_order_stops_on_cyclic_dependencies() {
    // 1 and 2 wait for each other; only 0 can run.
    let deps = vec![vec![], vec![2], vec![1]];
    let order = schedule_order(&deps, &vec![0, 1, 2]);
    assert_eq!(order, vec![0]);
}

#[test]
fn schedule_order_skips_tasks_missing_from_priority() {
    let deps = vec![vec![], vec![], vec![0]];
    let order = schedule_order(&deps, &vec![2, 0]);
    assert_eq!(order, vec![0, 2]);
}

#[test]
fn schedule_order_duplicate_priorities() {
    let deps = vec![vec![], vec![0]];
    let order = schedule_order(&deps, &vec![1, 1, 0, 0]);
    assert_eq!(order, vec![0, 1]);
}

#[test]
fn schedule_order_is_deterministic() {
    let deps = pipeline_deps();
    let prio = vec![2, 4, 0, 3, 1];
    assert_eq!(schedule_order(&deps, &prio), schedule_order(&deps, &prio));
    assert_eq!(schedule_order(&deps, &prio), vec![0, 2, 1, 3, 4]);
}

#[test]
fn schedule_order_leaves_out_tasks_leading_into_cycles() {
    // 1 and 2 form a cycle, 3 depends on 1, 4 depends on itself; 0 and 5 are free.
    let deps = vec![vec![], vec![2], vec![1], vec![1, 0], vec![4], vec![0]];
    let order = schedule_order(&deps, &vec![5, 4, 3, 2, 1, 0]);
    assert_eq!(order, vec![0, 5]);
}
