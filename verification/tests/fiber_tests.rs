use aether_vm::fiber::{FiberStep, WorkStealingScheduler, WorkerQueue};

fn queue(s: &WorkStealingScheduler, i: usize) -> Vec<u64> {
    s.workers[i].tasks.iter().copied().collect()
}

#[test]
fn fiber_new_has_at_least_two_workers() {
    let s = WorkStealingScheduler::new(0);
    assert_eq!(s.num_threads, 2);
    assert_eq!(s.workers.len(), 2);
    let s = WorkStealingScheduler::new(1);
    assert_eq!(s.num_threads, 2);
    let s = WorkStealingScheduler::new(4);
    assert_eq!(s.num_threads, 4);
    assert!(s.workers.iter().all(|w| w.tasks.is_empty()));
    assert_eq!(s.next_worker, 0);
    assert!(!s.shutdown);
}

#[test]
fn fiber_spawn_round_robin() {
    let mut s = WorkStealingScheduler::new(3);
    for t in 10..14 {
        s.spawn(t);
    }
    assert_eq!(queue(&s, 0), vec![10, 13]);
    assert_eq!(queue(&s, 1), vec![11]);
    assert_eq!(queue(&s, 2), vec![12]);
    assert_eq!(s.next_worker, 4);
}

#[test]
fn fiber_spawn_counter_wraps() {
    let mut s = WorkStealingScheduler::new(3);
    s.next_worker = usize::MAX;
    s.spawn(5);
    assert_eq!(s.next_worker, 0);
    let expected = usize::MAX % 3;
    assert_eq!(queue(&s, expected), vec![5]);
}

#[test]
fn fiber_local_tasks_run_newest_first() {
    let mut s = WorkStealingScheduler::new(2);
    s.spawn(1);
    s.spawn(2);
    s.spawn(3);
    assert_eq!(s.next_task(0), FiberStep::Run(3));
    assert_eq!(s.next_task(0), FiberStep::Run(1));
}

#[test]
fn fiber_steals_oldest_of_first_other_worker() {
    let mut s = WorkStealingScheduler::new(3);
    s.spawn(1);
    s.spawn(2);
    s.spawn(3);
    s.spawn(4);
    s.spawn(5);
    // queues: [1, 4], [2, 5], [3]
    assert_eq!(s.next_task(2), FiberStep::Run(3));
    assert_eq!(s.next_task(2), FiberStep::Run(1));
    assert_eq!(s.next_task(2), FiberStep::Run(4));
    assert_eq!(s.next_task(2), FiberStep::Run(2));
    assert_eq!(queue(&s, 1), vec![5]);
}

#[test]
fn fiber_idle_only_without_tasks() {
    let mut s = WorkStealingScheduler::new(2);
    assert_eq!(s.next_task(0), FiberStep::Idle);
    s.spawn(9);
    assert_eq!(s.next_task(1), FiberStep::Run(9));
    assert_eq!(s.next_task(0), FiberStep::Idle);
    assert_eq!(s.next_task(1), FiberStep::Idle);
}

#[test]
fn fiber_shutdown_stops_workers() {
    let mut s = WorkStealingScheduler::new(2);
    s.spawn(1);
    s.shutdown();
    assert!(s.shutdown);
    assert_eq!(s.next_task(0), FiberStep::Stop);
    assert_eq!(queue(&s, 0), vec![1]);
}

#[test]
fn fiber_every_task_handed_out_once() {
    let mut s = WorkStealingScheduler::new(4);
    for t in 0..20 {
        s.spawn(t);
    }
    let mut seen = Vec::new();
    let mut w = 0;
    loop {
        match s.next_task(w % 4) {
            FiberStep::Run(t) => seen.push(t),
            FiberStep::Idle => break,
            FiberStep::Stop => unreachable!(),
        }
        w += 3;
    }
    seen.sort();
    assert_eq!(seen, (0..20).collect::<Vec<u64>>());
}

#[test]
fn fiber_worker_queue_ends() {
    let mut q = WorkerQueue::new();
    assert_eq!(q.pop_local(), None);
    assert_eq!(q.steal(), None);
    q.push(1);
    q.push(2);
    q.push(3);
    assert_eq!(q.pop_local(), Some(3));
    assert_eq!(q.steal(), Some(1));
    assert_eq!(q.pop_local(), Some(2));
    assert!(q.tasks.is_empty());
}
