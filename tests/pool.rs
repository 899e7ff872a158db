use multirun::pool::{Action, ExitRecord, Pool, Status};

fn strings(v: &[&str]) -> Vec<String> {
    v.iter().map(|s| s.to_string()).collect()
}

/// Drives a pool to the end. Each poll finds only the oldest live process
/// finished, with the exit code given for its command; every other poll
/// before it finds nothing. Returns the largest number of live processes
/// seen at a decision to start one.
fn run(pool: &mut Pool, codes: &[Option<i32>]) -> usize {
    let mut most = 0;
    let mut quiet_poll = true;
    loop {
        match pool.next_action() {
            Action::Spawn(i) => {
                most = most.max(pool.live().len());
                assert_eq!(pool.start_next(), i);
            }
            Action::Poll | Action::PauseThenPoll => {
                let live = pool.live().clone();
                let statuses: Vec<Status> = live
                    .iter()
                    .enumerate()
                    .map(|(p, &i)| {
                        if p == 0 && !quiet_poll {
                            Status::Exited(codes[i])
                        } else {
                            Status::Running
                        }
                    })
                    .collect();
                let reaped = pool.reclaim(&statuses);
                assert_eq!(reaped.is_empty(), quiet_poll);
                quiet_poll = !quiet_poll;
            }
            Action::Done => return most,
        }
    }
}

#[test]
fn one_failure_among_three() {
    let mut pool = Pool::new(strings(&["true", "false", "true"]), 6);
    run(&mut pool, &[Some(0), Some(1), Some(0)]);
    assert_eq!(pool.failures(), vec![(1, 1)]);
    assert_eq!(pool.command(1), "false");
    assert_eq!(pool.records().len(), 3);
}

#[test]
fn limit_zero_still_runs_a_command() {
    let mut pool = Pool::new(strings(&["true"]), 0);
    assert_eq!(pool.next_action(), Action::Spawn(0));
    assert_eq!(pool.start_next(), 0);
    assert_eq!(pool.next_action(), Action::Poll);
    let reaped = pool.reclaim(&vec![Status::Exited(Some(0))]);
    assert_eq!(reaped, vec![ExitRecord { index: 0, code: Some(0) }]);
    assert_eq!(pool.next_action(), Action::Done);
}

#[test]
fn every_command_is_reported_once() {
    let cmds: Vec<String> = (0..10).map(|i| format!("job {}", i)).collect();
    let codes: Vec<Option<i32>> = (0..10).map(|i| Some(i % 3)).collect();
    let mut pool = Pool::new(cmds, 2);
    run(&mut pool, &codes);
    let mut seen: Vec<usize> = pool.records().iter().map(|r| r.index).collect();
    seen.sort();
    assert_eq!(seen, (0..10).collect::<Vec<usize>>());
}

#[test]
fn at_most_one_more_than_the_limit_runs() {
    let cmds: Vec<String> = (0..8).map(|i| format!("job {}", i)).collect();
    let mut pool = Pool::new(cmds, 2);
    let before_start = run(&mut pool, &[Some(0); 8]);
    assert_eq!(before_start, 2);
}

#[test]
fn pool_fills_to_limit_plus_one() {
    let mut pool = Pool::new(strings(&["a", "b", "c", "d"]), 1);
    assert_eq!(pool.next_action(), Action::Spawn(0));
    pool.start_next();
    assert_eq!(pool.next_action(), Action::Spawn(1));
    pool.start_next();
    assert_eq!(pool.live(), &vec![0, 1]);
    assert_eq!(pool.next_action(), Action::Poll);
}

#[test]
fn an_empty_poll_asks_for_a_pause() {
    let mut pool = Pool::new(strings(&["a"]), 3);
    pool.start_next();
    let reaped = pool.reclaim(&vec![Status::Running]);
    assert!(reaped.is_empty());
    assert_eq!(pool.next_action(), Action::PauseThenPoll);
    pool.reclaim(&vec![Status::Exited(Some(2))]);
    assert_eq!(pool.next_action(), Action::Done);
    assert_eq!(pool.failures(), vec![(0, 2)]);
}

#[test]
fn a_missing_exit_code_is_no_failure() {
    let mut pool = Pool::new(strings(&["a", "b"]), 3);
    pool.start_next();
    pool.start_next();
    let reaped = pool.reclaim(&vec![Status::Exited(None), Status::Exited(Some(7))]);
    assert_eq!(reaped.len(), 2);
    assert_eq!(pool.failures(), vec![(1, 7)]);
}

#[test]
fn reclaim_keeps_the_order_of_the_live_set() {
    let mut pool = Pool::new(strings(&["a", "b", "c"]), 3);
    pool.start_next();
    pool.start_next();
    pool.start_next();
    let reaped = pool.reclaim(&vec![Status::Running, Status::Exited(Some(0)), Status::Running]);
    assert_eq!(reaped, vec![ExitRecord { index: 1, code: Some(0) }]);
    assert_eq!(pool.live(), &vec![0, 2]);
}

#[test]
fn failures_come_in_order_of_detection() {
    let mut pool = Pool::new(strings(&["a", "b"]), 3);
    pool.start_next();
    pool.start_next();
    pool.reclaim(&vec![Status::Running, Status::Exited(Some(4))]);
    pool.reclaim(&vec![Status::Exited(Some(5))]);
    assert_eq!(pool.failures(), vec![(1, 4), (0, 5)]);
}

#[test]
fn an_empty_queue_is_done_at_once() {
    let pool = Pool::new(Vec::new(), 6);
    assert_eq!(pool.total(), 0);
    assert_eq!(pool.next_action(), Action::Done);
}
