use deadlock_detect::ResourceList;

fn domain(available: Vec<i32>, allocation: Vec<Vec<usize>>, need: Vec<Vec<usize>>) -> ResourceList {
    ResourceList { available, allocation, need }
}

fn units(d: &ResourceList, r: usize) -> i64 {
    let held: usize = d.allocation.iter().map(|row| row.get(r).copied().unwrap_or(0)).sum();
    d.available.get(r).copied().unwrap_or(0) as i64 + held as i64
}

#[test]
fn new_is_empty() {
    let d = ResourceList::new();
    assert!(d.available.is_empty());
    assert!(d.allocation.is_empty());
    assert!(d.need.is_empty());
}

#[test]
fn init_size_pads_with_zeros() {
    let mut d = ResourceList::new();
    d.init_size(4, 3);
    assert_eq!(d.available, vec![0, 0, 0, 4]);
    d.init_size(2, 1);
    assert_eq!(d.available, vec![0, 2, 0, 4]);
    d.init_size(7, 3);
    assert_eq!(d.available, vec![0, 2, 0, 7]);
    assert!(d.allocation.is_empty());
    assert!(d.need.is_empty());
}

#[test]
fn is_enough_compares_free_units() {
    let mut d = ResourceList::new();
    d.init_size(2, 0);
    assert!(d.is_enough(0, 0));
    assert!(d.is_enough(0, 2));
    assert!(!d.is_enough(0, 3));
    let n = domain(vec![-1], vec![], vec![]);
    assert!(!n.is_enough(0, 0));
}

#[test]
fn check_records_request_and_grows_rows() {
    let mut d = ResourceList::new();
    d.init_size(1, 0);
    d.init_size(1, 1);
    let unsafe_ = d.is_dead_lock(2, 1, 1, vec![false, false, false]);
    assert!(!unsafe_);
    assert_eq!(d.need, vec![vec![], vec![], vec![0, 1]]);
    // A second request of another task leaves the first one in place.
    d.is_dead_lock(0, 0, 1, vec![false, false, false]);
    assert_eq!(d.need, vec![vec![1], vec![], vec![0, 1]]);
    // A new request overwrites, not accumulates.
    d.is_dead_lock(2, 1, 1, vec![false, false, false]);
    assert_eq!(d.need, vec![vec![1], vec![], vec![0, 1]]);
    assert_eq!(d.available, vec![1, 1]);
    assert!(d.allocation.is_empty());
}

#[test]
fn grant_moves_units_and_clears_request() {
    let mut d = ResourceList::new();
    d.init_size(3, 1);
    assert!(!d.is_dead_lock(2, 1, 2, vec![false, false, false]));
    d.grant(2, 1, 2);
    assert_eq!(d.available, vec![0, 1]);
    assert_eq!(d.allocation, vec![vec![], vec![], vec![0, 2]]);
    assert_eq!(d.need, vec![vec![], vec![], vec![0, 0]]);
    assert_eq!(units(&d, 1), 3);
}

#[test]
fn release_returns_units() {
    let mut d = ResourceList::new();
    d.init_size(3, 1);
    d.is_dead_lock(0, 1, 2, vec![false]);
    d.grant(2, 1, 0);
    d.release(1, 1, 0);
    assert_eq!(d.available, vec![0, 2]);
    assert_eq!(d.allocation, vec![vec![0, 1]]);
    assert_eq!(units(&d, 1), 3);
    d.release(1, 1, 0);
    assert_eq!(d.available, vec![0, 3]);
    assert_eq!(d.allocation, vec![vec![0, 0]]);
}

#[test]
fn conservation_over_a_call_sequence() {
    let mut d = ResourceList::new();
    d.init_size(2, 0);
    d.init_size(3, 1);
    let caps = [2i64, 3];
    assert!(!d.is_dead_lock(1, 1, 2, vec![true, false]));
    d.grant(2, 1, 1);
    assert!(!d.is_dead_lock(0, 0, 1, vec![false, false]));
    d.grant(1, 0, 0);
    assert!(!d.is_dead_lock(0, 1, 1, vec![false, false]));
    d.grant(1, 1, 0);
    for r in 0..2 {
        assert_eq!(units(&d, r), caps[r]);
    }
    d.release(1, 2, 1);
    d.release(0, 1, 0);
    for r in 0..2 {
        assert_eq!(units(&d, r), caps[r]);
    }
    assert_eq!(d.available, vec![2, 2]);
}

#[test]
fn immediate_availability_is_safe() {
    // Every other task is blocked, but the request itself is covered.
    let mut d = domain(vec![0, 1], vec![vec![1, 0], vec![0, 0]], vec![vec![0, 5], vec![9, 9]]);
    assert!(!d.is_dead_lock(0, 1, 1, vec![false, false]));
    assert_eq!(d.need[0], vec![0, 1]);
}

#[test]
fn all_finished_is_safe() {
    let mut d = domain(vec![0, 0], vec![vec![1, 0], vec![0, 1]], vec![vec![0, 1], vec![1, 0]]);
    assert!(!d.is_dead_lock(0, 1, 1, vec![true, true]));
    let mut e = domain(vec![0, 0], vec![vec![1, 0], vec![0, 1]], vec![vec![0, 1], vec![1, 0]]);
    assert!(!e.is_dead_lock(0, 1, 1, vec![]));
}

#[test]
fn resource_zero_is_exempt_for_other_tasks() {
    let mut d = domain(vec![0, 0], vec![vec![1, 0], vec![0, 1]], vec![vec![0, 1], vec![1, 0]]);
    assert!(!d.is_dead_lock(1, 0, 1, vec![false, false]));
    assert_eq!(d.need[1], vec![1, 0]);
}

#[test]
fn circular_wait_is_unsafe() {
    // Task 0 holds resource 0 and wants 1; task 1 holds 1 and wants 0.
    let mut d = domain(vec![0, 0], vec![vec![1, 0], vec![0, 1]], vec![vec![0, 0], vec![1, 0]]);
    assert!(d.is_dead_lock(0, 1, 1, vec![false, false]));
    assert_eq!(d.need, vec![vec![0, 1], vec![1, 0]]);
    assert_eq!(d.available, vec![0, 0]);
}

#[test]
fn safe_after_release() {
    let mut d = domain(vec![0, 0], vec![vec![1, 0], vec![0, 1]], vec![vec![0, 0], vec![1, 0]]);
    assert!(d.is_dead_lock(0, 1, 1, vec![false, false]));
    d.release(0, 1, 0);
    assert_eq!(d.available, vec![1, 0]);
    assert!(!d.is_dead_lock(1, 0, 1, vec![false, false]));
    assert!(!d.is_dead_lock(0, 1, 1, vec![false, false]));
}

#[test]
fn search_finds_an_order() {
    // Resource 1 is exhausted; task 1 can finish with nothing more and frees
    // it, after which task 0 can finish too.
    let mut d = domain(vec![0, 0], vec![vec![0, 0], vec![0, 1]], vec![vec![0, 0], vec![0, 0]]);
    assert!(!d.is_dead_lock(0, 1, 1, vec![false, false]));
}

#[test]
fn search_needs_several_passes() {
    // Task 0 waits on what task 1 holds; task 1 can finish at once. The first
    // pass finishes task 1 only, the second task 0.
    let mut d = domain(
        vec![0, 0, 0],
        vec![vec![0, 0, 0], vec![0, 0, 2]],
        vec![vec![0, 0, 0], vec![0, 0, 0]],
    );
    assert!(!d.is_dead_lock(0, 2, 2, vec![false, false]));
}

#[test]
fn search_ignores_tasks_without_a_flag() {
    // Task 2 cannot finish, but the flags cover only tasks 0 and 1.
    let mut d = domain(
        vec![0, 0],
        vec![vec![0, 0], vec![0, 0], vec![0, 1]],
        vec![vec![0, 0], vec![0, 0], vec![0, 0]],
    );
    assert!(!d.is_dead_lock(2, 1, 1, vec![false, false]));
    // With a flag for task 2 the wait is circular.
    assert!(d.is_dead_lock(2, 1, 1, vec![false, false, false]));
}

#[test]
fn finished_tasks_give_back_nothing() {
    // Task 1 holds resource 1 but is already marked finished before the
    // search, so its units are never added back.
    let mut d = domain(vec![0, 0], vec![vec![0, 0], vec![0, 1]], vec![vec![0, 0], vec![0, 0]]);
    assert!(d.is_dead_lock(0, 1, 1, vec![false, true]));
}

#[test]
fn missing_allocation_row_reads_as_zero() {
    // Task 1 has a request row but never held anything.
    let mut d = domain(vec![0, 0], vec![vec![0, 1]], vec![vec![0, 0], vec![0, 0]]);
    assert!(!d.is_dead_lock(1, 1, 1, vec![false, false]));
}

#[test]
fn growth_keeps_other_entries() {
    let mut d = ResourceList::new();
    d.init_size(5, 2);
    d.is_dead_lock(1, 2, 3, vec![false, false]);
    d.grant(3, 2, 1);
    assert_eq!(d.allocation, vec![vec![], vec![0, 0, 3]]);
    d.is_dead_lock(3, 1, 0, vec![false, false, false, false]);
    assert_eq!(d.need, vec![vec![], vec![0, 0, 0], vec![], vec![0, 0]]);
    d.init_size(1, 4);
    d.is_dead_lock(1, 4, 1, vec![false, false, false, false]);
    d.grant(1, 4, 1);
    assert_eq!(d.allocation, vec![vec![], vec![0, 0, 3, 0, 1]]);
    assert_eq!(d.available, vec![0, 0, 2, 0, 0]);
}
