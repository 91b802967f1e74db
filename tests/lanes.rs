use multi_stack_queue::{MSQError, MultiStackQueue};

fn filled_lane_zero() -> MultiStackQueue<u32, 4, 2> {
    let mut q: MultiStackQueue<u32, 4, 2> = MultiStackQueue::new();
    for v in [10, 20, 30, 40] {
        assert_eq!(q.push(0, v), Ok(()));
    }
    q
}

#[test]
fn four_pushes_fill_the_lane() {
    let q = filled_lane_zero();
    assert!(q.is_full(0));
    assert!(!q.is_empty(0));
}

#[test]
fn fifth_push_is_refused_and_lane_kept() {
    let mut q = filled_lane_zero();
    assert_eq!(q.push(0, 50), Err(MSQError::QueueFull));
    assert!(q.is_full(0));
    assert_eq!(q.pop(0), Ok(10));
    assert_eq!(q.pop(0), Ok(20));
    assert_eq!(q.pop(0), Ok(30));
    assert_eq!(q.pop(0), Ok(40));
}

#[test]
fn four_pops_return_in_order_then_empty() {
    let mut q = filled_lane_zero();
    assert_eq!(q.pop(0), Ok(10));
    assert_eq!(q.pop(0), Ok(20));
    assert_eq!(q.pop(0), Ok(30));
    assert!(!q.is_empty(0));
    assert_eq!(q.pop(0), Ok(40));
    assert!(q.is_empty(0));
    assert!(!q.is_full(0));
}

#[test]
fn fifth_pop_reports_empty() {
    let mut q = filled_lane_zero();
    for _ in 0..4 {
        q.pop(0).unwrap();
    }
    assert_eq!(q.pop(0), Err(MSQError::QueueEmpty));
    assert!(q.is_empty(0));
}

#[test]
fn lane_id_at_count_is_out_of_bounds() {
    let mut q: MultiStackQueue<u32, 4, 2> = MultiStackQueue::new();
    assert_eq!(q.push(2, 1), Err(MSQError::QueueIndexOutOfBounds));
    assert_eq!(q.pop(2), Err(MSQError::QueueIndexOutOfBounds));
    assert_eq!(q.push(usize::MAX, 1), Err(MSQError::QueueIndexOutOfBounds));
    assert_eq!(q.pop(7), Err(MSQError::QueueIndexOutOfBounds));
    assert!(q.is_empty(0));
    assert!(q.is_empty(1));
}

#[test]
fn lanes_do_not_interact() {
    let mut q = filled_lane_zero();
    assert!(q.is_empty(1));
    assert_eq!(q.push(1, 7), Ok(()));
    assert!(q.is_full(0));
    assert_eq!(q.pop(1), Ok(7));
    assert!(q.is_empty(1));
    assert_eq!(q.pop(0), Ok(10));
    assert_eq!(q.pop(1), Err(MSQError::QueueEmpty));
}

#[test]
fn fresh_lanes_are_empty_and_not_full() {
    let q: MultiStackQueue<u8, 3, 5> = MultiStackQueue::new();
    for id in 0..5 {
        assert!(q.is_empty(id));
        assert!(!q.is_full(id));
    }
}

#[test]
fn one_slot_lane_is_full_after_one_push() {
    let mut q: MultiStackQueue<u8, 1, 1> = MultiStackQueue::new();
    assert_eq!(q.push(0, 9), Ok(()));
    assert!(q.is_full(0));
    assert!(!q.is_empty(0));
    assert_eq!(q.push(0, 8), Err(MSQError::QueueFull));
    assert_eq!(q.pop(0), Ok(9));
    assert!(q.is_empty(0));
    assert!(!q.is_full(0));
}

#[test]
fn refill_after_drain_keeps_capacity() {
    let mut q = filled_lane_zero();
    for _ in 0..4 {
        q.pop(0).unwrap();
    }
    assert!(q.is_empty(0));
    for v in [1, 2, 3, 4] {
        assert_eq!(q.push(0, v), Ok(()));
    }
    assert!(q.is_full(0));
    assert_eq!(q.push(0, 5), Err(MSQError::QueueFull));
    for v in [1, 2, 3, 4] {
        assert_eq!(q.pop(0), Ok(v));
    }
}

#[test]
fn order_kept_across_wraparound() {
    let mut q: MultiStackQueue<u32, 4, 2> = MultiStackQueue::new();
    for v in [1, 2, 3] {
        q.push(1, v).unwrap();
    }
    assert_eq!(q.pop(1), Ok(1));
    assert_eq!(q.pop(1), Ok(2));
    for v in [4, 5, 6] {
        q.push(1, v).unwrap();
    }
    assert!(q.is_full(1));
    assert_eq!(q.push(1, 7), Err(MSQError::QueueFull));
    for v in [3, 4, 5, 6] {
        assert_eq!(q.pop(1), Ok(v));
    }
    assert!(q.is_empty(1));
}

#[test]
fn error_variants_are_distinct() {
    assert_ne!(MSQError::QueueFull, MSQError::QueueEmpty);
    assert_ne!(MSQError::QueueEmpty, MSQError::QueueIndexOutOfBounds);
    assert_ne!(MSQError::UnknownError, MSQError::QueueFull);
}
