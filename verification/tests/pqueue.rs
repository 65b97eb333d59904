use sisyphus::pqueue::{PriorityQueue, NUM_BUCKETS};

#[test]
fn test_push_pop_single() {
    let mut pq = PriorityQueue::new();
    pq.push(10, "hello");
    assert_eq!(pq.pop_min(), Some("hello"));
    assert_eq!(pq.pop_min(), None);
}

#[test]
fn test_push_pop_ordered() {
    let mut pq = PriorityQueue::new();
    pq.push(10, "low");
    pq.push(5, "lower");
    pq.push(15, "high");

    assert_eq!(pq.pop_min(), Some("lower"));
    assert_eq!(pq.pop_min(), Some("low"));
    assert_eq!(pq.pop_min(), Some("high"));
    assert_eq!(pq.pop_min(), None);
}

#[test]
fn test_push_pop_same_priority() {
    let mut pq = PriorityQueue::new();
    pq.push(10, "first");
    pq.push(10, "second");
    pq.push(10, "third");

    assert_eq!(pq.pop_min(), Some("first"));
    assert_eq!(pq.pop_min(), Some("second"));
    assert_eq!(pq.pop_min(), Some("third"));
    assert_eq!(pq.pop_min(), None);
}

#[test]
fn test_push_pop_mixed() {
    let mut pq = PriorityQueue::new();
    pq.push(100, "a");
    pq.push(50, "b");
    assert_eq!(pq.pop_min(), Some("b"));
    pq.push(25, "c");
    pq.push(75, "d");
    assert_eq!(pq.pop_min(), Some("c"));
    assert_eq!(pq.pop_min(), Some("d"));
    assert_eq!(pq.pop_min(), Some("a"));
}

#[test]
fn test_boundary_priorities() {
    let mut pq = PriorityQueue::new();
    pq.push(0, "min");
    pq.push(NUM_BUCKETS - 1, "max");
    pq.push(2000, "mid");

    assert_eq!(pq.pop_min(), Some("min"));
    assert_eq!(pq.pop_min(), Some("mid"));
    assert_eq!(pq.pop_min(), Some("max"));
}

#[test]
fn test_empty_queue() {
    let mut pq: PriorityQueue<i32> = PriorityQueue::new();
    assert_eq!(pq.pop_min(), None);
}

#[test]
fn test_bitmap_word_boundaries() {
    let mut pq = PriorityQueue::new();
    // Test across word boundaries (each word is 64 buckets)
    pq.push(63, "word0_last");
    pq.push(64, "word1_first");
    pq.push(128, "word2_first");
    pq.push(0, "word0_first");

    assert_eq!(pq.pop_min(), Some("word0_first"));
    assert_eq!(pq.pop_min(), Some("word0_last"));
    assert_eq!(pq.pop_min(), Some("word1_first"));
    assert_eq!(pq.pop_min(), Some("word2_first"));
}

#[test]
fn pqueue_default_is_empty_and_single_push_pops_first() {
    let mut pq: PriorityQueue<u32> = PriorityQueue::default();
    assert_eq!(pq.pop_min(), None);
    pq.push(4000, 7);
    assert_eq!(pq.pop_min(), Some(7));
    assert_eq!(pq.pop_min(), None);
}
