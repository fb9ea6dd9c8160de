use stable_jobqueue::BlockingQueue;

#[test]
fn test_1() {
    let mut bq: BlockingQueue<u64> = BlockingQueue::new();
    bq.push(123);
    bq.push(456);
    bq.push(789);
    assert_eq!(bq.pop(), 123);
    assert_eq!(bq.pop(), 456);
    assert_eq!(bq.pop(), 789);
}

#[test]
fn fifo_holds_across_interleaved_pushes_and_pops() {
    let mut bq: BlockingQueue<u64> = BlockingQueue::new();
    bq.push(1);
    bq.push(2);
    assert_eq!(bq.pop(), 1);
    bq.push(3);
    assert_eq!(bq.pop(), 2);
    assert_eq!(bq.pop(), 3);
}

#[test]
fn len_counts_queued_elements() {
    let mut bq: BlockingQueue<u64> = BlockingQueue::new();
    assert_eq!(bq.len(), 0);
    bq.push(5);
    bq.push(6);
    assert_eq!(bq.len(), 2);
    assert_eq!(bq.pop(), 5);
    assert_eq!(bq.len(), 1);
}

#[test]
fn string_elements_pass_through_unchanged() {
    let mut bq: BlockingQueue<String> = BlockingQueue::new();
    bq.push(String::from("first"));
    bq.push(String::from("second"));
    assert_eq!(bq.pop(), "first");
    assert_eq!(bq.pop(), "second");
}
