use stable_jobqueue::jobqueue::StableJobResultQueue;

#[test]
fn results_follow_push_order_despite_commit_order() {
    let mut q: StableJobResultQueue<u64, u64> = StableJobResultQueue::new();

    q.push_job(1);
    q.push_job(2);
    q.push_job(3);

    let h1 = q.pop_jobhandler();
    let h2 = q.pop_jobhandler();
    let h3 = q.pop_jobhandler();

    // workers finish in the opposite of submission order
    let j3 = h3.job;
    h3.commit(&mut q, j3 * 10);
    let j1 = h1.job;
    h1.commit(&mut q, j1 * 10);
    let j2 = h2.job;
    h2.commit(&mut q, j2 * 10);

    assert_eq!(q.pop_result(), 10);
    assert_eq!(q.pop_result(), 20);
    assert_eq!(q.pop_result(), 30);
}

#[test]
fn handles_come_out_in_submission_order() {
    let mut q: StableJobResultQueue<u64, u64> = StableJobResultQueue::new();
    q.push_job(11);
    q.push_job(22);
    q.push_job(33);
    assert_eq!(q.pop_jobhandler().job, 11);
    assert_eq!(q.pop_jobhandler().job, 22);
    assert_eq!(q.pop_jobhandler().job, 33);
}

#[test]
fn commit_for_later_position_does_not_satisfy_earlier_waiter() {
    let mut q: StableJobResultQueue<u64, u64> = StableJobResultQueue::new();
    q.push_job(7);
    q.push_job(8);
    let h1 = q.pop_jobhandler();
    let h2 = q.pop_jobhandler();

    // only the second job's result is in: the next expected result (the
    // first) is still missing, so a consumer would still wait
    h2.commit(&mut q, 800);
    assert!(!q.has_next_result());

    // the matching commit, and only it, readies the next result
    h1.commit(&mut q, 700);
    assert!(q.has_next_result());
    assert_eq!(q.pop_result(), 700);
    assert_eq!(q.pop_result(), 800);
}

#[test]
fn consumption_can_interleave_with_submission() {
    let mut q: StableJobResultQueue<u64, u64> = StableJobResultQueue::new();
    q.push_job(1);
    let h1 = q.pop_jobhandler();
    h1.commit(&mut q, 100);
    assert_eq!(q.pop_result(), 100);

    q.push_job(2);
    q.push_job(3);
    let h2 = q.pop_jobhandler();
    let h3 = q.pop_jobhandler();
    h3.commit(&mut q, 300);
    h2.commit(&mut q, 200);
    assert_eq!(q.pop_result(), 200);
    assert_eq!(q.pop_result(), 300);
}

#[test]
fn batches_reproduce_submission_order_every_time() {
    // a batch of jobs with payload i * 2, each committed as payload * 10
    // in scrambled order; consumption must yield i * 2 * 10 in increasing
    // i order, batch after batch
    let batch_size: u32 = 50;
    let mut q: StableJobResultQueue<u32, u32> = StableJobResultQueue::new();
    for _batch in 0..3 {
        for i in 0..batch_size {
            q.push_job(i * 2);
        }
        let mut handles = Vec::new();
        for _i in 0..batch_size {
            handles.push(q.pop_jobhandler());
        }
        // commit in reverse order, as if the earliest job finished last
        while let Some(h) = handles.pop() {
            let payload = h.job;
            h.commit(&mut q, payload * 10);
        }
        for i in 0..batch_size {
            assert_eq!(q.pop_result(), i * 2 * 10);
        }
    }
}

#[test]
fn counts_track_submissions_and_consumptions() {
    let mut q: StableJobResultQueue<u64, u64> = StableJobResultQueue::new();
    assert_eq!(q.job_count(), 0);
    assert_eq!(q.result_count(), 0);
    assert!(!q.has_pending_job());
    assert!(!q.has_next_result());

    q.push_job(5);
    q.push_job(6);
    assert_eq!(q.job_count(), 2);
    assert!(q.has_pending_job());

    let h = q.pop_jobhandler();
    assert!(q.has_pending_job());
    let h2 = q.pop_jobhandler();
    assert!(!q.has_pending_job());

    h.commit(&mut q, 50);
    assert!(q.has_next_result());
    assert_eq!(q.pop_result(), 50);
    assert_eq!(q.result_count(), 1);
    assert!(!q.has_next_result());

    h2.commit(&mut q, 60);
    assert_eq!(q.pop_result(), 60);
    assert_eq!(q.result_count(), 2);
}

#[test]
fn string_jobs_and_results_keep_their_order() {
    let mut q: StableJobResultQueue<String, String> = StableJobResultQueue::new();
    q.push_job(String::from("alpha"));
    q.push_job(String::from("beta"));
    let h1 = q.pop_jobhandler();
    let h2 = q.pop_jobhandler();
    let mut second = h2.job.clone();
    second.push_str("!");
    h2.commit(&mut q, second);
    let mut first = h1.job.clone();
    first.push_str("!");
    h1.commit(&mut q, first);
    assert_eq!(q.pop_result(), "alpha!");
    assert_eq!(q.pop_result(), "beta!");
}
