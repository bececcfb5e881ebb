use web_server::pool::{Job, Pool};

#[test]
fn grow_and_shrink_report_counts() {
    let mut p: Pool<u32> = Pool::new(4);
    assert_eq!(p.grow(10), "Now at 14/256 threads");
    assert_eq!(p.size(), 14);
    assert_eq!(p.grow(1000), "Now at 256/256 threads");
    assert_eq!(p.size(), 256);
    assert_eq!(p.shrink(300), "Now at 1/256 threads");
    assert_eq!(p.size(), 1);
    assert_eq!(p.shrink(300), "Now at 1/256 threads");
    assert_eq!(p.size(), 1);
}

#[test]
fn new_caps_at_ceiling() {
    let p: Pool<u32> = Pool::new(1000);
    assert_eq!(p.size(), 256);
}

#[test]
fn shrink_queues_one_shutdown_per_worker() {
    let mut p: Pool<u32> = Pool::new(5);
    assert_eq!(p.shrink(2), "Now at 3/256 threads");
    let mut n = 0;
    while let Some(job) = p.next_job() {
        assert!(matches!(job, Job::Shutdown));
        n += 1;
    }
    assert_eq!(n, 2);
}

#[test]
fn jobs_come_out_in_order() {
    let mut p: Pool<u32> = Pool::new(2);
    p.exec(1);
    p.exec(2);
    p.shrink(1);
    p.exec(3);
    assert!(matches!(p.next_job(), Some(Job::Execute(1))));
    assert!(matches!(p.next_job(), Some(Job::Execute(2))));
    assert!(matches!(p.next_job(), Some(Job::Shutdown)));
    assert!(matches!(p.next_job(), Some(Job::Execute(3))));
    assert!(p.next_job().is_none());
}

#[test]
fn job_constructors() {
    assert!(matches!(Job::new(5u32), Job::Execute(5)));
    assert!(matches!(Job::<u32>::shrink(), Job::Shutdown));
}
