use forgesim::cluster::Cluster;
use forgesim::models::{Gpu, Job, Node};
use forgesim::snapshot::{job_wait_proxy, obs_size, ClusterSnapshot, DEFAULT_OBS_TOP_K};

#[test]
fn obs_size_counts_cluster_and_job_features() {
    assert_eq!(obs_size(DEFAULT_OBS_TOP_K), 53);
    assert_eq!(obs_size(0), 5);
}

#[test]
fn wait_proxy_is_zero_before_arrival() {
    let job = Job::new("j", "j", 10, 5, 1);
    assert_eq!(job_wait_proxy(&job, 4), 0);
    assert_eq!(job_wait_proxy(&job, 15), 5);
}

#[test]
fn snapshot_lists_first_waiting_jobs() {
    let mut cluster = Cluster::new(vec![Node { id: "n0".into(), gpus: vec![Gpu::new("g0", "n0", "H100", 80)] }]);
    cluster.clock = 20;
    cluster.enqueue_job(Job::new("a", "a", 5, 10, 1));
    cluster.enqueue_job(Job::new("b", "b", 8, 30, 2));
    cluster.enqueue_job(Job::new("c", "c", 9, 30, 2));
    let snap = ClusterSnapshot::from_cluster(&cluster, 2, &[true]);
    assert_eq!(snap.clock, 20);
    assert_eq!(snap.free_gpus, 1);
    assert_eq!(snap.waiting, 3);
    assert_eq!(snap.top_jobs.len(), 2);
    assert!(snap.top_jobs[0].placeable);
    assert!(!snap.top_jobs[1].placeable);
    assert_eq!(snap.top_jobs[1].wait_proxy, 12);
    let features = snap.feature_values();
    assert_eq!(features.len(), obs_size(2));
    assert_eq!(&features[..5], &[20, 1, 3, 0, 0]);
    assert_eq!(&features[5..11], &[5, 10, 1, 0, 15, 1]);
    assert_eq!(&features[11..17], &[8, 30, 2, 0, 12, 0]);
}
