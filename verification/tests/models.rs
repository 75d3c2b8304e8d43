use forgesim::models::{Gpu, Job, JobState, MigSlice};

#[test]
fn mig_slices_needed_defaults_to_one() {
    let mut job = Job::new("j1", "infer", 0, 10, 8);
    job.mig_profile = Some("1g.10gb".into());
    assert_eq!(job.mig_slices_needed(), 1);
}

#[test]
fn mig_slices_needed_uses_count() {
    let mut job = Job::new("j1", "infer", 0, 10, 8);
    job.mig_profile = Some("1g.10gb".into());
    job.mig_count = Some(3);
    assert_eq!(job.mig_slices_needed(), 3);
}

#[test]
fn non_mig_job_uses_gpu_count() {
    let job = Job::new("j1", "train", 0, 100, 4);
    assert!(!job.is_mig_job());
    assert_eq!(job.mig_slices_needed(), 4);
}

#[test]
fn wait_time_is_zero_before_start() {
    let job = Job::new("j1", "a", 5, 10, 1);
    assert_eq!(job.wait_time(), 0);
}

#[test]
fn mig_count_zero_still_needs_one_slice() {
    let mut job = Job::new("j1", "infer", 0, 10, 8);
    job.mig_profile = Some("1g.10gb".into());
    job.mig_count = Some(0);
    assert_eq!(job.mig_slices_needed(), 1);
    assert_eq!(job.mig_profile_name(), Some("1g.10gb"));
}

#[test]
fn wait_time_counts_from_arrival_to_start() {
    let mut job = Job::new("j1", "a", 5, 10, 1);
    job.start_time = Some(12);
    assert_eq!(job.wait_time(), 7);
    job.start_time = Some(3);
    assert_eq!(job.wait_time(), 0);
}

#[test]
fn new_job_is_pending_and_unplaced() {
    let job = Job::new("j1", "a", 5, 10, 2);
    assert_eq!(job.state, JobState::Pending);
    assert!(job.assigned_gpus.is_empty());
    assert_eq!(job.start_time, None);
    let copy = job.duplicate();
    assert_eq!(copy.id, "j1");
    assert_eq!(copy.gpu_count, 2);
}

#[test]
fn gpu_freeness_tracks_jobs_and_slices() {
    let mut gpu = Gpu::new("g0", "n0", "H100", 80);
    assert!(gpu.is_free());
    assert!(gpu.is_whole_gpu_free());
    assert!(gpu.is_fully_idle());
    gpu.slices.push(MigSlice { id: "g0-mig-0".into(), profile: "1g.10gb".into(), memory_gb: 10, running_job_id: None });
    gpu.slices.push(MigSlice { id: "g0-mig-1".into(), profile: "1g.10gb".into(), memory_gb: 10, running_job_id: Some("j".into()) });
    assert!(!gpu.is_free());
    assert!(!gpu.is_fully_idle());
    assert_eq!(gpu.free_mig_slice_count("1g.10gb"), 1);
    assert_eq!(gpu.free_mig_slice_count("2g.20gb"), 0);
    assert!(gpu.slices[0].is_free());
}
