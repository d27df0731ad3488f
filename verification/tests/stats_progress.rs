use raytracer::stats::{compute_frame_progress, create_new_frame, StatsData};

#[test]
fn new_frame_starts_clean() {
    let frame = create_new_frame(42, 4, 1_000_000);
    assert_eq!(frame.start_time_micros, 1_000_000);
    assert_eq!(frame.end_time_micros, None);
    assert_eq!(frame.samples_per_pixel, 4);
    assert_eq!(frame.chunks.total_chunks, 42);
    assert_eq!(frame.chunks.completed_chunks, 0);
    assert_eq!(frame.rays.total_rays, 0);
}

#[test]
fn record_transitions() {
    let mut data = StatsData::new(4, 0);
    assert_eq!(data.frames.total_frames, 4);
    assert_eq!(data.frames.completed_frames, 0);

    data.start_current_frame(10, 16, 500);
    assert_eq!(data.current_frame.start_time_micros, 500);
    assert_eq!(data.current_frame.chunks.total_chunks, 10);

    data.complete_chunk();
    data.complete_chunk();
    data.create_ray();
    data.create_ray();
    data.create_ray();
    assert_eq!(data.current_frame.chunks.completed_chunks, 2);
    assert_eq!(data.current_frame.rays.total_rays, 3);

    data.complete_frame(900);
    assert_eq!(data.current_frame.end_time_micros, Some(900));
    assert_eq!(data.frames.completed_frames, 1);
    // the chunk and ray counters survive the end of the frame
    assert_eq!(data.current_frame.chunks.completed_chunks, 2);
    assert_eq!(data.current_frame.rays.total_rays, 3);
}

#[test]
fn progress_numbers_for_running_frame() {
    let mut frame = create_new_frame(10, 1, 0);
    frame.chunks.completed_chunks = 4;
    frame.rays.total_rays = 100;
    let p = compute_frame_progress(&frame, 2_000_000);
    assert_eq!(p.elapsed_micros, 2_000_000);
    assert_eq!(p.progress_permyriad, 4_000); // 40.00 %
    assert_eq!(p.per_chunk_micros, 500_000);
    assert_eq!(p.remaining_micros, 3_000_000); // six chunks left at half a second each
    assert_eq!(p.rays_per_second, 50);
}

#[test]
fn progress_numbers_use_recorded_end() {
    let mut frame = create_new_frame(8, 1, 1_000);
    frame.chunks.completed_chunks = 8;
    frame.end_time_micros = Some(401_000);
    let p = compute_frame_progress(&frame, 99_000_000);
    assert_eq!(p.elapsed_micros, 400_000);
    assert_eq!(p.progress_permyriad, 10_000); // 100.00 %
    assert_eq!(p.per_chunk_micros, 50_000);
    assert_eq!(p.remaining_micros, 0);
}

#[test]
fn progress_guards_against_empty_counters() {
    let frame = create_new_frame(0, 1, 0);
    let p = compute_frame_progress(&frame, 10);
    assert_eq!(p.progress_permyriad, 0);
    assert_eq!(p.per_chunk_micros, 10); // divided by max(completed, 1)
    assert_eq!(p.rays_per_second, 0);
}
