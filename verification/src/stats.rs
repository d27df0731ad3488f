//! Progress accounting for the render.
//!
//! Workers report finished chunks and traced rays into a shared record; a
//! background task periodically snapshots it and turns it into the numbers
//! of the text overlay.  The record transitions and the derived numbers are
//! verified here; reading the clock, locking, formatting and the periodic
//! loop stay outside, and hand in times as microseconds since the start of
//! the run.

use vstd::prelude::*;

verus! {

/// Chunk bookkeeping for the frame being rendered.
#[derive(Clone, Copy, Debug, PartialEq, Eq, Structural)]
pub struct ChunksData {
    pub total_chunks: u32,
    pub completed_chunks: u32,
}

/// Ray bookkeeping for the frame being rendered.
#[derive(Clone, Copy, Debug, PartialEq, Eq, Structural)]
pub struct RaysData {
    pub total_rays: u64,
}

/// Everything recorded about the frame being rendered.
#[derive(Clone, Copy, Debug, PartialEq, Eq, Structural)]
pub struct FrameData {
    pub start_time_micros: u64,
    pub end_time_micros: Option<u64>,
    pub samples_per_pixel: u32,
    pub chunks: ChunksData,
    pub rays: RaysData,
}

/// Frame counters across the whole run.
#[derive(Clone, Copy, Debug, PartialEq, Eq, Structural)]
pub struct FramesData {
    pub total_frames: u32,
    pub completed_frames: u32,
}

/// The shared progress record; the unverified shell guards it with a lock
/// and calls the transitions below while holding it.
#[derive(Clone, Copy, Debug, PartialEq, Eq, Structural)]
pub struct StatsData {
    pub current_frame: FrameData,
    pub frames: FramesData,
}

/// A fresh frame record: started now, nothing completed yet.
pub fn create_new_frame(total_chunks: u32, samples_per_pixel: u32, now_micros: u64) -> (frame:
    FrameData)
    ensures
        frame == (FrameData {
            start_time_micros: now_micros,
            end_time_micros: None,
            samples_per_pixel,
            chunks: ChunksData { total_chunks, completed_chunks: 0 },
            rays: RaysData { total_rays: 0 },
        }),
{
    FrameData {
        start_time_micros: now_micros,
        end_time_micros: None,
        samples_per_pixel,
        chunks: ChunksData { total_chunks, completed_chunks: 0 },
        rays: RaysData { total_rays: 0 },
    }
}

impl StatsData {
    /// The record a run starts with: an empty frame and no frame finished.
    pub fn new(total_frames: u32, now_micros: u64) -> (data: StatsData)
        ensures
            data.current_frame == (FrameData {
                start_time_micros: now_micros,
                end_time_micros: None,
                samples_per_pixel: 0,
                chunks: ChunksData { total_chunks: 0, completed_chunks: 0 },
                rays: RaysData { total_rays: 0 },
            }),
            data.frames == (FramesData { total_frames, completed_frames: 0 }),
    {
        StatsData {
            current_frame: create_new_frame(0, 0, now_micros),
            frames: FramesData { total_frames, completed_frames: 0 },
        }
    }

    /// One more chunk of the current frame is done; nothing else moves.
    pub fn complete_chunk(&mut self)
        requires
            old(self).current_frame.chunks.completed_chunks < u32::MAX,
        ensures
            final(self).current_frame.chunks.completed_chunks == old(
                self,
            ).current_frame.chunks.completed_chunks + 1,
            final(self).current_frame.chunks.total_chunks == old(
                self,
            ).current_frame.chunks.total_chunks,
            final(self).current_frame.rays == old(self).current_frame.rays,
            final(self).current_frame.start_time_micros == old(
                self,
            ).current_frame.start_time_micros,
            final(self).current_frame.end_time_micros == old(self).current_frame.end_time_micros,
            final(self).current_frame.samples_per_pixel == old(
                self,
            ).current_frame.samples_per_pixel,
            final(self).frames == old(self).frames,
    {
        self.current_frame.chunks.completed_chunks = self.current_frame.chunks.completed_chunks
            + 1;
    }

    /// One more ray was traced in the current frame; nothing else moves.
    pub fn create_ray(&mut self)
        requires
            old(self).current_frame.rays.total_rays < u64::MAX,
        ensures
            final(self).current_frame.rays.total_rays == old(
                self,
            ).current_frame.rays.total_rays + 1,
            final(self).current_frame.chunks == old(self).current_frame.chunks,
            final(self).current_frame.start_time_micros == old(
                self,
            ).current_frame.start_time_micros,
            final(self).current_frame.end_time_micros == old(self).current_frame.end_time_micros,
            final(self).current_frame.samples_per_pixel == old(
                self,
            ).current_frame.samples_per_pixel,
            final(self).frames == old(self).frames,
    {
        self.current_frame.rays.total_rays = self.current_frame.rays.total_rays + 1;
    }

    /// A new frame begins: the frame record is replaced wholesale.
    pub fn start_current_frame(&mut self, total_chunks: u32, samples_per_pixel: u32, now_micros: u64)
        ensures
            final(self).current_frame == (FrameData {
                start_time_micros: now_micros,
                end_time_micros: None,
                samples_per_pixel,
                chunks: ChunksData { total_chunks, completed_chunks: 0 },
                rays: RaysData { total_rays: 0 },
            }),
            final(self).frames == old(self).frames,
    {
        self.current_frame = create_new_frame(total_chunks, samples_per_pixel, now_micros);
    }

    /// The current frame is finished: its end time is fixed and the frame
    /// counter advances.
    pub fn complete_frame(&mut self, now_micros: u64)
        requires
            old(self).frames.completed_frames < u32::MAX,
        ensures
            final(self).current_frame.end_time_micros == Some(now_micros),
            final(self).current_frame.start_time_micros == old(
                self,
            ).current_frame.start_time_micros,
            final(self).current_frame.chunks == old(self).current_frame.chunks,
            final(self).current_frame.rays == old(self).current_frame.rays,
            final(self).current_frame.samples_per_pixel == old(
                self,
            ).current_frame.samples_per_pixel,
            final(self).frames.completed_frames == old(self).frames.completed_frames + 1,
            final(self).frames.total_frames == old(self).frames.total_frames,
    {
        self.current_frame.end_time_micros = Some(now_micros);
        self.frames.completed_frames = self.frames.completed_frames + 1;
    }
}

/// How long the frame has been running: up to its recorded end, or up to
/// now while it is still going.
pub open spec fn frame_elapsed_micros(frame: FrameData, now_micros: int) -> int {
    match frame.end_time_micros {
        Some(end) => end - frame.start_time_micros,
        None => now_micros - frame.start_time_micros,
    }
}

/// The numbers of the progress overlay, derived from one snapshot of the
/// record.
#[derive(Clone, Copy, Debug, PartialEq, Eq, Structural)]
pub struct FrameProgress {
    pub elapsed_micros: u64,
    pub progress_permyriad: u64,
    pub per_chunk_micros: u64,
    pub remaining_micros: u64,
    pub rays_per_second: u64,
}

/// Derives the overlay numbers from a snapshot of the frame record:
/// elapsed time, completed chunks in hundredths of a percent, the mean
/// time per chunk, the projected remainder (saturated if it will not fit),
/// and the ray throughput.
pub fn compute_frame_progress(frame: &FrameData, now_micros: u64) -> (p: FrameProgress)
    requires
        frame.start_time_micros <= now_micros,
        frame.end_time_micros matches Some(end) ==> frame.start_time_micros <= end,
    ensures
        p.elapsed_micros == frame_elapsed_micros(*frame, now_micros as int),
        p.progress_permyriad == frame.chunks.completed_chunks as int * 10000 / (if frame.chunks.total_chunks
            == 0 {
            1int
        } else {
            frame.chunks.total_chunks as int
        }),
        p.per_chunk_micros == p.elapsed_micros as int / (if frame.chunks.completed_chunks == 0 {
            1int
        } else {
            frame.chunks.completed_chunks as int
        }),
        ({
            let remaining = if frame.chunks.total_chunks >= frame.chunks.completed_chunks {
                frame.chunks.total_chunks - frame.chunks.completed_chunks
            } else {
                0int
            };
            p.remaining_micros == if p.per_chunk_micros as int * remaining <= u64::MAX {
                p.per_chunk_micros as int * remaining
            } else {
                u64::MAX as int
            }
        }),
        p.rays_per_second == frame.rays.total_rays as int / (if p.elapsed_micros as int / 1000000
            == 0 {
            1int
        } else {
            p.elapsed_micros as int / 1000000
        }),
{
    let elapsed_micros: u64 = match frame.end_time_micros {
        Some(end) => end - frame.start_time_micros,
        None => now_micros - frame.start_time_micros,
    };
    let total = frame.chunks.total_chunks;
    let completed = frame.chunks.completed_chunks;
    let progress_permyriad: u64 = (completed as u64) * 10000 / (if total == 0 {
        1
    } else {
        total as u64
    });
    let per_chunk_micros: u64 = elapsed_micros / (if completed == 0 {
        1
    } else {
        completed as u64
    });
    let remaining_chunks: u32 = if total >= completed {
        total - completed
    } else {
        0
    };
    proof {
        assert((per_chunk_micros as u128) * (remaining_chunks as u128) <= u128::MAX)
            by (nonlinear_arith)
            requires
                per_chunk_micros <= u64::MAX && remaining_chunks <= u32::MAX,
        ;
    }
    let remaining_128: u128 = (per_chunk_micros as u128) * (remaining_chunks as u128);
    let remaining_micros: u64 = if remaining_128 <= u64::MAX as u128 {
        remaining_128 as u64
    } else {
        u64::MAX
    };
    let elapsed_secs: u64 = elapsed_micros / 1000000;
    let rays_per_second: u64 = frame.rays.total_rays / (if elapsed_secs == 0 {
        1
    } else {
        elapsed_secs
    });
    proof {
        assert((completed as u64) as int * 10000 <= u64::MAX) by (nonlinear_arith)
            requires
                completed <= u32::MAX,
        ;
    }
    FrameProgress {
        elapsed_micros,
        progress_permyriad,
        per_chunk_micros,
        remaining_micros,
        rays_per_second,
    }
}

} // verus!
