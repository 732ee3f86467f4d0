//! Frame timing statistics of the application loop.
use vstd::prelude::*;

verus! {

/// Nanoseconds in a second: statistics are reported about once a second.
pub const NANOS_PER_SECOND: u128 = 1_000_000_000;

/// What became of a redraw.
#[derive(Clone, Copy, Debug, PartialEq, Eq, Structural)]
pub enum RenderStatus {
    /// A frame was presented.
    Presented,
    /// The surface had to be reconfigured; draw again right away.
    NeedsRedraw,
    /// No frame could be had now (zero-sized, timed out, occluded); try later.
    Waiting,
}

/// Statistics of the frames drawn since the last report. Times are in
/// nanoseconds, instants counted from any fixed origin.
#[derive(Clone, Copy, Debug)]
pub struct FrameReport {
    /// Time since the previous report.
    pub elapsed: u128,
    pub frame_time_total: u128,
    pub prepare_time_total: u128,
    pub shaping_time_total: u128,
    pub render_time_total: u128,
    pub presented: u32,
    pub needs_redraw: u32,
    pub waiting: u32,
}

/// Frame timing of the application loop: when the last frame was drawn, and
/// totals and counts since the last report. Times are in nanoseconds,
/// instants counted from any fixed origin.
#[derive(Clone, Copy, Debug)]
pub struct FrameClock {
    pub last_frame_time: Option<u128>,
    pub frame_time_total: u128,
    pub prepare_time_total: u128,
    pub shaping_time_total: u128,
    pub render_time_total: u128,
    pub fps_frame_count: u32,
    pub needs_redraw_count: u32,
    pub waiting_count: u32,
    pub fps_last_log_time: Option<u128>,
}

/// `later - earlier`, or zero when `later` comes first (as `Instant::duration_since`).
pub open spec fn since(later: u128, earlier: u128) -> u128 {
    if later >= earlier { (later - earlier) as u128 } else { 0 }
}

/// The clock with no frame drawn and nothing counted since `last_log`.
pub open spec fn cleared(clock: FrameClock, last_log: Option<u128>) -> FrameClock {
    FrameClock {
        last_frame_time: clock.last_frame_time,
        frame_time_total: 0,
        prepare_time_total: 0,
        shaping_time_total: 0,
        render_time_total: 0,
        fps_frame_count: 0,
        needs_redraw_count: 0,
        waiting_count: 0,
        fps_last_log_time: last_log,
    }
}

/// Counting one more frame of `status` overflows no counter, and adding the
/// times overflows no total.
pub open spec fn can_log(clock: FrameClock, status: RenderStatus, frame_time: u128, prepare_time: u128, shaping_time: u128, render_time: u128) -> bool {
    &&& clock.frame_time_total + frame_time <= u128::MAX
    &&& clock.prepare_time_total + prepare_time <= u128::MAX
    &&& clock.shaping_time_total + shaping_time <= u128::MAX
    &&& clock.render_time_total + render_time <= u128::MAX
    &&& match status {
        RenderStatus::Presented => clock.fps_frame_count < u32::MAX,
        RenderStatus::NeedsRedraw => clock.needs_redraw_count < u32::MAX,
        RenderStatus::Waiting => clock.waiting_count < u32::MAX,
    }
}

/// The clock after one frame of `status` and its times are counted, before
/// any report.
pub open spec fn counted(clock: FrameClock, status: RenderStatus, frame_time: u128, prepare_time: u128, shaping_time: u128, render_time: u128) -> FrameClock {
    FrameClock {
        last_frame_time: clock.last_frame_time,
        frame_time_total: (clock.frame_time_total + frame_time) as u128,
        prepare_time_total: (clock.prepare_time_total + prepare_time) as u128,
        shaping_time_total: (clock.shaping_time_total + shaping_time) as u128,
        render_time_total: (clock.render_time_total + render_time) as u128,
        fps_frame_count: if status == RenderStatus::Presented { (clock.fps_frame_count + 1) as u32 } else { clock.fps_frame_count },
        needs_redraw_count: if status == RenderStatus::NeedsRedraw { (clock.needs_redraw_count + 1) as u32 } else { clock.needs_redraw_count },
        waiting_count: if status == RenderStatus::Waiting { (clock.waiting_count + 1) as u32 } else { clock.waiting_count },
        fps_last_log_time: clock.fps_last_log_time,
    }
}

/// What [`FrameClock::log_frame`] does: count the frame; when a second or
/// more has passed since the last report (the first frame starts the
/// count), hand out the report and start counting afresh from `now`.
pub open spec fn logged(clock: FrameClock, status: RenderStatus, frame_time: u128, prepare_time: u128, shaping_time: u128, render_time: u128, now: u128) -> (FrameClock, Option<FrameReport>) {
    let c = counted(clock, status, frame_time, prepare_time, shaping_time, render_time);
    let last_log = match clock.fps_last_log_time { Some(t) => t, None => now };
    let elapsed = since(now, last_log);
    if elapsed >= NANOS_PER_SECOND {
        (cleared(c, Some(now)), Some(FrameReport {
            elapsed,
            frame_time_total: c.frame_time_total,
            prepare_time_total: c.prepare_time_total,
            shaping_time_total: c.shaping_time_total,
            render_time_total: c.render_time_total,
            presented: c.fps_frame_count,
            needs_redraw: c.needs_redraw_count,
            waiting: c.waiting_count,
        }))
    } else {
        (FrameClock { fps_last_log_time: Some(last_log), ..c }, None)
    }
}

impl FrameClock {
    /// No frame drawn yet, nothing counted.
    pub fn new() -> (clock: Self)
        ensures
            clock == (FrameClock {
                last_frame_time: None,
                frame_time_total: 0,
                prepare_time_total: 0,
                shaping_time_total: 0,
                render_time_total: 0,
                fps_frame_count: 0,
                needs_redraw_count: 0,
                waiting_count: 0,
                fps_last_log_time: None,
            }),
    {
        FrameClock {
            last_frame_time: None,
            frame_time_total: 0,
            prepare_time_total: 0,
            shaping_time_total: 0,
            render_time_total: 0,
            fps_frame_count: 0,
            needs_redraw_count: 0,
            waiting_count: 0,
            fps_last_log_time: None,
        }
    }

    /// Records a frame drawn at `now` and returns the time since the previous
    /// frame, if there was one since the last [`FrameClock::reset`].
    pub fn frame_interval(&mut self, now: u128) -> (interval: Option<u128>)
        ensures
            interval == match old(self).last_frame_time {
                Some(last) => Some(since(now, last)),
                None => None::<u128>,
            },
            *final(self) == (FrameClock { last_frame_time: Some(now), ..*old(self) }),
    {
        let interval = match self.last_frame_time {
            Some(last) => Some(if now >= last { now - last } else { 0 }),
            None => None,
        };
        self.last_frame_time = Some(now);
        interval
    }

    /// Forgets the last frame time: the next frame has no interval.
    pub fn reset(&mut self)
        ensures
            *final(self) == (FrameClock { last_frame_time: None, ..*old(self) }),
    {
        self.last_frame_time = None;
    }

    /// Counts a frame of `status` with its times, and once a second or more
    /// has passed since the last report returns the statistics since then
    /// and starts counting afresh (see [`logged`]).
    pub fn log_frame(
        &mut self,
        status: RenderStatus,
        frame_time: u128,
        prepare_time: u128,
        shaping_time: u128,
        render_time: u128,
        now: u128,
    ) -> (report: Option<FrameReport>)
        requires
            can_log(*old(self), status, frame_time, prepare_time, shaping_time, render_time),
        ensures
            (*final(self), report) == logged(*old(self), status, frame_time, prepare_time, shaping_time, render_time, now),
    {
        match status {
            RenderStatus::Presented => self.fps_frame_count = self.fps_frame_count + 1,
            RenderStatus::NeedsRedraw => self.needs_redraw_count = self.needs_redraw_count + 1,
            RenderStatus::Waiting => self.waiting_count = self.waiting_count + 1,
        }
        self.frame_time_total = self.frame_time_total + frame_time;
        self.prepare_time_total = self.prepare_time_total + prepare_time;
        self.shaping_time_total = self.shaping_time_total + shaping_time;
        self.render_time_total = self.render_time_total + render_time;
        let last_log_time = match self.fps_last_log_time {
            Some(time) => time,
            None => now,
        };
        self.fps_last_log_time = Some(last_log_time);
        let elapsed = if now >= last_log_time { now - last_log_time } else { 0 };
        if elapsed >= NANOS_PER_SECOND {
            let report = FrameReport {
                elapsed,
                frame_time_total: self.frame_time_total,
                prepare_time_total: self.prepare_time_total,
                shaping_time_total: self.shaping_time_total,
                render_time_total: self.render_time_total,
                presented: self.fps_frame_count,
                needs_redraw: self.needs_redraw_count,
                waiting: self.waiting_count,
            };
            self.frame_time_total = 0;
            self.prepare_time_total = 0;
            self.shaping_time_total = 0;
            self.render_time_total = 0;
            self.fps_frame_count = 0;
            self.needs_redraw_count = 0;
            self.waiting_count = 0;
            self.fps_last_log_time = Some(now);
            Some(report)
        } else {
            None
        }
    }
}

/// Every report counts the frame that triggered it, so its frame count is
/// not zero and per-frame averages are defined.
pub proof fn lemma_report_counts_frames(clock: FrameClock, status: RenderStatus, frame_time: u128, prepare_time: u128, shaping_time: u128, render_time: u128, now: u128)
    requires
        can_log(clock, status, frame_time, prepare_time, shaping_time, render_time),
    ensures
        logged(clock, status, frame_time, prepare_time, shaping_time, render_time, now).1 matches Some(r)
            ==> r.presented + r.needs_redraw + r.waiting >= 1,
{
}

/// After a report at `now`, counting starts afresh, and no report comes
/// again before a second has passed.
pub proof fn lemma_reports_a_second_apart(
    clock: FrameClock,
    status: RenderStatus,
    frame_time: u128,
    prepare_time: u128,
    shaping_time: u128,
    render_time: u128,
    now: u128,
    next_status: RenderStatus,
    next_frame_time: u128,
    next_prepare_time: u128,
    next_shaping_time: u128,
    next_render_time: u128,
    later: u128,
)
    requires
        can_log(clock, status, frame_time, prepare_time, shaping_time, render_time),
        logged(clock, status, frame_time, prepare_time, shaping_time, render_time, now).1 is Some,
        since(later, now) < NANOS_PER_SECOND,
    ensures
        ({
            let after = logged(clock, status, frame_time, prepare_time, shaping_time, render_time, now).0;
            &&& after == cleared(after, Some(now))
            &&& logged(after, next_status, next_frame_time, next_prepare_time, next_shaping_time, next_render_time, later).1 is None
        }),
{
}

/// One frame as [`FrameClock::log_frame`] takes it: its status, its frame,
/// prepare, shaping and render times, and the instant it was drawn.
pub type LoggedFrame = (RenderStatus, u128, u128, u128, u128, u128);

/// The clock after logging `frames` in order, starting from `clock`.
pub open spec fn log_run(clock: FrameClock, frames: Seq<LoggedFrame>) -> FrameClock
    decreases frames.len(),
{
    if frames.len() == 0 {
        clock
    } else {
        let f = frames.last();
        logged(log_run(clock, frames.drop_last()), f.0, f.1, f.2, f.3, f.4, f.5).0
    }
}

/// How many of `frames` have status `status`.
pub open spec fn status_count(frames: Seq<LoggedFrame>, status: RenderStatus) -> nat
    decreases frames.len(),
{
    if frames.len() == 0 {
        0
    } else {
        status_count(frames.drop_last(), status) + if frames.last().0 == status { 1nat } else { 0nat }
    }
}

/// The sum over `frames` of the time that `time` picks out of each.
pub open spec fn time_sum(frames: Seq<LoggedFrame>, time: spec_fn(LoggedFrame) -> u128) -> int
    decreases frames.len(),
{
    if frames.len() == 0 {
        0
    } else {
        time_sum(frames.drop_last(), time) + time(frames.last())
    }
}

/// Each of `frames`, logged in order from `clock`, can be counted and hands
/// out no report.
pub open spec fn quiet_run(clock: FrameClock, frames: Seq<LoggedFrame>) -> bool {
    forall|k: int| 0 <= k < frames.len() ==> {
        let before = #[trigger] log_run(clock, frames.take(k));
        let f = frames[k];
        &&& can_log(before, f.0, f.1, f.2, f.3, f.4)
        &&& logged(before, f.0, f.1, f.2, f.3, f.4, f.5).1 is None
    }
}

/// Logging one frame counts it under its own status and under no other:
/// a report holds the counts from before the call, each raised by one for
/// the frame's own status, and so does the clock when no report comes.
/// A report leaves every count at zero.
pub proof fn lemma_log_counts_status(
    clock: FrameClock,
    status: RenderStatus,
    frame_time: u128,
    prepare_time: u128,
    shaping_time: u128,
    render_time: u128,
    now: u128,
)
    requires
        can_log(clock, status, frame_time, prepare_time, shaping_time, render_time),
    ensures
        ({
            let (after, report) = logged(clock, status, frame_time, prepare_time, shaping_time, render_time, now);
            let presented = clock.fps_frame_count + if status == RenderStatus::Presented { 1int } else { 0int };
            let needs_redraw = clock.needs_redraw_count + if status == RenderStatus::NeedsRedraw { 1int } else { 0int };
            let waiting = clock.waiting_count + if status == RenderStatus::Waiting { 1int } else { 0int };
            match report {
                Some(r) => {
                    &&& r.presented == presented
                    &&& r.needs_redraw == needs_redraw
                    &&& r.waiting == waiting
                    &&& r.frame_time_total == clock.frame_time_total + frame_time
                    &&& r.prepare_time_total == clock.prepare_time_total + prepare_time
                    &&& r.shaping_time_total == clock.shaping_time_total + shaping_time
                    &&& r.render_time_total == clock.render_time_total + render_time
                    &&& after.fps_frame_count == 0
                    &&& after.needs_redraw_count == 0
                    &&& after.waiting_count == 0
                },
                None => {
                    &&& after.fps_frame_count == presented
                    &&& after.needs_redraw_count == needs_redraw
                    &&& after.waiting_count == waiting
                    &&& after.frame_time_total == clock.frame_time_total + frame_time
                    &&& after.prepare_time_total == clock.prepare_time_total + prepare_time
                    &&& after.shaping_time_total == clock.shaping_time_total + shaping_time
                    &&& after.render_time_total == clock.render_time_total + render_time
                },
            }
        }),
{
}

/// Frames logged without a report add up in the clock: each count grows by
/// the number of those frames with its status, and each total by the sum of
/// those frames' times of its kind.
pub proof fn lemma_quiet_run_counts(clock: FrameClock, frames: Seq<LoggedFrame>)
    requires
        quiet_run(clock, frames),
    ensures
        log_run(clock, frames).fps_frame_count == clock.fps_frame_count + status_count(frames, RenderStatus::Presented),
        log_run(clock, frames).needs_redraw_count == clock.needs_redraw_count + status_count(frames, RenderStatus::NeedsRedraw),
        log_run(clock, frames).waiting_count == clock.waiting_count + status_count(frames, RenderStatus::Waiting),
        log_run(clock, frames).frame_time_total == clock.frame_time_total + time_sum(frames, |f: LoggedFrame| f.1),
        log_run(clock, frames).prepare_time_total == clock.prepare_time_total + time_sum(frames, |f: LoggedFrame| f.2),
        log_run(clock, frames).shaping_time_total == clock.shaping_time_total + time_sum(frames, |f: LoggedFrame| f.3),
        log_run(clock, frames).render_time_total == clock.render_time_total + time_sum(frames, |f: LoggedFrame| f.4),
    decreases frames.len(),
{
    if frames.len() > 0 {
        let n: int = frames.len() - 1;
        let rest = frames.drop_last();
        assert forall|k: int| 0 <= k < rest.len() implies {
            let before = #[trigger] log_run(clock, rest.take(k));
            let f = rest[k];
            &&& can_log(before, f.0, f.1, f.2, f.3, f.4)
            &&& logged(before, f.0, f.1, f.2, f.3, f.4, f.5).1 is None
        } by {
            assert(rest.take(k) =~= frames.take(k));
            let _ = log_run(clock, frames.take(k));
        }
        lemma_quiet_run_counts(clock, rest);
        assert(frames.take(n) =~= rest);
        let _ = log_run(clock, frames.take(n));
        let f = frames[n];
        lemma_log_counts_status(log_run(clock, rest), f.0, f.1, f.2, f.3, f.4, f.5);
    }
}

/// A report counts, under each status, exactly the frames of that status
/// logged since the previous report (or since the clock was made), the
/// frame that triggers it included, and its totals are the sums of those
/// frames' times.
pub proof fn lemma_report_counts_since_last(clock: FrameClock, frames: Seq<LoggedFrame>, last: LoggedFrame)
    requires
        clock.fps_frame_count == 0,
        clock.needs_redraw_count == 0,
        clock.waiting_count == 0,
        clock.frame_time_total == 0,
        clock.prepare_time_total == 0,
        clock.shaping_time_total == 0,
        clock.render_time_total == 0,
        quiet_run(clock, frames),
        can_log(log_run(clock, frames), last.0, last.1, last.2, last.3, last.4),
    ensures
        logged(log_run(clock, frames), last.0, last.1, last.2, last.3, last.4, last.5).1 matches Some(r) ==> {
            &&& r.presented == status_count(frames.push(last), RenderStatus::Presented)
            &&& r.needs_redraw == status_count(frames.push(last), RenderStatus::NeedsRedraw)
            &&& r.waiting == status_count(frames.push(last), RenderStatus::Waiting)
            &&& r.frame_time_total == time_sum(frames.push(last), |f: LoggedFrame| f.1)
            &&& r.prepare_time_total == time_sum(frames.push(last), |f: LoggedFrame| f.2)
            &&& r.shaping_time_total == time_sum(frames.push(last), |f: LoggedFrame| f.3)
            &&& r.render_time_total == time_sum(frames.push(last), |f: LoggedFrame| f.4)
        },
{
    lemma_quiet_run_counts(clock, frames);
    assert(frames.push(last).drop_last() =~= frames);
    lemma_log_counts_status(log_run(clock, frames), last.0, last.1, last.2, last.3, last.4, last.5);
}

} // verus!
