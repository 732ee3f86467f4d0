use heven::{FrameClock, LoopAction, RedrawSchedule, RenderStatus, NANOS_PER_SECOND, REDRAW_BACKOFF};

#[test]
fn new_schedule_waits() {
    let mut schedule = RedrawSchedule::new();
    assert_eq!(schedule.about_to_wait(0, false, true), LoopAction::Wait);
}

#[test]
fn requested_scene_redraws_once_there_is_a_window() {
    let mut schedule = RedrawSchedule::new();
    schedule.request();
    assert_eq!(schedule.about_to_wait(0, false, false), LoopAction::Wait);
    assert_eq!(schedule.about_to_wait(0, false, true), LoopAction::Redraw);
}

#[test]
fn occluded_window_only_waits() {
    let mut schedule = RedrawSchedule::new();
    schedule.request();
    assert!(!schedule.occluded(true));
    assert!(!schedule.draws_on_request());
    assert_eq!(schedule.about_to_wait(5, true, true), LoopAction::Wait);
    assert!(schedule.occluded(false));
    assert!(schedule.draws_on_request());
    assert_eq!(schedule.about_to_wait(5, false, true), LoopAction::Redraw);
}

#[test]
fn waiting_frame_backs_off() {
    let mut schedule = RedrawSchedule::new();
    schedule.rendered(RenderStatus::Waiting, 1_000);
    assert_eq!(schedule.next_redraw_time, Some(1_000 + REDRAW_BACKOFF));
    assert_eq!(schedule.about_to_wait(1_000 + REDRAW_BACKOFF - 1, true, true), LoopAction::WaitUntil(1_000 + REDRAW_BACKOFF));
    assert_eq!(schedule.about_to_wait(1_000 + REDRAW_BACKOFF, true, true), LoopAction::Redraw);
    assert_eq!(schedule.next_redraw_time, None);
}

#[test]
fn waiting_frame_without_animation_settles_after_back_off() {
    let mut schedule = RedrawSchedule::new();
    schedule.request();
    schedule.rendered(RenderStatus::Waiting, 0);
    assert_eq!(schedule.about_to_wait(REDRAW_BACKOFF, false, true), LoopAction::Wait);
}

#[test]
fn input_and_resize_cancel_back_off() {
    let mut schedule = RedrawSchedule::new();
    schedule.rendered(RenderStatus::Waiting, 0);
    assert!(schedule.input());
    assert_eq!(schedule.about_to_wait(1, false, true), LoopAction::Redraw);
    schedule.rendered(RenderStatus::Waiting, 0);
    assert!(schedule.resized());
    assert_eq!(schedule.about_to_wait(1, false, true), LoopAction::Redraw);
    schedule.rendered(RenderStatus::Waiting, 0);
    schedule.scale_factor_changed();
    assert_eq!(schedule.next_redraw_time, None);
}

#[test]
fn reconfigured_surface_redraws_at_once() {
    let mut schedule = RedrawSchedule::new();
    schedule.rendered(RenderStatus::NeedsRedraw, 0);
    assert_eq!(schedule.about_to_wait(0, false, true), LoopAction::Redraw);
    schedule.rendered(RenderStatus::Presented, 0);
    assert_eq!(schedule.about_to_wait(0, false, true), LoopAction::Wait);
    schedule.request();
    schedule.nothing_to_draw();
    assert_eq!(schedule.about_to_wait(0, false, true), LoopAction::Wait);
}

#[test]
fn frame_interval_measures_from_the_last_frame() {
    let mut clock = FrameClock::new();
    assert_eq!(clock.frame_interval(100), None);
    assert_eq!(clock.frame_interval(350), Some(250));
    assert_eq!(clock.frame_interval(300), Some(0));
    clock.reset();
    assert_eq!(clock.frame_interval(400), None);
}

#[test]
fn frames_are_reported_once_a_second() {
    let mut clock = FrameClock::new();
    assert!(clock.log_frame(RenderStatus::Presented, 10, 1, 2, 3, 0).is_none());
    assert!(clock.log_frame(RenderStatus::Waiting, 20, 1, 2, 3, NANOS_PER_SECOND - 1).is_none());
    let report = clock.log_frame(RenderStatus::NeedsRedraw, 30, 1, 2, 3, NANOS_PER_SECOND).unwrap();
    assert_eq!(report.elapsed, NANOS_PER_SECOND);
    assert_eq!((report.presented, report.needs_redraw, report.waiting), (1, 1, 1));
    assert_eq!(report.frame_time_total, 60);
    assert_eq!(report.prepare_time_total, 3);
    assert_eq!(report.shaping_time_total, 6);
    assert_eq!(report.render_time_total, 9);
    assert_eq!(clock.fps_frame_count, 0);
    assert_eq!(clock.fps_last_log_time, Some(NANOS_PER_SECOND));
    assert!(clock.log_frame(RenderStatus::Presented, 10, 1, 2, 3, NANOS_PER_SECOND + 5).is_none());
    assert_eq!(clock.fps_frame_count, 1);
}
