//! When the application loop redraws.
use vstd::prelude::*;
use crate::clock::RenderStatus;

verus! {

/// How long to wait before trying again after a redraw could not get a
/// frame: 100 ms, in nanoseconds.
pub const REDRAW_BACKOFF: u128 = 100_000_000;

/// What the event loop does when it runs out of events.
#[derive(Clone, Copy, Debug, PartialEq, Eq, Structural)]
pub enum LoopAction {
    /// Sleep until the next event.
    Wait,
    /// Sleep until the next event or the given instant.
    WaitUntil(u128),
    /// Sleep until the next event, and ask the window for a redraw.
    Redraw,
}

/// The redraw state of the application: whether a redraw is wanted, when a
/// backed-off redraw may be tried again, and whether the window is hidden.
/// Instants are in nanoseconds from any fixed origin.
#[derive(Clone, Copy, Debug, PartialEq, Eq, Structural)]
pub struct RedrawSchedule {
    pub needs_redraw: bool,
    pub next_redraw_time: Option<u128>,
    pub window_occluded: bool,
}

/// The schedule after the loop runs out of events at `now`, and what the
/// loop does then. `animating` tells whether an animation runs on a scene,
/// `has_window` whether the window exists.
pub open spec fn waited(s: RedrawSchedule, now: u128, animating: bool, has_window: bool) -> (RedrawSchedule, LoopAction) {
    if s.window_occluded {
        (s, LoopAction::Wait)
    } else if s.next_redraw_time is Some && now < s.next_redraw_time->0 {
        (s, LoopAction::WaitUntil(s.next_redraw_time->0))
    } else {
        let s2 = RedrawSchedule { next_redraw_time: None, ..s };
        if (s.needs_redraw || animating) && has_window {
            (s2, LoopAction::Redraw)
        } else {
            (s2, LoopAction::Wait)
        }
    }
}

/// The schedule after a redraw at `now` that ended with `status`.
pub open spec fn rendered(s: RedrawSchedule, status: RenderStatus, now: u128) -> RedrawSchedule {
    RedrawSchedule {
        needs_redraw: status == RenderStatus::NeedsRedraw,
        next_redraw_time: if status == RenderStatus::Waiting { Some((now + REDRAW_BACKOFF) as u128) } else { None },
        window_occluded: s.window_occluded,
    }
}

impl RedrawSchedule {
    /// Nothing to draw yet, window visible.
    pub fn new() -> (s: Self)
        ensures
            s == (RedrawSchedule { needs_redraw: false, next_redraw_time: None, window_occluded: false }),
    {
        RedrawSchedule { needs_redraw: false, next_redraw_time: None, window_occluded: false }
    }

    /// A new scene or animation wants a redraw.
    pub fn request(&mut self)
        ensures
            *final(self) == (RedrawSchedule { needs_redraw: true, ..*old(self) }),
    {
        self.needs_redraw = true;
    }

    /// The window was resized: redraw now. Returns whether to ask the
    /// window for a redraw (always).
    pub fn resized(&mut self) -> (redraw: bool)
        ensures
            redraw,
            *final(self) == (RedrawSchedule { needs_redraw: true, next_redraw_time: None, ..*old(self) }),
    {
        self.needs_redraw = true;
        self.next_redraw_time = None;
        true
    }

    /// The window's scale factor changed: drop any back-off.
    pub fn scale_factor_changed(&mut self)
        ensures
            *final(self) == (RedrawSchedule { next_redraw_time: None, ..*old(self) }),
    {
        self.next_redraw_time = None;
    }

    /// The window was hidden or shown. Returns whether to ask the window for
    /// a redraw: when it is shown again.
    pub fn occluded(&mut self, occluded: bool) -> (redraw: bool)
        ensures
            redraw == !occluded,
            *final(self) == (RedrawSchedule {
                needs_redraw: if occluded { old(self).needs_redraw } else { true },
                next_redraw_time: None,
                window_occluded: occluded,
            }),
    {
        self.window_occluded = occluded;
        self.next_redraw_time = None;
        if !occluded {
            self.needs_redraw = true;
        }
        !occluded
    }

    /// User input changed the scene: redraw now. Returns whether to ask the
    /// window for a redraw (always).
    pub fn input(&mut self) -> (redraw: bool)
        ensures
            redraw,
            *final(self) == (RedrawSchedule { needs_redraw: true, next_redraw_time: None, ..*old(self) }),
    {
        self.needs_redraw = true;
        self.next_redraw_time = None;
        true
    }

    /// Whether a redraw the window asks for is carried out: not while the
    /// window is hidden.
    pub fn draws_on_request(&self) -> (draw: bool)
        ensures
            draw == !self.window_occluded,
    {
        !self.window_occluded
    }

    /// A redraw found no scene or no renderer: nothing is wanted any more.
    pub fn nothing_to_draw(&mut self)
        ensures
            *final(self) == (RedrawSchedule { needs_redraw: false, ..*old(self) }),
    {
        self.needs_redraw = false;
    }

    /// A redraw at `now` ended with `status` (see [`rendered`]): draw again
    /// at once after a reconfigured surface, retry no sooner than
    /// [`REDRAW_BACKOFF`] after a frame could not be had.
    pub fn rendered(&mut self, status: RenderStatus, now: u128)
        requires
            now + REDRAW_BACKOFF <= u128::MAX,
        ensures
            *final(self) == rendered(*old(self), status, now),
    {
        self.needs_redraw = status == RenderStatus::NeedsRedraw;
        self.next_redraw_time = match status {
            RenderStatus::Presented | RenderStatus::NeedsRedraw => None,
            RenderStatus::Waiting => Some(now + REDRAW_BACKOFF),
        };
    }

    /// The loop ran out of events at `now` (see [`waited`]).
    pub fn about_to_wait(&mut self, now: u128, animating: bool, has_window: bool) -> (action: LoopAction)
        ensures
            (*final(self), action) == waited(*old(self), now, animating, has_window),
    {
        if self.window_occluded {
            return LoopAction::Wait;
        }
        if let Some(next_redraw_time) = self.next_redraw_time {
            if now < next_redraw_time {
                return LoopAction::WaitUntil(next_redraw_time);
            }
            self.next_redraw_time = None;
        }
        if (self.needs_redraw || animating) && has_window {
            LoopAction::Redraw
        } else {
            LoopAction::Wait
        }
    }
}

/// While the window is hidden the loop only waits, and its schedule stays
/// as it is.
pub proof fn lemma_occluded_waits(s: RedrawSchedule, now: u128, animating: bool, has_window: bool)
    requires
        s.window_occluded,
    ensures
        waited(s, now, animating, has_window) == (s, LoopAction::Wait),
{
}

/// After a redraw at `t0` got no frame, the loop asks for no redraw before
/// [`REDRAW_BACKOFF`] has passed: it sleeps until then. Afterwards it asks
/// for one only when an animation runs.
pub proof fn lemma_backoff(s: RedrawSchedule, t0: u128, now: u128, animating: bool, has_window: bool)
    requires
        !s.window_occluded,
        t0 + REDRAW_BACKOFF <= u128::MAX,
    ensures
        ({
            let s1 = rendered(s, RenderStatus::Waiting, t0);
            let (s2, action) = waited(s1, now, animating, has_window);
            &&& now < t0 + REDRAW_BACKOFF ==> action == LoopAction::WaitUntil((t0 + REDRAW_BACKOFF) as u128) && s2 == s1
            &&& now >= t0 + REDRAW_BACKOFF ==> {
                &&& s2.next_redraw_time is None
                &&& action == if animating && has_window { LoopAction::Redraw } else { LoopAction::Wait }
            }
        }),
{
}

/// After a redraw had to reconfigure the surface, the loop asks for another
/// redraw as soon as it runs out of events (while the window is visible).
pub proof fn lemma_needs_redraw_retries(s: RedrawSchedule, t0: u128, now: u128, animating: bool)
    requires
        !s.window_occluded,
        t0 + REDRAW_BACKOFF <= u128::MAX,
    ensures
        waited(rendered(s, RenderStatus::NeedsRedraw, t0), now, animating, true).1 == LoopAction::Redraw,
{
}

/// After a presented frame the loop draws again only for an animation.
pub proof fn lemma_presented_settles(s: RedrawSchedule, t0: u128, now: u128, animating: bool)
    requires
        !s.window_occluded,
        t0 + REDRAW_BACKOFF <= u128::MAX,
    ensures
        waited(rendered(s, RenderStatus::Presented, t0), now, animating, true).1
            == if animating { LoopAction::Redraw } else { LoopAction::Wait },
{
}

/// A wanted redraw is carried out: once a redraw is requested, the loop
/// asks the window for it as soon as it runs out of events, unless the
/// window is hidden or a back-off is still pending; and input or a resize
/// cancels any back-off, so the next time the loop runs out of events on a
/// visible window it asks for a redraw.
pub proof fn lemma_requested_redraw_happens(s: RedrawSchedule, now: u128, animating: bool)
    ensures
        !s.window_occluded && !(s.next_redraw_time is Some && now < s.next_redraw_time->0)
            ==> waited(RedrawSchedule { needs_redraw: true, ..s }, now, animating, true).1 == LoopAction::Redraw,
        !s.window_occluded ==> waited(RedrawSchedule { needs_redraw: true, next_redraw_time: None, ..s }, now, animating, true).1
            == LoopAction::Redraw,
        waited(s, now, animating, false).1 != LoopAction::Redraw,
        !s.needs_redraw && !animating ==> waited(s, now, animating, true).1 != LoopAction::Redraw,
{
}

} // verus!
