use vstd::prelude::*;

verus! {

/// Lives a player starts with.
pub const START_LIVES: i32 = 3;

/// Frames the wreck is shown, counting down, before the lander starts again.
pub const CRASH_FRAMES: i32 = 160;

/// What one frame does to whether the lander is a wreck and to its
/// countdown.
pub open spec fn wreck_step(crashed: bool, countdown: int) -> (bool, int) {
    if !crashed {
        (crashed, countdown)
    } else if countdown - 1 < 0 {
        (false, 0)
    } else {
        (true, countdown - 1)
    }
}

/// Whether the lander is a wreck, and its countdown, `frames` frames on.
pub open spec fn wreck_after(crashed: bool, countdown: int, frames: nat) -> (bool, int)
    decreases frames,
{
    if frames == 0 {
        (crashed, countdown)
    } else {
        let (c, n) = wreck_after(crashed, countdown, (frames - 1) as nat);
        wreck_step(c, n)
    }
}

/// After a crash the wreck is shown for `CRASH_FRAMES + 1` frames, counting
/// down, and the lander flies again on the frame after.
pub proof fn law_wreck_lasts(frames: nat)
    ensures
        frames <= CRASH_FRAMES ==> wreck_after(true, CRASH_FRAMES as int, frames) == (
            true,
            CRASH_FRAMES - frames,
        ),
        frames == CRASH_FRAMES + 1 ==> wreck_after(true, CRASH_FRAMES as int, frames) == (false, 0int),
    decreases frames,
{
    if frames > 0 {
        law_wreck_lasts((frames - 1) as nat);
    }
}

/// What a frame did to a crashed lander.
pub enum CrashFrame {
    /// The lander is flying: the frame is played normally.
    Flying,
    /// The wreck was shown: shrunk this frame when `shrink` holds, and the
    /// lander started again when `restarted` holds.
    Wreck { shrink: bool, restarted: bool },
}

/// The lives of the lander and the countdown of a crash.
pub struct CrashState {
    crashed: bool,
    crashed_ticker: i32,
    pub lives: i32,
}

impl CrashState {
    /// Whether the lander is a wreck.
    pub closed spec fn is_crashed(&self) -> bool {
        self.crashed
    }

    /// Lives left.
    pub closed spec fn remaining_lives(&self) -> i32 {
        self.lives
    }

    /// Frames left before the wreck restarts (less one).
    pub closed spec fn countdown(&self) -> i32 {
        self.crashed_ticker
    }

    pub fn new() -> (s: CrashState)
        ensures
            !s.is_crashed(),
            s.countdown() == 0,
            s.remaining_lives() == START_LIVES,
    {
        CrashState { crashed: false, crashed_ticker: 0, lives: START_LIVES }
    }

    /// The lander crashed: one life less, and the wreck counts down from
    /// `CRASH_FRAMES`.
    pub fn crash(&mut self)
        requires
            old(self).remaining_lives() > i32::MIN,
        ensures
            final(self).remaining_lives() == old(self).remaining_lives() - 1,
            final(self).is_crashed(),
            final(self).countdown() == CRASH_FRAMES,
    {
        self.lives = self.lives - 1;
        self.crashed = true;
        self.crashed_ticker = CRASH_FRAMES;
    }

    /// The lander starts again: no longer a wreck.
    pub fn reset(&mut self)
        ensures
            final(self).remaining_lives() == old(self).remaining_lives(),
            !final(self).is_crashed(),
            final(self).countdown() == 0,
    {
        self.crashed = false;
        self.crashed_ticker = 0;
    }

    /// One frame of game `tick`: a wreck shrinks on even ticks and counts
    /// down, and starts again once the count falls below zero.
    pub fn update(&mut self, tick: i32) -> (frame: CrashFrame)
        requires
            old(self).countdown() >= 0,
        ensures
            final(self).remaining_lives() == old(self).remaining_lives(),
            !old(self).is_crashed() ==> frame == CrashFrame::Flying && *final(self) == *old(self),
            old(self).is_crashed() ==> frame == (CrashFrame::Wreck {
                shrink: tick % 2 == 0,
                restarted: old(self).countdown() == 0,
            }),
            (final(self).is_crashed(), final(self).countdown() as int) == wreck_step(
                old(self).is_crashed(),
                old(self).countdown() as int,
            ),
            final(self).countdown() >= 0,
    {
        if self.crashed {
            let shrink = tick % 2 == 0;
            self.crashed_ticker = self.crashed_ticker - 1;
            let restarted = self.crashed_ticker < 0;
            if restarted {
                self.reset();
            }
            CrashFrame::Wreck { shrink, restarted }
        } else {
            CrashFrame::Flying
        }
    }
}

} // verus!
