//! One playthrough's state: a field plus the session timer.
//!
//! The timer runs from the first reveal of the session to the reveal that
//! detonates a mine; after that the session is over and the elapsed time is
//! frozen.

use vstd::prelude::*;

use crate::field::{
    population_of, reveal_exact, toggle_transition, Field, RevealResult, ToggleFlagResult,
};

verus! {

/// The session timer, in milliseconds: not yet running, running since a
/// clock reading, or stopped with a frozen elapsed time.
#[derive(Clone, Copy, Debug)]
pub enum Timer {
    NotStarted,
    Started(u64),
    Stopped(u64),
}

/// The elapsed time a timer shows against the clock reading `now`.
pub open spec fn elapsed_at(t: Timer, now: u64) -> u64 {
    match t {
        Timer::NotStarted => 0,
        Timer::Started(s) => if now >= s {
            (now - s) as u64
        } else {
            0
        },
        Timer::Stopped(d) => d,
    }
}

/// For a fixed timer state, elapsed time never moves backwards as the clock
/// advances.
pub proof fn lemma_timer_monotone(t: Timer, n1: u64, n2: u64)
    requires
        n1 <= n2,
    ensures
        elapsed_at(t, n1) <= elapsed_at(t, n2),
{
}

/// A stopped timer shows the same elapsed time at every clock reading.
pub proof fn lemma_timer_stopped_constant(t: Timer, n1: u64, n2: u64)
    requires
        t is Stopped,
    ensures
        elapsed_at(t, n1) == elapsed_at(t, n2),
{
}

/// Relies on std::time::SystemTime::now: the clock reading in milliseconds
/// since the Unix epoch, zero where the clock stands before the epoch. No
/// promise is made of the value.
#[verifier::external_body]
fn now_millis() -> u64 {
    match std::time::SystemTime::now().duration_since(std::time::UNIX_EPOCH) {
        Ok(d) => d.as_millis() as u64,
        Err(_) => 0,
    }
}

const FIELD_WIDTH: u8 = 8;

const FIELD_HEIGHT: u8 = 8;

const MINE_COUNT: u16 = 10;

/// One playthrough: a field and the session timer.
#[derive(Debug)]
pub struct State {
    field: Field,
    timer: Timer,
}

impl State {
    /// The field this session plays on.
    pub closed spec fn fld(self) -> Field {
        self.field
    }

    /// The timer's current state.
    pub closed spec fn timer_state(self) -> Timer {
        self.timer
    }

    pub open spec fn wf(self) -> bool {
        self.fld().wf()
    }

    /// A fresh standard session: an 8-by-8 field with ten mines, the timer
    /// not yet running.
    pub fn new() -> (s: State)
        ensures
            s.wf(),
            !s.fld().is_populated(),
            s.fld().grid_width() == 8,
            s.fld().grid_height() == 8,
            s.fld().mines() == 10,
            s.fld().flag_count() == 0,
            s.timer_state() is NotStarted,
    {
        State { field: Field::new(FIELD_WIDTH, FIELD_HEIGHT, MINE_COUNT), timer: Timer::NotStarted }
    }

    /// A session over a caller-built field, the timer not yet running.
    pub fn from_field(field: Field) -> (s: State)
        requires
            field.wf(),
        ensures
            s.wf(),
            s.fld() == field,
            s.timer_state() is NotStarted,
    {
        State { field, timer: Timer::NotStarted }
    }

    /// A read-only view of the field, for rendering.
    pub fn field(&self) -> (f: &Field)
        ensures
            *f == self.fld(),
    {
        &self.field
    }

    fn start_timer(&mut self)
        ensures
            final(self).fld() == old(self).fld(),
            final(self).timer_state() is Started,
    {
        self.timer = Timer::Started(now_millis());
    }

    fn stop_timer(&mut self)
        ensures
            final(self).fld() == old(self).fld(),
            final(self).timer_state() is Stopped,
            old(self).timer_state() matches Timer::Stopped(d) ==> final(self).timer_state()
                == Timer::Stopped(d),
    {
        let frozen = self.timer();
        self.timer = Timer::Stopped(frozen);
    }

    /// The elapsed session time in milliseconds: zero before the first
    /// reveal, running while the session lives, frozen once it is over.
    pub fn timer(&self) -> (ms: u64)
        ensures
            exists|now: u64| ms == elapsed_at(self.timer_state(), now),
            self.timer_state() is NotStarted ==> ms == 0,
            self.timer_state() matches Timer::Stopped(d) ==> ms == d,
    {
        match self.timer {
            Timer::NotStarted => {
                proof {
                    assert(elapsed_at(self.timer_state(), 0) == 0);
                }
                0
            },
            Timer::Started(s) => {
                let now = now_millis();
                proof {
                    assert(elapsed_at(self.timer_state(), now) == if now >= s {
                        (now - s) as u64
                    } else {
                        0
                    });
                }
                if now >= s {
                    now - s
                } else {
                    0
                }
            },
            Timer::Stopped(d) => {
                proof {
                    assert(elapsed_at(self.timer_state(), 0) == d);
                }
                d
            },
        }
    }

    /// Whether the session is over: the timer stopped on a detonated mine.
    pub fn game_over(&self) -> (b: bool)
        ensures
            b == (self.timer_state() is Stopped),
    {
        match self.timer {
            Timer::Stopped(_) => true,
            _ => false,
        }
    }

    /// Reveals a cell, delegating to the field: the first reveal of the
    /// session starts the timer, and a detonation stops it for good.
    pub fn reveal_cell(&mut self, x: u8, y: u8) -> (r: RevealResult)
        requires
            old(self).wf(),
            (x as int) < old(self).fld().grid_width(),
            (y as int) < old(self).fld().grid_height(),
        ensures
            final(self).wf(),
            final(self).fld().is_populated(),
            old(self).fld().is_populated() ==> reveal_exact(
                old(self).fld(),
                final(self).fld(),
                x,
                y,
                r,
            ),
            !old(self).fld().is_populated() ==> exists|mid: Field|
                {
                    &&& #[trigger] population_of(old(self).fld(), mid, Some((x, y)))
                    &&& mid.wf()
                    &&& reveal_exact(mid, final(self).fld(), x, y, r)
                },
            !old(self).fld().is_populated() ==> !(r is Mine) && !final(self).fld().cell_at(
                x as int,
                y as int,
            ).has_mine,
            r is Mine ==> final(self).timer_state() is Stopped,
            !(r is Mine) && !(old(self).timer_state() is Stopped) ==> final(self).timer_state()
                is Started,
            old(self).timer_state() matches Timer::Started(s) ==> (!(r is Mine)
                ==> final(self).timer_state() == Timer::Started(s)),
            old(self).timer_state() matches Timer::Stopped(d) ==> final(self).timer_state()
                == Timer::Stopped(d),
    {
        if let Timer::NotStarted = self.timer {
            self.start_timer();
        }
        let result = self.field.reveal_cell(x, y);
        match result {
            RevealResult::Mine => self.stop_timer(),
            _ => {},
        }
        result
    }

    /// Toggles a flag on the field; the timer is untouched.
    pub fn toggle_flag(&mut self, x: u8, y: u8)
        requires
            old(self).wf(),
            (x as int) < old(self).fld().grid_width(),
            (y as int) < old(self).fld().grid_height(),
        ensures
            final(self).wf(),
            final(self).timer_state() == old(self).timer_state(),
            exists|r: ToggleFlagResult| #[trigger] toggle_transition(
                old(self).fld(),
                final(self).fld(),
                x,
                y,
                r,
            ),
    {
        let r = self.field.toggle_flag(x, y);
        proof {
            assert(toggle_transition(old(self).fld(), self.fld(), x, y, r));
        }
    }

    /// Mines minus flags; negative when the player has over-flagged.
    pub fn mines_remaining(&self) -> (n: i32)
        ensures
            n == self.fld().mines() - self.fld().flag_count(),
    {
        self.field.mine_count() as i32 - self.field.flagged_cells() as i32
    }
}

} // verus!
