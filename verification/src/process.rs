//! When a child process is stopped, and how its end is told.
use vstd::prelude::*;

verus! {

/// How a child process ended.
#[derive(Clone, Copy, PartialEq, Eq, Structural, Debug)]
pub struct Exit {
    pub code: i32,
    pub timed_out: bool,
    pub cancelled: bool,
}

/// How long output is still read once the process was killed, in nanoseconds.
pub const DRAIN: u128 = 250_000_000;

/// The nanoseconds of a millisecond.
pub const MILLISECOND: u128 = 1_000_000;

/// A process that was cancelled before it began.
pub open spec fn not_begun() -> Exit {
    Exit { code: -1i32, timed_out: false, cancelled: true }
}

/// The end of a process that is not begun, if it was cancelled already.
pub fn begin(cancelled: bool) -> (r: Option<Exit>)
    ensures
        r == (if cancelled { Some(not_begun()) } else { None::<Exit> }),
{
    if cancelled {
        Some(Exit { code: -1, timed_out: false, cancelled: true })
    } else {
        None
    }
}

/// Why and when a process was killed.
#[derive(Clone, Copy, PartialEq, Eq, Structural, Debug)]
pub struct Stop {
    pub exit: Exit,
    pub at: u128,
}

/// The watch over a running process. Times are nanoseconds since it began.
#[derive(Clone, Copy, PartialEq, Eq, Structural, Debug)]
pub struct Watch {
    pub timeout: u64,
    pub stopped: Option<Stop>,
}

/// What to do before output is waited for.
#[derive(Clone, Copy, PartialEq, Eq, Structural, Debug)]
pub enum Tick {
    /// Wait for output.
    Wait,
    /// Kill the process and all that it began, and wait for output.
    Kill,
    /// Leave: the process was killed, and its output has been read long enough.
    Leave(Exit),
}

/// What came while output was waited for.
#[derive(Clone, Copy, PartialEq, Eq, Structural, Debug)]
pub enum Wait {
    /// Bytes.
    Output,
    /// Nothing for a while.
    Idle,
    /// The end of all output.
    Closed,
}

/// What to do after output was waited for. An update without bytes lets
/// gathered output be shown.
#[derive(Clone, Copy, PartialEq, Eq, Structural, Debug)]
pub enum Act {
    /// Hand on the bytes.
    Chunk,
    /// Hand on an update without bytes.
    Flush,
    /// Hand on an update without bytes, and ask whether the process has ended.
    Reap,
}

impl Watch {
    /// Whether the process is to be killed now.
    pub open spec fn due(self, now: u128, cancelled: bool) -> bool {
        self.stopped is None && (cancelled || now >= self.timeout as int * MILLISECOND)
    }

    /// The watch after a look at the clock.
    pub open spec fn looked(self, now: u128, cancelled: bool) -> Watch {
        if self.due(now, cancelled) {
            Watch {
                timeout: self.timeout,
                stopped: Some(
                    Stop {
                        exit: Exit {
                            code: -1i32,
                            timed_out: now >= self.timeout as int * MILLISECOND,
                            cancelled,
                        },
                        at: now,
                    },
                ),
            }
        } else {
            self
        }
    }

    /// Whether a process that was killed has been given time enough.
    pub open spec fn drained(self, now: u128) -> bool {
        self.stopped matches Some(stop) && now - stop.at >= DRAIN
    }

    /// A watch over a process that begins.
    pub fn new(timeout: u64) -> (r: Watch)
        ensures
            r == (Watch { timeout, stopped: None }),
    {
        Watch { timeout, stopped: None }
    }

    /// Looks at the clock.
    pub fn tick(&mut self, now: u128, cancelled: bool) -> (r: Tick)
        ensures
            *final(self) == old(self).looked(now, cancelled),
            r == (if old(self).due(now, cancelled) {
                Tick::Kill
            } else if old(self).drained(now) {
                Tick::Leave(old(self).stopped->0.exit)
            } else {
                Tick::Wait
            }),
    {
        let timed_out = now >= self.timeout as u128 * MILLISECOND;
        match self.stopped {
            None => {
                if cancelled || timed_out {
                    self.stopped = Some(Stop { exit: Exit { code: -1, timed_out, cancelled }, at: now });
                    Tick::Kill
                } else {
                    Tick::Wait
                }
            },
            Some(stop) => {
                if now >= stop.at && now - stop.at >= DRAIN {
                    Tick::Leave(stop.exit)
                } else {
                    Tick::Wait
                }
            },
        }
    }

    /// The end of the process: how it was stopped, or else its own code.
    pub open spec fn ended(self, code: Option<i32>) -> Exit {
        match self.stopped {
            Some(stop) => stop.exit,
            None => Exit {
                code: match code {
                    Some(code) => code,
                    None => -1i32,
                },
                timed_out: false,
                cancelled: false,
            },
        }
    }

    /// The end of the process: how it was stopped, or else its own code.
    pub fn exit(&self, code: Option<i32>) -> (r: Exit)
        ensures
            r == self.ended(code),
    {
        match self.stopped {
            Some(stop) => stop.exit,
            None => Exit { code: code.unwrap_or(-1), timed_out: false, cancelled: false },
        }
    }
}

/// What to do after output was waited for.
pub fn respond(wait: Wait) -> (r: Act)
    ensures
        r == (match wait {
            Wait::Output => Act::Chunk,
            Wait::Idle => Act::Flush,
            Wait::Closed => Act::Reap,
        }),
{
    match wait {
        Wait::Output => Act::Chunk,
        Wait::Idle => Act::Flush,
        Wait::Closed => Act::Reap,
    }
}

/// A look at the clock: the time, and whether the user has cancelled.
pub struct Look {
    pub now: u128,
    pub cancelled: bool,
}

/// The watch after looks in turn.
pub open spec fn watched(watch: Watch, looks: Seq<Look>) -> Watch
    decreases looks.len(),
{
    if looks.len() == 0 {
        watch
    } else {
        watched(watch, looks.drop_last()).looked(looks.last().now, looks.last().cancelled)
    }
}

/// What stops a process is the first look that finds it cancelled or out of
/// time, and no later look changes that.
pub proof fn law_first_cause_stops(timeout: u64, looks: Seq<Look>, k: int)
    requires
        0 <= k < looks.len(),
        looks[k].cancelled || looks[k].now >= timeout as int * MILLISECOND,
        forall|j: int|
            0 <= j < k ==> !(#[trigger] looks[j]).cancelled && looks[j].now < timeout as int * MILLISECOND,
    ensures
        watched(Watch { timeout, stopped: None }, looks).stopped == Some(
            Stop {
                exit: Exit {
                    code: -1i32,
                    timed_out: looks[k].now >= timeout as int * MILLISECOND,
                    cancelled: looks[k].cancelled,
                },
                at: looks[k].now,
            },
        ),
    decreases looks.len(),
{
    let before = looks.drop_last();
    if k == before.len() {
        law_stops_for_a_cause_only(timeout, before);
    } else {
        assert forall|j: int| 0 <= j < k implies !(#[trigger] before[j]).cancelled && before[j].now < timeout as int
            * MILLISECOND by {
            assert(before[j] == looks[j]);
        }
        law_first_cause_stops(timeout, before, k);
    }
}

/// A process that no look finds cancelled or out of time is not stopped: its
/// own code is told.
pub proof fn law_stops_for_a_cause_only(timeout: u64, looks: Seq<Look>)
    requires
        forall|j: int|
            0 <= j < looks.len() ==> !(#[trigger] looks[j]).cancelled && looks[j].now < timeout as int * MILLISECOND,
    ensures
        watched(Watch { timeout, stopped: None }, looks) == (Watch { timeout, stopped: None }),
    decreases looks.len(),
{
    if looks.len() > 0 {
        let before = looks.drop_last();
        assert forall|j: int| 0 <= j < before.len() implies !(#[trigger] before[j]).cancelled && before[j].now
            < timeout as int * MILLISECOND by {
            assert(before[j] == looks[j]);
        }
        law_stops_for_a_cause_only(timeout, before);
        assert(looks.last() == looks[looks.len() - 1]);
    }
}

/// A running process is killed when the user cancels or its time is over, and
/// not before; once killed it is left after a quarter of a second, so that its
/// last output is still read, and it is not killed again.
pub proof fn law_processes_are_killed_and_left(watch: Watch, now: u128, cancelled: bool)
    ensures
        watch.stopped is None ==> (watch.due(now, cancelled) <==> cancelled || now >= watch.timeout * 1_000_000),
        watch.stopped is Some ==> !watch.due(now, cancelled) && watch.looked(now, cancelled) == watch,
        watch.stopped is None ==> !watch.drained(now),
        watch.stopped matches Some(stop) ==> (watch.drained(now) <==> now >= stop.at + 250_000_000),
        watch.looked(now, cancelled).timeout == watch.timeout,
{
}

/// How a process ended: as it was stopped, or else with its own code, or with
/// none of its own.
pub proof fn law_ends_are_told(watch: Watch, code: Option<i32>)
    ensures
        watch.stopped matches Some(stop) ==> watch.ended(code) == stop.exit,
        watch.stopped is None ==> {
            &&& !watch.ended(code).timed_out && !watch.ended(code).cancelled
            &&& code matches Some(c) ==> watch.ended(code).code == c
            &&& code is None ==> watch.ended(code).code == -1
        },
        not_begun().cancelled && !not_begun().timed_out && not_begun().code == -1,
{
}

} // verus!
