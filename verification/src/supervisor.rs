//! The process that keeps the node running: a master starts a worker, and
//! decides what follows when the worker ends.

use vstd::prelude::*;

verus! {

/// The worker ended as it was told to.
pub const EXIT_OK: i32 = 0;

/// The worker failed.
pub const EXIT_ERROR: i32 = 1;

/// The worker is to be started again.
pub const EXIT_RESTART: i32 = 3;

/// The command by which the master starts a worker.
pub const WORKER_SUBCOMMAND: &'static str = "__worker";

/// A worker that ran this many seconds counts as stable.
pub const STABLE_AFTER: u64 = 60;

/// Seconds that a worker has to end by itself.
pub const GRACEFUL_TIMEOUT: u64 = 15;

/// What follows when a worker ends.
#[derive(Debug, Clone, Copy, PartialEq, Eq, Structural)]
pub enum WorkerExitAction {
    /// The master ends too.
    Stop,
    /// A worker is started after this many seconds.
    Restart { backoff: u64 },
}

/// Seconds to wait after so many failures in a row.
pub open spec fn backoff_of(rounds: int) -> u64 {
    if rounds <= 1 {
        1
    } else if rounds == 2 {
        2
    } else if rounds == 3 {
        5
    } else if rounds == 4 {
        10
    } else {
        30
    }
}

/// The number of restarts in a row, this one counted: a stable worker begins
/// anew.
pub open spec fn rounds_after(consecutive_restarts: u32, uptime: u64) -> int {
    if uptime >= STABLE_AFTER {
        1
    } else {
        consecutive_restarts + 1
    }
}

/// What follows when a worker ends with `code` after `uptime` seconds, and there
/// were `consecutive_restarts` before.
pub fn action_for_exit(code: i32, consecutive_restarts: u32, uptime: u64) -> (action: WorkerExitAction)
    requires
        code == EXIT_OK || rounds_after(consecutive_restarts, uptime) <= u32::MAX,
    ensures
        action == (if code == EXIT_OK {
            WorkerExitAction::Stop
        } else {
            WorkerExitAction::Restart { backoff: backoff_of(rounds_after(consecutive_restarts, uptime)) }
        }),
{
    if code == EXIT_OK {
        return WorkerExitAction::Stop;
    }
    let rounds: u32 = if uptime >= STABLE_AFTER {
        1
    } else {
        consecutive_restarts + 1
    };
    let backoff: u64 = if rounds <= 1 {
        1
    } else if rounds == 2 {
        2
    } else if rounds == 3 {
        5
    } else if rounds == 4 {
        10
    } else {
        30
    };
    WorkerExitAction::Restart { backoff }
}

/// The master's count of restarts.
pub struct Supervisor {
    pub consecutive: u32,
}

impl Supervisor {
    /// No worker has ended yet.
    pub fn new() -> (s: Supervisor)
        ensures
            s.consecutive == 0,
    {
        Supervisor { consecutive: 0 }
    }

    /// A worker has ended. The count stays where it is at the largest number that
    /// it can hold.
    pub fn on_exit(&mut self, code: i32, uptime: u64) -> (action: WorkerExitAction)
        ensures
            action == (if code == EXIT_OK {
                WorkerExitAction::Stop
            } else {
                WorkerExitAction::Restart {
                    backoff: backoff_of(rounds_after(old(self).consecutive, uptime)),
                }
            }),
            code == EXIT_OK ==> final(self).consecutive == old(self).consecutive,
            code != EXIT_OK ==> final(self).consecutive == (if rounds_after(
                old(self).consecutive,
                uptime,
            ) <= u32::MAX {
                rounds_after(old(self).consecutive, uptime)
            } else {
                u32::MAX as int
            }),
    {
        if code == EXIT_OK {
            return WorkerExitAction::Stop;
        }
        if uptime < STABLE_AFTER && self.consecutive == u32::MAX {
            return WorkerExitAction::Restart { backoff: 30 };
        }
        let action = action_for_exit(code, self.consecutive, uptime);
        self.consecutive = if uptime >= STABLE_AFTER {
            1
        } else {
            self.consecutive + 1
        };
        action
    }
}

/// The more failures in a row, the longer the wait, up to half a minute. There is
/// always a wait.
pub proof fn lemma_backoff_grows(a: int, b: int)
    requires
        a <= b,
    ensures
        1 <= backoff_of(a) <= backoff_of(b) <= 30,
{
}

/// A directory that a configuration names; an empty text names none.
pub open spec fn named(dir: Option<Seq<char>>) -> Option<Seq<char>> {
    match dir {
        Some(d) => if d.len() == 0 {
            None
        } else {
            Some(d)
        },
        None => None,
    }
}

/// The directory that a configuration names, if it names one.
pub fn named_dir(dir: Option<&str>) -> (found: Option<&str>)
    ensures
        (match found {
            Some(d) => Some(d@),
            None => None,
        }) == named(match dir {
            Some(d) => Some(d@),
            None => None,
        }),
{
    match dir {
        Some(d) => {
            if d.is_empty() {
                None
            } else {
                Some(d)
            }
        },
        None => None,
    }
}

/// A master after a run of workers that failed, each after the seconds that the list
/// gives: its count, and how long it waited each time.
pub open spec fn waits_of(lives: Seq<u64>) -> (u32, Seq<u64>)
    decreases lives.len(),
{
    if lives.len() == 0 {
        (0, Seq::empty())
    } else {
        let before = waits_of(lives.drop_last());
        let rounds = rounds_after(before.0, lives.last());
        (
            if rounds <= u32::MAX {
                rounds as u32
            } else {
                u32::MAX
            },
            before.1.push(backoff_of(rounds)),
        )
    }
}

/// Workers that fail one after the other, each within a minute, are waited for 1, 2, 5,
/// 10 and 30 seconds, and for 30 from then on. A worker that lasted a minute counts as
/// the first to fail.
pub proof fn lemma_waits_grow_until_one_lasts(lives: Seq<u64>, i: int, first: int)
    requires
        0 <= first <= i < lives.len(),
        lives.len() < u32::MAX,
        first == 0 || lives[first] >= 60,
        forall|j: int| first < j <= i ==> #[trigger] lives[j] < 60,
    ensures
        waits_of(lives).1.len() == lives.len(),
        waits_of(lives).1[i] == (if i == first {
            1
        } else if i == first + 1 {
            2
        } else if i == first + 2 {
            5
        } else if i == first + 3 {
            10
        } else {
            30u64
        }),
    decreases lives.len(),
{
    let rest = lives.drop_last();
    if i < rest.len() {
        lemma_waits_grow_until_one_lasts(rest, i, first);
        lemma_count_of_waits(rest);
    } else {
        lemma_count_of_waits(rest);
        lemma_failures_since(rest, first);
    }
}

proof fn lemma_count_of_waits(lives: Seq<u64>)
    ensures
        waits_of(lives).1.len() == lives.len(),
    decreases lives.len(),
{
    if lives.len() > 0 {
        lemma_count_of_waits(lives.drop_last());
    }
}

proof fn lemma_failures_since(lives: Seq<u64>, first: int)
    requires
        0 <= first <= lives.len(),
        lives.len() < u32::MAX,
        first == 0 || first == lives.len() || lives[first] >= 60,
        forall|j: int| first < j < lives.len() ==> #[trigger] lives[j] < 60,
    ensures
        first == 0 || first < lives.len() ==> waits_of(lives).0 == lives.len() - first,
    decreases lives.len(),
{
    if lives.len() > 0 && first < lives.len() {
        let rest = lives.drop_last();
        if first < rest.len() {
            lemma_failures_since(rest, first);
        } else if first == 0 {
            lemma_failures_since(rest, 0);
        }
    }
}

/// An empty text names no directory, and any other names itself.
pub proof fn lemma_empty_name_is_none(dir: Seq<char>)
    ensures
        named(None) is None,
        named(Some(dir)) is None <==> dir.len() == 0,
        named(Some(dir)) matches Some(d) ==> d == dir,
{
}

} // verus!
