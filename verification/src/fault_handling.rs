//! Supervision: what a parent does with a failed child, and the restart
//! bookkeeping that limits how often a child may be restarted.
//!
//! Lengths of time are counted in nanoseconds.

use vstd::prelude::*;

verus! {

/// What a supervisor does with a failed child.
#[derive(Debug, Clone, Copy, PartialEq, Eq, Structural)]
pub enum Directive {
    Resume,
    Restart,
    Stop,
    Escalate,
}

impl Default for Directive {
    fn default() -> (d: Self)
        ensures
            d == Directive::Restart,
    {
        Directive::Restart
    }
}

/// Restart bookkeeping of one child: the restarts counted so far and the
/// start of the current time window (0 while no window has been opened).
#[derive(Debug)]
pub struct ChildRestartStats {
    pub max_nr_of_retries_count: i32,
    pub restart_time_window_start_nanos: i64,
}

impl Default for ChildRestartStats {
    fn default() -> (s: Self)
        ensures
            s.max_nr_of_retries_count == 0,
            s.restart_time_window_start_nanos == 0,
    {
        ChildRestartStats { max_nr_of_retries_count: 0, restart_time_window_start_nanos: 0 }
    }
}

/// A window of `window` milliseconds, in nanoseconds.
pub open spec fn window_nanos(window: i32) -> int {
    window as int * 1_000_000
}

/// Whether the windowed check can be made at time `now` without the
/// difference `now - start` leaving the range of `i64`.
pub open spec fn window_check_fits(count: i32, start: i64, now: i64) -> bool {
    &&& count < i32::MAX
    &&& (start == 0 || (i64::MIN <= now - start <= i64::MAX))
}

/// The windowed check at time `now`: whether the restart is permitted, and
/// the new count and window start.  The first check opens the window at
/// `now`; a restart inside the window is counted against `retries`; one
/// after it opens a new window and is permitted.
pub open spec fn window_outcome(count: i32, start: i64, retries: i32, window: i32, now: i64) -> (
    bool,
    int,
    int,
) {
    let retries_done = count + 1;
    let window_start: int = if start == 0 {
        now as int
    } else {
        start as int
    };
    if now - window_start <= window_nanos(window) {
        (retries_done <= retries, retries_done, window_start)
    } else {
        (true, 1, now as int)
    }
}

/// `s` is `old` after the windowed check at time `now` gave `granted`.
pub open spec fn window_step(
    old: ChildRestartStats,
    retries: i32,
    window: i32,
    now: i64,
    granted: bool,
    s: ChildRestartStats,
) -> bool {
    let o = window_outcome(
        old.max_nr_of_retries_count,
        old.restart_time_window_start_nanos,
        retries,
        window,
        now,
    );
    &&& window_check_fits(old.max_nr_of_retries_count, old.restart_time_window_start_nanos, now)
    &&& granted == o.0
    &&& s.max_nr_of_retries_count == o.1
    &&& s.restart_time_window_start_nanos == o.2
}

/// `s` is `old` after the windowed check was asked for at time `now`: where
/// the reading can be compared with the window start in `i64`, the check
/// was made; otherwise the restart was refused and nothing changed.
pub open spec fn window_at(
    old: ChildRestartStats,
    retries: i32,
    window: i32,
    now: i64,
    granted: bool,
    s: ChildRestartStats,
) -> bool {
    if window_check_fits(old.max_nr_of_retries_count, old.restart_time_window_start_nanos, now) {
        window_step(old, retries, window, now, granted, s)
    } else {
        !granted && s == old
    }
}

/// `s` is `old` after the windowed check was asked for at the time the
/// system clock gave: `window_at` at a reading of the clock in nanoseconds
/// since the Unix epoch.
pub open spec fn window_step_some_time(
    old: ChildRestartStats,
    retries: i32,
    window: i32,
    granted: bool,
    s: ChildRestartStats,
) -> bool {
    exists|now: i64| clock_reading_nanos(now) && #[trigger] window_at(old, retries, window, now, granted, s)
}

/// The windowed check, over all stats and readings `now` (nanoseconds since
/// the Unix epoch) that can be compared with the window start: a restart
/// more than `window` milliseconds (`window * 1_000_000` nanoseconds) after
/// the start of an open window opens a new window at `now`, counts one
/// restart and is permitted; one within the window counts one more restart
/// and is permitted while the count stays within `retries`; the first
/// restart opens the window at `now`.  A reading that cannot be compared
/// changes nothing and is refused.
pub proof fn law_window_check(
    old: ChildRestartStats,
    retries: i32,
    window: i32,
    now: i64,
    granted: bool,
    s: ChildRestartStats,
)
    requires
        window_at(old, retries, window, now, granted, s),
    ensures
        window_check_fits(old.max_nr_of_retries_count, old.restart_time_window_start_nanos, now) ==> {
            let start: int = if old.restart_time_window_start_nanos == 0 {
                now as int
            } else {
                old.restart_time_window_start_nanos as int
            };
            &&& now - start > window as int * 1_000_000 ==> granted && s.max_nr_of_retries_count == 1
                && s.restart_time_window_start_nanos == now
            &&& now - start <= window as int * 1_000_000 ==> s.max_nr_of_retries_count
                == old.max_nr_of_retries_count + 1 && s.restart_time_window_start_nanos == start && granted
                == (old.max_nr_of_retries_count + 1 <= retries)
        },
        !window_check_fits(old.max_nr_of_retries_count, old.restart_time_window_start_nanos, now) ==> !granted
            && s == old,
{
}

/// What a restart request with the given (retries, window) limits needs
/// beyond the windowed check: room to count one more restart.
pub open spec fn request_fits(old: ChildRestartStats, retries_window: (Option<i32>, Option<i32>)) -> bool {
    match retries_window {
        (Some(retries), _) if retries < 1 => true,
        (None, None) => true,
        _ => old.max_nr_of_retries_count < i32::MAX,
    }
}

/// A restart request with the given limits, where `windowed` says what the
/// windowed check did.  With no limit the restart is permitted; with a
/// limit below one it is refused; with a limit and no window the count
/// goes up by one and is compared with the limit; with a window the
/// windowed check decides, with one retry where no limit is given.
pub open spec fn request_outcome(
    old: ChildRestartStats,
    retries_window: (Option<i32>, Option<i32>),
    granted: bool,
    s: ChildRestartStats,
    windowed: spec_fn(i32, i32) -> bool,
) -> bool {
    match retries_window {
        (Some(retries), _) if retries < 1 => !granted && s == old,
        (Some(retries), None) => {
            &&& s.max_nr_of_retries_count == old.max_nr_of_retries_count + 1
            &&& s.restart_time_window_start_nanos == old.restart_time_window_start_nanos
            &&& granted == (s.max_nr_of_retries_count <= retries)
        },
        (x, Some(window)) => windowed(
            match x {
                Some(r) => r,
                None => 1,
            },
            window,
        ),
        (None, None) => granted && s == old,
    }
}

/// A restart request made at time `now`.
pub open spec fn request_at(
    old: ChildRestartStats,
    retries_window: (Option<i32>, Option<i32>),
    now: i64,
    granted: bool,
    s: ChildRestartStats,
) -> bool {
    request_outcome(
        old,
        retries_window,
        granted,
        s,
        |retries: i32, window: i32| window_at(old, retries, window, now, granted, s),
    )
}

/// A restart request made at whatever time the clock gave.
pub open spec fn request_some_time(
    old: ChildRestartStats,
    retries_window: (Option<i32>, Option<i32>),
    granted: bool,
    s: ChildRestartStats,
) -> bool {
    request_outcome(
        old,
        retries_window,
        granted,
        s,
        |retries: i32, window: i32| window_step_some_time(old, retries, window, granted, s),
    )
}

/// With a window, a restart request is the windowed check with the
/// request's retry limit (one where none is given), at one clock reading
/// and at whatever reading the clock gives; the outcome and the new stats
/// are those of the check.
pub proof fn law_windowed_request_is_window_check(
    old: ChildRestartStats,
    retries: Option<i32>,
    window: i32,
    now: i64,
    granted: bool,
    s: ChildRestartStats,
)
    requires
        retries matches Some(r) ==> r >= 1,
    ensures
        request_at(old, (retries, Some(window)), now, granted, s) == window_at(
            old,
            match retries { Some(r) => r, None => 1 },
            window,
            now,
            granted,
            s,
        ),
        request_some_time(old, (retries, Some(window)), granted, s) == window_step_some_time(
            old,
            match retries { Some(r) => r, None => 1 },
            window,
            granted,
            s,
        ),
{
}


#[verifier::external_type_specification]
#[verifier::external_body]
pub struct ExSystemTime(std::time::SystemTime);

#[verifier::external_type_specification]
#[verifier::external_body]
pub struct ExSystemTimeError(std::time::SystemTimeError);

/// Calls `SystemTime::now()`: the system clock's reading.  Nothing is
/// stated of it (it depends on the time).
#[verifier::external_body]
fn system_now() -> std::time::SystemTime {
    std::time::SystemTime::now()
}

/// Calls `duration_since(UNIX_EPOCH)` on `t`: how long after the Unix
/// epoch `t` is, or an error where `t` is before it.  Nothing is stated of
/// which comes back: that depends on the clock's reading.
#[verifier::external_body]
fn since_epoch(t: &std::time::SystemTime) -> std::result::Result<std::time::Duration, std::time::SystemTimeError> {
    t.duration_since(std::time::UNIX_EPOCH)
}

/// Calls `SystemTimeError::duration()`: how far before the epoch the
/// reading was.  Nothing is stated of it (it depends on the reading).
#[verifier::external_body]
fn error_offset(e: &std::time::SystemTimeError) -> std::time::Duration {
    e.duration()
}

/// Calls `Duration::as_nanos()`.  The duration is opaque here, so nothing
/// is stated of the number.
#[verifier::external_body]
fn duration_nanos(d: &std::time::Duration) -> u128 {
    d.as_nanos()
}

/// `r` is a reading of the system clock in nanoseconds since the Unix
/// epoch: the number of nanoseconds (`Duration::as_nanos`) by which the
/// clock's reading (`SystemTime::now`) is after the epoch, cast to `i64`;
/// where the reading is before the epoch, that number of nanoseconds
/// before it, negated (the most negative `i64` where it does not fit).
pub closed spec fn clock_reading_nanos(r: i64) -> bool {
    exists|t: std::time::SystemTime, d: std::time::Duration, n: u128| {
        &&& call_ensures(system_now, (), t)
        &&& call_ensures(duration_nanos, (&d,), n)
        &&& {
            ||| call_ensures(since_epoch, (&t,), Ok::<std::time::Duration, std::time::SystemTimeError>(d))
                && r == n as i64
            ||| exists|e: std::time::SystemTimeError| {
                &&& call_ensures(since_epoch, (&t,), Err::<std::time::Duration, std::time::SystemTimeError>(e))
                &&& call_ensures(error_offset, (&e,), d)
                &&& r == (if n <= i64::MAX as u128 { -(n as int) } else { i64::MIN as int }) as i64
            }
        }
    }
}

/// Reads the system clock in nanoseconds since the Unix epoch, cast to
/// `i64`; a clock set before the epoch gives the negative offset (the most
/// negative number where that does not fit).
fn clock_nanos() -> (r: i64)
    ensures
        clock_reading_nanos(r),
{
    let now = system_now();
    match since_epoch(&now) {
        Ok(d) => {
            let n = duration_nanos(&d);
            #[verifier::truncate]
            (n as i64)
        },
        Err(e) => {
            let back = error_offset(&e);
            let n = duration_nanos(&back);
            if n <= 0x7fff_ffff_ffff_ffffu128 {
                let m: i64 = n as i64;
                -m
            } else {
                i64::MIN
            }
        },
    }
}

impl ChildRestartStats {
    /// The windowed check at a given time `now` (nanoseconds since the
    /// Unix epoch).  Where the reading cannot be compared with the window
    /// start in `i64`, nothing changes and the restart is refused.
    pub fn retries_in_window_okay_at(&mut self, retries: i32, window: i32, now: i64) -> (r: bool)
        requires
            old(self).max_nr_of_retries_count < i32::MAX,
        ensures
            window_at(*old(self), retries, window, now, r, *final(self)),
            window_check_fits(old(self).max_nr_of_retries_count, old(self).restart_time_window_start_nanos, now)
                ==> window_step(*old(self), retries, window, now, r, *final(self)),
            !window_check_fits(old(self).max_nr_of_retries_count, old(self).restart_time_window_start_nanos, now)
                ==> !r && *final(self) == *old(self),
    {
        let start = self.restart_time_window_start_nanos;
        let fits = start == 0 || (start >= 0 && now >= 0) || (start < 0 && now < 0) || (start
            >= 0 && now < 0 && now >= i64::MIN + start) || (start < 0 && now >= 0 && now
            <= i64::MAX + start);
        if !fits {
            assert(!window_check_fits(
                self.max_nr_of_retries_count,
                self.restart_time_window_start_nanos,
                now,
            ));
            return false;
        }
        let retries_done = self.max_nr_of_retries_count + 1;
        let window_start = if self.restart_time_window_start_nanos == 0 {
            self.restart_time_window_start_nanos = now;
            now
        } else {
            self.restart_time_window_start_nanos
        };
        let window_ns: i64 = window as i64 * 1_000_000;
        let inside_window = (now - window_start) <= window_ns;
        if inside_window {
            self.max_nr_of_retries_count = retries_done;
            retries_done <= retries
        } else {
            self.max_nr_of_retries_count = 1;
            self.restart_time_window_start_nanos = now;
            true
        }
    }

    /// The windowed check at the time the system clock gives: the clock is
    /// read and `retries_in_window_okay_at` decides.
    pub fn retries_in_window_okay(&mut self, retries: i32, window: i32) -> (r: bool)
        requires
            old(self).max_nr_of_retries_count < i32::MAX,
        ensures
            window_step_some_time(*old(self), retries, window, r, *final(self)),
    {
        let now = clock_nanos();
        self.retries_in_window_okay_at(retries, window, now)
    }

    /// A restart request at a given time `now`, under the limits
    /// (retries, window in milliseconds) of a strategy.
    pub fn request_restart_permission_at(
        &mut self,
        retries_window: (Option<i32>, Option<i32>),
        now: i64,
    ) -> (r: bool)
        requires
            request_fits(*old(self), retries_window),
        ensures
            request_at(*old(self), retries_window, now, r, *final(self)),
    {
        match retries_window {
            (Some(retries), _) if retries < 1 => false,
            (Some(retries), None) => {
                self.max_nr_of_retries_count = self.max_nr_of_retries_count + 1;
                self.max_nr_of_retries_count <= retries
            },
            (x, Some(window)) => {
                let retries = match x {
                    Some(r) => r,
                    None => 1,
                };
                self.retries_in_window_okay_at(retries, window, now)
            },
            (None, None) => true,
        }
    }

    /// A restart request at the time the system clock gives, under the
    /// limits (retries, window in milliseconds) of a strategy.
    pub fn request_restart_permission(&mut self, retries_window: (Option<i32>, Option<i32>)) -> (r:
        bool)
        requires
            request_fits(*old(self), retries_window),
        ensures
            request_some_time(*old(self), retries_window, r, *final(self)),
    {
        match retries_window {
            (Some(retries), _) if retries < 1 => false,
            (Some(retries), None) => {
                self.max_nr_of_retries_count = self.max_nr_of_retries_count + 1;
                self.max_nr_of_retries_count <= retries
            },
            (x, Some(window)) => {
                let retries = match x {
                    Some(r) => r,
                    None => 1,
                };
                self.retries_in_window_okay(retries, window)
            },
            (None, None) => true,
        }
    }
}

/// A limit on retries, where a negative number means none.
pub open spec fn spec_retries_limit(max_nr_or_retries: i32) -> Option<i32> {
    if max_nr_or_retries < 0 {
        None
    } else {
        Some(max_nr_or_retries)
    }
}

/// A time range, where zero means none.
pub open spec fn spec_time_range(within_time_range: Option<u128>) -> Option<u128> {
    match within_time_range {
        Some(r) if r > 0 => Some(r),
        _ => None,
    }
}

/// The (retries, window in milliseconds) limits of a strategy.
pub open spec fn spec_retries_window(max_nr_of_retries: i32, within_time_range: Option<u128>) -> (
    Option<i32>,
    Option<i32>,
) {
    (
        spec_retries_limit(max_nr_of_retries),
        match spec_time_range(within_time_range) {
            Some(r) => Some((r / 1_000_000) as i32),
            None => None,
        },
    )
}

/// The retry limit of a strategy: none where it is negative.
pub fn max_nr_or_retries_option(max_nr_or_retries: i32) -> (r: Option<i32>)
    ensures
        r == spec_retries_limit(max_nr_or_retries),
{
    if max_nr_or_retries < 0 {
        None
    } else {
        Some(max_nr_or_retries)
    }
}

/// The time range of a strategy: none where it is absent or zero.
pub fn within_time_range_option(within_time_range: Option<u128>) -> (r: Option<u128>)
    ensures
        r == spec_time_range(within_time_range),
{
    match within_time_range {
        Some(within_time_range) if within_time_range > 0 => Some(within_time_range),
        _ => None,
    }
}

fn retries_window_of(max_nr_of_retries: i32, within_time_range: Option<u128>) -> (r: (
    Option<i32>,
    Option<i32>,
))
    ensures
        r == spec_retries_window(max_nr_of_retries, within_time_range),
{
    let window = match within_time_range_option(within_time_range) {
        Some(range) => Some((range / 1_000_000) as i32),
        None => None,
    };
    (max_nr_or_retries_option(max_nr_of_retries), window)
}

/// What the supervisor's directive asks for a failed child.
#[derive(Debug, Clone, Copy, PartialEq, Eq, Structural)]
pub enum FailureStep {
    /// Resume the child.
    Resume,
    /// Process the failure, restarting where `restart` holds and the
    /// restart is permitted, stopping otherwise.
    Process { restart: bool },
    /// Hand the failure to the supervisor's own parent.
    Escalate,
}

impl FailureStep {
    /// Whether the failure was handled here (it was not escalated).
    pub fn handled(&self) -> (r: bool)
        ensures
            r == !(*self is Escalate),
    {
        match self {
            FailureStep::Escalate => false,
            _ => true,
        }
    }
}

/// The step a directive asks for.
pub fn handle_failure(directive: Directive) -> (r: FailureStep)
    ensures
        r == (match directive {
            Directive::Resume => FailureStep::Resume,
            Directive::Restart => FailureStep::Process { restart: true },
            Directive::Stop => FailureStep::Process { restart: false },
            Directive::Escalate => FailureStep::Escalate,
        }),
{
    match directive {
        Directive::Resume => FailureStep::Resume,
        Directive::Restart => FailureStep::Process { restart: true },
        Directive::Stop => FailureStep::Process { restart: false },
        Directive::Escalate => FailureStep::Escalate,
    }
}

/// What becomes of a failed child under a one-for-one strategy.
#[derive(Debug, Clone, Copy, PartialEq, Eq, Structural)]
pub enum ChildVerdict {
    Restart,
    Stop,
}

/// What becomes of all children under an all-for-one strategy.
#[derive(Debug, Clone, Copy, PartialEq, Eq, Structural)]
pub enum ChildrenVerdict {
    /// There are no children.
    Nothing,
    RestartAll,
    StopAll,
}

/// A strategy that applies its directive to all children of the
/// supervisor when one fails.
#[derive(Debug, Clone, Copy)]
pub struct AllForOneStrategy {
    pub max_nr_of_retries: i32,
    /// The time range in nanoseconds.
    pub within_time_range: Option<u128>,
    pub directive: Directive,
}

impl AllForOneStrategy {
    /// The directive of the strategy.
    pub fn directive(&self) -> (r: Directive)
        ensures
            r == self.directive,
    {
        self.directive
    }

    /// The (retries, window in milliseconds) limits of the strategy.
    pub fn retries_window(&self) -> (r: (Option<i32>, Option<i32>))
        ensures
            r == spec_retries_window(self.max_nr_of_retries, self.within_time_range),
    {
        retries_window_of(self.max_nr_of_retries, self.within_time_range)
    }

    /// Processes a failure with the restart statistics of all children:
    /// with none, nothing happens; where `restart` holds, each child is
    /// asked in turn for permission until one refuses, and all are
    /// restarted if none refused; otherwise all are stopped.
    pub fn process_failure(&self, restart: bool, children: &mut Vec<ChildRestartStats>) -> (r:
        ChildrenVerdict)
        requires
            forall|i: int|
                0 <= i < old(children).len() ==> request_fits(
                    #[trigger] old(children)[i],
                    spec_retries_window(self.max_nr_of_retries, self.within_time_range),
                ),
        ensures
            all_for_one_outcome(
                old(children)@,
                spec_retries_window(self.max_nr_of_retries, self.within_time_range),
                restart,
                r,
                final(children)@,
            ),
    {
        if children.len() == 0 {
            return ChildrenVerdict::Nothing;
        }
        if !restart {
            return ChildrenVerdict::StopAll;
        }
        let window = self.retries_window();
        let ghost before = children@;
        let mut i: usize = 0;
        while i < children.len()
            invariant_except_break
                0 <= i <= children.len(),
                children.len() == before.len(),
                window == spec_retries_window(self.max_nr_of_retries, self.within_time_range),
                forall|j: int|
                    0 <= j < before.len() ==> request_fits(#[trigger] before[j], window),
                forall|j: int|
                    0 <= j < i ==> request_some_time(#[trigger] before[j], window, true, children[j]),
                forall|j: int| i <= j < before.len() ==> #[trigger] children[j] == before[j],
            ensures
                asked_in_turn(before, window, children@, i as int),
            decreases children.len() - i,
        {
            let mut stats = ChildRestartStats {
                max_nr_of_retries_count: children[i].max_nr_of_retries_count,
                restart_time_window_start_nanos: children[i].restart_time_window_start_nanos,
            };
            let granted = stats.request_restart_permission(window);
            children.set(i, stats);
            if !granted {
                break;
            }
            i = i + 1;
        }
        if i == children.len() {
            ChildrenVerdict::RestartAll
        } else {
            ChildrenVerdict::StopAll
        }
    }
}

/// After a failure under an all-for-one strategy, the first `k` children
/// were asked for a restart and permitted it, the child at `k` (if any)
/// was asked and refused, and the rest were not asked.
pub open spec fn asked_in_turn(
    before: Seq<ChildRestartStats>,
    window: (Option<i32>, Option<i32>),
    after: Seq<ChildRestartStats>,
    k: int,
) -> bool {
    &&& 0 <= k <= before.len()
    &&& after.len() == before.len()
    &&& forall|i: int| 0 <= i < k ==> request_some_time(#[trigger] before[i], window, true, after[i])
    &&& k < before.len() ==> request_some_time(before[k], window, false, after[k])
    &&& forall|i: int| k < i < before.len() ==> #[trigger] after[i] == before[i]
}

/// What an all-for-one strategy does with a failure: nothing without
/// children; stop all where no restart is asked; otherwise ask the
/// children in turn and restart all only if none refused.
pub open spec fn all_for_one_outcome(
    before: Seq<ChildRestartStats>,
    window: (Option<i32>, Option<i32>),
    restart: bool,
    r: ChildrenVerdict,
    after: Seq<ChildRestartStats>,
) -> bool {
    if before.len() == 0 {
        r == ChildrenVerdict::Nothing && after == before
    } else if !restart {
        r == ChildrenVerdict::StopAll && after == before
    } else {
        exists|k: int|
            asked_in_turn(before, window, after, k) && (r == ChildrenVerdict::RestartAll <==> k
                == before.len()) && (r == ChildrenVerdict::RestartAll || r
                == ChildrenVerdict::StopAll)
    }
}

/// A strategy that applies its directive to the failed child alone.
#[derive(Debug, Clone, Copy)]
pub struct OneForOneStrategy {
    pub max_nr_of_retries: i32,
    /// The time range in nanoseconds.
    pub within_time_range: Option<u128>,
    pub directive: Directive,
}

impl Default for OneForOneStrategy {
    fn default() -> (s: Self)
        ensures
            s.max_nr_of_retries == -1,
            s.within_time_range is None,
            s.directive == Directive::Restart,
    {
        OneForOneStrategy {
            max_nr_of_retries: -1,
            within_time_range: None,
            directive: Directive::default(),
        }
    }
}

impl OneForOneStrategy {
    /// The directive of the strategy.
    pub fn directive(&self) -> (r: Directive)
        ensures
            r == self.directive,
    {
        self.directive
    }

    /// The (retries, window in milliseconds) limits of the strategy.
    pub fn retries_window(&self) -> (r: (Option<i32>, Option<i32>))
        ensures
            r == spec_retries_window(self.max_nr_of_retries, self.within_time_range),
    {
        retries_window_of(self.max_nr_of_retries, self.within_time_range)
    }

    /// Processes a failure of one child: it is restarted where `restart`
    /// holds and the restart is permitted, and stopped otherwise.
    pub fn process_failure(&self, restart: bool, stats: &mut ChildRestartStats) -> (r: ChildVerdict)
        requires
            restart ==> request_fits(
                *old(stats),
                spec_retries_window(self.max_nr_of_retries, self.within_time_range),
            ),
        ensures
            !restart ==> r == ChildVerdict::Stop && *final(stats) == *old(stats),
            restart ==> request_some_time(
                *old(stats),
                spec_retries_window(self.max_nr_of_retries, self.within_time_range),
                r == ChildVerdict::Restart,
                *final(stats),
            ),
    {
        if restart && stats.request_restart_permission(self.retries_window()) {
            ChildVerdict::Restart
        } else {
            ChildVerdict::Stop
        }
    }
}

/// The default strategy: one for one, restarting without limit.
pub fn default_strategy() -> (s: OneForOneStrategy)
    ensures
        s.max_nr_of_retries == -1,
        s.within_time_range is None,
        s.directive == Directive::Restart,
{
    OneForOneStrategy::default()
}

/// The stopping strategy: one for one, stopping every failed child.
pub fn stopping_strategy() -> (s: OneForOneStrategy)
    ensures
        s.max_nr_of_retries == -1,
        s.within_time_range is None,
        s.directive == Directive::Stop,
{
    let mut default = OneForOneStrategy::default();
    default.directive = Directive::Stop;
    default
}

} // verus!
