//! When to look at the foreground job, and what to conclude from what is found there.
use crate::osc::AgentId;
use crate::platform::Pid;
use crate::state::{later, Nanos};
use crate::text::same_text;
use vstd::prelude::*;

verus! {

/// Between two looks while an idle is held back.
pub const HOLD_TICK: Nanos = 100_000_000;

/// Between two looks while an agent is known.
pub const IDENTIFIED_TICK: Nanos = 300_000_000;

/// Between two looks while none is.
pub const UNIDENTIFIED_TICK: Nanos = 500_000_000;

/// Between two listings of the job while an agent is known.
pub const REPROBE: Nanos = 5_000_000_000;

/// How long the next agent is likely to be launched after something changed.
pub const ACQUISITION: Nanos = 8_000_000_000;

/// How long every look lists the job after something changed.
pub const EAGER_ACQUISITION: Nanos = 1_500_000_000;

/// Between two listings in the rest of that time.
pub const ACQUISITION_PROBE: Nanos = 2_000_000_000;

/// How often in a row an agent may be missed in a foreign job before it counts as gone.
pub const MISSES: u8 = 6;

/// The time from one point to another; none where the other is not later.
pub open spec fn elapsed(since: Nanos, now: Nanos) -> Nanos {
    if now > since {
        (now - since) as u64
    } else {
        0
    }
}

/// The schedule in mathematical terms: the next look, the last listing, and the last change after
/// which an agent is likely to be launched.
#[verifier::ext_equal]
pub struct ScheduleView {
    pub next: Nanos,
    pub last_full: Option<Nanos>,
    pub acquisition: Option<Nanos>,
}

impl ScheduleView {
    /// The time between this look and the next.
    pub open spec fn cadence(identified: bool, hold: bool) -> Nanos {
        if hold {
            HOLD_TICK
        } else if identified {
            IDENTIFIED_TICK
        } else {
            UNIDENTIFIED_TICK
        }
    }

    /// The last listing is at least so long ago, or there was none.
    pub open spec fn stale(self, span: Nanos, now: Nanos) -> bool {
        match self.last_full {
            Some(last) => elapsed(last, now) >= span,
            None => true,
        }
    }

    /// The job is listed because an agent is likely to be launched.
    pub open spec fn acquires(self, now: Nanos) -> bool {
        match self.acquisition {
            Some(opened) => elapsed(opened, now) < ACQUISITION && (elapsed(opened, now)
                < EAGER_ACQUISITION || self.stale(ACQUISITION_PROBE, now)),
            None => false,
        }
    }

    /// The schedule with the change of the foreground group noted.
    pub open spec fn noted(self, now: Nanos, identified: bool, pgid_changed: bool) -> ScheduleView {
        if pgid_changed && !identified {
            ScheduleView { acquisition: Some(now), ..self }
        } else {
            self
        }
    }

    /// The job is to be listed.
    pub open spec fn lists(self, now: Nanos, identified: bool, pgid_changed: bool) -> bool {
        ||| pgid_changed
        ||| self.last_full is None
        ||| identified && self.stale(REPROBE, now)
        ||| self.noted(now, identified, pgid_changed).acquires(now)
    }

    /// The schedule after a look.
    pub open spec fn completed(
        self,
        now: Nanos,
        identified: bool,
        hold: bool,
        pgid_changed: bool,
    ) -> ScheduleView {
        ScheduleView {
            next: later(now, Self::cadence(identified, hold)),
            last_full: if self.lists(now, identified, pgid_changed) {
                Some(now)
            } else {
                self.last_full
            },
            ..self.noted(now, identified, pgid_changed)
        }
    }
}

fn span_between(since: Nanos, now: Nanos) -> (span: Nanos)
    ensures
        span == elapsed(since, now),
{
    if now > since {
        now - since
    } else {
        0
    }
}

/// When to look at the foreground job.
pub struct Scheduler {
    next: Nanos,
    last_full: Option<Nanos>,
    acquisition: Option<Nanos>,
}

impl View for Scheduler {
    type V = ScheduleView;

    closed spec fn view(&self) -> ScheduleView {
        ScheduleView {
            next: self.next,
            last_full: self.last_full,
            acquisition: self.acquisition,
        }
    }
}

impl Scheduler {
    #[must_use]
    pub fn new(now: Nanos) -> (scheduler: Self)
        ensures
            scheduler@ == (ScheduleView { next: now, last_full: None, acquisition: None }),
    {
        Scheduler { next: now, last_full: None, acquisition: None }
    }

    /// Takes note of a change on a screen without an agent.
    pub fn screen_changed_without_agent(&mut self, now: Nanos)
        ensures
            final(self)@ == (ScheduleView { next: now, acquisition: Some(now), ..old(self)@ }),
    {
        self.acquisition = Some(now);
        self.next = now;
    }

    /// Whether it is time to look.
    #[must_use]
    pub fn due(&self, now: Nanos) -> (due: bool)
        ensures
            due == (now >= self@.next),
    {
        now >= self.next
    }

    fn stale(&self, span: Nanos, now: Nanos) -> (stale: bool)
        ensures
            stale == self@.stale(span, now),
    {
        match self.last_full {
            Some(last) => span_between(last, now) >= span,
            None => true,
        }
    }

    /// Takes note of a look, and tells whether the job is to be listed.
    pub fn completed(
        &mut self,
        now: Nanos,
        identified: bool,
        hold: bool,
        pgid_changed: bool,
    ) -> (full: bool)
        ensures
            final(self)@ == old(self)@.completed(now, identified, hold, pgid_changed),
            full == old(self)@.lists(now, identified, pgid_changed),
    {
        if pgid_changed && !identified {
            self.acquisition = Some(now);
        }
        let acquires = match self.acquisition {
            Some(opened) => {
                let since: u64 = span_between(opened, now);
                since < ACQUISITION && (since < EAGER_ACQUISITION || self.stale(
                    ACQUISITION_PROBE,
                    now,
                ))
            },
            None => false,
        };
        let full = pgid_changed || self.last_full.is_none() || (identified && self.stale(
            REPROBE,
            now,
        )) || acquires;
        if full {
            self.last_full = Some(now);
        }
        let cadence: u64 = if hold {
            HOLD_TICK
        } else if identified {
            IDENTIFIED_TICK
        } else {
            UNIDENTIFIED_TICK
        };
        self.next = if cadence > u64::MAX - now {
            u64::MAX
        } else {
            now + cadence
        };
        full
    }
}

/// What a listing of the job says about the agent.
#[derive(Debug, PartialEq, Eq)]
pub enum Detection {
    /// An agent came, or came back in another process.
    AgentFound { id: AgentId, pid: Pid },
    /// The shell is back in the foreground.
    Exited { agent: AgentId },
    /// The agent is gone.
    AgentLost,
}

/// What a listing of the job says about the agent, in mathematical terms.
#[verifier::ext_equal]
pub enum DetectionView {
    AgentFound { id: Seq<char>, pid: Pid },
    Exited { agent: Seq<char> },
    AgentLost,
}

impl View for Detection {
    type V = DetectionView;

    open spec fn view(&self) -> DetectionView {
        match *self {
            Detection::AgentFound { id, pid } => DetectionView::AgentFound { id: id@, pid },
            Detection::Exited { agent } => DetectionView::Exited { agent: agent@ },
            Detection::AgentLost => DetectionView::AgentLost,
        }
    }
}

/// A detection, where there is one, in mathematical terms.
pub open spec fn detection_view(detection: Option<Detection>) -> Option<DetectionView> {
    match detection {
        Some(value) => Some(value@),
        None => None,
    }
}

/// An agent and its process, where there is one, in mathematical terms.
pub open spec fn sighting_view(sighting: Option<(AgentId, Pid)>) -> Option<(Seq<char>, Pid)> {
    match sighting {
        Some((id, pid)) => Some((id@, pid)),
        None => None,
    }
}

/// What is known of the agent in mathematical terms: who it is and in which process, whether it
/// has exited, and how often in a row it was missed.
#[verifier::ext_equal]
pub struct LossView {
    pub current: Option<(Seq<char>, Pid)>,
    pub exited: bool,
    pub misses: u8,
}

/// Nothing is known of an agent.
pub open spec fn unknown_agent() -> LossView {
    LossView { current: None, exited: false, misses: 0 }
}

impl LossView {
    /// An agent that was missed too often, or has exited, is not kept.
    pub open spec fn consistent(self) -> bool {
        &&& self.misses < MISSES
        &&& self.current is None ==> !self.exited && self.misses == 0
        &&& self.exited ==> self.misses == 0
    }

    /// What is known after a listing, and what it says.
    pub open spec fn updated(
        self,
        detected: Option<(Seq<char>, Pid)>,
        shell: bool,
    ) -> (LossView, Option<DetectionView>) {
        match (detected, self.current) {
            (Some((id, pid)), current) => if current == Some((id, pid)) && !self.exited {
                (LossView { misses: 0, ..self }, None)
            } else {
                (
                    LossView { current: detected, exited: false, misses: 0 },
                    Some(DetectionView::AgentFound { id, pid }),
                )
            },
            (None, None) => (self, None),
            (None, Some((id, _))) => if self.exited || (!shell && self.misses + 1 >= MISSES) {
                (unknown_agent(), Some(DetectionView::AgentLost))
            } else if shell {
                (
                    LossView { exited: true, misses: 0, ..self },
                    Some(DetectionView::Exited { agent: id }),
                )
            } else {
                (LossView { misses: (self.misses + 1) as u8, ..self }, None)
            },
        }
    }
}

/// Follows an agent from listing to listing.
pub struct LossTracker {
    current: Option<(AgentId, Pid)>,
    exited: bool,
    misses: u8,
}

impl View for LossTracker {
    type V = LossView;

    closed spec fn view(&self) -> LossView {
        LossView {
            current: sighting_view(self.current),
            exited: self.exited,
            misses: self.misses,
        }
    }
}

impl LossTracker {
    #[must_use]
    pub fn new() -> (tracker: Self)
        ensures
            tracker@ == unknown_agent(),
    {
        LossTracker { current: None, exited: false, misses: 0 }
    }

    /// Whether an agent was listed and is not gone yet.
    #[must_use]
    pub fn known(&self) -> (known: bool)
        ensures
            known == self@.current is Some,
    {
        self.current.is_some()
    }

    /// Takes note of a listing: the agent in it, if there is one, and whether the shell is in it.
    pub fn update(&mut self, detected: Option<(AgentId, Pid)>, shell: bool) -> (detection: Option<
        Detection,
    >)
        ensures
            (final(self)@, detection_view(detection)) == old(self)@.updated(
                sighting_view(detected),
                shell,
            ),
    {
        match detected {
            Some((id, pid)) => {
                let known = match &self.current {
                    Some((current, process)) => same_text(current.as_str(), id.as_str()) && *process
                        == pid && !self.exited,
                    None => false,
                };
                self.misses = 0;
                if known {
                    return None;
                }
                self.exited = false;
                self.current = Some((id.clone(), pid));
                Some(Detection::AgentFound { id, pid })
            },
            None => {
                let agent = match &self.current {
                    Some((id, _)) => id.clone(),
                    None => {
                        return None;
                    },
                };
                if self.exited || (!shell && self.misses >= MISSES - 1) {
                    self.current = None;
                    self.exited = false;
                    self.misses = 0;
                    return Some(Detection::AgentLost);
                }
                if shell {
                    self.exited = true;
                    self.misses = 0;
                    return Some(Detection::Exited { agent });
                }
                self.misses = self.misses + 1;
                None
            },
        }
    }
}

/// The agent is in no listing, and neither is the shell: what is known after so many of them.
pub open spec fn missed(loss: LossView, times: nat) -> LossView
    decreases times,
{
    if times == 0 {
        loss
    } else {
        missed(loss, (times - 1) as nat).updated(None, false).0
    }
}

/// Every listing keeps what is known consistent.
pub proof fn listings_keep_consistency(
    loss: LossView,
    detected: Option<(Seq<char>, Pid)>,
    shell: bool,
)
    requires
        loss.consistent(),
    ensures
        loss.updated(detected, shell).0.consistent(),
        unknown_agent().consistent(),
{
}

/// A job that holds neither the agent nor the shell does not end the agent until it was missed six
/// times in a row.
pub proof fn sixth_miss_loses_the_agent(loss: LossView, times: nat)
    requires
        loss.current is Some,
        !loss.exited,
        loss.misses == 0,
        0 < times <= MISSES,
    ensures
        times < MISSES ==> {
            &&& missed(loss, times).current == loss.current
            &&& missed(loss, (times - 1) as nat).updated(None, false).1 is None
        },
        times == MISSES ==> missed(loss, (times - 1) as nat).updated(None, false) == (
            unknown_agent(),
            Some(DetectionView::AgentLost),
        ),
    decreases times,
{
    lemma_misses(loss, (times - 1) as nat);
    if times < MISSES {
        lemma_misses(loss, times);
    }
}

proof fn lemma_misses(loss: LossView, times: nat)
    requires
        loss.current is Some,
        !loss.exited,
        loss.misses == 0,
        times < MISSES,
    ensures
        missed(loss, times) == (LossView { misses: times as u8, ..loss }),
    decreases times,
{
    if times > 0 {
        lemma_misses(loss, (times - 1) as nat);
    }
}

/// Seeing the agent again forgets how often it was missed.
pub proof fn a_sighting_forgets_misses(loss: LossView, shell: bool)
    requires
        loss.current is Some,
        !loss.exited,
    ensures
        loss.updated(loss.current, shell) == (LossView { misses: 0, ..loss }, None::<DetectionView>),
{
}

/// The shell in the foreground ends the agent: at once it has exited, and the next listing without
/// an agent clears it.
pub proof fn shell_ends_the_agent(loss: LossView, shell: bool)
    requires
        loss.consistent(),
        loss.current is Some,
        !loss.exited,
    ensures
        ({
            let (gone, first) = loss.updated(None, true);
            let (cleared, second) = gone.updated(None, shell);
            &&& first == Some(DetectionView::Exited { agent: (loss.current->0).0 })
            &&& gone.current == loss.current
            &&& second == Some(DetectionView::AgentLost)
            &&& cleared == unknown_agent()
        }),
{
}

/// Another agent, the same one in another process, and one that comes back after it has exited are
/// all found anew.
pub proof fn a_relaunch_is_found(loss: LossView, id: Seq<char>, pid: Pid, shell: bool)
    requires
        loss.current != Some((id, pid)) || loss.exited,
    ensures
        loss.updated(Some((id, pid)), shell) == (
            LossView { current: Some((id, pid)), exited: false, misses: 0 },
            Some(DetectionView::AgentFound { id, pid }),
        ),
{
}

/// A change of the foreground group always lists the job, and so does the first look.
pub proof fn changes_list_the_job(schedule: ScheduleView, now: Nanos, identified: bool)
    ensures
        schedule.lists(now, identified, true),
        schedule.last_full is None ==> schedule.lists(now, identified, false),
{
}

/// While an agent is known and the group stays the same, the job is listed every five seconds, and
/// no more often unless another agent is likely to be launched.
pub proof fn known_agents_are_reprobed(schedule: ScheduleView, last: Nanos, now: Nanos)
    requires
        schedule.last_full == Some(last),
        last <= now,
        schedule.acquisition matches Some(opened) ==> elapsed(opened, now) >= ACQUISITION,
    ensures
        schedule.lists(now, true, false) == (now - last >= REPROBE),
{
}

/// Whether an agent is known or not, every look within a second and a half after a change lists the
/// job, then one every two seconds does, until eight seconds are over. After that none does while
/// no agent is known.
pub proof fn acquisition_is_eager_and_ends(
    schedule: ScheduleView,
    opened: Nanos,
    last: Nanos,
    now: Nanos,
    identified: bool,
)
    requires
        schedule.acquisition == Some(opened),
        schedule.last_full == Some(last),
        opened <= now,
        last <= now,
    ensures
        now - opened < EAGER_ACQUISITION ==> schedule.lists(now, identified, false),
        EAGER_ACQUISITION <= now - opened < ACQUISITION ==> schedule.lists(now, identified, false)
            == (now - last >= ACQUISITION_PROBE),
        now - opened >= ACQUISITION ==> !schedule.lists(now, false, false),
{
}

/// A look that lists the job is remembered as the last listing, and no other is; a change of the
/// group while no agent is known opens the window in which the next agent is likely, and nothing
/// else does.
pub proof fn listings_are_remembered(
    schedule: ScheduleView,
    now: Nanos,
    identified: bool,
    hold: bool,
    pgid_changed: bool,
)
    ensures
        ({
            let after = schedule.completed(now, identified, hold, pgid_changed);
            &&& after.last_full == if schedule.lists(now, identified, pgid_changed) {
                Some(now)
            } else {
                schedule.last_full
            }
            &&& after.acquisition == if pgid_changed && !identified {
                Some(now)
            } else {
                schedule.acquisition
            }
            &&& now <= u64::MAX - 500_000_000 ==> after.next == now + (if hold {
                100_000_000int
            } else if identified {
                300_000_000
            } else {
                500_000_000
            })
        }),
{
}

/// A listing finds an agent exactly where it shows one that is not the one that was known, in the
/// process that it was known in, or one that had exited; the agent is then known from it.
pub proof fn other_agents_are_found(loss: LossView, id: Seq<char>, pid: Pid, shell: bool)
    ensures
        ({
            let (after, detection) = loss.updated(Some((id, pid)), shell);
            &&& after.current == Some((id, pid))
            &&& !after.exited
            &&& after.misses == 0
            &&& detection == if loss.current == Some((id, pid)) && !loss.exited {
                None
            } else {
                Some(DetectionView::AgentFound { id, pid })
            }
        }),
{
}

/// A listing without an agent says nothing where none was known.
pub proof fn nobody_stays_nobody(loss: LossView, shell: bool)
    requires
        loss.current is None,
    ensures
        loss.updated(None, shell) == (loss, None::<DetectionView>),
{
}

} // verus!
