//! The tasks that draw: what each command and each passing of a deadline
//! leads to. The task that owns the display carries it out.

use crate::message::Resource;
use crate::motion::LOGIC_INTERVAL;
use crate::timer;
use crate::timer::{Timer, TimerList};
use vstd::prelude::*;

verus! {

/// How often a picture is painted, in milliseconds.
pub const DRAW_INTERVAL: u64 = 33;

/// The size of the moving rectangle.
pub const RECT_WIDTH: i32 = 100;

pub const RECT_HEIGHT: i32 = 100;

/// Commands to a task that draws.
#[derive(Debug, Clone, Copy, PartialEq, Eq, Structural)]
pub enum RenderCmd {
    /// A grant, the first or a later one: draw with this descriptor.
    Draw { resource: Resource, fd: i32 },
    /// A revoke: stop drawing.
    Stop { resource: Resource },
    /// The connection is lost: end.
    Exit,
}

/// What the task is to do.
#[derive(Debug, Clone, Copy, PartialEq, Eq, Structural)]
pub enum RenderStep {
    /// Close the earlier descriptor, if there is one, and paint.
    Paint { close: Option<i32> },
    /// Close the descriptor, if there is one, and wait.
    Wait { close: Option<i32> },
    /// Close the descriptor, if there is one, and end.
    Quit { close: Option<i32> },
}

/// A task that draws on the framebuffer: whether the framebuffer was opened
/// (it is opened once and kept), and the granted descriptor.
#[derive(Debug, Clone, Copy, PartialEq, Eq, Structural)]
pub struct FramebufferTask {
    pub open: bool,
    pub current_fd: Option<i32>,
}

impl FramebufferTask {
    pub fn new() -> (task: Self)
        ensures
            task == (FramebufferTask { open: false, current_fd: None }),
    {
        FramebufferTask { open: false, current_fd: None }
    }

    /// Is the framebuffer to be opened before the command is carried out?
    pub fn needs_opening(&self, command: &RenderCmd) -> (yes: bool)
        ensures
            yes == (!self.open && command is Draw),
    {
        match command {
            RenderCmd::Draw { .. } => !self.open,
            _ => false,
        }
    }

    /// Carries out a command. `opened` says whether the framebuffer could
    /// be opened, where that was needed; if not, the grant is of no use and
    /// its descriptor is closed.
    pub fn command(&mut self, command: RenderCmd, opened: bool) -> (step: RenderStep)
        ensures
            match command {
                RenderCmd::Draw { resource, fd } => if old(self).open || opened {
                    &&& step == (RenderStep::Paint { close: old(self).current_fd })
                    &&& *final(self) == (FramebufferTask { open: true, current_fd: Some(fd) })
                } else {
                    &&& step == (RenderStep::Wait { close: Some(fd) })
                    &&& *final(self) == *old(self)
                },
                RenderCmd::Stop { resource } => {
                    &&& step == (RenderStep::Wait { close: old(self).current_fd })
                    &&& *final(self) == (FramebufferTask { current_fd: None, ..*old(self) })
                },
                RenderCmd::Exit => {
                    &&& step == (RenderStep::Quit { close: old(self).current_fd })
                    &&& *final(self) == (FramebufferTask { current_fd: None, ..*old(self) })
                },
            },
            // Nothing leaks: the descriptor that was held and the one that came
            // are each held or to be closed.
            ({
                let close = match step {
                    RenderStep::Paint { close } => close,
                    RenderStep::Wait { close } => close,
                    RenderStep::Quit { close } => close,
                };
                &&& old(self).current_fd is Some ==> final(self).current_fd == old(self).current_fd
                    || close == old(self).current_fd
                &&& command matches RenderCmd::Draw { resource, fd } ==> final(self).current_fd
                    == Some(fd) || close == Some(fd)
            }),
    {
        match command {
            RenderCmd::Draw { fd, .. } => {
                if !self.open && !opened {
                    return RenderStep::Wait { close: Some(fd) };
                }
                let close = self.current_fd;
                self.open = true;
                self.current_fd = Some(fd);
                RenderStep::Paint { close }
            },
            RenderCmd::Stop { .. } => {
                let close = self.current_fd;
                self.current_fd = None;
                RenderStep::Wait { close }
            },
            RenderCmd::Exit => {
                let close = self.current_fd;
                self.current_fd = None;
                RenderStep::Quit { close }
            },
        }
    }
}

/// What a timer of the task is for.
#[derive(Debug, Clone, Copy, PartialEq, Eq, Structural)]
pub enum RenderTimer {
    /// Advance the animation.
    Logic,
    /// Paint it.
    Draw,
}

/// Does a timer lead to work? The animation advances even while the
/// resource is revoked; only painting needs the grant.
pub open spec fn has_work(task: FramebufferTask, timer: RenderTimer) -> bool {
    task.open && (timer is Draw ==> task.current_fd is Some)
}

/// The two timers of the task, started at `now`.
pub fn render_timers(now: u64) -> (timers: TimerList<RenderTimer>)
    requires
        now + DRAW_INTERVAL <= u64::MAX,
    ensures
        timers@ == seq![
            Timer {
                period: LOGIC_INTERVAL,
                next_fire: (now + LOGIC_INTERVAL) as u64,
                task: RenderTimer::Logic,
            },
            Timer {
                period: DRAW_INTERVAL,
                next_fire: (now + DRAW_INTERVAL) as u64,
                task: RenderTimer::Draw,
            },
        ],
        timers@[0].period == 16,
        timers@[1].period == 33,
{
    let mut timers: TimerList<RenderTimer> = TimerList::new();
    timers.register(now, LOGIC_INTERVAL, RenderTimer::Logic);
    timers.register(now, DRAW_INTERVAL, RenderTimer::Draw);
    assert(timers@ =~= seq![
        Timer {
            period: LOGIC_INTERVAL,
            next_fire: (now + LOGIC_INTERVAL) as u64,
            task: RenderTimer::Logic,
        },
        Timer {
            period: DRAW_INTERVAL,
            next_fire: (now + DRAW_INTERVAL) as u64,
            task: RenderTimer::Draw,
        },
    ]);
    timers
}

impl FramebufferTask {
    /// Makes a pass over the timers at `now`. Returns what is to be done,
    /// in order.
    pub fn elapsed(&self, timers: &mut TimerList<RenderTimer>, now: u64) -> (work: Vec<RenderTimer>)
        requires
            forall|i: int|
                0 <= i < old(timers)@.len() && (#[trigger] old(timers)@[i]).next_fire <= now ==> now
                    + old(timers)@[i].period <= u64::MAX,
        ensures
            work@ == timer::due_tasks(old(timers)@, now).filter(
                |timer: RenderTimer| has_work(*self, timer),
            ),
            final(timers)@ == old(timers)@.map_values(
                |timer: Timer<RenderTimer>| timer::after_pass(timer, now),
            ),
    {
        let due = timers.fire_due(now);
        let ghost works = |timer: RenderTimer| has_work(*self, timer);
        let mut work: Vec<RenderTimer> = Vec::new();
        let n: usize = due.len();
        let mut i: usize = 0;
        proof {
            reveal(Seq::filter);
            assert(due@.take(0).filter(works) =~= Seq::<RenderTimer>::empty());
        }
        while i < n
            invariant
                i <= n,
                n == due@.len(),
                works == (|timer: RenderTimer| has_work(*self, timer)),
                work@ == due@.take(i as int).filter(works),
            decreases n - i,
        {
            proof {
                reveal(Seq::filter);
                assert(due@.take(i + 1).drop_last() =~= due@.take(i as int));
                assert(due@.take(i + 1).last() == due@[i as int]);
            }
            let ready = match due[i] {
                RenderTimer::Logic => self.open,
                RenderTimer::Draw => self.open && self.current_fd.is_some(),
            };
            if ready {
                work.push(due[i]);
            }
            i = i + 1;
        }
        assert(due@.take(n as int) =~= due@);
        work
    }
}

/// A task that draws on a card: whether a picture is shown. Unlike the
/// framebuffer, the display is set up anew for every grant, as the lease
/// dies with the revoke.
#[derive(Debug, Clone, Copy, PartialEq, Eq, Structural)]
pub struct CardTask {
    pub shown: bool,
}

/// What a task that draws on a card is to do.
#[derive(Debug, Clone, Copy, PartialEq, Eq, Structural)]
pub enum CardStep {
    /// Keep showing the picture, if one is shown.
    Wait,
    /// Close the descriptor, which is not needed.
    Refuse { close: i32 },
    /// Take the picture down.
    TakeDown,
    /// Take the picture down and end.
    Quit,
    /// Paint the next frame.
    Paint,
}

impl CardTask {
    pub fn new() -> (task: Self)
        ensures
            task == (CardTask { shown: false }),
    {
        CardTask { shown: false }
    }

    /// Is the display to be set up before the command is carried out?
    pub fn needs_setup(&self, command: &RenderCmd) -> (yes: bool)
        ensures
            yes == (!self.shown && command is Draw),
    {
        match command {
            RenderCmd::Draw { .. } => !self.shown,
            _ => false,
        }
    }

    /// Carries out a command. `set_up` says whether the display could be
    /// set up, where that was needed; the descriptor then belongs to it.
    pub fn command(&mut self, command: RenderCmd, set_up: bool) -> (step: CardStep)
        ensures
            match command {
                RenderCmd::Draw { resource, fd } => if old(self).shown {
                    &&& step == (CardStep::Refuse { close: fd })
                    &&& *final(self) == *old(self)
                } else {
                    &&& step is Wait
                    &&& *final(self) == (CardTask { shown: set_up })
                },
                RenderCmd::Stop { resource } => {
                    &&& step is TakeDown
                    &&& *final(self) == (CardTask { shown: false })
                },
                RenderCmd::Exit => {
                    &&& step is Quit
                    &&& *final(self) == (CardTask { shown: false })
                },
            },
    {
        match command {
            RenderCmd::Draw { fd, .. } => {
                if self.shown {
                    return CardStep::Refuse { close: fd };
                }
                self.shown = set_up;
                CardStep::Wait
            },
            RenderCmd::Stop { .. } => {
                self.shown = false;
                CardStep::TakeDown
            },
            RenderCmd::Exit => {
                self.shown = false;
                CardStep::Quit
            },
        }
    }

    /// What the passing of the draw interval leads to.
    pub fn elapsed(&self) -> (step: CardStep)
        ensures
            step == (if self.shown {
                CardStep::Paint
            } else {
                CardStep::Wait
            }),
    {
        if self.shown {
            CardStep::Paint
        } else {
            CardStep::Wait
        }
    }
}

/// Commands to the task that watches the mouse.
#[derive(Debug, Clone, Copy, PartialEq, Eq, Structural)]
pub enum InputCmd {
    /// A grant: watch the mouse through this descriptor.
    Start { fd: i32 },
    /// A revoke: stop.
    Stop,
}

/// The descriptor that a command leaves to be watched, and the earlier one,
/// which is to be closed.
pub fn input_command(watched: Option<i32>, command: InputCmd) -> (after: (Option<i32>, Option<i32>))
    ensures
        after.0 == (match command {
            InputCmd::Start { fd } => Some(fd),
            InputCmd::Stop => None,
        }),
        after.1 == watched,
{
    match command {
        InputCmd::Start { fd } => (Some(fd), watched),
        InputCmd::Stop => (None, watched),
    }
}

/// Nothing is painted without a grant: while the resource is revoked, no
/// pass over the timers leads to painting.
pub proof fn revoked_task_paints_nothing(
    task: FramebufferTask,
    timers: Seq<Timer<RenderTimer>>,
    now: u64,
)
    requires
        task.current_fd is None,
    ensures
        !timer::due_tasks(timers, now).filter(
            |timer: RenderTimer| has_work(task, timer),
        ).contains(RenderTimer::Draw),
{
    let due = timer::due_tasks(timers, now);
    let works = |timer: RenderTimer| has_work(task, timer);
    let work = due.filter(works);
    if work.contains(RenderTimer::Draw) {
        let i = choose|i: int| 0 <= i < work.len() && work[i] == RenderTimer::Draw;
        due.lemma_filter_pred(works, i);
    }
}

/// The animation goes on whether or not the resource is granted: once the
/// framebuffer was opened, every pass in which its timer is due advances it.
pub proof fn revoked_task_still_moves(
    task: FramebufferTask,
    timers: Seq<Timer<RenderTimer>>,
    now: u64,
)
    requires
        task.open,
    ensures
        timer::due_tasks(timers, now).contains(RenderTimer::Logic) ==> timer::due_tasks(
            timers,
            now,
        ).filter(|timer: RenderTimer| has_work(task, timer)).contains(RenderTimer::Logic),
        task.current_fd is Some ==> timer::due_tasks(timers, now).filter(
            |timer: RenderTimer| has_work(task, timer),
        ) == timer::due_tasks(timers, now),
{
    let due = timer::due_tasks(timers, now);
    let works = |timer: RenderTimer| has_work(task, timer);
    if due.contains(RenderTimer::Logic) {
        let i = choose|i: int| 0 <= i < due.len() && due[i] == RenderTimer::Logic;
        due.lemma_filter_contains(works, i);
    }
    if task.current_fd is Some {
        everything_works(due, works);
    }
}

proof fn everything_works(due: Seq<RenderTimer>, works: spec_fn(RenderTimer) -> bool)
    requires
        forall|timer: RenderTimer| #[trigger] works(timer),
    ensures
        due.filter(works) == due,
    decreases due.len(),
{
    reveal(Seq::filter);
    if due.len() > 0 {
        everything_works(due.drop_last(), works);
        assert(works(due.last()));
        assert(due.drop_last().push(due.last()) =~= due);
    } else {
        assert(due.filter(works) =~= due);
    }
}

/// Before the framebuffer was opened no timer leads to work.
pub proof fn unopened_task_rests(task: FramebufferTask, timer: RenderTimer)
    requires
        !task.open,
    ensures
        !has_work(task, timer),
{
}

} // verus!
