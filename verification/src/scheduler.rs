//! This module contains a scheduler.
//!
//! A scheduler owns a context and a queue of routines. It is idle or
//! draining. Whoever puts a routine into an idle scheduler drains it: the
//! routines run one after the other, first in first out, and what they
//! schedule is appended to the same queue and never run from inside a running
//! routine. Whoever puts a routine into a draining scheduler only leaves it
//! in the queue.

use std::collections::VecDeque;
use vstd::prelude::*;

verus! {

/// A routine which could be run.
pub trait Runnable<CTX>: Sized {
    /// What no routine undoes: how the context after a run relates to the
    /// context before it.
    spec fn keeps(before: CTX, after: CTX) -> bool;

    /// A context that did not change has kept everything.
    proof fn lemma_keeps_unchanged(context: CTX)
        ensures
            Self::keeps(context, context),
    ;

    /// What is kept over two steps is kept over both.
    proof fn lemma_keeps_on(before: CTX, between: CTX, after: CTX)
        requires
            Self::keeps(before, between),
            Self::keeps(between, after),
        ensures
            Self::keeps(before, after),
    ;

    /// What a run of the routine does: how the context after the run and
    /// the routines that it schedules in turn follow from the routine and
    /// the context before the run.
    spec fn ran(self, before: CTX, after: CTX, scheduled: Vec<Self>) -> bool;

    /// Runs a routine with a context instance. Returns the routines that it
    /// schedules in turn, in the order in which they are to run.
    fn run(self, context: &mut CTX) -> (scheduled: Vec<Self>)
        ensures
            Self::keeps(*old(context), *final(context)),
            self.ran(*old(context), *final(context), scheduled),
    ;
}

/// What `steps` steps make of the context `before` and the routines
/// `waiting`: the context `after` and the routines `left`. No step changes
/// anything. Else the routine that waits first runs, what it schedules is
/// appended behind the routines that wait, and the other steps go on from
/// there: every routine runs once, in the order of the queue, and none runs
/// from inside another.
pub open spec fn drained<CTX, R: Runnable<CTX>>(
    before: CTX,
    waiting: Seq<R>,
    after: CTX,
    left: Seq<R>,
    steps: nat,
) -> bool
    decreases steps,
{
    if steps == 0 {
        after == before && left == waiting
    } else {
        &&& waiting.len() > 0
        &&& exists|between: CTX, scheduled: Vec<R>|
            {
                &&& #[trigger] waiting[0].ran(before, between, scheduled)
                &&& drained(
                    between,
                    waiting.skip(1) + scheduled@,
                    after,
                    left,
                    (steps - 1) as nat,
                )
            }
    }
}

/// This is a global scheduler suitable to schedule and run any tasks.
pub struct Scheduler<CTX, R> {
    context: CTX,
    sequence: VecDeque<R>,
    draining: bool,
}

impl<CTX, R> Scheduler<CTX, R> {
    /// The context that the routines run with.
    pub closed spec fn context(&self) -> CTX {
        self.context
    }

    /// The routines that wait, the next to run first.
    pub closed spec fn pending(&self) -> Seq<R> {
        self.sequence@
    }

    /// Whether some caller is draining the queue.
    pub closed spec fn draining(&self) -> bool {
        self.draining
    }

    /// Creates a new scheduler with a context.
    pub fn new(context: CTX) -> (r: Self)
        ensures
            r.context() == context,
            r.pending() == Seq::<R>::empty(),
            !r.draining(),
    {
        Scheduler { context, sequence: VecDeque::new(), draining: false }
    }

    /// Whether some caller is draining the queue.
    pub fn is_draining(&self) -> (r: bool)
        ensures
            r == self.draining(),
    {
        self.draining
    }

    /// How many routines wait.
    pub fn len(&self) -> (n: usize)
        ensures
            n == self.pending().len(),
    {
        self.sequence.len()
    }

    /// The context that the routines run with.
    pub fn context_ref(&self) -> (context: &CTX)
        ensures
            *context == self.context(),
    {
        &self.context
    }

    /// The context, to change it between two puts.
    pub fn context_mut(&mut self) -> (context: &mut CTX)
        ensures
            *context == old(self).context(),
            final(self).context() == *final(context),
            final(self).pending() == old(self).pending(),
            final(self).draining() == old(self).draining(),
    {
        &mut self.context
    }

    /// Gives the context back.
    pub fn into_context(self) -> (context: CTX)
        ensures
            context == self.context(),
    {
        self.context
    }

    /// Puts a routine at the end of the queue. Returns whether the scheduler
    /// was idle: the caller then holds the scheduler and has to drain it.
    pub fn put(&mut self, runnable: R) -> (start: bool)
        ensures
            final(self).pending() == old(self).pending().push(runnable),
            final(self).context() == old(self).context(),
            final(self).draining(),
            start == !old(self).draining(),
    {
        self.sequence.push_back(runnable);
        let start = !self.draining;
        self.draining = true;
        start
    }

    /// Takes the routine that is to run next. Where none waits, the scheduler
    /// becomes idle.
    pub fn take(&mut self) -> (next: Option<R>)
        requires
            old(self).draining(),
        ensures
            final(self).context() == old(self).context(),
            match next {
                Some(runnable) => old(self).pending().len() > 0 && runnable == old(self).pending()[0]
                    && final(self).pending() == old(self).pending().skip(1) && final(self).draining(),
                None => old(self).pending().len() == 0 && final(self).pending() == old(self).pending() && !final(self).draining(),
            },
    {
        let next = self.sequence.pop_front();
        if next.is_none() {
            self.draining = false;
        }
        assert(self.pending() =~= if next is Some {
            old(self).pending().skip(1)
        } else {
            old(self).pending()
        });
        next
    }

    /// Appends the routines that a running routine has scheduled, in their
    /// order, behind those that wait already.
    pub fn absorb(&mut self, scheduled: Vec<R>)
        ensures
            final(self).pending() == old(self).pending() + scheduled@,
            final(self).context() == old(self).context(),
            final(self).draining() == old(self).draining(),
    {
        let mut scheduled = scheduled;
        let ghost all = scheduled@;
        let mut moved: VecDeque<R> = VecDeque::new();
        // `pop` hands the routines out last first; `push_front` restores their order
        while scheduled.len() > 0
            invariant
                scheduled@ + moved@ == all,
            decreases scheduled@.len(),
        {
            let ghost before = scheduled@;
            let ghost behind = moved@;
            let runnable = scheduled.pop().unwrap();
            moved.push_front(runnable);
            assert(before =~= scheduled@.push(runnable));
            assert(moved@ =~= seq![runnable] + behind);
            assert(scheduled@ + moved@ =~= before + behind);
        }
        assert(moved@ =~= all);
        self.sequence.append(&mut moved);
    }

    /// Ends draining with routines left in the queue.
    fn pause(&mut self)
        ensures
            !final(self).draining(),
            final(self).pending() == old(self).pending(),
            final(self).context() == old(self).context(),
    {
        self.draining = false;
    }

}

impl<CTX, R: Runnable<CTX>> Scheduler<CTX, R> {
    /// Runs the routine that is to run next and appends what it schedules.
    /// Returns whether a routine ran; where none waited, the scheduler
    /// becomes idle.
    pub fn step(&mut self) -> (ran: bool)
        requires
            old(self).draining(),
        ensures
            ran == (old(self).pending().len() > 0),
            ran ==> final(self).draining() && exists|scheduled: Vec<R>|
                {
                    &&& #[trigger] old(self).pending()[0].ran(
                        old(self).context(),
                        final(self).context(),
                        scheduled,
                    )
                    &&& final(self).pending() == old(self).pending().skip(1) + scheduled@
                },
            !ran ==> !final(self).draining() && final(self).pending() == old(self).pending()
                && final(self).context() == old(self).context(),
            R::keeps(old(self).context(), final(self).context()),
    {
        proof {
            R::lemma_keeps_unchanged(self.context());
        }
        match self.take() {
            Some(runnable) => {
                let scheduled = runnable.run(&mut self.context);
                self.absorb(scheduled);
                true
            },
            None => false,
        }
    }

    /// Drains the queue where the scheduler is idle: routines run until none
    /// waits. Where the scheduler is draining already, nothing happens.
    /// Returns how many routines ran; one call runs at most `u64::MAX` of
    /// them.
    pub fn try_run(&mut self) -> (ran: u64)
        ensures
            old(self).draining() ==> ran == 0 && final(self).draining() && final(self).pending()
                == old(self).pending() && final(self).context() == old(self).context(),
            !old(self).draining() ==> !final(self).draining() && (final(self).pending().len() == 0
                || ran == u64::MAX),
            !old(self).draining() ==> (ran == 0 <==> old(self).pending().len() == 0),
            ran == 0 ==> final(self).context() == old(self).context(),
            R::keeps(old(self).context(), final(self).context()),
            drained(
                old(self).context(),
                old(self).pending(),
                final(self).context(),
                final(self).pending(),
                ran as nat,
            ),
    {
        proof {
            R::lemma_keeps_unchanged(self.context());
        }
        if self.draining {
            return 0;
        }
        self.draining = true;
        let mut ran: u64 = 0;
        while ran < u64::MAX
            invariant_except_break
                self.draining(),
            invariant
                R::keeps(old(self).context(), self.context()),
                ran == 0 ==> self.context() == old(self).context() && self.pending() == old(
                    self,
                ).pending(),
                ran > 0 ==> old(self).pending().len() > 0,
                drained(
                    old(self).context(),
                    old(self).pending(),
                    self.context(),
                    self.pending(),
                    ran as nat,
                ),
            ensures
                self.draining() ==> ran == u64::MAX,
                !self.draining() ==> self.pending().len() == 0,
            decreases u64::MAX - ran,
        {
            let ghost before = self.context();
            let ghost waiting = self.pending();
            if !self.step() {
                break ;
            }
            proof {
                R::lemma_keeps_on(old(self).context(), before, self.context());
                let scheduled = choose|scheduled: Vec<R>|
                    {
                        &&& #[trigger] waiting[0].ran(before, self.context(), scheduled)
                        &&& self.pending() == waiting.skip(1) + scheduled@
                    };
                lemma_drained_on(
                    old(self).context(),
                    old(self).pending(),
                    before,
                    waiting,
                    ran as nat,
                    self.context(),
                    scheduled,
                );
            }
            ran += 1;
        }
        if self.is_draining() {
            self.pause();
        }
        ran
    }

    /// Puts a routine into the queue. Where the scheduler is idle, the caller
    /// drains it: routines run until none waits. Where the scheduler is
    /// draining already, the routine is left to whoever drains. Returns how
    /// many routines ran; one call runs at most `u64::MAX` of them.
    pub fn put_and_try_run(&mut self, runnable: R) -> (ran: u64)
        ensures
            old(self).draining() ==> ran == 0 && final(self).draining() && final(self).pending()
                == old(self).pending().push(runnable) && final(self).context() == old(
                self,
            ).context(),
            !old(self).draining() ==> !final(self).draining() && ran >= 1 && (final(self).pending().len() == 0 || ran == u64::MAX),
            R::keeps(old(self).context(), final(self).context()),
            drained(
                old(self).context(),
                old(self).pending().push(runnable),
                final(self).context(),
                final(self).pending(),
                ran as nat,
            ),
    {
        self.sequence.push_back(runnable);
        self.try_run()
    }
}

/// One more step after `steps` steps: where the routine that is left first
/// runs, one step more was made.
pub proof fn lemma_drained_on<CTX, R: Runnable<CTX>>(
    before: CTX,
    waiting: Seq<R>,
    between: CTX,
    left: Seq<R>,
    steps: nat,
    after: CTX,
    scheduled: Vec<R>,
)
    requires
        drained(before, waiting, between, left, steps),
        left.len() > 0,
        left[0].ran(between, after, scheduled),
    ensures
        drained(before, waiting, after, left.skip(1) + scheduled@, steps + 1),
    decreases steps,
{
    if steps == 0 {
        assert(drained(after, waiting.skip(1) + scheduled@, after, left.skip(1) + scheduled@, 0));
        assert(waiting[0].ran(before, after, scheduled));
    } else {
        let (next, first) = choose|next: CTX, first: Vec<R>|
            {
                &&& #[trigger] waiting[0].ran(before, next, first)
                &&& drained(next, waiting.skip(1) + first@, between, left, (steps - 1) as nat)
            };
        lemma_drained_on(
            next,
            waiting.skip(1) + first@,
            between,
            left,
            (steps - 1) as nat,
            after,
            scheduled,
        );
        assert(waiting[0].ran(before, next, first));
    }
}

/// Routines run first in first out: of the routines that wait, the one at
/// place `k` is the one that runs at step `k`, after the `k` routines that
/// wait before it and before any routine that a step schedules; it runs
/// once, and the other steps go on from what it left.
pub proof fn lemma_first_in_first_out<CTX, R: Runnable<CTX>>(
    before: CTX,
    waiting: Seq<R>,
    after: CTX,
    left: Seq<R>,
    steps: nat,
    k: nat,
)
    requires
        drained(before, waiting, after, left, steps),
        k < steps,
        k < waiting.len(),
    ensures
        exists|at: CTX, queue: Seq<R>, then: CTX, scheduled: Vec<R>|
            {
                &&& #[trigger] drained(before, waiting, at, queue, k)
                &&& queue.len() > 0
                &&& queue[0] == waiting[k as int]
                &&& #[trigger] queue[0].ran(at, then, scheduled)
                &&& drained(
                    then,
                    queue.skip(1) + scheduled@,
                    after,
                    left,
                    (steps - k - 1) as nat,
                )
            },
    decreases k,
{
    let (next, first) = choose|next: CTX, first: Vec<R>|
        {
            &&& #[trigger] waiting[0].ran(before, next, first)
            &&& drained(next, waiting.skip(1) + first@, after, left, (steps - 1) as nat)
        };
    if k == 0 {
        assert(drained(before, waiting, before, waiting, 0));
    } else {
        let rest = waiting.skip(1) + first@;
        lemma_first_in_first_out(next, rest, after, left, (steps - 1) as nat, (k - 1) as nat);
        let (at, queue, then, scheduled) = choose|
            at: CTX,
            queue: Seq<R>,
            then: CTX,
            scheduled: Vec<R>,
        |
            {
                &&& #[trigger] drained(next, rest, at, queue, (k - 1) as nat)
                &&& queue.len() > 0
                &&& queue[0] == rest[k - 1]
                &&& #[trigger] queue[0].ran(at, then, scheduled)
                &&& drained(
                    then,
                    queue.skip(1) + scheduled@,
                    after,
                    left,
                    (steps - 1 - (k - 1) - 1) as nat,
                )
            };
        assert(drained(before, waiting, at, queue, k));
    }
}

/// A scheduler that was put one routine while idle and ran one routine ran
/// that routine, and what it scheduled is what is left.
pub proof fn lemma_ran_once<CTX, R: Runnable<CTX>>(
    before: CTX,
    runnable: R,
    after: CTX,
    left: Seq<R>,
)
    requires
        drained(before, seq![runnable], after, left, 1),
    ensures
        exists|scheduled: Vec<R>| #[trigger] runnable.ran(before, after, scheduled) && left == scheduled@,
{
    let (next, first) = choose|next: CTX, first: Vec<R>|
        {
            &&& #[trigger] seq![runnable][0].ran(before, next, first)
            &&& drained(next, seq![runnable].skip(1) + first@, after, left, 0)
        };
    assert(seq![runnable].skip(1) + first@ =~= first@);
    assert(runnable.ran(before, after, first));
}

} // verus!
