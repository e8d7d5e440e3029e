use yew::scheduler::{Runnable, Scheduler};

struct Job {
    name: u32,
    triggers: Vec<Job>,
}

impl Runnable<Vec<u32>> for Job {
    fn keeps(before: Vec<u32>, after: Vec<u32>) -> bool {
        after.starts_with(&before)
    }

    fn lemma_keeps_unchanged(_context: Vec<u32>) {}

    fn lemma_keeps_on(_before: Vec<u32>, _between: Vec<u32>, _after: Vec<u32>) {}

    fn ran(self, _before: Vec<u32>, after: Vec<u32>, scheduled: Vec<Job>) -> bool {
        after.last() == Some(&self.name) && scheduled.len() == self.triggers.len()
    }

    fn run(self, context: &mut Vec<u32>) -> Vec<Job> {
        context.push(self.name);
        self.triggers
    }
}

fn job(name: u32) -> Job {
    Job { name, triggers: vec![] }
}

#[test]
fn routines_run_first_in_first_out() {
    let mut scheduler: Scheduler<Vec<u32>, Job> = Scheduler::new(vec![]);
    // 1 triggers 2 and 3; 2 triggers 4: what was put first runs first
    let second = Job { name: 2, triggers: vec![job(4)] };
    let first = Job { name: 1, triggers: vec![second, job(3)] };
    let ran = scheduler.put_and_try_run(first);
    assert_eq!(ran, 4);
    assert!(!scheduler.is_draining());
    assert_eq!(scheduler.len(), 0);
    assert_eq!(scheduler.into_context(), vec![1, 2, 3, 4]);
}

#[test]
fn a_routine_put_while_draining_is_kept_for_whoever_drains() {
    let mut scheduler: Scheduler<Vec<u32>, Job> = Scheduler::new(vec![]);
    assert!(scheduler.put(job(1)));
    assert!(scheduler.is_draining());
    // the scheduler is held: nothing runs, nothing is lost
    assert_eq!(scheduler.put_and_try_run(Job { name: 2, triggers: vec![job(9)] }), 0);
    assert!(!scheduler.put(job(3)));
    assert_eq!(scheduler.len(), 3);
    assert_eq!(scheduler.context_ref().len(), 0);

    assert!(scheduler.step());
    assert_eq!(scheduler.context_ref(), &vec![1]);
    assert!(scheduler.step());
    assert!(scheduler.step());
    assert!(scheduler.step());
    assert!(scheduler.is_draining());
    assert!(!scheduler.step());
    assert!(!scheduler.is_draining());
    assert_eq!(scheduler.into_context(), vec![1, 2, 3, 9]);
}

#[test]
fn an_idle_scheduler_starts_to_drain_with_each_put() {
    let mut scheduler: Scheduler<Vec<u32>, Job> = Scheduler::new(vec![7]);
    assert_eq!(scheduler.put_and_try_run(job(1)), 1);
    assert_eq!(scheduler.put_and_try_run(job(2)), 1);
    assert!(!scheduler.is_draining());
    scheduler.context_mut().push(8);
    assert_eq!(scheduler.into_context(), vec![7, 1, 2, 8]);
}

#[test]
fn try_run_drains_what_was_absorbed() {
    let mut scheduler: Scheduler<Vec<u32>, Job> = Scheduler::new(vec![]);
    scheduler.absorb(vec![job(5), Job { name: 6, triggers: vec![job(8)] }, job(7)]);
    assert!(!scheduler.is_draining());
    assert_eq!(scheduler.len(), 3);
    assert_eq!(scheduler.try_run(), 4);
    assert_eq!(scheduler.try_run(), 0);
    assert_eq!(scheduler.into_context(), vec![5, 6, 7, 8]);
}

#[test]
fn taking_hands_out_the_routine_that_waited_longest() {
    let mut scheduler: Scheduler<Vec<u32>, Job> = Scheduler::new(vec![]);
    scheduler.put(job(1));
    scheduler.absorb(vec![job(2), job(3)]);
    assert_eq!(scheduler.take().map(|j| j.name), Some(1));
    assert_eq!(scheduler.take().map(|j| j.name), Some(2));
    assert_eq!(scheduler.take().map(|j| j.name), Some(3));
    assert!(scheduler.is_draining());
    assert!(scheduler.take().is_none());
    assert!(!scheduler.is_draining());
}
