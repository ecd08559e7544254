use vstd::prelude::*;

use vstd::hash_map::HashMapWithView;

use crate::model::{
    advance, drain_wakes, finish_task, fire_timers, init_model, quiescent, resume_spec, run_one,
    run_steps, spawn_spec, take_completed, wf, with_timeout, with_wake, Model,
};
use crate::join_handle::JoinHandle;
use crate::sat_add;
use crate::sat_add_spec;
use crate::task::{wrap_add, Computation, Task};
use crate::timer_future::{TimerFuture, Timeout};

verus! {

/// What one resume-check of a computation produced: the completed value, or
/// the in-flight form in which the computation suspended.
pub enum ResumeOutcome {
    Finished(u64),
    Suspended(Computation),
}

/// The scheduler. It owns the ready queue, the parked-task table, the
/// wake-notification queue, the virtual clock, the timer registry, the
/// completed-value table and the completion-notification slots, and it is
/// driven exclusively by external calls to [`Runtime::step`]: it never runs
/// work on its own.
pub struct Runtime {
    now: u64,
    next_id: u64,
    ready: Vec<Task>,
    parked: Vec<Task>,
    wakes: Vec<u64>,
    timers: Vec<Timeout>,
    completed: HashMapWithView<u64, u64>,
    notify: HashMapWithView<u64, u64>,
    log: Vec<u64>,
}

impl View for Runtime {
    type V = Model;

    closed spec fn view(&self) -> Model {
        Model {
            now: self.now,
            next_id: self.next_id,
            ready: self.ready@,
            parked: self.parked@,
            wakes: self.wakes@,
            timers: self.timers@,
            completed: self.completed@,
            notify: self.notify@,
            log: self.log@,
        }
    }
}

impl Runtime {
    /// A fresh scheduler: empty queues and tables, virtual time zero.
    pub fn new() -> (rt: Runtime)
        ensures
            rt@ == init_model(),
            wf(rt@),
    {
        let rt = Runtime {
            now: 0,
            next_id: 0,
            ready: Vec::new(),
            parked: Vec::new(),
            wakes: Vec::new(),
            timers: Vec::new(),
            completed: HashMapWithView::new(),
            notify: HashMapWithView::new(),
            log: Vec::new(),
        };
        proof {
            assert(rt@ =~= init_model());
        }
        rt
    }

    /// The current virtual time, in nanoseconds.
    pub fn now(&self) -> (r: u64)
        ensures
            r == self@.now,
    {
        self.now
    }

    /// How many tasks are parked awaiting a wake notification.
    pub fn parked_count(&self) -> (r: usize)
        ensures
            r == self@.parked.len(),
    {
        self.parked.len()
    }

    /// How many timeouts are pending in the timer registry.
    pub fn pending_timer_count(&self) -> (r: usize)
        ensures
            r == self@.timers.len(),
    {
        self.timers.len()
    }

    /// The ids of the tasks that completed so far, in completion order.
    pub fn completion_log(&self) -> (r: &Vec<u64>)
        ensures
            r@ == self@.log,
    {
        &self.log
    }

    /// Wraps the computation in a fresh task, appends it to the back of the
    /// ready queue, and returns a join handle for its eventual value. No part
    /// of the computation runs yet. Well-formedness is kept as long as the
    /// computation waits only for task ids that were already handed out —
    /// which every handle-derived wait satisfies.
    pub fn spawn(&mut self, c: Computation) -> (h: JoinHandle)
        requires
            old(self)@.next_id < u64::MAX,
        ensures
            final(self)@ == spawn_spec(old(self)@, c),
            h.task_id == old(self)@.next_id,
            !h.taken,
            wf(old(self)@) && crate::task::awaits_below(c, old(self)@.next_id) ==> wf(
                final(self)@,
            ),
    {
        let ghost cg = c;
        let id = self.next_id;
        self.next_id = id + 1;
        self.ready.push(Task { id, comp: c });
        proof {
            assert(self@ =~= spawn_spec(old(self)@, cg));
            if wf(old(self)@) && crate::task::awaits_below(cg, old(self)@.next_id) {
                assert forall|i: int, j: int|
                    0 <= i < j < self@.ready.len() implies self@.ready[i].id
                    != self@.ready[j].id by {
                    assert(self@.ready[i].id < self@.next_id);
                }
                assert forall|i: int| 0 <= i < self@.ready.len() implies crate::task::awaits_below(
                    (#[trigger] self@.ready[i]).comp,
                    self@.next_id,
                ) by {
                    if i < old(self)@.ready.len() {
                        assert(self@.ready[i] == old(self)@.ready[i]);
                        assert(crate::task::awaits_below(
                            old(self)@.ready[i].comp,
                            old(self)@.next_id,
                        ));
                    } else {
                        assert(self@.ready[i].comp == cg);
                    }
                }
                assert forall|i: int| 0 <= i < self@.parked.len() implies crate::task::awaits_below(
                    (#[trigger] self@.parked[i]).comp,
                    self@.next_id,
                ) by {
                    assert(crate::task::awaits_below(
                        old(self)@.parked[i].comp,
                        old(self)@.next_id,
                    ));
                }
            }
        }
        JoinHandle { task_id: id, taken: false }
    }

    /// A delay of `d` virtual nanoseconds: the returned suspension primitive
    /// resolves once the virtual clock reaches `now + d`, where `now` is the
    /// clock at this call, not at the first resume-check.
    pub fn delay(&self, d: u64) -> (t: TimerFuture)
        ensures
            t.deadline == sat_add_spec(self@.now, d),
    {
        TimerFuture { deadline: sat_add(self.now, d) }
    }

    /// Registers a timeout in the timer registry, keeping it sorted by
    /// ascending deadline; among equal deadlines the new entry goes last.
    fn push_timeout(&mut self, t: Timeout)
        ensures
            final(self)@ == with_timeout(old(self)@, t),
    {
        let mut i: usize = 0;
        while i < self.timers.len() && self.timers[i].deadline <= t.deadline
            invariant
                0 <= i <= self.timers.len(),
                forall|j: int| 0 <= j < i ==> self.timers@[j].deadline <= t.deadline,
                self == old(self),
            decreases self.timers.len() - i,
        {
            i += 1;
        }
        proof {
            crate::model::lemma_insert_pos_char(self.timers@, t.deadline, i as int);
        }
        self.timers.insert(i, t);
        proof {
            assert(self@ =~= with_timeout(old(self)@, t));
        }
    }

    /// Resume-checks one computation on behalf of the task with id `id`,
    /// exactly as the model's interpreter describes: the result and the
    /// bookkeeping this leaves behind are those of [`resume_spec`].
    fn resume_comp(&mut self, id: u64, c: Computation) -> (out: ResumeOutcome)
        ensures
            final(self)@ == resume_spec(c, id, old(self)@).m,
            (match out {
                ResumeOutcome::Finished(v) => resume_spec(c, id, old(self)@).done == Some(v),
                ResumeOutcome::Suspended(c2) => resume_spec(c, id, old(self)@).done is None
                    && c2 == resume_spec(c, id, old(self)@).rewritten,
            }),
        decreases c,
    {
        match c {
            Computation::Value(v) => ResumeOutcome::Finished(v),
            Computation::Sum(l, r) => {
                match self.resume_comp(id, *l) {
                    ResumeOutcome::Suspended(l2) => ResumeOutcome::Suspended(
                        Computation::Sum(Box::new(l2), r),
                    ),
                    ResumeOutcome::Finished(v) => {
                        match self.resume_comp(id, *r) {
                            ResumeOutcome::Suspended(r2) => ResumeOutcome::Suspended(
                                Computation::Sum(
                                    Box::new(Computation::Value(v)),
                                    Box::new(r2),
                                ),
                            ),
                            ResumeOutcome::Finished(w) => ResumeOutcome::Finished(wrap_add(v, w)),
                        }
                    },
                }
            },
            Computation::DelayFor(d, k) => {
                let dl = sat_add(self.now, d);
                if dl <= self.now {
                    self.resume_comp(id, *k)
                } else {
                    self.push_timeout(Timeout { deadline: dl, task: id });
                    ResumeOutcome::Suspended(Computation::WaitUntil(dl, k))
                }
            },
            Computation::WaitUntil(dl, k) => {
                if dl <= self.now {
                    self.resume_comp(id, *k)
                } else {
                    self.push_timeout(Timeout { deadline: dl, task: id });
                    ResumeOutcome::Suspended(Computation::WaitUntil(dl, k))
                }
            },
            Computation::RaceDelays(d1, d2, k) => {
                let dl1 = sat_add(self.now, d1);
                let dl2 = sat_add(self.now, d2);
                if dl1 <= self.now || dl2 <= self.now {
                    self.resume_comp(id, *k)
                } else {
                    self.push_timeout(Timeout { deadline: dl1, task: id });
                    self.push_timeout(Timeout { deadline: dl2, task: id });
                    ResumeOutcome::Suspended(Computation::RaceUntil(dl1, dl2, k))
                }
            },
            Computation::RaceUntil(dl1, dl2, k) => {
                if dl1 <= self.now || dl2 <= self.now {
                    self.resume_comp(id, *k)
                } else {
                    self.push_timeout(Timeout { deadline: dl1, task: id });
                    self.push_timeout(Timeout { deadline: dl2, task: id });
                    ResumeOutcome::Suspended(Computation::RaceUntil(dl1, dl2, k))
                }
            },
            Computation::SpawnJoin(inner) => {
                if self.next_id == u64::MAX {
                    ResumeOutcome::Suspended(Computation::SpawnJoin(inner))
                } else {
                    let b = self.next_id;
                    self.next_id = b + 1;
                    self.ready.push(Task { id: b, comp: *inner });
                    self.notify.insert(b, id);
                    proof {
                        assert(self@ =~= resume_spec(c, id, old(self)@).m);
                    }
                    ResumeOutcome::Suspended(Computation::AwaitTask(b))
                }
            },
            Computation::AwaitTask(t) => {
                if self.completed.contains_key(&t) {
                    match self.completed.remove(&t) {
                        Some(v) => {
                            proof {
                                assert(self@ =~= resume_spec(c, id, old(self)@).m);
                            }
                            ResumeOutcome::Finished(v)
                        },
                        None => {
                            proof {
                                assert(false);
                            }
                            ResumeOutcome::Finished(0)
                        },
                    }
                } else {
                    self.notify.insert(t, id);
                    proof {
                        assert(self@ =~= resume_spec(c, id, old(self)@).m);
                    }
                    ResumeOutcome::Suspended(Computation::AwaitTask(t))
                }
            },
        }
    }

    /// Delivers one wake notification: if a parked task has id `w`, it moves
    /// to the back of the ready queue; otherwise nothing changes.
    fn wake_one(&mut self, w: u64)
        ensures
            final(self)@ == crate::model::drain_match(old(self)@, w),
    {
        let mut i: usize = 0;
        while i < self.parked.len() && self.parked[i].id != w
            invariant
                0 <= i <= self.parked.len(),
                forall|j: int| 0 <= j < i ==> self.parked@[j].id != w,
                self == old(self),
            decreases self.parked.len() - i,
        {
            i += 1;
        }
        proof {
            crate::model::lemma_parked_find_char(self.parked@, w, i as int);
        }
        if i < self.parked.len() {
            let t = self.parked.remove(i);
            self.ready.push(t);
            proof {
                assert(self@ =~= crate::model::drain_match(old(self)@, w));
            }
        } else {
            proof {
                assert(self@ =~= crate::model::drain_match(old(self)@, w));
            }
        }
    }

    /// Drains the wake-notification queue into the ready queue: each drained
    /// id that matches a parked task moves that task to the back of the ready
    /// queue; unmatched ids are dropped silently.
    fn drain_wake_queue(&mut self)
        ensures
            final(self)@ == drain_wakes(old(self)@),
            final(self)@.wakes.len() == 0,
    {
        while self.wakes.len() > 0
            invariant
                drain_wakes(old(self)@) == drain_wakes(self@),
            decreases self.wakes.len(),
        {
            let ghost s = self@;
            let w = self.wakes.remove(0);
            proof {
                assert(self@ =~= (Model { wakes: s.wakes.drop_first(), ..s }));
            }
            self.wake_one(w);
            proof {
                assert(drain_wakes(s) == drain_wakes(self@));
            }
        }
        proof {
            assert(drain_wakes(self@) == self@);
        }
    }

    /// The sole execution entry point, called once per externally-driven
    /// tick. It advances the virtual clock by `dt` nanoseconds (saturating at
    /// the largest representable instant), releases every timeout whose
    /// deadline has been reached, and then repeatedly drains the wake queue
    /// and resumes ready tasks, in FIFO order, until nothing is ready and no
    /// wake is left to drain. It never blocks waiting for new work, and the
    /// final state is exactly an iterate of the model's resume loop.
    pub fn step(&mut self, dt: u64)
        ensures
            exists|n: nat|
                final(self)@ == run_steps(fire_timers(advance(old(self)@, dt)), n)
                    && quiescent(final(self)@),
            final(self)@.now == sat_add_spec(old(self)@.now, dt),
            wf(old(self)@) ==> wf(final(self)@),
    {
        self.now = sat_add(self.now, dt);
        proof {
            assert(self@ =~= advance(old(self)@, dt));
        }
        let ghost m_adv = self@;

        // Release every timeout whose deadline has been reached.
        while self.timers.len() > 0 && self.timers[0].deadline <= self.now
            invariant
                fire_timers(m_adv) == fire_timers(self@),
                self@.now == m_adv.now,
            decreases self.timers.len(),
        {
            let ghost s = self@;
            let t = self.timers.remove(0);
            self.wakes.push(t.task);
            proof {
                assert(self@ =~= (Model {
                    timers: s.timers.drop_first(),
                    wakes: s.wakes.push(s.timers[0].task),
                    ..s
                }));
                assert(fire_timers(s) == fire_timers(self@));
            }
        }
        proof {
            assert(fire_timers(self@) == self@);
            if wf(old(self)@) {
                assert(wf(m_adv));
                crate::model::lemma_fire_timers_wf(m_adv);
            }
        }
        let ghost m_fired = self@;
        let ghost mut iterations: nat = 0nat;

        // The resume loop: drain wakes, then run the front ready task, until
        // a drain leaves nothing ready.
        let mut running = true;
        while running
            invariant
                self@ == run_steps(m_fired, iterations),
                self@.now == m_fired.now,
                wf(m_fired) ==> wf(self@),
                !running ==> quiescent(self@),
            decreases crate::model::measure(self@), (if running { 1int } else { 0int }),
        {
            let ghost s = self@;
            proof {
                crate::model::lemma_run_one_measure(s);
                if wf(m_fired) {
                    crate::model::lemma_run_one_wf(s);
                }
            }
            self.drain_wake_queue();
            if self.ready.len() == 0 {
                running = false;
                proof {
                    assert(self@ == run_one(s));
                }
            } else {
                let ghost s1 = self@;
                let t = self.ready.remove(0);
                let Task { id: tid, comp } = t;
                proof {
                    assert(s1.ready.remove(0) =~= s1.ready.drop_first());
                    assert(self@ =~= (Model { ready: s1.ready.drop_first(), ..s1 }));
                }
                let ghost r = resume_spec(comp, tid, Model { ready: s1.ready.drop_first(), ..s1 });
                let out = self.resume_comp(tid, comp);
                match out {
                    ResumeOutcome::Finished(v) => {
                        self.completed.insert(tid, v);
                        self.log.push(tid);
                        match self.notify.remove(&tid) {
                            Some(w) => {
                                self.wakes.push(w);
                            },
                            None => {},
                        }
                        proof {
                            assert(self@ =~= finish_task(r.m, tid, v));
                            assert(self@ == run_one(s));
                        }
                    },
                    ResumeOutcome::Suspended(c2) => {
                        self.parked.push(Task { id: tid, comp: c2 });
                        proof {
                            assert(self@ =~= (Model {
                                parked: r.m.parked.push(Task { id: tid, comp: c2 }),
                                ..r.m
                            }));
                            assert(self@ == run_one(s));
                        }
                    },
                }
            }
            proof {
                crate::model::lemma_run_steps_snoc(m_fired, iterations);
                iterations = iterations + 1;
                assert(self@ == run_steps(m_fired, iterations));
            }
        }
    }

    /// Sends a wake notification for the given task id. An id with no parked
    /// task is harmless: the next `step` drains and ignores it.
    pub fn notify(&mut self, id: u64)
        ensures
            final(self)@ == with_wake(old(self)@, id),
            wf(old(self)@) ==> wf(final(self)@),
    {
        self.wakes.push(id);
        proof {
            assert(self@ =~= with_wake(old(self)@, id));
        }
    }
}

impl JoinHandle {
    /// Resume-checks the handle against the scheduler that owns the task.
    /// If the task has completed and the value was not yet taken, the value
    /// is taken (leaving the handle inert); otherwise `None`: either the
    /// task is still pending, or the handle already yielded its value — the
    /// hardened, well-defined outcome of polling a spent handle.
    pub fn poll(&mut self, rt: &mut Runtime) -> (r: Option<u64>)
        ensures
            final(self).task_id == old(self).task_id,
            old(self).taken ==> r == None::<u64> && final(self).taken && final(rt)@ == old(rt)@,
            !old(self).taken && old(rt)@.completed.contains_key(old(self).task_id) ==> r == Some(
                old(rt)@.completed[old(self).task_id],
            ) && final(self).taken && final(rt)@ == take_completed(old(rt)@, old(self).task_id),
            !old(self).taken && !old(rt)@.completed.contains_key(old(self).task_id) ==> r
                == None::<u64> && !final(self).taken && final(rt)@ == old(rt)@,
            wf(old(rt)@) ==> wf(final(rt)@),
    {
        if self.taken {
            return None;
        }
        match rt.completed.remove(&self.task_id) {
            Some(v) => {
                self.taken = true;
                proof {
                    assert(rt@ =~= take_completed(old(rt)@, old(self).task_id));
                }
                Some(v)
            },
            None => {
                proof {
                    assert(rt@ =~= old(rt)@);
                }
                None
            },
        }
    }
}

impl TimerFuture {
    /// The resume-check of a delay, read through the scheduler it was
    /// created on: it has resolved exactly when the virtual clock has
    /// reached its deadline.
    pub fn is_elapsed(&self, rt: &Runtime) -> (r: bool)
        ensures
            r == (self.deadline <= rt@.now),
    {
        self.deadline <= rt.now
    }
}

} // verus!
