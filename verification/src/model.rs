use vstd::prelude::*;

use crate::sat_add_spec;
use crate::task::{awaits_below, awaits_task, wrap_add_spec, Computation, Task};
use crate::timer_future::Timeout;

verus! {

/// The mathematical state of the scheduler: the ready queue, the parked-task
/// table, the wake-notification queue, the timer registry, the virtual clock,
/// the id allocator, the table of completed-task values, the
/// completion-notification slots, and the order in which tasks completed.
#[verifier::ext_equal]
pub ghost struct Model {
    /// Virtual current time, in nanoseconds.
    pub now: u64,
    /// The next task id to hand out; every id already handed out is smaller.
    pub next_id: u64,
    /// FIFO queue of tasks eligible to run now.
    pub ready: Seq<Task>,
    /// Tasks awaiting an external wake notification; their ids are unique,
    /// so the sequence is a table keyed by task id.
    pub parked: Seq<Task>,
    /// FIFO queue of wake notifications (task ids) not yet drained.
    pub wakes: Seq<u64>,
    /// Pending timeouts, sorted by ascending deadline.
    pub timers: Seq<Timeout>,
    /// Values of completed tasks, not yet taken by a join.
    pub completed: Map<u64, u64>,
    /// Completion-notification slots: `notify[t] == w` means task `w` is to
    /// be woken when task `t` completes.
    pub notify: Map<u64, u64>,
    /// Ids of completed tasks, in completion order.
    pub log: Seq<u64>,
}

/// The outcome of resume-checking one computation: the scheduler state it
/// leaves behind, the value it completed with (if it did), and the in-flight
/// form it suspended as (if it did not).
pub ghost struct ResumeModel {
    pub m: Model,
    pub done: Option<u64>,
    pub rewritten: Computation,
}

/// Advancing the virtual clock by `dt` nanoseconds.
pub open spec fn advance(m: Model, dt: u64) -> Model {
    Model { now: sat_add_spec(m.now, dt), ..m }
}

/// Where a timeout with deadline `dl` goes in the sorted registry `ts`:
/// after every entry that is due no later than it.
pub open spec fn insert_pos(ts: Seq<Timeout>, dl: u64) -> int
    decreases ts.len(),
{
    if ts.len() == 0 {
        0
    } else if ts[0].deadline <= dl {
        1 + insert_pos(ts.drop_first(), dl)
    } else {
        0
    }
}

/// The timer registry after registering one timeout, keeping the ascending
/// deadline order; among equal deadlines the new entry goes last.
pub open spec fn timer_insert(ts: Seq<Timeout>, t: Timeout) -> Seq<Timeout> {
    ts.insert(insert_pos(ts, t.deadline), t)
}

/// The model after registering one timeout.
pub open spec fn with_timeout(m: Model, t: Timeout) -> Model {
    Model { timers: timer_insert(m.timers, t), ..m }
}

/// The model after appending one wake notification.
pub open spec fn with_wake(m: Model, w: u64) -> Model {
    Model { wakes: m.wakes.push(w), ..m }
}

/// The index of the parked task with id `w`, or `-1` if no parked task has
/// that id.
pub open spec fn parked_find(s: Seq<Task>, w: u64) -> int
    decreases s.len(),
{
    if s.len() == 0 {
        -1
    } else if s[0].id == w {
        0
    } else {
        let r = parked_find(s.drop_first(), w);
        if r == -1 {
            -1
        } else {
            r + 1
        }
    }
}

/// Delivering one wake notification: if a parked task has id `w`, it leaves
/// the parked table and joins the back of the ready queue; otherwise the
/// notification is dropped silently.
pub open spec fn drain_match(m: Model, w: u64) -> Model {
    let i = parked_find(m.parked, w);
    if i >= 0 {
        Model { parked: m.parked.remove(i), ready: m.ready.push(m.parked[i]), ..m }
    } else {
        m
    }
}

/// One resume-check of the computation `c`, run on behalf of the task with
/// id `id`, in scheduler state `m`. The interpreter runs the computation
/// forward until it completes or suspends; on the way it may register
/// timeouts, spawn tasks, install completion notifications, and consume a
/// completed task's value.
pub open spec fn resume_spec(c: Computation, id: u64, m: Model) -> ResumeModel
    decreases c,
{
    match c {
        Computation::Value(v) => ResumeModel { m, done: Some(v), rewritten: Computation::Value(v) },
        Computation::Sum(l, r) => {
            let rl = resume_spec(*l, id, m);
            match rl.done {
                None => ResumeModel {
                    m: rl.m,
                    done: None,
                    rewritten: Computation::Sum(Box::new(rl.rewritten), r),
                },
                Some(v) => {
                    let rr = resume_spec(*r, id, rl.m);
                    match rr.done {
                        None => ResumeModel {
                            m: rr.m,
                            done: None,
                            rewritten: Computation::Sum(
                                Box::new(Computation::Value(v)),
                                Box::new(rr.rewritten),
                            ),
                        },
                        Some(w) => ResumeModel {
                            m: rr.m,
                            done: Some(wrap_add_spec(v, w)),
                            rewritten: Computation::Value(wrap_add_spec(v, w)),
                        },
                    }
                },
            }
        },
        Computation::DelayFor(d, k) => {
            let dl = sat_add_spec(m.now, d);
            if dl <= m.now {
                resume_spec(*k, id, m)
            } else {
                ResumeModel {
                    m: with_timeout(m, Timeout { deadline: dl, task: id }),
                    done: None,
                    rewritten: Computation::WaitUntil(dl, k),
                }
            }
        },
        Computation::WaitUntil(dl, k) => {
            if dl <= m.now {
                resume_spec(*k, id, m)
            } else {
                ResumeModel {
                    m: with_timeout(m, Timeout { deadline: dl, task: id }),
                    done: None,
                    rewritten: Computation::WaitUntil(dl, k),
                }
            }
        },
        Computation::RaceDelays(d1, d2, k) => {
            let dl1 = sat_add_spec(m.now, d1);
            let dl2 = sat_add_spec(m.now, d2);
            if dl1 <= m.now || dl2 <= m.now {
                resume_spec(*k, id, m)
            } else {
                ResumeModel {
                    m: with_timeout(
                        with_timeout(m, Timeout { deadline: dl1, task: id }),
                        Timeout { deadline: dl2, task: id },
                    ),
                    done: None,
                    rewritten: Computation::RaceUntil(dl1, dl2, k),
                }
            }
        },
        Computation::RaceUntil(dl1, dl2, k) => {
            if dl1 <= m.now || dl2 <= m.now {
                resume_spec(*k, id, m)
            } else {
                ResumeModel {
                    m: with_timeout(
                        with_timeout(m, Timeout { deadline: dl1, task: id }),
                        Timeout { deadline: dl2, task: id },
                    ),
                    done: None,
                    rewritten: Computation::RaceUntil(dl1, dl2, k),
                }
            }
        },
        Computation::SpawnJoin(inner) => {
            if m.next_id == u64::MAX {
                // The id allocator is exhausted: the computation stays
                // suspended forever (a leak, not an error).
                ResumeModel { m, done: None, rewritten: Computation::SpawnJoin(inner) }
            } else {
                let b = m.next_id;
                let m1 = Model {
                    next_id: (b + 1) as u64,
                    ready: m.ready.push(Task { id: b, comp: *inner }),
                    ..m
                };
                ResumeModel {
                    m: Model { notify: m1.notify.insert(b, id), ..m1 },
                    done: None,
                    rewritten: Computation::AwaitTask(b),
                }
            }
        },
        Computation::AwaitTask(t) => {
            if m.completed.contains_key(t) {
                ResumeModel {
                    m: Model { completed: m.completed.remove(t), ..m },
                    done: Some(m.completed[t]),
                    rewritten: Computation::Value(m.completed[t]),
                }
            } else {
                ResumeModel {
                    m: Model { notify: m.notify.insert(t, id), ..m },
                    done: None,
                    rewritten: Computation::AwaitTask(t),
                }
            }
        },
    }
}

/// Bookkeeping when the task with id `id` completes with value `v`: the
/// value goes into the output table, the id is logged, and if a waiter
/// registered a completion notification, that waiter is sent a wake.
pub open spec fn finish_task(m: Model, id: u64, v: u64) -> Model {
    let m1 = Model { completed: m.completed.insert(id, v), log: m.log.push(id), ..m };
    if m.notify.contains_key(id) {
        Model { notify: m1.notify.remove(id), wakes: m1.wakes.push(m.notify[id]), ..m1 }
    } else {
        m1
    }
}

/// Draining the wake-notification queue: each id that matches a parked task
/// moves that task to the back of the ready queue; ids with no parked task
/// are silently dropped.
pub open spec fn drain_wakes(m: Model) -> Model
    decreases m.wakes.len(),
{
    if m.wakes.len() == 0 {
        m
    } else {
        let w = m.wakes[0];
        let m1 = Model { wakes: m.wakes.drop_first(), ..m };
        drain_wakes(drain_match(m1, w))
    }
}

/// One iteration of the scheduler's resume loop: drain the wake queue, pop
/// the front ready task if any, resume it once, then either record its
/// completion or park it.
pub open spec fn run_one(m: Model) -> Model {
    let m1 = drain_wakes(m);
    if m1.ready.len() == 0 {
        m1
    } else {
        let t = m1.ready[0];
        let m2 = Model { ready: m1.ready.drop_first(), ..m1 };
        let r = resume_spec(t.comp, t.id, m2);
        match r.done {
            Some(v) => finish_task(r.m, t.id, v),
            None => Model { parked: r.m.parked.push(Task { id: t.id, comp: r.rewritten }), ..r.m },
        }
    }
}

/// `n` iterations of the resume loop.
pub open spec fn run_steps(m: Model, n: nat) -> Model
    decreases n,
{
    if n == 0 {
        m
    } else {
        run_steps(run_one(m), (n - 1) as nat)
    }
}

/// Iterating the resume loop one more time runs `run_one` on the result of
/// the previous iterates.
pub proof fn lemma_run_steps_snoc(m: Model, n: nat)
    ensures
        run_steps(m, n + 1) == run_one(run_steps(m, n)),
    decreases n,
{
    if n == 0 {
        assert(run_steps(m, 1) == run_steps(run_one(m), 0));
        assert(run_steps(run_one(m), 0) == run_one(m));
        assert(run_steps(m, 0) == m);
    } else {
        lemma_run_steps_snoc(run_one(m), (n - 1) as nat);
    }
}

/// Releasing due timers: while the earliest deadline has been reached, the
/// entry leaves the registry and its wake notification is sent.
pub open spec fn fire_timers(m: Model) -> Model
    decreases m.timers.len(),
{
    if m.timers.len() > 0 && m.timers[0].deadline <= m.now {
        fire_timers(Model { timers: m.timers.drop_first(), wakes: m.wakes.push(m.timers[0].task), ..m })
    } else {
        m
    }
}

/// A state in which the resume loop stops: nothing ready and nothing left
/// to drain.
pub open spec fn quiescent(m: Model) -> bool {
    m.ready.len() == 0 && m.wakes.len() == 0
}

/// The scheduler's state right after construction.
pub open spec fn init_model() -> Model {
    Model {
        now: 0,
        next_id: 0,
        ready: Seq::empty(),
        parked: Seq::empty(),
        wakes: Seq::empty(),
        timers: Seq::empty(),
        completed: Map::empty(),
        notify: Map::empty(),
        log: Seq::empty(),
    }
}

/// The model after spawning one computation: a fresh task at the back of the
/// ready queue, nothing else touched, nothing run.
pub open spec fn spawn_spec(m: Model, c: Computation) -> Model {
    Model {
        next_id: (m.next_id + 1) as u64,
        ready: m.ready.push(Task { id: m.next_id, comp: c }),
        ..m
    }
}

/// The model after a join handle takes the completed value of task `t`.
pub open spec fn take_completed(m: Model, t: u64) -> Model {
    Model { completed: m.completed.remove(t), ..m }
}

/// The timer registry is sorted by ascending deadline.
pub open spec fn timers_sorted(ts: Seq<Timeout>) -> bool {
    forall|i: int, j: int| 0 <= i <= j < ts.len() ==> ts[i].deadline <= ts[j].deadline
}

/// `insert_pos` is a position inside the registry: everything before it is
/// due no later than `dl`, and the entry at it (if any) is due strictly later.
pub proof fn lemma_insert_pos_props(ts: Seq<Timeout>, dl: u64)
    ensures
        0 <= insert_pos(ts, dl) <= ts.len(),
        forall|j: int| 0 <= j < insert_pos(ts, dl) ==> ts[j].deadline <= dl,
        insert_pos(ts, dl) < ts.len() ==> ts[insert_pos(ts, dl)].deadline > dl,
    decreases ts.len(),
{
    if ts.len() > 0 && ts[0].deadline <= dl {
        lemma_insert_pos_props(ts.drop_first(), dl);
        assert forall|j: int| 0 <= j < insert_pos(ts, dl) implies ts[j].deadline <= dl by {
            if j >= 1 {
                assert(ts.drop_first()[j - 1] == ts[j]);
                assert(0 <= j - 1 < insert_pos(ts.drop_first(), dl));
            }
        }
        if insert_pos(ts, dl) < ts.len() {
            assert(ts.drop_first()[insert_pos(ts, dl) - 1] == ts[insert_pos(ts, dl)]);
        }
    }
}

/// The position the registry walk finds is the one characterised by its
/// neighbourhood: everything before is due no later than `dl`, the entry at
/// it (if any) strictly later.
pub proof fn lemma_insert_pos_char(ts: Seq<Timeout>, dl: u64, i: int)
    requires
        0 <= i <= ts.len(),
        forall|j: int| 0 <= j < i ==> ts[j].deadline <= dl,
        i < ts.len() ==> ts[i].deadline > dl,
    ensures
        insert_pos(ts, dl) == i,
    decreases ts.len(),
{
    if ts.len() == 0 {
    } else if ts[0].deadline <= dl {
        assert(i >= 1);
        assert(forall|j: int| 0 <= j < i - 1 ==> ts.drop_first()[j] == ts[j + 1]);
        assert(i - 1 < ts.drop_first().len() ==> ts.drop_first()[i - 1] == ts[i]);
        lemma_insert_pos_char(ts.drop_first(), dl, i - 1);
    } else {
        assert(i == 0);
    }
}

/// Registering a timeout keeps the registry sorted.
pub proof fn lemma_timer_insert_sorted(ts: Seq<Timeout>, t: Timeout)
    requires
        timers_sorted(ts),
    ensures
        timers_sorted(timer_insert(ts, t)),
{
    lemma_insert_pos_props(ts, t.deadline);
}

/// The index `parked_find` returns points at the task with the sought id,
/// and is the first such index; `-1` means the id occurs nowhere.
pub proof fn lemma_parked_find_props(s: Seq<Task>, w: u64)
    ensures
        parked_find(s, w) == -1 ==> (forall|j: int| 0 <= j < s.len() ==> s[j].id != w),
        parked_find(s, w) != -1 ==> 0 <= parked_find(s, w) < s.len() && s[parked_find(s, w)].id
            == w,
        forall|j: int| 0 <= j < parked_find(s, w) ==> s[j].id != w,
    decreases s.len(),
{
    if s.len() > 0 && s[0].id != w {
        lemma_parked_find_props(s.drop_first(), w);
        if parked_find(s, w) == -1 {
            assert forall|j: int| 0 <= j < s.len() implies s[j].id != w by {
                if j >= 1 {
                    assert(s.drop_first()[j - 1] == s[j]);
                }
            }
        }
        assert forall|j: int| 0 <= j < parked_find(s, w) implies s[j].id != w by {
            if j >= 1 {
                assert(s.drop_first()[j - 1] == s[j]);
                assert(0 <= j - 1 < parked_find(s.drop_first(), w));
            }
        }
        if parked_find(s, w) != -1 {
            assert(s.drop_first()[parked_find(s, w) - 1] == s[parked_find(s, w)]);
        }
    }
}

/// The index a front-to-back scan finds is the one `parked_find` names.
pub proof fn lemma_parked_find_char(s: Seq<Task>, w: u64, i: int)
    requires
        0 <= i <= s.len(),
        forall|j: int| 0 <= j < i ==> s[j].id != w,
        i < s.len() ==> s[i].id == w,
    ensures
        i < s.len() ==> parked_find(s, w) == i,
        i == s.len() ==> parked_find(s, w) == -1,
    decreases s.len(),
{
    if s.len() == 0 {
    } else if s[0].id == w {
        assert(i == 0);
    } else {
        assert(i >= 1);
        assert(forall|j: int| 0 <= j < i - 1 ==> s.drop_first()[j] == s[j + 1]);
        assert(i - 1 < s.drop_first().len() ==> s.drop_first()[i - 1] == s[i]);
        lemma_parked_find_char(s.drop_first(), w, i - 1);
    }
}

/// Well-formed scheduler state: every live or completed id was handed out by
/// the allocator; a task lives in exactly one place (the ready queue, the
/// parked table, or — once finished — the completed table); live
/// computations wait only for issued task ids, so every
/// completion-notification slot belongs to an issued id and a fresh task's
/// slot is empty; and the timer registry is sorted.
pub open spec fn wf(m: Model) -> bool {
    &&& timers_sorted(m.timers)
    &&& (forall|i: int| 0 <= i < m.ready.len() ==> (#[trigger] m.ready[i]).id < m.next_id)
    &&& (forall|i: int, j: int| 0 <= i < j < m.ready.len() ==> m.ready[i].id != m.ready[j].id)
    &&& (forall|i: int| 0 <= i < m.parked.len() ==> (#[trigger] m.parked[i]).id < m.next_id)
    &&& (forall|i: int, j: int| 0 <= i < j < m.parked.len() ==> m.parked[i].id != m.parked[j].id)
    &&& (forall|i: int, j: int|
        0 <= i < m.ready.len() && 0 <= j < m.parked.len() ==> m.ready[i].id != m.parked[j].id)
    &&& (forall|k: u64| #[trigger] m.completed.contains_key(k) ==> k < m.next_id)
    &&& (forall|i: int|
        0 <= i < m.ready.len() ==> !m.completed.contains_key((#[trigger] m.ready[i]).id))
    &&& (forall|i: int|
        0 <= i < m.parked.len() ==> !m.completed.contains_key((#[trigger] m.parked[i]).id))
    &&& (forall|i: int|
        0 <= i < m.ready.len() ==> awaits_below((#[trigger] m.ready[i]).comp, m.next_id))
    &&& (forall|i: int|
        0 <= i < m.parked.len() ==> awaits_below((#[trigger] m.parked[i]).comp, m.next_id))
    &&& (forall|k: u64| #[trigger] m.notify.contains_key(k) ==> k < m.next_id)
}

/// The weight of a computation: how many resume-steps of work it can still
/// hold. Spawning counts double, because it hands a subtree to a new task.
pub open spec fn csize(c: Computation) -> nat
    decreases c,
{
    match c {
        Computation::Value(_) => 1,
        Computation::Sum(l, r) => 1 + csize(*l) + csize(*r),
        Computation::DelayFor(_, k) => 1 + csize(*k),
        Computation::WaitUntil(_, k) => 1 + csize(*k),
        Computation::RaceDelays(_, _, k) => 1 + csize(*k),
        Computation::RaceUntil(_, _, k) => 1 + csize(*k),
        Computation::SpawnJoin(inner) => 2 + csize(*inner),
        Computation::AwaitTask(_) => 1,
    }
}

/// The combined weight of a row of tasks.
pub open spec fn tasks_size(s: Seq<Task>) -> nat
    decreases s.len(),
{
    if s.len() == 0 {
        0
    } else {
        csize(s[0].comp) + tasks_size(s.drop_first())
    }
}

/// The amount of work the resume loop can still do before it must stop: it
/// shrinks with every iteration that resumes a task.
pub open spec fn measure(m: Model) -> nat {
    3 * tasks_size(m.ready) + 3 * tasks_size(m.parked) + m.wakes.len() + m.ready.len()
}

pub proof fn lemma_tasks_size_push(s: Seq<Task>, t: Task)
    ensures
        tasks_size(s.push(t)) == tasks_size(s) + csize(t.comp),
    decreases s.len(),
{
    if s.len() == 0 {
        assert(s.push(t)[0] == t);
        assert(s.push(t).drop_first() =~= Seq::<Task>::empty());
        assert(tasks_size(Seq::<Task>::empty()) == 0);
    } else {
        assert(s.push(t)[0] == s[0]);
        assert(s.push(t).drop_first() =~= s.drop_first().push(t));
        lemma_tasks_size_push(s.drop_first(), t);
    }
}

pub proof fn lemma_tasks_size_remove(s: Seq<Task>, i: int)
    requires
        0 <= i < s.len(),
    ensures
        tasks_size(s.remove(i)) + csize(s[i].comp) == tasks_size(s),
    decreases s.len(),
{
    if i == 0 {
        assert(s.remove(0) =~= s.drop_first());
    } else {
        assert(s.remove(i).drop_first() =~= s.drop_first().remove(i - 1));
        assert(s.remove(i)[0] == s[0]);
        lemma_tasks_size_remove(s.drop_first(), i - 1);
    }
}

/// Delivering one wake notification adds at most the queue slot of the task
/// it moves; together with the wake it consumes, the remaining work never
/// grows.
pub proof fn lemma_drain_match_measure(m: Model, w: u64)
    ensures
        measure(drain_match(m, w)) <= measure(m) + 1,
        drain_match(m, w).wakes == m.wakes,
{
    let i = parked_find(m.parked, w);
    if i >= 0 {
        lemma_parked_find_props(m.parked, w);
        lemma_tasks_size_remove(m.parked, i);
        lemma_tasks_size_push(m.ready, m.parked[i]);
    }
}

/// Draining the wake queue never increases the remaining work.
pub proof fn lemma_drain_wakes_measure(m: Model)
    ensures
        measure(drain_wakes(m)) <= measure(m),
        drain_wakes(m).wakes.len() == 0,
        drain_wakes(m).now == m.now,
    decreases m.wakes.len(),
{
    if m.wakes.len() > 0 {
        let w = m.wakes[0];
        let m1 = Model { wakes: m.wakes.drop_first(), ..m };
        lemma_drain_match_measure(m1, w);
        lemma_drain_wakes_measure(drain_match(m1, w));
    }
}

/// What one resume-check can do to the remaining work: it never touches the
/// parked table, the wake queue, the log or the clock; a completing check
/// leaves the ready queue alone; a suspending check may hand one subtree to
/// a fresh ready task, but pays for it out of the computation's own weight.
pub proof fn lemma_resume_measure(c: Computation, id: u64, m: Model)
    ensures
        ({
            let r = resume_spec(c, id, m);
            &&& r.m.parked == m.parked
            &&& r.m.wakes == m.wakes
            &&& r.m.log == m.log
            &&& r.m.now == m.now
            &&& (r.done is Some ==> r.m.ready == m.ready)
            &&& (r.done is None ==> 3 * tasks_size(r.m.ready) + r.m.ready.len() + 3 * csize(
                r.rewritten,
            ) <= 3 * tasks_size(m.ready) + m.ready.len() + 3 * csize(c))
        }),
    decreases c,
{
    let r = resume_spec(c, id, m);
    match c {
        Computation::Value(_) => {},
        Computation::Sum(l, rr) => {
            lemma_resume_measure(*l, id, m);
            let rl = resume_spec(*l, id, m);
            match rl.done {
                None => {
                    assert(csize(*l) >= 1);
                    assert(r.done is None);
                    assert(3 * tasks_size(r.m.ready) + r.m.ready.len() + 3 * csize(r.rewritten)
                        <= 3 * tasks_size(m.ready) + m.ready.len() + 3 * csize(c));
                },
                Some(v) => {
                    lemma_resume_measure(*rr, id, rl.m);
                    assert(csize(*l) >= 1);
                    let rr2 = resume_spec(*rr, id, rl.m);
                    if rr2.done is None {
                        assert(rl.m.ready == m.ready);
                        assert(3 * tasks_size(rr2.m.ready) + rr2.m.ready.len() + 3 * csize(
                            rr2.rewritten,
                        ) <= 3 * tasks_size(rl.m.ready) + rl.m.ready.len() + 3 * csize(*rr));
                        assert(r.m == rr2.m);
                        assert(r.rewritten == Computation::Sum(
                            Box::new(Computation::Value(v)),
                            Box::new(rr2.rewritten),
                        ));
                        let rw = Computation::Sum(
                            Box::new(Computation::Value(v)),
                            Box::new(rr2.rewritten),
                        );
                        assert(csize(Computation::Value(v)) == 1);
                        assert(csize(rw) == 1 + csize(Computation::Value(v)) + csize(
                            rr2.rewritten,
                        ));
                        assert(csize(r.rewritten) == 2 + csize(rr2.rewritten));
                        assert(csize(c) == 1 + csize(*l) + csize(*rr));
                        assert(3 * tasks_size(r.m.ready) + r.m.ready.len() + 3 * csize(
                            r.rewritten,
                        ) <= 3 * tasks_size(m.ready) + m.ready.len() + 3 * csize(c));
                    }
                },
            }
        },
        Computation::DelayFor(d, k) => {
            let dl = sat_add_spec(m.now, d);
            if dl <= m.now {
                lemma_resume_measure(*k, id, m);
            }
        },
        Computation::WaitUntil(dl, k) => {
            if dl <= m.now {
                lemma_resume_measure(*k, id, m);
            }
        },
        Computation::RaceDelays(d1, d2, k) => {
            let dl1 = sat_add_spec(m.now, d1);
            let dl2 = sat_add_spec(m.now, d2);
            if dl1 <= m.now || dl2 <= m.now {
                lemma_resume_measure(*k, id, m);
            }
        },
        Computation::RaceUntil(dl1, dl2, k) => {
            if dl1 <= m.now || dl2 <= m.now {
                lemma_resume_measure(*k, id, m);
            }
        },
        Computation::SpawnJoin(inner) => {
            if m.next_id != u64::MAX {
                lemma_tasks_size_push(m.ready, Task { id: m.next_id, comp: *inner });
                assert(tasks_size(r.m.ready) == tasks_size(m.ready) + csize(*inner));
                assert(csize(r.rewritten) == 1);
                assert(csize(c) == 2 + csize(*inner));
                assert(3 * tasks_size(r.m.ready) + r.m.ready.len() + 3 * csize(r.rewritten)
                    <= 3 * tasks_size(m.ready) + m.ready.len() + 3 * csize(c));
            }
        },
        Computation::AwaitTask(_) => {},
    }
}

/// An iteration of the resume loop that finds a ready task strictly shrinks
/// the remaining work.
pub proof fn lemma_run_one_measure(m: Model)
    ensures
        measure(run_one(m)) <= measure(m),
        drain_wakes(m).ready.len() > 0 ==> measure(run_one(m)) < measure(m),
        run_one(m).now == m.now,
{
    lemma_drain_wakes_measure(m);
    let m1 = drain_wakes(m);
    if m1.ready.len() > 0 {
        let t = m1.ready[0];
        let m2 = Model { ready: m1.ready.drop_first(), ..m1 };
        assert(m1.ready.remove(0) =~= m1.ready.drop_first());
        lemma_tasks_size_remove(m1.ready, 0);
        let r = resume_spec(t.comp, t.id, m2);
        lemma_resume_measure(t.comp, t.id, m2);
        assert(csize(t.comp) >= 1);
        match r.done {
            Some(v) => {},
            None => {
                lemma_tasks_size_push(r.m.parked, Task { id: t.id, comp: r.rewritten });
            },
        }
    }
}

/// Everything one resume-check preserves: it leaves the parked table, the
/// wake queue, the log and the clock alone; it keeps the existing ready
/// tasks in place and only appends fresh ones, with fresh, distinct ids; it
/// only removes completed values, and only those of tasks the computation
/// awaits; and neither the suspended form nor any spawned task awaits an
/// already-issued id that the computation itself did not await.
pub proof fn lemma_resume_props(c: Computation, id: u64, m: Model)
    ensures
        ({
            let r = resume_spec(c, id, m);
            &&& r.m.parked == m.parked
            &&& r.m.wakes == m.wakes
            &&& r.m.log == m.log
            &&& r.m.now == m.now
            &&& m.next_id <= r.m.next_id
            &&& (timers_sorted(m.timers) ==> timers_sorted(r.m.timers))
            &&& r.m.ready.len() >= m.ready.len()
            &&& (forall|i: int| 0 <= i < m.ready.len() ==> r.m.ready[i] == m.ready[i])
            &&& (forall|i: int|
                m.ready.len() <= i < r.m.ready.len() ==> m.next_id <= (
                #[trigger] r.m.ready[i]).id < r.m.next_id)
            &&& (forall|i: int, j: int|
                m.ready.len() <= i < j < r.m.ready.len() ==> r.m.ready[i].id
                    != r.m.ready[j].id)
            &&& (forall|k: u64| #[trigger]
                r.m.completed.contains_key(k) ==> m.completed.contains_key(k)
                    && r.m.completed[k] == m.completed[k])
            &&& (forall|k: u64|
                m.completed.contains_key(k) && !awaits_task(c, k) ==> #[trigger]
                    r.m.completed.contains_key(k))
            &&& (forall|k: u64|
                k < m.next_id && #[trigger] awaits_task(r.rewritten, k) ==> awaits_task(c, k))
            &&& (forall|i: int, k: u64|
                m.ready.len() <= i < r.m.ready.len() && k < m.next_id && #[trigger] awaits_task(
                    r.m.ready[i].comp,
                    k,
                ) ==> awaits_task(c, k))
        }),
    decreases c,
{
    let r = resume_spec(c, id, m);
    match c {
        Computation::Value(_) => {},
        Computation::Sum(l, rr) => {
            lemma_resume_props(*l, id, m);
            let rl = resume_spec(*l, id, m);
            match rl.done {
                None => {
                    let rw = Computation::Sum(Box::new(rl.rewritten), rr);
                    assert(forall|k: u64|
                        #[trigger] awaits_task(rw, k) == (awaits_task(rl.rewritten, k)
                            || awaits_task(*rr, k)));
                    assert(forall|k: u64|
                        #[trigger] awaits_task(c, k) == (awaits_task(*l, k) || awaits_task(
                            *rr,
                            k,
                        )));
                },
                Some(_) => {
                    lemma_resume_props(*rr, id, rl.m);
                    let rr2 = resume_spec(*rr, id, rl.m);
                    assert(forall|k: u64|
                        #[trigger] awaits_task(c, k) == (awaits_task(*l, k) || awaits_task(
                            *rr,
                            k,
                        )));
                    assert forall|i: int| 0 <= i < m.ready.len() implies rr2.m.ready[i]
                        == m.ready[i] by {
                        assert(rl.m.ready[i] == m.ready[i]);
                    }
                    assert forall|i: int|
                        m.ready.len() <= i < rr2.m.ready.len() implies m.next_id <= (
                    #[trigger] rr2.m.ready[i]).id < rr2.m.next_id by {
                        if i < rl.m.ready.len() {
                            assert(rr2.m.ready[i] == rl.m.ready[i]);
                        }
                    }
                    assert forall|i: int, j: int|
                        m.ready.len() <= i < j < rr2.m.ready.len() implies rr2.m.ready[i].id
                        != rr2.m.ready[j].id by {
                        if j < rl.m.ready.len() {
                            assert(rr2.m.ready[i] == rl.m.ready[i]);
                            assert(rr2.m.ready[j] == rl.m.ready[j]);
                        } else if i < rl.m.ready.len() {
                            assert(rr2.m.ready[i] == rl.m.ready[i]);
                            assert(rr2.m.ready[i].id < rl.m.next_id);
                            assert(rr2.m.ready[j].id >= rl.m.next_id);
                        }
                    }
                    assert forall|i: int, k: u64|
                        m.ready.len() <= i < rr2.m.ready.len() && k < m.next_id
                            && #[trigger] awaits_task(rr2.m.ready[i].comp, k) implies awaits_task(
                        c,
                        k,
                    ) by {
                        if i < rl.m.ready.len() {
                            assert(rr2.m.ready[i] == rl.m.ready[i]);
                            assert(awaits_task(*l, k));
                        } else {
                            assert(k < rl.m.next_id);
                            assert(awaits_task(*rr, k));
                        }
                    }
                    if rr2.done is None {
                        let rw = Computation::Sum(
                            Box::new(Computation::Value(rl.done->0)),
                            Box::new(rr2.rewritten),
                        );
                        assert(forall|k: u64|
                            #[trigger] awaits_task(rw, k) == (awaits_task(
                                Computation::Value(rl.done->0),
                                k,
                            ) || awaits_task(rr2.rewritten, k)));
                    }
                },
            }
        },
        Computation::DelayFor(d, k) => {
            let dl = sat_add_spec(m.now, d);
            if dl <= m.now {
                lemma_resume_props(*k, id, m);
            } else {
                if timers_sorted(m.timers) {
                    lemma_timer_insert_sorted(m.timers, Timeout { deadline: dl, task: id });
                }
            }
        },
        Computation::WaitUntil(dl, k) => {
            if dl <= m.now {
                lemma_resume_props(*k, id, m);
            } else {
                if timers_sorted(m.timers) {
                    lemma_timer_insert_sorted(m.timers, Timeout { deadline: dl, task: id });
                }
            }
        },
        Computation::RaceDelays(d1, d2, k) => {
            let dl1 = sat_add_spec(m.now, d1);
            let dl2 = sat_add_spec(m.now, d2);
            if dl1 <= m.now || dl2 <= m.now {
                lemma_resume_props(*k, id, m);
            } else {
                if timers_sorted(m.timers) {
                    lemma_timer_insert_sorted(m.timers, Timeout { deadline: dl1, task: id });
                    lemma_timer_insert_sorted(
                        timer_insert(m.timers, Timeout { deadline: dl1, task: id }),
                        Timeout { deadline: dl2, task: id },
                    );
                }
            }
        },
        Computation::RaceUntil(dl1, dl2, k) => {
            if dl1 <= m.now || dl2 <= m.now {
                lemma_resume_props(*k, id, m);
            } else {
                if timers_sorted(m.timers) {
                    lemma_timer_insert_sorted(m.timers, Timeout { deadline: dl1, task: id });
                    lemma_timer_insert_sorted(
                        timer_insert(m.timers, Timeout { deadline: dl1, task: id }),
                        Timeout { deadline: dl2, task: id },
                    );
                }
            }
        },
        Computation::SpawnJoin(inner) => {},
        Computation::AwaitTask(_) => {},
    }
}

/// A resume-check of a computation that waits only for issued ids keeps
/// that discipline: its suspended form and every task it spawns wait only
/// for ids the allocator has issued, and every completion-notification slot
/// it installs belongs to an issued id.
pub proof fn lemma_resume_awaits(c: Computation, id: u64, m: Model)
    requires
        awaits_below(c, m.next_id),
    ensures
        ({
            let r = resume_spec(c, id, m);
            &&& awaits_below(r.rewritten, r.m.next_id)
            &&& (forall|i: int|
                m.ready.len() <= i < r.m.ready.len() ==> awaits_below(
                    (#[trigger] r.m.ready[i]).comp,
                    r.m.next_id,
                ))
            &&& (forall|k: u64| #[trigger]
                r.m.notify.contains_key(k) ==> m.notify.contains_key(k) || k < r.m.next_id)
        }),
    decreases c,
{
    let r = resume_spec(c, id, m);
    lemma_resume_props(c, id, m);
    match c {
        Computation::Value(v) => {
            assert forall|t: u64| #[trigger]
                awaits_task(r.rewritten, t) implies t < r.m.next_id by {}
        },
        Computation::Sum(l, rr) => {
            assert(forall|t: u64|
                #[trigger] awaits_task(c, t) == (awaits_task(*l, t) || awaits_task(*rr, t)));
            assert forall|t: u64| #[trigger] awaits_task(*l, t) implies t < m.next_id by {
                assert(awaits_task(c, t));
            }
            assert(awaits_below(*l, m.next_id));
            assert forall|t: u64| #[trigger] awaits_task(*rr, t) implies t < m.next_id by {
                assert(awaits_task(c, t));
            }
            assert(awaits_below(*rr, m.next_id));
            lemma_resume_awaits(*l, id, m);
            let rl = resume_spec(*l, id, m);
            lemma_resume_props(*l, id, m);
            match rl.done {
                None => {
                    let rw = Computation::Sum(Box::new(rl.rewritten), rr);
                    assert(forall|t: u64|
                        #[trigger] awaits_task(rw, t) == (awaits_task(rl.rewritten, t)
                            || awaits_task(*rr, t)));
                    assert(awaits_below(r.rewritten, r.m.next_id));
                },
                Some(v) => {
                    assert(awaits_below(*rr, rl.m.next_id));
                    lemma_resume_awaits(*rr, id, rl.m);
                    let rr2 = resume_spec(*rr, id, rl.m);
                    lemma_resume_props(*rr, id, rl.m);
                    match rr2.done {
                        None => {
                            let rw = Computation::Sum(
                                Box::new(Computation::Value(v)),
                                Box::new(rr2.rewritten),
                            );
                            assert(forall|t: u64|
                                #[trigger] awaits_task(rw, t) == (awaits_task(
                                    Computation::Value(v),
                                    t,
                                ) || awaits_task(rr2.rewritten, t)));
                            assert(awaits_below(r.rewritten, r.m.next_id));
                        },
                        Some(_) => {
                            assert forall|t: u64| #[trigger]
                                awaits_task(r.rewritten, t) implies t < r.m.next_id by {}
                        },
                    }
                    assert forall|i: int|
                        m.ready.len() <= i < r.m.ready.len() implies awaits_below(
                        (#[trigger] r.m.ready[i]).comp,
                        r.m.next_id,
                    ) by {
                        if i < rl.m.ready.len() {
                            assert(rr2.m.ready[i] == rl.m.ready[i]);
                            assert(awaits_below(rl.m.ready[i].comp, rl.m.next_id));
                            assert(rl.m.next_id <= rr2.m.next_id);
                        }
                    }
                    assert forall|k: u64| #[trigger]
                        r.m.notify.contains_key(k) implies m.notify.contains_key(k) || k
                        < r.m.next_id by {
                        if rl.m.notify.contains_key(k) {
                            assert(m.notify.contains_key(k) || k < rl.m.next_id);
                        }
                    }
                },
            }
        },
        Computation::DelayFor(d, k) => {
            let dl = sat_add_spec(m.now, d);
            assert(forall|t: u64| #[trigger] awaits_task(c, t) == awaits_task(*k, t));
            if dl <= m.now {
                assert forall|t: u64| #[trigger] awaits_task(*k, t) implies t
                    < m.next_id by {
                    assert(awaits_task(c, t));
                }
                assert(awaits_below(*k, m.next_id));
                lemma_resume_awaits(*k, id, m);
            } else {
                assert forall|t: u64| #[trigger]
                    awaits_task(r.rewritten, t) implies t < r.m.next_id by {
                    assert(awaits_task(c, t));
                }
            }
        },
        Computation::WaitUntil(dl, k) => {
            assert(forall|t: u64| #[trigger] awaits_task(c, t) == awaits_task(*k, t));
            if dl <= m.now {
                assert forall|t: u64| #[trigger] awaits_task(*k, t) implies t
                    < m.next_id by {
                    assert(awaits_task(c, t));
                }
                assert(awaits_below(*k, m.next_id));
                lemma_resume_awaits(*k, id, m);
            } else {
                assert forall|t: u64| #[trigger]
                    awaits_task(r.rewritten, t) implies t < r.m.next_id by {
                    assert(awaits_task(c, t));
                }
            }
        },
        Computation::RaceDelays(d1, d2, k) => {
            let dl1 = sat_add_spec(m.now, d1);
            let dl2 = sat_add_spec(m.now, d2);
            assert(forall|t: u64| #[trigger] awaits_task(c, t) == awaits_task(*k, t));
            if dl1 <= m.now || dl2 <= m.now {
                assert forall|t: u64| #[trigger] awaits_task(*k, t) implies t
                    < m.next_id by {
                    assert(awaits_task(c, t));
                }
                assert(awaits_below(*k, m.next_id));
                lemma_resume_awaits(*k, id, m);
            } else {
                assert forall|t: u64| #[trigger]
                    awaits_task(r.rewritten, t) implies t < r.m.next_id by {
                    assert(awaits_task(c, t));
                }
            }
        },
        Computation::RaceUntil(dl1, dl2, k) => {
            assert(forall|t: u64| #[trigger] awaits_task(c, t) == awaits_task(*k, t));
            if dl1 <= m.now || dl2 <= m.now {
                assert forall|t: u64| #[trigger] awaits_task(*k, t) implies t
                    < m.next_id by {
                    assert(awaits_task(c, t));
                }
                assert(awaits_below(*k, m.next_id));
                lemma_resume_awaits(*k, id, m);
            } else {
                assert forall|t: u64| #[trigger]
                    awaits_task(r.rewritten, t) implies t < r.m.next_id by {
                    assert(awaits_task(c, t));
                }
            }
        },
        Computation::SpawnJoin(inner) => {
            assert(forall|t: u64| #[trigger] awaits_task(c, t) == awaits_task(*inner, t));
            if m.next_id == u64::MAX {
                assert forall|t: u64| #[trigger]
                    awaits_task(r.rewritten, t) implies t < r.m.next_id by {
                    assert(awaits_task(c, t));
                }
            } else {
                let b = m.next_id;
                assert forall|t: u64| #[trigger]
                    awaits_task(r.rewritten, t) implies t < r.m.next_id by {
                    assert(t == b);
                }
                assert forall|i: int|
                    m.ready.len() <= i < r.m.ready.len() implies awaits_below(
                    (#[trigger] r.m.ready[i]).comp,
                    r.m.next_id,
                ) by {
                    assert(r.m.ready[i] == Task { id: b, comp: *inner });
                    assert forall|t: u64| #[trigger]
                        awaits_task(*inner, t) implies t < r.m.next_id by {
                        assert(awaits_task(c, t));
                    }
                }
            }
        },
        Computation::AwaitTask(t0) => {
            assert(awaits_task(c, t0));
            assert forall|t: u64| #[trigger]
                awaits_task(r.rewritten, t) implies t < r.m.next_id by {
                assert(awaits_task(c, t));
            }
        },
    }
}

/// Delivering one wake notification preserves well-formedness, moves no
/// task out of the ready queue, and touches nothing but the parked table
/// and the ready queue.
pub proof fn lemma_drain_match_wf(m: Model, w: u64)
    requires
        wf(m),
    ensures
        wf(drain_match(m, w)),
        drain_match(m, w).now == m.now,
        drain_match(m, w).next_id == m.next_id,
        drain_match(m, w).timers == m.timers,
        drain_match(m, w).completed == m.completed,
        drain_match(m, w).notify == m.notify,
        drain_match(m, w).log == m.log,
        drain_match(m, w).wakes == m.wakes,
        drain_match(m, w).ready.len() >= m.ready.len(),
        forall|i: int| 0 <= i < m.ready.len() ==> drain_match(m, w).ready[i] == m.ready[i],
{
    let i = parked_find(m.parked, w);
    if i >= 0 {
        lemma_parked_find_props(m.parked, w);
        let d = drain_match(m, w);
        assert forall|a: int, b: int| 0 <= a < b < d.parked.len() implies d.parked[a].id
            != d.parked[b].id by {
            assert(d.parked[a] == if a < i {
                m.parked[a]
            } else {
                m.parked[a + 1]
            });
            assert(d.parked[b] == if b < i {
                m.parked[b]
            } else {
                m.parked[b + 1]
            });
        }
        assert forall|a: int| 0 <= a < d.parked.len() implies (#[trigger] d.parked[a]).id
            < d.next_id && !d.completed.contains_key(d.parked[a].id) by {
            assert(d.parked[a] == if a < i {
                m.parked[a]
            } else {
                m.parked[a + 1]
            });
        }
        assert forall|a: int, b: int|
            0 <= a < d.ready.len() && 0 <= b < d.parked.len() implies d.ready[a].id
            != d.parked[b].id by {
            assert(d.parked[b] == if b < i {
                m.parked[b]
            } else {
                m.parked[b + 1]
            });
            if a < m.ready.len() {
                assert(d.ready[a] == m.ready[a]);
            } else {
                assert(d.ready[a] == m.parked[i]);
            }
        }
        assert forall|a: int, b: int| 0 <= a < b < d.ready.len() implies d.ready[a].id
            != d.ready[b].id by {
            if b == m.ready.len() as int {
                assert(d.ready[b] == m.parked[i]);
                assert(d.ready[a] == m.ready[a]);
            }
        }
        assert forall|a: int| 0 <= a < d.parked.len() implies awaits_below(
            (#[trigger] d.parked[a]).comp,
            d.next_id,
        ) by {
            assert(d.parked[a] == if a < i {
                m.parked[a]
            } else {
                m.parked[a + 1]
            });
        }
        assert forall|a: int| 0 <= a < d.ready.len() implies awaits_below(
            (#[trigger] d.ready[a]).comp,
            d.next_id,
        ) by {
            if a < m.ready.len() {
                assert(d.ready[a] == m.ready[a]);
            } else {
                assert(d.ready[a] == m.parked[i]);
            }
        }
    }
}

/// Draining the whole wake queue preserves well-formedness and touches
/// nothing but the wake queue, the parked table and the ready queue; ready
/// tasks only gain neighbours behind them.
pub proof fn lemma_drain_wakes_wf(m: Model)
    requires
        wf(m),
    ensures
        wf(drain_wakes(m)),
        drain_wakes(m).now == m.now,
        drain_wakes(m).next_id == m.next_id,
        drain_wakes(m).timers == m.timers,
        drain_wakes(m).completed == m.completed,
        drain_wakes(m).notify == m.notify,
        drain_wakes(m).log == m.log,
        drain_wakes(m).ready.len() >= m.ready.len(),
        forall|i: int| 0 <= i < m.ready.len() ==> drain_wakes(m).ready[i] == m.ready[i],
    decreases m.wakes.len(),
{
    if m.wakes.len() > 0 {
        let w = m.wakes[0];
        let m1 = Model { wakes: m.wakes.drop_first(), ..m };
        lemma_drain_match_wf(m1, w);
        lemma_drain_wakes_wf(drain_match(m1, w));
    }
}

/// Draining the wake queue leaves the clock, the allocator, the timers, the
/// completed table, the notification slots and the log alone, and keeps
/// every already-ready task in its place.
pub proof fn lemma_drain_wakes_frame(m: Model)
    ensures
        drain_wakes(m).now == m.now,
        drain_wakes(m).next_id == m.next_id,
        drain_wakes(m).timers == m.timers,
        drain_wakes(m).completed == m.completed,
        drain_wakes(m).notify == m.notify,
        drain_wakes(m).log == m.log,
        drain_wakes(m).ready.len() >= m.ready.len(),
        forall|i: int| 0 <= i < m.ready.len() ==> drain_wakes(m).ready[i] == m.ready[i],
    decreases m.wakes.len(),
{
    if m.wakes.len() > 0 {
        let w = m.wakes[0];
        let m1 = Model { wakes: m.wakes.drop_first(), ..m };
        let d = drain_match(m1, w);
        lemma_drain_wakes_frame(d);
        assert forall|i: int| 0 <= i < m.ready.len() implies drain_wakes(m).ready[i]
            == m.ready[i] by {
            let p = parked_find(m1.parked, w);
            if p >= 0 {
                assert(d.ready == m1.ready.push(m1.parked[p]));
            }
            assert(d.ready[i] == m.ready[i]);
            assert(drain_wakes(d).ready[i] == d.ready[i]);
        }
    }
}

/// One iteration of the resume loop preserves well-formedness.
pub proof fn lemma_run_one_wf(m: Model)
    requires
        wf(m),
    ensures
        wf(run_one(m)),
{
    lemma_drain_wakes_wf(m);
    let m1 = drain_wakes(m);
    if m1.ready.len() > 0 {
        let t = m1.ready[0];
        let m2 = Model { ready: m1.ready.drop_first(), ..m1 };
        assert forall|a: int| 0 <= a < m2.ready.len() implies (#[trigger] m2.ready[a]).id
            < m2.next_id && !m2.completed.contains_key(m2.ready[a].id) by {
            assert(m2.ready[a] == m1.ready[a + 1]);
        }
        assert forall|a: int, b: int| 0 <= a < b < m2.ready.len() implies m2.ready[a].id
            != m2.ready[b].id by {
            assert(m2.ready[a] == m1.ready[a + 1]);
            assert(m2.ready[b] == m1.ready[b + 1]);
        }
        assert forall|a: int, b: int|
            0 <= a < m2.ready.len() && 0 <= b < m2.parked.len() implies m2.ready[a].id
            != m2.parked[b].id by {
            assert(m2.ready[a] == m1.ready[a + 1]);
        }
        assert forall|a: int| 0 <= a < m2.ready.len() implies awaits_below(
            (#[trigger] m2.ready[a]).comp,
            m2.next_id,
        ) by {
            assert(m2.ready[a] == m1.ready[a + 1]);
        }
        assert(wf(m2));
        assert(awaits_below(t.comp, m2.next_id));
        lemma_resume_props(t.comp, t.id, m2);
        lemma_resume_awaits(t.comp, t.id, m2);
        let r = resume_spec(t.comp, t.id, m2);
        assert forall|a: int| 0 <= a < r.m.ready.len() implies awaits_below(
            (#[trigger] r.m.ready[a]).comp,
            r.m.next_id,
        ) by {
            if a < m2.ready.len() {
                assert(r.m.ready[a] == m2.ready[a]);
                assert(awaits_below(m2.ready[a].comp, m2.next_id));
                assert(m2.next_id <= r.m.next_id);
            }
        }
        assert forall|b: int| 0 <= b < r.m.parked.len() implies awaits_below(
            (#[trigger] r.m.parked[b]).comp,
            r.m.next_id,
        ) by {
            assert(r.m.parked[b] == m2.parked[b]);
            assert(awaits_below(m2.parked[b].comp, m2.next_id));
            assert(m2.next_id <= r.m.next_id);
        }
        assert forall|k: u64| #[trigger] r.m.notify.contains_key(k) implies k
            < r.m.next_id by {
            if m2.notify.contains_key(k) {
                assert(k < m2.next_id);
            }
        }
        assert forall|a: int| 0 <= a < r.m.ready.len() implies (#[trigger] r.m.ready[a]).id
            < r.m.next_id && !r.m.completed.contains_key(r.m.ready[a].id) by {
            if a < m2.ready.len() {
                assert(r.m.ready[a] == m2.ready[a]);
            }
        }
        assert forall|a: int, b: int| 0 <= a < b < r.m.ready.len() implies r.m.ready[a].id
            != r.m.ready[b].id by {
            if b < m2.ready.len() {
                assert(r.m.ready[a] == m2.ready[a]);
                assert(r.m.ready[b] == m2.ready[b]);
            } else if a < m2.ready.len() {
                assert(r.m.ready[a] == m2.ready[a]);
                assert(r.m.ready[a].id < m2.next_id);
                assert(r.m.ready[b].id >= m2.next_id);
            }
        }
        assert forall|a: int, b: int|
            0 <= a < r.m.ready.len() && 0 <= b < r.m.parked.len() implies r.m.ready[a].id
            != r.m.parked[b].id by {
            assert(r.m.parked[b] == m2.parked[b]);
            if a < m2.ready.len() {
                assert(r.m.ready[a] == m2.ready[a]);
            } else {
                assert(r.m.ready[a].id >= m2.next_id);
                assert(r.m.parked[b].id < m2.next_id);
            }
        }
        assert forall|b: int| 0 <= b < r.m.parked.len() implies (#[trigger] r.m.parked[b]).id
            < r.m.next_id && !r.m.completed.contains_key(r.m.parked[b].id) by {
            assert(r.m.parked[b] == m2.parked[b]);
        }
        assert forall|k: u64| #[trigger] r.m.completed.contains_key(k) implies k
            < r.m.next_id by {
            assert(m2.completed.contains_key(k));
        }
        assert(t.id < m2.next_id);
        assert(t.id == m1.ready[0].id);
        assert(forall|a: int| 0 < a < m1.ready.len() ==> (#[trigger] m1.ready[a]).id != t.id);
        assert forall|a: int| 0 <= a < r.m.ready.len() implies (#[trigger] r.m.ready[a]).id
            != t.id by {
            if a < m2.ready.len() {
                assert(r.m.ready[a] == m2.ready[a]);
                assert(m2.ready[a] == m1.ready[a + 1]);
            } else {
                assert(r.m.ready[a].id >= m2.next_id);
            }
        }
        assert forall|b: int| 0 <= b < r.m.parked.len() implies (#[trigger] r.m.parked[b]).id
            != t.id by {
            assert(r.m.parked[b] == m2.parked[b]);
        }
        match r.done {
            Some(v) => {
                let f = finish_task(r.m, t.id, v);
                assert forall|a: int| 0 <= a < f.ready.len() implies !f.completed.contains_key(
                    (#[trigger] f.ready[a]).id,
                ) by {
                    assert(f.ready[a] == r.m.ready[a]);
                }
                assert forall|b: int| 0 <= b < f.parked.len() implies !f.completed.contains_key(
                    (#[trigger] f.parked[b]).id,
                ) by {
                    assert(f.parked[b] == m2.parked[b]);
                }
                assert forall|a: int| 0 <= a < f.ready.len() implies awaits_below(
                    (#[trigger] f.ready[a]).comp,
                    f.next_id,
                ) by {
                    assert(f.ready[a] == r.m.ready[a]);
                    assert(awaits_below(r.m.ready[a].comp, r.m.next_id));
                }
                assert forall|b: int| 0 <= b < f.parked.len() implies awaits_below(
                    (#[trigger] f.parked[b]).comp,
                    f.next_id,
                ) by {
                    assert(f.parked[b] == r.m.parked[b]);
                    assert(awaits_below(r.m.parked[b].comp, r.m.next_id));
                }
                assert forall|k: u64| #[trigger] f.notify.contains_key(k) implies k
                    < f.next_id by {
                    assert(r.m.notify.contains_key(k));
                }
                assert(wf(f));
            },
            None => {
                let p = Model {
                    parked: r.m.parked.push(Task { id: t.id, comp: r.rewritten }),
                    ..r.m
                };
                assert forall|b: int| 0 <= b < p.parked.len() implies (
                #[trigger] p.parked[b]).id < p.next_id && !p.completed.contains_key(
                    p.parked[b].id,
                ) by {
                    if b < r.m.parked.len() {
                        assert(p.parked[b] == m2.parked[b]);
                    } else {
                        assert(p.parked[b] == Task { id: t.id, comp: r.rewritten });
                    }
                }
                assert forall|a: int, b: int| 0 <= a < b < p.parked.len() implies p.parked[a].id
                    != p.parked[b].id by {
                    if b < r.m.parked.len() {
                        assert(p.parked[a] == m2.parked[a]);
                        assert(p.parked[b] == m2.parked[b]);
                    } else {
                        assert(p.parked[a] == m2.parked[a]);
                        assert(p.parked[b].id == t.id);
                    }
                }
                assert forall|a: int, b: int|
                    0 <= a < p.ready.len() && 0 <= b < p.parked.len() implies p.ready[a].id
                    != p.parked[b].id by {
                    if b < r.m.parked.len() {
                        assert(p.parked[b] == m2.parked[b]);
                        if a < m2.ready.len() {
                            assert(p.ready[a] == m2.ready[a]);
                        } else {
                            assert(p.ready[a].id >= m2.next_id);
                        }
                    } else {
                        assert(p.parked[b].id == t.id);
                    }
                }
                assert forall|b: int| 0 <= b < p.parked.len() implies awaits_below(
                    (#[trigger] p.parked[b]).comp,
                    p.next_id,
                ) by {
                    if b < r.m.parked.len() {
                        assert(p.parked[b] == r.m.parked[b]);
                        assert(awaits_below(r.m.parked[b].comp, r.m.next_id));
                    } else {
                        assert(p.parked[b].comp == r.rewritten);
                    }
                }
                assert(wf(p));
            },
        }
    }
}

/// Iterating the resume loop any number of times preserves well-formedness.
pub proof fn lemma_run_steps_wf(m: Model, n: nat)
    requires
        wf(m),
    ensures
        wf(run_steps(m, n)),
    decreases n,
{
    if n > 0 {
        lemma_run_one_wf(m);
        lemma_run_steps_wf(run_one(m), (n - 1) as nat);
    }
}

/// Releasing due timers preserves well-formedness and touches nothing but
/// the timer registry and the wake queue.
pub proof fn lemma_fire_timers_wf(m: Model)
    requires
        wf(m),
    ensures
        wf(fire_timers(m)),
        fire_timers(m).now == m.now,
        fire_timers(m).next_id == m.next_id,
        fire_timers(m).ready == m.ready,
        fire_timers(m).parked == m.parked,
        fire_timers(m).completed == m.completed,
        fire_timers(m).notify == m.notify,
        fire_timers(m).log == m.log,
    decreases m.timers.len(),
{
    if m.timers.len() > 0 && m.timers[0].deadline <= m.now {
        let m1 = Model {
            timers: m.timers.drop_first(),
            wakes: m.wakes.push(m.timers[0].task),
            ..m
        };
        assert(forall|i: int, j: int|
            0 <= i <= j < m1.timers.len() ==> m1.timers[i].deadline <= m1.timers[j].deadline);
        lemma_fire_timers_wf(m1);
    }
}

} // verus!
