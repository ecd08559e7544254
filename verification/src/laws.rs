use vstd::prelude::*;

use crate::model::{
    advance, drain_match, drain_wakes, finish_task, fire_timers, insert_pos, parked_find,
    quiescent, resume_spec, run_one, run_steps, timers_sorted, wf, with_wake, Model,
};
use crate::task::{awaits_task, immediate, immediate_value, Computation, Task};
use crate::timer_future::Timeout;

verus! {

/// A computation that never suspends completes on its first resume-check,
/// with its value, and leaves the scheduler state untouched.
pub proof fn lemma_resume_immediate(c: Computation, id: u64, m: Model)
    requires
        immediate(c),
    ensures
        resume_spec(c, id, m).done == Some(immediate_value(c)),
        resume_spec(c, id, m).m == m,
    decreases c,
{
    match c {
        Computation::Value(_) => {},
        Computation::Sum(l, r) => {
            lemma_resume_immediate(*l, id, m);
            lemma_resume_immediate(*r, id, m);
        },
        _ => {},
    }
}

/// A quiescent state is a fixpoint of the resume loop.
pub proof fn lemma_quiescent_fix(m: Model, n: nat)
    requires
        quiescent(m),
    ensures
        run_steps(m, n) == m,
    decreases n,
{
    if n > 0 {
        assert(drain_wakes(m) == m);
        assert(run_one(m) == m);
        lemma_quiescent_fix(m, (n - 1) as nat);
    }
}

/// Iterating the resume loop in two stages is the same as iterating it once
/// for the combined count.
pub proof fn lemma_run_steps_add(m: Model, n1: nat, n2: nat)
    ensures
        run_steps(m, n1 + n2) == run_steps(run_steps(m, n1), n2),
    decreases n1,
{
    if n1 > 0 {
        lemma_run_steps_add(run_one(m), (n1 - 1) as nat, n2);
    }
}

/// The resume loop is deterministic: whenever two iterate counts both end
/// quiescent, they end in the same state. Together with the `step`
/// contract's quiescent iterate, this pins the state a `step` leaves behind
/// uniquely.
pub proof fn law_step_deterministic(m: Model, n1: nat, n2: nat)
    requires
        quiescent(run_steps(m, n1)),
        quiescent(run_steps(m, n2)),
    ensures
        run_steps(m, n1) == run_steps(m, n2),
{
    if n1 <= n2 {
        lemma_run_steps_add(m, n1, (n2 - n1) as nat);
        lemma_quiescent_fix(run_steps(m, n1), (n2 - n1) as nat);
    } else {
        lemma_run_steps_add(m, n2, (n1 - n2) as nat);
        lemma_quiescent_fix(run_steps(m, n2), (n1 - n2) as nat);
    }
}

/// A delay is exact at its boundary: resume-checking it while the clock has
/// not yet reached the deadline reports "not ready" and leaves the
/// computation waiting on the same deadline; checking it once the clock has
/// reached the deadline passes through to the continuation. The same
/// comparison, `deadline <= now`, decides both sides, so the in-check view
/// and the timer registry's release rule agree.
pub proof fn law_delay_boundary(dl: u64, k: Computation, id: u64, m: Model)
    ensures
        m.now < dl ==> resume_spec(Computation::WaitUntil(dl, Box::new(k)), id, m).done is None
            && resume_spec(Computation::WaitUntil(dl, Box::new(k)), id, m).rewritten
            == Computation::WaitUntil(dl, Box::new(k)),
        dl <= m.now ==> resume_spec(Computation::WaitUntil(dl, Box::new(k)), id, m)
            == resume_spec(k, id, m),
{
}

/// A delay of duration `d`, created at virtual time `t`, resolves exactly
/// once the advances accumulated since its creation add up to `d`: its
/// deadline `t + d` has then been reached, and not before.
pub proof fn law_delay_threshold(t: u64, d: u64, total: u64)
    requires
        t + d <= u64::MAX,
        t + total <= u64::MAX,
    ensures
        (crate::sat_add_spec(t, d) <= crate::sat_add_spec(t, total)) <==> d <= total,
{
}

/// A race of two delays resolves exactly when the earlier deadline has been
/// reached: while both deadlines are in the future the computation stays
/// suspended on both, and as soon as either has passed, the check goes
/// through to the continuation.
pub proof fn law_race_boundary(dl1: u64, dl2: u64, k: Computation, id: u64, m: Model)
    ensures
        m.now < dl1 && m.now < dl2 ==> resume_spec(
            Computation::RaceUntil(dl1, dl2, Box::new(k)),
            id,
            m,
        ).done is None && resume_spec(Computation::RaceUntil(dl1, dl2, Box::new(k)), id, m).rewritten
            == Computation::RaceUntil(dl1, dl2, Box::new(k)),
        dl1 <= m.now || dl2 <= m.now ==> resume_spec(
            Computation::RaceUntil(dl1, dl2, Box::new(k)),
            id,
            m,
        ) == resume_spec(k, id, m),
{
}

/// The wake notifications a row of timeouts stands for.
pub open spec fn timer_tasks(ts: Seq<Timeout>) -> Seq<u64> {
    ts.map_values(|t: Timeout| t.task)
}

/// Releasing timers fires exactly the due ones: the entries whose deadline
/// the clock has reached leave the registry, front to back, and their wake
/// notifications are queued in that same order; every deadline left in the
/// registry is still in the future.
pub proof fn law_fire_timers_exact(m: Model)
    requires
        timers_sorted(m.timers),
    ensures
        fire_timers(m).timers == m.timers.skip(insert_pos(m.timers, m.now)),
        fire_timers(m).wakes == m.wakes + timer_tasks(m.timers.take(insert_pos(m.timers, m.now))),
        forall|j: int|
            0 <= j < insert_pos(m.timers, m.now) ==> (#[trigger] m.timers[j]).deadline <= m.now,
        forall|j: int|
            insert_pos(m.timers, m.now) <= j < m.timers.len() ==> (
            #[trigger] m.timers[j]).deadline > m.now,
    decreases m.timers.len(),
{
    crate::model::lemma_insert_pos_props(m.timers, m.now);
    let pos = insert_pos(m.timers, m.now);
    assert forall|j: int| pos <= j < m.timers.len() implies (#[trigger] m.timers[j]).deadline
        > m.now by {
        assert(m.timers[pos].deadline > m.now);
        assert(m.timers[pos].deadline <= m.timers[j].deadline);
    }
    if m.timers.len() > 0 && m.timers[0].deadline <= m.now {
        let m1 = Model {
            timers: m.timers.drop_first(),
            wakes: m.wakes.push(m.timers[0].task),
            ..m
        };
        assert(forall|i: int, j: int|
            0 <= i <= j < m1.timers.len() ==> m1.timers[i].deadline <= m1.timers[j].deadline);
        law_fire_timers_exact(m1);
        let pos1 = insert_pos(m.timers.drop_first(), m.now);
        assert(pos == 1 + pos1);
        assert(m.timers.drop_first().skip(pos1) =~= m.timers.skip(pos));
        assert(fire_timers(m).wakes =~= m.wakes + timer_tasks(m.timers.take(pos))) by {
            let lhs = m1.wakes + timer_tasks(m.timers.drop_first().take(pos1));
            let rhs = m.wakes + timer_tasks(m.timers.take(pos));
            assert(timer_tasks(m.timers.drop_first().take(pos1)).len() == pos1);
            assert(timer_tasks(m.timers.take(pos)).len() == pos);
            assert(lhs.len() == rhs.len());
            assert forall|i: int| 0 <= i < rhs.len() implies lhs[i] == rhs[i] by {
                if i < m.wakes.len() {
                } else if i == m.wakes.len() {
                    assert(lhs[i] == m1.wakes[i]);
                    assert(m1.wakes[i] == m.timers[0].task);
                    assert(rhs[i] == timer_tasks(m.timers.take(pos))[0]);
                    assert(m.timers.take(pos)[0] == m.timers[0]);
                } else {
                    let k = i - m.wakes.len();
                    assert(lhs[i] == timer_tasks(m.timers.drop_first().take(pos1))[k - 1]);
                    assert(m.timers.drop_first().take(pos1)[k - 1] == m.timers[k]);
                    assert(rhs[i] == timer_tasks(m.timers.take(pos))[k]);
                    assert(m.timers.take(pos)[k] == m.timers[k]);
                }
            }
        }
    } else {
        assert(m.timers.skip(0) =~= m.timers);
        assert(timer_tasks(m.timers.take(0)) =~= Seq::<u64>::empty());
        assert(m.wakes + timer_tasks(m.timers.take(0)) =~= m.wakes);
    }
}

/// Sending a wake notification for an id that no parked task carries does
/// not alter the scheduler's state: draining the queue with that extra
/// notification at its end gives exactly the drain without it.
pub proof fn law_noop_wake(m: Model, w: u64)
    requires
        forall|j: int| 0 <= j < m.parked.len() ==> (#[trigger] m.parked[j]).id != w,
    ensures
        drain_wakes(with_wake(m, w)) == drain_wakes(m),
    decreases m.wakes.len(),
{
    if m.wakes.len() == 0 {
        let me = with_wake(m, w);
        assert(me.wakes[0] == w);
        let m1 = Model { wakes: me.wakes.drop_first(), ..me };
        assert(m1.wakes =~= Seq::<u64>::empty());
        crate::model::lemma_parked_find_char(m1.parked, w, m1.parked.len() as int);
        assert(drain_match(m1, w) == m1);
        assert(drain_wakes(m1) == m1);
        assert(m1 =~= Model { wakes: Seq::<u64>::empty(), ..m });
        assert(drain_wakes(m) == m);
    } else {
        let w0 = m.wakes[0];
        let m1 = Model { wakes: m.wakes.drop_first(), ..m };
        let me = with_wake(m, w);
        assert(me.wakes[0] == w0);
        let me1 = Model { wakes: me.wakes.drop_first(), ..me };
        assert(me1 =~= with_wake(m1, w));
        let d = drain_match(m1, w0);
        assert(drain_match(me1, w0) =~= with_wake(d, w)) by {
            let i = parked_find(m1.parked, w0);
            if i >= 0 {
                assert(drain_match(me1, w0) == Model {
                    parked: me1.parked.remove(i),
                    ready: me1.ready.push(me1.parked[i]),
                    ..me1
                });
            }
        }
        let i = parked_find(m1.parked, w0);
        if i >= 0 {
            crate::model::lemma_parked_find_props(m1.parked, w0);
            assert forall|j: int| 0 <= j < d.parked.len() implies (#[trigger] d.parked[j]).id
                != w by {
                assert(d.parked[j] == if j < i {
                    m1.parked[j]
                } else {
                    m1.parked[j + 1]
                });
            }
        }
        law_noop_wake(d, w);
    }
}

/// A wake notification for an id with no parked task can be struck from the
/// queue, wherever it sits: the drain gives the same state without it.
pub proof fn law_noop_wake_removed(m: Model, i: int)
    requires
        0 <= i < m.wakes.len(),
        forall|j: int| 0 <= j < m.parked.len() ==> (#[trigger] m.parked[j]).id != m.wakes[i],
    ensures
        drain_wakes(m) == drain_wakes(Model { wakes: m.wakes.remove(i), ..m }),
    decreases m.wakes.len(),
{
    let w = m.wakes[0];
    let m1 = Model { wakes: m.wakes.drop_first(), ..m };
    let ms = Model { wakes: m.wakes.remove(i), ..m };
    if i == 0 {
        crate::model::lemma_parked_find_char(m.parked, m.wakes[0], m.parked.len() as int);
        assert(drain_match(m1, w) == m1);
        assert(m.wakes.remove(0) =~= m.wakes.drop_first());
        assert(ms =~= m1);
    } else {
        let d = drain_match(m1, w);
        let p = parked_find(m1.parked, w);
        if p >= 0 {
            crate::model::lemma_parked_find_props(m1.parked, w);
        }
        assert(d.wakes == m1.wakes);
        assert(m1.wakes[i - 1] == m.wakes[i]);
        assert forall|j: int| 0 <= j < d.parked.len() implies (#[trigger] d.parked[j]).id
            != d.wakes[i - 1] by {
            if p >= 0 {
                assert(d.parked[j] == if j < p {
                    m1.parked[j]
                } else {
                    m1.parked[j + 1]
                });
            } else {
                assert(d.parked[j] == m.parked[j]);
            }
        }
        law_noop_wake_removed(d, i - 1);
        let ds = Model { wakes: d.wakes.remove(i - 1), ..d };
        assert(ms.wakes[0] == w);
        let ms1 = Model { wakes: ms.wakes.drop_first(), ..ms };
        assert(ms1.wakes =~= m1.wakes.remove(i - 1));
        assert(drain_match(ms1, w) =~= ds) by {
            if p >= 0 {
                assert(drain_match(ms1, w) == Model {
                    parked: ms1.parked.remove(p),
                    ready: ms1.ready.push(ms1.parked[p]),
                    ..ms1
                });
            }
        }
        assert(drain_wakes(ms) == drain_wakes(ds));
    }
}

/// The wake notifications that releasing timers sends: the tasks of the due
/// prefix of the registry, in order.
pub open spec fn fired_wakes(ts: Seq<Timeout>, now: u64) -> Seq<u64>
    decreases ts.len(),
{
    if ts.len() > 0 && ts[0].deadline <= now {
        seq![ts[0].task] + fired_wakes(ts.drop_first(), now)
    } else {
        Seq::empty()
    }
}

/// The timeouts that releasing timers leaves in the registry.
pub open spec fn left_timers(ts: Seq<Timeout>, now: u64) -> Seq<Timeout>
    decreases ts.len(),
{
    if ts.len() > 0 && ts[0].deadline <= now {
        left_timers(ts.drop_first(), now)
    } else {
        ts
    }
}

/// Releasing timers reads only the clock and the registry: it appends the
/// due entries' wakes to the back of the wake queue and leaves everything
/// else alone.
pub proof fn lemma_fire_timers_delta(m: Model)
    ensures
        fire_timers(m) == (Model {
            wakes: m.wakes + fired_wakes(m.timers, m.now),
            timers: left_timers(m.timers, m.now),
            ..m
        }),
    decreases m.timers.len(),
{
    if m.timers.len() > 0 && m.timers[0].deadline <= m.now {
        let m1 = Model {
            timers: m.timers.drop_first(),
            wakes: m.wakes.push(m.timers[0].task),
            ..m
        };
        lemma_fire_timers_delta(m1);
        assert(m.wakes.push(m.timers[0].task) + fired_wakes(m.timers.drop_first(), m.now)
            =~= m.wakes + fired_wakes(m.timers, m.now));
        assert(fire_timers(m) =~= (Model {
            wakes: m.wakes + fired_wakes(m.timers, m.now),
            timers: left_timers(m.timers, m.now),
            ..m
        }));
    } else {
        assert(m.wakes + fired_wakes(m.timers, m.now) =~= m.wakes);
        assert(fire_timers(m) =~= (Model {
            wakes: m.wakes + fired_wakes(m.timers, m.now),
            timers: left_timers(m.timers, m.now),
            ..m
        }));
    }
}

/// Sending a wake notification for an id with no parked task does not alter
/// what a whole `step` computes: the run after the stray notification ends
/// in exactly the state of the run without it.
pub proof fn law_step_noop_wake(m: Model, dt: u64, w: u64, n: nat)
    requires
        n >= 1,
        forall|j: int| 0 <= j < m.parked.len() ==> (#[trigger] m.parked[j]).id != w,
    ensures
        run_steps(fire_timers(advance(with_wake(m, w), dt)), n) == run_steps(
            fire_timers(advance(m, dt)),
            n,
        ),
{
    let aw = advance(with_wake(m, w), dt);
    let a = advance(m, dt);
    assert(aw =~= with_wake(a, w));
    lemma_fire_timers_delta(with_wake(a, w));
    lemma_fire_timers_delta(a);
    let fw = fire_timers(with_wake(a, w));
    let f = fire_timers(a);
    let i = a.wakes.len() as int;
    assert(fw.wakes == a.wakes.push(w) + fired_wakes(a.timers, a.now));
    assert(f.wakes == a.wakes + fired_wakes(a.timers, a.now));
    assert(fw.wakes[i] == w);
    assert forall|j: int| 0 <= j < fw.parked.len() implies (#[trigger] fw.parked[j]).id
        != fw.wakes[i] by {
        assert(fw.parked[j] == m.parked[j]);
    }
    law_noop_wake_removed(fw, i);
    assert(fw.wakes.remove(i) =~= f.wakes);
    assert((Model { wakes: fw.wakes.remove(i), ..fw }) =~= f);
    assert(drain_wakes(fw) == drain_wakes(f));
    assert(run_one(fw) == run_one(f));
    assert(run_steps(fw, n) == run_steps(run_one(fw), (n - 1) as nat));
    assert(run_steps(f, n) == run_steps(run_one(f), (n - 1) as nat));
}

/// The ids of a row of tasks, front to back.
pub open spec fn task_ids(s: Seq<Task>) -> Seq<u64> {
    s.map_values(|t: Task| t.id)
}

/// First-in, first-out: when every task in the ready queue is a computation
/// that completes without suspending, and no wakes or completion
/// notifications are pending, the resume loop completes them in exactly the
/// queue's order, each with its own value, and disturbs nothing else: the
/// completion log grows by precisely the queue's ids, front to back, and
/// every previously completed value is left in place.
pub proof fn law_fifo_immediate(m: Model, n: nat)
    requires
        wf(m),
        m.wakes.len() == 0,
        m.notify == Map::<u64, u64>::empty(),
        forall|i: int| 0 <= i < m.ready.len() ==> immediate((#[trigger] m.ready[i]).comp),
        quiescent(run_steps(m, n)),
    ensures
        run_steps(m, n).log == m.log + task_ids(m.ready),
        forall|i: int|
            0 <= i < m.ready.len() ==> run_steps(m, n).completed.contains_key(
                (#[trigger] m.ready[i]).id,
            ) && run_steps(m, n).completed[m.ready[i].id] == immediate_value(m.ready[i].comp),
        forall|k: u64| #[trigger]
            m.completed.contains_key(k) ==> run_steps(m, n).completed.contains_key(k)
                && run_steps(m, n).completed[k] == m.completed[k],
        run_steps(m, n).ready.len() == 0,
        run_steps(m, n).parked == m.parked,
    decreases n,
{
    if m.ready.len() == 0 {
        lemma_quiescent_fix(m, n);
        assert(task_ids(m.ready) =~= Seq::<u64>::empty());
        assert(m.log + task_ids(m.ready) =~= m.log);
    } else {
        assert(n > 0) by {
            if n == 0 {
                assert(run_steps(m, n) == m);
            }
        }
        assert(drain_wakes(m) == m);
        let t = m.ready[0];
        let m2 = Model { ready: m.ready.drop_first(), ..m };
        lemma_resume_immediate(t.comp, t.id, m2);
        let v = immediate_value(t.comp);
        let mp = finish_task(m2, t.id, v);
        assert(run_one(m) == mp);
        crate::model::lemma_run_one_wf(m);
        assert(forall|i: int|
            0 <= i < mp.ready.len() ==> mp.ready[i] == m.ready[i + 1]);
        assert(run_steps(m, n) == run_steps(mp, (n - 1) as nat));
        law_fifo_immediate(mp, (n - 1) as nat);
        let fin = run_steps(mp, (n - 1) as nat);
        assert(fin.log == mp.log + task_ids(mp.ready));
        assert(mp.log == m.log.push(t.id));
        assert(fin.log =~= m.log + task_ids(m.ready)) by {
            assert(task_ids(m.ready).len() == m.ready.len());
            assert(task_ids(mp.ready).len() == mp.ready.len());
            assert forall|i: int| 0 <= i < (m.log + task_ids(m.ready)).len() implies (m.log
                + task_ids(m.ready))[i] == fin.log[i] by {
                if i < m.log.len() {
                } else if i == m.log.len() {
                    assert((m.log + task_ids(m.ready))[i] == task_ids(m.ready)[0]);
                    assert(task_ids(m.ready)[0] == t.id);
                    assert(fin.log[i] == (mp.log + task_ids(mp.ready))[i]);
                    assert(mp.log[i] == t.id);
                } else {
                    assert((m.log + task_ids(m.ready))[i] == task_ids(m.ready)[i - m.log.len()]);
                    assert(task_ids(m.ready)[i - m.log.len()] == m.ready[i - m.log.len()].id);
                    assert(fin.log[i] == task_ids(mp.ready)[i - m.log.len() - 1]);
                    assert(task_ids(mp.ready)[i - m.log.len() - 1] == mp.ready[i - m.log.len()
                        - 1].id);
                    assert(mp.ready[i - m.log.len() - 1] == m.ready[i - m.log.len()]);
                }
            }
        }
        assert forall|i: int| 0 <= i < m.ready.len() implies fin.completed.contains_key(
            (#[trigger] m.ready[i]).id,
        ) && fin.completed[m.ready[i].id] == immediate_value(m.ready[i].comp) by {
            if i == 0 {
                assert(mp.completed.contains_key(t.id));
                assert(mp.completed[t.id] == v);
            } else {
                assert(mp.ready[i - 1] == m.ready[i]);
            }
        }
        assert forall|k: u64| #[trigger] m.completed.contains_key(k) implies fin
            .completed.contains_key(k) && fin.completed[k] == m.completed[k] by {
            assert(k != t.id);
            assert(mp.completed.contains_key(k));
            assert(mp.completed[k] == m.completed[k]);
        }
    }
}

/// The task occurs somewhere in the table.
pub open spec fn from_table(s: Seq<Task>, t: Task) -> bool {
    exists|j: int| 0 <= j < s.len() && t == s[j]
}

/// Draining the wake queue only moves tasks: every task in the drained
/// state's ready queue was already ready or parked, and every still-parked
/// task was parked before.
pub proof fn lemma_drain_wakes_members(m: Model)
    ensures
        forall|i: int|
            m.ready.len() <= i < drain_wakes(m).ready.len() ==> from_table(
                m.parked,
                #[trigger] drain_wakes(m).ready[i],
            ),
        forall|i: int|
            0 <= i < drain_wakes(m).parked.len() ==> from_table(
                m.parked,
                #[trigger] drain_wakes(m).parked[i],
            ),
    decreases m.wakes.len(),
{
    if m.wakes.len() == 0 {
        assert forall|i: int| 0 <= i < drain_wakes(m).parked.len() implies from_table(
            m.parked,
            #[trigger] drain_wakes(m).parked[i],
        ) by {
            assert(drain_wakes(m).parked[i] == m.parked[i]);
        }
    } else {
        let w = m.wakes[0];
        let m1 = Model { wakes: m.wakes.drop_first(), ..m };
        let d = drain_match(m1, w);
        let p = parked_find(m1.parked, w);
        if p >= 0 {
            crate::model::lemma_parked_find_props(m1.parked, w);
        }
        lemma_drain_wakes_members(d);
        crate::model::lemma_drain_wakes_frame(d);
        assert(drain_wakes(m) == drain_wakes(d));
        assert forall|t: Task| from_table(d.parked, t) implies from_table(m.parked, t) by {
            let j = choose|j: int| 0 <= j < d.parked.len() && t == d.parked[j];
            if p >= 0 {
                assert(d.parked[j] == if j < p {
                    m1.parked[j]
                } else {
                    m1.parked[j + 1]
                });
                if j < p {
                    assert(t == m.parked[j]);
                } else {
                    assert(t == m.parked[j + 1]);
                }
            } else {
                assert(t == m.parked[j]);
            }
        }
        assert forall|i: int|
            m.ready.len() <= i < drain_wakes(m).ready.len() implies from_table(
            m.parked,
            #[trigger] drain_wakes(m).ready[i],
        ) by {
            if i < d.ready.len() {
                if p >= 0 {
                    assert(d.ready[i] == m1.parked[p]);
                    assert(drain_wakes(d).ready[i] == d.ready[i]);
                    assert(drain_wakes(m).ready[i] == m.parked[p]);
                }
            } else {
                assert(from_table(d.parked, drain_wakes(d).ready[i]));
            }
        }
        assert forall|i: int| 0 <= i < drain_wakes(m).parked.len() implies from_table(
            m.parked,
            #[trigger] drain_wakes(m).parked[i],
        ) by {
            assert(from_table(d.parked, drain_wakes(d).parked[i]));
        }
    }
}

/// Once a task's value sits in the completed table and no live computation
/// awaits that task, the value stays there untouched, whatever the resume
/// loop goes on to do.
pub proof fn lemma_completed_stable(m: Model, n: nat, c: u64)
    requires
        wf(m),
        m.completed.contains_key(c),
        forall|j: int| 0 <= j < m.ready.len() ==> !awaits_task((#[trigger] m.ready[j]).comp, c),
        forall|j: int| 0 <= j < m.parked.len() ==> !awaits_task((#[trigger] m.parked[j]).comp, c),
    ensures
        run_steps(m, n).completed.contains_key(c),
        run_steps(m, n).completed[c] == m.completed[c],
    decreases n,
{
    if n > 0 {
        crate::model::lemma_drain_wakes_wf(m);
        lemma_drain_wakes_members(m);
        let m1 = drain_wakes(m);
        assert forall|j: int| 0 <= j < m1.ready.len() implies !awaits_task(
            (#[trigger] m1.ready[j]).comp,
            c,
        ) by {
            if j >= m.ready.len() {
                let jj = choose|jj: int|
                    0 <= jj < m.parked.len() && m1.ready[j] == m.parked[jj];
            } else {
                assert(m1.ready[j] == m.ready[j]);
            }
        }
        assert forall|j: int| 0 <= j < m1.parked.len() implies !awaits_task(
            (#[trigger] m1.parked[j]).comp,
            c,
        ) by {
            let jj = choose|jj: int| 0 <= jj < m.parked.len() && m1.parked[j] == m.parked[jj];
        }
        crate::model::lemma_run_one_wf(m);
        if m1.ready.len() == 0 {
            assert(run_one(m) == m1);
            lemma_completed_stable(m1, (n - 1) as nat, c);
        } else {
            let t = m1.ready[0];
            let m2 = Model { ready: m1.ready.drop_first(), ..m1 };
            assert(forall|j: int|
                0 <= j < m2.ready.len() ==> m2.ready[j] == m1.ready[j + 1]);
            crate::model::lemma_resume_props(t.comp, t.id, m2);
            let r = resume_spec(t.comp, t.id, m2);
            assert(c < m2.next_id);
            assert(!awaits_task(t.comp, c));
            assert(r.m.completed.contains_key(c));
            assert(r.m.completed[c] == m.completed[c]);
            assert forall|j: int| 0 <= j < r.m.ready.len() implies !awaits_task(
                (#[trigger] r.m.ready[j]).comp,
                c,
            ) by {
                if j < m2.ready.len() {
                    assert(r.m.ready[j] == m2.ready[j]);
                } else {
                    assert(!awaits_task(r.m.ready[j].comp, c)) by {
                        if awaits_task(r.m.ready[j].comp, c) {
                            assert(awaits_task(t.comp, c));
                        }
                    }
                }
            }
            let mp = run_one(m);
            assert(t.id != c);
            match r.done {
                Some(v) => {
                    assert(mp == finish_task(r.m, t.id, v));
                    assert(mp.completed.contains_key(c));
                    assert(mp.completed[c] == m.completed[c]);
                    assert(mp.ready == r.m.ready);
                    assert(mp.parked == m2.parked);
                    assert forall|j: int| 0 <= j < mp.parked.len() implies !awaits_task(
                        (#[trigger] mp.parked[j]).comp,
                        c,
                    ) by {
                        assert(mp.parked[j] == m1.parked[j]);
                    }
                    lemma_completed_stable(mp, (n - 1) as nat, c);
                },
                None => {
                    assert(mp.completed == r.m.completed);
                    assert(mp.ready == r.m.ready);
                    assert forall|j: int| 0 <= j < mp.parked.len() implies !awaits_task(
                        (#[trigger] mp.parked[j]).comp,
                        c,
                    ) by {
                        if j < r.m.parked.len() {
                            assert(mp.parked[j] == m1.parked[j]);
                        } else {
                            assert(mp.parked[j].comp == r.rewritten);
                            assert(!awaits_task(r.rewritten, c)) by {
                                if awaits_task(r.rewritten, c) {
                                    assert(awaits_task(t.comp, c));
                                }
                            }
                        }
                    }
                    lemma_completed_stable(mp, (n - 1) as nat, c);
                },
            }
        }
    }
}

/// Every computation that completes without suspending is completed by the
/// resume loop that first reaches it: once the loop has run to quiescence,
/// the task's value sits in the completed table, ready for its join handle —
/// provided no other live computation awaits (and would consume) that same
/// task's value.
pub proof fn law_immediate_completion(m: Model, n: nat, i: int)
    requires
        wf(m),
        0 <= i < m.ready.len(),
        immediate(m.ready[i].comp),
        forall|j: int|
            0 <= j < m.ready.len() && j != i ==> !awaits_task(
                (#[trigger] m.ready[j]).comp,
                m.ready[i].id,
            ),
        forall|j: int|
            0 <= j < m.parked.len() ==> !awaits_task((#[trigger] m.parked[j]).comp, m.ready[i].id),
        quiescent(run_steps(m, n)),
    ensures
        run_steps(m, n).completed.contains_key(m.ready[i].id),
        run_steps(m, n).completed[m.ready[i].id] == immediate_value(m.ready[i].comp),
    decreases n,
{
    let c = m.ready[i].id;
    let cv = immediate_value(m.ready[i].comp);
    assert(n > 0) by {
        if n == 0 {
            assert(run_steps(m, n) == m);
        }
    }
    crate::model::lemma_drain_wakes_wf(m);
    lemma_drain_wakes_members(m);
    let m1 = drain_wakes(m);
    assert(m1.ready[i] == m.ready[i]);
    assert forall|j: int| 0 <= j < m1.ready.len() && j != i implies !awaits_task(
        (#[trigger] m1.ready[j]).comp,
        c,
    ) by {
        if j >= m.ready.len() {
            let jj = choose|jj: int| 0 <= jj < m.parked.len() && m1.ready[j] == m.parked[jj];
        } else {
            assert(m1.ready[j] == m.ready[j]);
        }
    }
    assert forall|j: int| 0 <= j < m1.parked.len() implies !awaits_task(
        (#[trigger] m1.parked[j]).comp,
        c,
    ) by {
        let jj = choose|jj: int| 0 <= jj < m.parked.len() && m1.parked[j] == m.parked[jj];
    }
    crate::model::lemma_run_one_wf(m);
    let t = m1.ready[0];
    let m2 = Model { ready: m1.ready.drop_first(), ..m1 };
    assert(forall|j: int| 0 <= j < m2.ready.len() ==> m2.ready[j] == m1.ready[j + 1]);
    let mp = run_one(m);
    assert(run_steps(m, n) == run_steps(mp, (n - 1) as nat));
    if i == 0 {
        lemma_resume_immediate(t.comp, t.id, m2);
        assert(mp == finish_task(m2, t.id, cv));
        assert(mp.completed.contains_key(c) && mp.completed[c] == cv);
        assert forall|j: int| 0 <= j < mp.ready.len() implies !awaits_task(
            (#[trigger] mp.ready[j]).comp,
            c,
        ) by {
            assert(mp.ready[j] == m1.ready[j + 1]);
        }
        assert forall|j: int| 0 <= j < mp.parked.len() implies !awaits_task(
            (#[trigger] mp.parked[j]).comp,
            c,
        ) by {
            assert(mp.parked[j] == m1.parked[j]);
        }
        lemma_completed_stable(mp, (n - 1) as nat, c);
    } else {
        crate::model::lemma_resume_props(t.comp, t.id, m2);
        let r = resume_spec(t.comp, t.id, m2);
        assert(c < m2.next_id);
        assert(r.m.ready[i - 1] == m2.ready[i - 1]);
        assert(m2.ready[i - 1] == m.ready[i]);
        assert(!awaits_task(t.comp, c));
        assert forall|j: int| 0 <= j < r.m.ready.len() && j != i - 1 implies !awaits_task(
            (#[trigger] r.m.ready[j]).comp,
            c,
        ) by {
            if j < m2.ready.len() {
                assert(r.m.ready[j] == m2.ready[j]);
            } else {
                if awaits_task(r.m.ready[j].comp, c) {
                    assert(awaits_task(t.comp, c));
                }
            }
        }
        match r.done {
            Some(v) => {
                assert(mp == finish_task(r.m, t.id, v));
                assert(mp.ready == r.m.ready);
                assert(mp.ready[i - 1] == m.ready[i]);
                assert(immediate(mp.ready[i - 1].comp));
                assert forall|j: int| 0 <= j < mp.parked.len() implies !awaits_task(
                    (#[trigger] mp.parked[j]).comp,
                    c,
                ) by {
                    assert(mp.parked[j] == m1.parked[j]);
                }
                law_immediate_completion(mp, (n - 1) as nat, i - 1);
            },
            None => {
                assert(mp.ready == r.m.ready);
                assert(mp.ready[i - 1] == m.ready[i]);
                assert forall|j: int| 0 <= j < mp.parked.len() implies !awaits_task(
                    (#[trigger] mp.parked[j]).comp,
                    c,
                ) by {
                    if j < r.m.parked.len() {
                        assert(mp.parked[j] == m1.parked[j]);
                    } else {
                        assert(mp.parked[j].comp == r.rewritten);
                        if awaits_task(r.rewritten, c) {
                            assert(awaits_task(t.comp, c));
                        }
                    }
                }
                law_immediate_completion(mp, (n - 1) as nat, i - 1);
            },
        }
    }
}

/// Nested spawn/join composition resolves within one resume loop: a task
/// that spawns a child computation and awaits its handle completes in the
/// same loop, with the child's value, and strictly after the child — the
/// in-loop draining of wake notifications hands the child's completion back
/// to the waiting parent without another `step`.
pub proof fn law_nested_spawn_join(m: Model, n: nat, inner: Computation)
    requires
        wf(m),
        m.wakes.len() == 0,
        m.parked.len() == 0,
        m.notify == Map::<u64, u64>::empty(),
        m.ready.len() == 1,
        m.ready[0].comp == Computation::SpawnJoin(Box::new(inner)),
        immediate(inner),
        m.next_id < u64::MAX,
        quiescent(run_steps(m, n)),
    ensures
        ({
            let a = m.ready[0].id;
            let b = m.next_id;
            let v = immediate_value(inner);
            &&& run_steps(m, n).completed.contains_key(a)
            &&& run_steps(m, n).completed[a] == v
            &&& !run_steps(m, n).completed.contains_key(b)
            &&& run_steps(m, n).log == m.log.push(b).push(a)
            &&& run_steps(m, n).ready.len() == 0
            &&& run_steps(m, n).parked.len() == 0
        }),
{
    let a = m.ready[0].id;
    let b = m.next_id;
    let v = immediate_value(inner);
    let c0 = Computation::SpawnJoin(Box::new(inner));
    assert(a < b);

    // First iteration: the parent spawns the child and parks on its handle.
    assert(drain_wakes(m) == m);
    let mpop = Model { ready: m.ready.drop_first(), ..m };
    assert(mpop.ready =~= Seq::<Task>::empty());
    let r0 = resume_spec(c0, a, mpop);
    assert(r0.done is None);
    assert(r0.rewritten == Computation::AwaitTask(b));
    let m1x = Model {
        next_id: (b + 1) as u64,
        ready: seq![Task { id: b, comp: inner }],
        parked: seq![Task { id: a, comp: Computation::AwaitTask(b) }],
        notify: m.notify.insert(b, a),
        ..m
    };
    assert(r0.m.ready =~= m1x.ready);
    assert(run_one(m) =~= m1x);
    assert(!quiescent(m1x));

    // Second iteration: the child completes at once; its completion
    // notification wakes the parent.
    assert(drain_wakes(m1x) == m1x);
    let m1p = Model { ready: m1x.ready.drop_first(), ..m1x };
    lemma_resume_immediate(inner, b, m1p);
    assert(m1x.notify.contains_key(b) && m1x.notify[b] == a);
    let m2x = Model {
        next_id: (b + 1) as u64,
        ready: Seq::<Task>::empty(),
        parked: seq![Task { id: a, comp: Computation::AwaitTask(b) }],
        wakes: seq![a],
        notify: m.notify.insert(b, a).remove(b),
        completed: m.completed.insert(b, v),
        log: m.log.push(b),
        ..m
    };
    assert(m1p.ready =~= m2x.ready);
    assert(m1p.wakes.push(a) =~= m2x.wakes);
    assert(run_one(m1x) =~= m2x);
    assert(!quiescent(m2x));

    // Third iteration: the drained wake returns the parent to the ready
    // queue; its await finds the child's value and takes it.
    let m2a = Model { wakes: m2x.wakes.drop_first(), ..m2x };
    assert(m2a.wakes =~= Seq::<u64>::empty());
    assert(parked_find(m2a.parked, a) == 0);
    let d = drain_match(m2a, a);
    assert(m2a.parked[0] == Task { id: a, comp: Computation::AwaitTask(b) });
    let dx = Model {
        parked: Seq::<Task>::empty(),
        ready: seq![Task { id: a, comp: Computation::AwaitTask(b) }],
        ..m2a
    };
    assert(m2a.parked.remove(0) =~= dx.parked);
    assert(m2a.ready.push(m2a.parked[0]) =~= dx.ready);
    assert(d =~= dx);
    assert(drain_wakes(m2x) == drain_wakes(d));
    assert(drain_wakes(dx) == dx);
    let m3p = Model { ready: dx.ready.drop_first(), ..dx };
    assert(m3p.completed.contains_key(b));
    assert(m3p.completed[b] == v);
    let r3 = resume_spec(Computation::AwaitTask(b), a, m3p);
    assert(r3.done == Some(v));
    assert(!m3p.notify.contains_key(a)) by {
        assert(!m.notify.contains_key(a));
    }
    let m3x = Model {
        next_id: (b + 1) as u64,
        ready: Seq::<Task>::empty(),
        parked: Seq::<Task>::empty(),
        wakes: Seq::<u64>::empty(),
        notify: m.notify.insert(b, a).remove(b),
        completed: m.completed.insert(b, v).remove(b).insert(a, v),
        log: m.log.push(b).push(a),
        ..m
    };
    assert(m3p.ready =~= m3x.ready);
    assert(run_one(m2x) =~= m3x);
    assert(quiescent(m3x));

    // The loop cannot have stopped earlier, and stays there afterwards.
    assert(n >= 3) by {
        if n == 0 {
            assert(run_steps(m, n) == m);
        } else if n == 1 {
            assert(run_steps(m, n) == run_steps(run_one(m), 0));
        } else if n == 2 {
            assert(run_steps(m, n) == run_steps(run_one(m), 1));
            assert(run_steps(m1x, 1) == run_steps(run_one(m1x), 0));
        }
    }
    assert(run_steps(m, n) == run_steps(m1x, (n - 1) as nat));
    assert(run_steps(m1x, (n - 1) as nat) == run_steps(m2x, (n - 2) as nat));
    assert(run_steps(m2x, (n - 2) as nat) == run_steps(m3x, (n - 3) as nat));
    lemma_quiescent_fix(m3x, (n - 3) as nat);
    assert(run_steps(m, n) == m3x);
    assert(m3x.completed.contains_key(a) && m3x.completed[a] == v);
    assert(!m3x.completed.contains_key(b)) by {
        assert(!m.completed.contains_key(b));
    }
}

/// The full `step` pipeline — advancing the clock, releasing timers, then
/// running the resume loop to quiescence — preserves well-formedness and,
/// when the timer registry is empty, neither of the first two phases
/// disturbs the queues.
pub proof fn lemma_step_phases(m: Model, dt: u64)
    requires
        wf(m),
    ensures
        wf(fire_timers(advance(m, dt))),
        fire_timers(advance(m, dt)).ready == m.ready,
        fire_timers(advance(m, dt)).parked == m.parked,
        fire_timers(advance(m, dt)).completed == m.completed,
        fire_timers(advance(m, dt)).notify == m.notify,
        fire_timers(advance(m, dt)).log == m.log,
        fire_timers(advance(m, dt)).next_id == m.next_id,
        m.timers.len() == 0 ==> fire_timers(advance(m, dt)).wakes == m.wakes,
{
    assert(wf(advance(m, dt)));
    crate::model::lemma_fire_timers_wf(advance(m, dt));
    if m.timers.len() == 0 {
        assert(fire_timers(advance(m, dt)) == advance(m, dt));
    }
}

/// A computation that completes without suspending is completed by a single
/// `step` of any size: in the state the step leaves behind, the task's
/// value sits in the completed table under the handle's id — provided no
/// other live computation awaits (and would consume) it — and the task
/// itself is gone from the scheduler's bookkeeping: the ready queue has
/// emptied and no parked task carries its id.
pub proof fn law_step_completes_immediate(m: Model, dt: u64, n: nat, i: int)
    requires
        wf(m),
        0 <= i < m.ready.len(),
        immediate(m.ready[i].comp),
        forall|j: int|
            0 <= j < m.ready.len() && j != i ==> !awaits_task(
                (#[trigger] m.ready[j]).comp,
                m.ready[i].id,
            ),
        forall|j: int|
            0 <= j < m.parked.len() ==> !awaits_task((#[trigger] m.parked[j]).comp, m.ready[i].id),
        quiescent(run_steps(fire_timers(advance(m, dt)), n)),
    ensures
        run_steps(fire_timers(advance(m, dt)), n).completed.contains_key(m.ready[i].id),
        run_steps(fire_timers(advance(m, dt)), n).completed[m.ready[i].id] == immediate_value(
            m.ready[i].comp,
        ),
        run_steps(fire_timers(advance(m, dt)), n).ready.len() == 0,
        forall|j: int|
            0 <= j < run_steps(fire_timers(advance(m, dt)), n).parked.len() ==> (
            #[trigger] run_steps(fire_timers(advance(m, dt)), n).parked[j]).id != m.ready[i].id,
{
    lemma_step_phases(m, dt);
    law_immediate_completion(fire_timers(advance(m, dt)), n, i);
    crate::model::lemma_run_steps_wf(fire_timers(advance(m, dt)), n);
    let fin = run_steps(fire_timers(advance(m, dt)), n);
    assert forall|j: int| 0 <= j < fin.parked.len() implies (#[trigger] fin.parked[j]).id
        != m.ready[i].id by {
        assert(!fin.completed.contains_key(fin.parked[j].id));
    }
}

/// First-in, first-out through a whole `step`: on a scheduler with no
/// pending timers, wakes or notification slots, one `step` of any size
/// completes a ready queue of non-suspending computations in exactly its
/// order, each with its own value.
pub proof fn law_step_fifo(m: Model, dt: u64, n: nat)
    requires
        wf(m),
        m.timers.len() == 0,
        m.wakes.len() == 0,
        m.notify == Map::<u64, u64>::empty(),
        forall|i: int| 0 <= i < m.ready.len() ==> immediate((#[trigger] m.ready[i]).comp),
        quiescent(run_steps(fire_timers(advance(m, dt)), n)),
    ensures
        run_steps(fire_timers(advance(m, dt)), n).log == m.log + task_ids(m.ready),
        forall|i: int|
            0 <= i < m.ready.len() ==> run_steps(fire_timers(advance(m, dt)), n)
                .completed.contains_key((#[trigger] m.ready[i]).id) && run_steps(
                fire_timers(advance(m, dt)),
                n,
            ).completed[m.ready[i].id] == immediate_value(m.ready[i].comp),
        run_steps(fire_timers(advance(m, dt)), n).ready.len() == 0,
        run_steps(fire_timers(advance(m, dt)), n).parked == m.parked,
{
    lemma_step_phases(m, dt);
    law_fifo_immediate(fire_timers(advance(m, dt)), n);
}

/// A parked delay through a whole `step`: a task parked on a deadline whose
/// timeout sits in the registry is released by the first step that brings
/// the clock to the deadline — the timeout leaves the registry, its wake
/// returns the task to the ready queue within the same call, and the task
/// resumes, observes the delay resolved and runs its continuation to
/// completion. A step that stops short of the deadline changes nothing but
/// the clock: the timeout stays registered and the task stays parked.
pub proof fn law_step_releases_due_delay(
    m: Model,
    dt: u64,
    n: nat,
    a: u64,
    dl: u64,
    k: Computation,
)
    requires
        wf(m),
        m.ready.len() == 0,
        m.wakes.len() == 0,
        m.notify == Map::<u64, u64>::empty(),
        m.parked == seq![Task { id: a, comp: Computation::WaitUntil(dl, Box::new(k)) }],
        m.timers == seq![Timeout { deadline: dl, task: a }],
        immediate(k),
        quiescent(run_steps(fire_timers(advance(m, dt)), n)),
    ensures
        ({
            let fin = run_steps(fire_timers(advance(m, dt)), n);
            let now2 = crate::sat_add_spec(m.now, dt);
            &&& (dl <= now2 ==> fin.completed.contains_key(a) && fin.completed[a]
                == immediate_value(k) && fin.timers.len() == 0 && fin.parked.len() == 0
                && fin.log == m.log.push(a))
            &&& (dl > now2 ==> fin == advance(m, dt))
        }),
{
    let now2 = crate::sat_add_spec(m.now, dt);
    let ma = advance(m, dt);
    let task = Task { id: a, comp: Computation::WaitUntil(dl, Box::new(k)) };
    if dl <= now2 {
        // The timeout fires: its wake notification is queued and the
        // registry empties.
        let m1 = Model { timers: ma.timers.drop_first(), wakes: ma.wakes.push(a), ..ma };
        assert(m1.timers =~= Seq::<Timeout>::empty());
        assert(fire_timers(m1) == m1);
        assert(fire_timers(ma) == m1);
        assert(!quiescent(m1));

        // The drain returns the parked task to the ready queue.
        let m1a = Model { wakes: m1.wakes.drop_first(), ..m1 };
        assert(m1a.wakes =~= Seq::<u64>::empty());
        assert(m1.wakes[0] == a);
        assert(m1a.parked[0] == task);
        assert(parked_find(m1a.parked, a) == 0);
        let d = drain_match(m1a, a);
        let dx = Model { parked: Seq::<Task>::empty(), ready: seq![task], ..m1a };
        assert(m1a.parked.remove(0) =~= dx.parked);
        assert(m1a.ready.push(m1a.parked[0]) =~= dx.ready);
        assert(d =~= dx);
        assert(drain_wakes(m1) == drain_wakes(d));
        assert(drain_wakes(dx) == dx);

        // The task resumes, sees the deadline reached, and completes.
        let m2 = Model { ready: dx.ready.drop_first(), ..dx };
        assert(m2.ready =~= Seq::<Task>::empty());
        lemma_resume_immediate(k, a, m2);
        let v = immediate_value(k);
        assert(resume_spec(task.comp, a, m2) == resume_spec(k, a, m2));
        assert(!m2.notify.contains_key(a)) by {
            assert(!m.notify.contains_key(a));
        }
        let m3 = finish_task(m2, a, v);
        assert(run_one(m1) == m3);
        assert(quiescent(m3));

        assert(n >= 1) by {
            if n == 0 {
                assert(run_steps(fire_timers(ma), n) == m1);
            }
        }
        assert(run_steps(fire_timers(ma), n) == run_steps(m3, (n - 1) as nat));
        lemma_quiescent_fix(m3, (n - 1) as nat);
        assert(m3.timers =~= Seq::<Timeout>::empty());
        assert(m3.parked =~= Seq::<Task>::empty());
    } else {
        // Not yet due: the release loop leaves the registry alone and the
        // resume loop finds nothing ready.
        assert(fire_timers(ma) == ma);
        assert(quiescent(ma));
        lemma_quiescent_fix(ma, n);
    }
}

/// A parked race of two delays through a whole `step`: the race resolves on
/// the first step that brings the clock to the earlier deadline, and on no
/// earlier step. While the later deadline is still in the future its record
/// lingers in the registry as harmless garbage; once it too fires, its wake
/// finds no parked task and is dropped silently.
pub proof fn law_step_resolves_due_race(
    m: Model,
    dt: u64,
    n: nat,
    a: u64,
    dl1: u64,
    dl2: u64,
    k: Computation,
)
    requires
        wf(m),
        m.ready.len() == 0,
        m.wakes.len() == 0,
        m.notify == Map::<u64, u64>::empty(),
        m.parked == seq![Task { id: a, comp: Computation::RaceUntil(dl1, dl2, Box::new(k)) }],
        m.timers == seq![Timeout { deadline: dl1, task: a }, Timeout { deadline: dl2, task: a }],
        immediate(k),
        quiescent(run_steps(fire_timers(advance(m, dt)), n)),
    ensures
        ({
            let fin = run_steps(fire_timers(advance(m, dt)), n);
            let now2 = crate::sat_add_spec(m.now, dt);
            &&& (now2 < dl1 ==> fin == advance(m, dt))
            &&& (dl1 <= now2 ==> fin.completed.contains_key(a) && fin.completed[a]
                == immediate_value(k) && fin.parked.len() == 0 && fin.log == m.log.push(a))
            &&& (dl1 <= now2 && now2 < dl2 ==> fin.timers == seq![
                Timeout { deadline: dl2, task: a },
            ])
            &&& (dl2 <= now2 ==> fin.timers.len() == 0)
        }),
{
    let now2 = crate::sat_add_spec(m.now, dt);
    let ma = advance(m, dt);
    let task = Task { id: a, comp: Computation::RaceUntil(dl1, dl2, Box::new(k)) };
    assert(dl1 <= dl2) by {
        assert(m.timers[0].deadline <= m.timers[1].deadline);
    }
    if now2 < dl1 {
        // Neither deadline reached: nothing fires, nothing is ready.
        assert(fire_timers(ma) == ma);
        assert(quiescent(ma));
        lemma_quiescent_fix(ma, n);
    } else {
        // The earlier deadline fires; the later one fires too once due.
        let m1 = Model { timers: ma.timers.drop_first(), wakes: ma.wakes.push(a), ..ma };
        assert(m1.timers =~= seq![Timeout { deadline: dl2, task: a }]);
        let mf = if dl2 <= now2 {
            Model { timers: m1.timers.drop_first(), wakes: m1.wakes.push(a), ..m1 }
        } else {
            m1
        };
        if dl2 <= now2 {
            assert(mf.timers =~= Seq::<Timeout>::empty());
            assert(fire_timers(mf) == mf);
            assert(fire_timers(ma) == fire_timers(m1));
            assert(m1.timers[0] == Timeout { deadline: dl2, task: a });
            assert(fire_timers(m1) == fire_timers(mf));
            assert(fire_timers(ma) == mf);
        } else {
            assert(fire_timers(m1) == m1);
            assert(fire_timers(ma) == m1);
        }
        assert(!quiescent(mf));

        // The first drained wake returns the racing task to the ready queue.
        let mfa = Model { wakes: mf.wakes.drop_first(), ..mf };
        assert(mf.wakes[0] == a);
        assert(mfa.parked[0] == task);
        assert(parked_find(mfa.parked, a) == 0);
        let dx = Model { parked: Seq::<Task>::empty(), ready: seq![task], ..mfa };
        assert(mfa.parked.remove(0) =~= dx.parked);
        assert(mfa.ready.push(mfa.parked[0]) =~= dx.ready);
        assert(drain_match(mfa, a) =~= dx);
        // A second wake, if the later deadline also fired, finds no parked
        // task and is dropped.
        let dfinal = if dl2 <= now2 {
            Model { wakes: dx.wakes.drop_first(), ..dx }
        } else {
            dx
        };
        if dl2 <= now2 {
            assert(dx.wakes =~= seq![a]);
            assert(dx.wakes[0] == a);
            assert(parked_find(dfinal.parked, a) == -1);
            assert(drain_match(dfinal, a) == dfinal);
            assert(dfinal.wakes =~= Seq::<u64>::empty());
            assert(drain_wakes(dfinal) == dfinal);
            assert(mf.wakes[0] == a);
            assert(drain_wakes(mf) == drain_wakes(dx));
            assert(drain_wakes(dx) == drain_wakes(dfinal));
            assert(drain_wakes(mf) == dfinal);
        } else {
            assert(dx.wakes =~= Seq::<u64>::empty());
            assert(drain_wakes(dx) == dx);
            assert(drain_wakes(mf) == dx);
        }
        assert(dfinal.ready == seq![task]);

        // The task resumes, sees the race resolved, and completes.
        let m2 = Model { ready: dfinal.ready.drop_first(), ..dfinal };
        assert(m2.ready =~= Seq::<Task>::empty());
        lemma_resume_immediate(k, a, m2);
        let v = immediate_value(k);
        assert(resume_spec(task.comp, a, m2) == resume_spec(k, a, m2));
        assert(!m2.notify.contains_key(a)) by {
            assert(!m.notify.contains_key(a));
        }
        let m3 = finish_task(m2, a, v);
        assert(run_one(mf) == m3);
        assert(quiescent(m3));

        assert(n >= 1) by {
            if n == 0 {
                assert(run_steps(fire_timers(ma), n) == mf);
            }
        }
        assert(run_steps(fire_timers(ma), n) == run_steps(m3, (n - 1) as nat));
        lemma_quiescent_fix(m3, (n - 1) as nat);
        assert(m3.parked =~= Seq::<Task>::empty());
        if dl2 <= now2 {
            assert(m3.timers =~= Seq::<Timeout>::empty());
        } else {
            assert(m3.timers =~= seq![Timeout { deadline: dl2, task: a }]);
        }
    }
}

/// Nested spawn/join through a whole `step`: on a scheduler whose only work
/// is one task that spawns a child and awaits it, a single `step` completes
/// the parent with the child's value, the child strictly first.
pub proof fn law_step_nested_spawn_join(m: Model, dt: u64, n: nat, inner: Computation)
    requires
        wf(m),
        m.timers.len() == 0,
        m.wakes.len() == 0,
        m.parked.len() == 0,
        m.notify == Map::<u64, u64>::empty(),
        m.ready.len() == 1,
        m.ready[0].comp == Computation::SpawnJoin(Box::new(inner)),
        immediate(inner),
        m.next_id < u64::MAX,
        quiescent(run_steps(fire_timers(advance(m, dt)), n)),
    ensures
        ({
            let fin = run_steps(fire_timers(advance(m, dt)), n);
            &&& fin.completed.contains_key(m.ready[0].id)
            &&& fin.completed[m.ready[0].id] == immediate_value(inner)
            &&& !fin.completed.contains_key(m.next_id)
            &&& fin.log == m.log.push(m.next_id).push(m.ready[0].id)
            &&& fin.ready.len() == 0
            &&& fin.parked.len() == 0
        }),
{
    lemma_step_phases(m, dt);
    law_nested_spawn_join(fire_timers(advance(m, dt)), n, inner);
}

} // verus!
